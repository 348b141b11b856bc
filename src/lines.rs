//! The line model: a byte buffer read as a sequence of `\n`-delimited lines.

use vstd::prelude::*;

verus! {

/// The line delimiter.
pub const NEWLINE: u8 = 10;

/// Reads `s` from left to right: the lines completed by a delimiter so far,
/// and the bytes of the line that is still open.
pub open spec fn scan(s: Seq<u8>) -> (Seq<Seq<u8>>, Seq<u8>)
    decreases s.len(),
{
    if s.len() == 0 {
        (Seq::empty(), Seq::empty())
    } else {
        let prev = scan(s.drop_last());
        if s.last() == NEWLINE {
            (prev.0.push(prev.1), Seq::empty())
        } else {
            (prev.0, prev.1.push(s.last()))
        }
    }
}

/// The lines of a buffer. A final line without a delimiter is still a line;
/// an empty buffer has no lines.
pub open spec fn lines_of(s: Seq<u8>) -> Seq<Seq<u8>> {
    let r = scan(s);
    if r.1.len() == 0 {
        r.0
    } else {
        r.0.push(r.1)
    }
}

/// Each line followed by a delimiter, one after the other.
pub open spec fn join_lines(ls: Seq<Seq<u8>>) -> Seq<u8>
    decreases ls.len(),
{
    if ls.len() == 0 {
        Seq::empty()
    } else {
        join_lines(ls.drop_last()) + ls.last().push(NEWLINE)
    }
}

/// `s` ends at a line boundary: it is empty or its last byte is a delimiter.
pub open spec fn ends_at_boundary(s: Seq<u8>) -> bool {
    s.len() == 0 || s.last() == NEWLINE
}

/// No line of `ls` holds a delimiter.
pub open spec fn delimiter_free(ls: Seq<Seq<u8>>) -> bool {
    forall|i: int| 0 <= i < ls.len() ==> !(#[trigger] ls[i]).contains(NEWLINE)
}

/// A buffer that ends at a line boundary has no open line.
pub proof fn lemma_boundary_closes(s: Seq<u8>)
    requires
        ends_at_boundary(s),
    ensures
        scan(s).1.len() == 0,
        lines_of(s) == scan(s).0,
{
}

/// Appending bytes without a delimiter only extends the open line.
pub proof fn lemma_scan_extend(s: Seq<u8>, t: Seq<u8>)
    requires
        !t.contains(NEWLINE),
    ensures
        scan(s + t) == (scan(s).0, scan(s).1 + t),
    decreases t.len(),
{
    if t.len() == 0 {
        assert(s + t =~= s);
        assert(scan(s).1 + t =~= scan(s).1);
    } else {
        let t0 = t.drop_last();
        assert(!t0.contains(NEWLINE)) by {
            if t0.contains(NEWLINE) {
                let k = choose|k: int| 0 <= k < t0.len() && t0[k] == NEWLINE;
                assert(t[k] == NEWLINE);
            }
        }
        lemma_scan_extend(s, t0);
        assert((s + t).drop_last() =~= s + t0);
        assert(t[t.len() - 1] != NEWLINE) by {
            if t[t.len() - 1] == NEWLINE {
                assert(t.contains(NEWLINE));
            }
        }
        assert((scan(s).1 + t0).push(t.last()) =~= scan(s).1 + t);
    }
}

/// Scanning a buffer that ends at a line boundary, then another, is scanning
/// the second after the lines of the first.
pub proof fn lemma_scan_concat(a: Seq<u8>, b: Seq<u8>)
    requires
        scan(a).1.len() == 0,
    ensures
        scan(a + b) == (scan(a).0 + scan(b).0, scan(b).1),
    decreases b.len(),
{
    if b.len() == 0 {
        assert(a + b =~= a);
        assert(scan(a).0 + scan(b).0 =~= scan(a).0);
        assert(scan(a).1 =~= scan(b).1);
    } else {
        let b0 = b.drop_last();
        lemma_scan_concat(a, b0);
        assert((a + b).drop_last() =~= a + b0);
        assert((a + b).last() == b.last());
        assert((scan(a).0 + scan(b0).0).push(scan(b0).1) =~= scan(a).0 + scan(b0).0.push(
            scan(b0).1,
        ));
    }
}

/// Lines are not split by a cut at a line boundary.
pub proof fn lemma_lines_concat(a: Seq<u8>, b: Seq<u8>)
    requires
        ends_at_boundary(a),
    ensures
        lines_of(a + b) == lines_of(a) + lines_of(b),
{
    lemma_boundary_closes(a);
    lemma_scan_concat(a, b);
    let sb = scan(b);
    if sb.1.len() != 0 {
        assert((scan(a).0 + sb.0).push(sb.1) =~= scan(a).0 + sb.0.push(sb.1));
    }
}

/// Joined lines scan back into the same lines, with no open line.
pub proof fn lemma_scan_join(ls: Seq<Seq<u8>>)
    requires
        delimiter_free(ls),
    ensures
        scan(join_lines(ls)) == (ls, Seq::<u8>::empty()),
    decreases ls.len(),
{
    if ls.len() == 0 {
        assert(ls =~= Seq::<Seq<u8>>::empty());
    } else {
        let init = ls.drop_last();
        let l = ls.last();
        assert(delimiter_free(init)) by {
            assert forall|i: int| 0 <= i < init.len() implies !(#[trigger] init[i]).contains(
                NEWLINE,
            ) by {
                assert(init[i] == ls[i]);
            }
        }
        lemma_scan_join(init);
        assert(!l.contains(NEWLINE)) by {
            assert(ls[ls.len() - 1] == l);
        }
        let j = join_lines(init);
        lemma_scan_extend(j, l);
        assert(Seq::<u8>::empty() + l =~= l);
        let whole = j + l.push(NEWLINE);
        assert(whole.drop_last() =~= j + l);
        assert(whole.last() == NEWLINE);
        assert(init.push(l) =~= ls);
    }
}

/// Reading joined lines gives the same lines back.
pub proof fn lemma_lines_of_join(ls: Seq<Seq<u8>>)
    requires
        delimiter_free(ls),
    ensures
        lines_of(join_lines(ls)) == ls,
        ends_at_boundary(join_lines(ls)),
{
    lemma_scan_join(ls);
    if ls.len() > 0 {
        assert(join_lines(ls).last() == NEWLINE);
    }
}

/// Joining distributes over concatenation of line sequences.
pub proof fn lemma_join_concat(a: Seq<Seq<u8>>, b: Seq<Seq<u8>>)
    ensures
        join_lines(a + b) == join_lines(a) + join_lines(b),
    decreases b.len(),
{
    if b.len() == 0 {
        assert(a + b =~= a);
        assert(join_lines(a) + join_lines(b) =~= join_lines(a));
    } else {
        lemma_join_concat(a, b.drop_last());
        assert((a + b).drop_last() =~= a + b.drop_last());
        assert((a + b).last() == b.last());
        assert(join_lines(a) + join_lines(b.drop_last()) + b.last().push(NEWLINE) =~= join_lines(
            a,
        ) + (join_lines(b.drop_last()) + b.last().push(NEWLINE)));
    }
}

/// The lines that a scan produces hold no delimiter.
pub proof fn lemma_scan_delimiter_free(s: Seq<u8>)
    ensures
        delimiter_free(scan(s).0),
        !scan(s).1.contains(NEWLINE),
    decreases s.len(),
{
    if s.len() > 0 {
        let prev = scan(s.drop_last());
        lemma_scan_delimiter_free(s.drop_last());
        if s.last() == NEWLINE {
            assert forall|i: int| 0 <= i < prev.0.push(prev.1).len() implies !(#[trigger] prev.0.push(
                prev.1,
            )[i]).contains(NEWLINE) by {
                if i < prev.0.len() {
                    assert(prev.0.push(prev.1)[i] == prev.0[i]);
                }
            }
        } else {
            let o = prev.1.push(s.last());
            assert(!o.contains(NEWLINE)) by {
                if o.contains(NEWLINE) {
                    let k = choose|k: int| 0 <= k < o.len() && o[k] == NEWLINE;
                    if k < prev.1.len() {
                        assert(prev.1[k] == NEWLINE);
                    }
                }
            }
        }
    }
}

/// No line of a buffer holds a delimiter.
pub proof fn lemma_lines_delimiter_free(s: Seq<u8>)
    ensures
        delimiter_free(lines_of(s)),
{
    lemma_scan_delimiter_free(s);
    let r = scan(s);
    if r.1.len() != 0 {
        assert forall|i: int| 0 <= i < r.0.push(r.1).len() implies !(#[trigger] r.0.push(
            r.1,
        )[i]).contains(NEWLINE) by {
            if i < r.0.len() {
                assert(r.0.push(r.1)[i] == r.0[i]);
            }
        }
    }
}

/// The number of occurrences of `b` in `s`.
pub open spec fn occurrences(s: Seq<u8>, b: u8) -> nat
    decreases s.len(),
{
    if s.len() == 0 {
        0
    } else {
        occurrences(s.drop_last(), b) + if s.last() == b {
            1nat
        } else {
            0nat
        }
    }
}

/// Relies on bytecount::count: the number of occurrences of `needle` in
/// `haystack`.
#[verifier::external_body]
pub(crate) fn count_byte(haystack: &[u8], needle: u8) -> (r: usize)
    ensures
        r == occurrences(haystack@, needle),
{
    bytecount::count(haystack, needle)
}

/// Relies on memchr::memchr: the index of the first occurrence of `needle`
/// in `haystack`, or `None` when it does not occur.
#[verifier::external_body]
fn find_byte(needle: u8, haystack: &[u8]) -> (r: Option<usize>)
    ensures
        match r {
            Some(i) => {
                &&& i < haystack@.len()
                &&& haystack@[i as int] == needle
                &&& forall|j: int| 0 <= j < i ==> haystack@[j] != needle
            },
            None => forall|j: int| 0 <= j < haystack@.len() ==> haystack@[j] != needle,
        },
{
    memchr::memchr(needle, haystack)
}

/// The line of `data` that starts at `start`: returns where it ends (its
/// delimiter, or the end of the buffer) and where the next line starts.
pub fn next_line(data: &[u8], start: usize) -> (r: (usize, usize))
    requires
        start < data@.len(),
        scan(data@.take(start as int)).1.len() == 0,
    ensures
        start <= r.0 <= data@.len(),
        start < r.1 <= data@.len(),
        lines_of(data@.take(r.1 as int)) == lines_of(data@.take(start as int)).push(
            data@.subrange(start as int, r.0 as int),
        ),
        r.1 < data@.len() ==> scan(data@.take(r.1 as int)).1.len() == 0,
{
    let rest = vstd::slice::slice_subrange(data, start, data.len());
    let found = find_byte(NEWLINE, rest);
    let ghost pre = data@.take(start as int);
    match found {
        Some(i) => {
            let end = start + i;
            proof {
                let line = data@.subrange(start as int, end as int);
                assert(!line.contains(NEWLINE)) by {
                    if line.contains(NEWLINE) {
                        let k = choose|k: int| 0 <= k < line.len() && line[k] == NEWLINE;
                        assert(rest@[k] == NEWLINE);
                    }
                }
                lemma_scan_extend(pre, line);
                assert(pre + line =~= data@.take(end as int));
                assert(Seq::<u8>::empty() + line =~= line);
                let upto = data@.take(end as int + 1);
                assert(upto.drop_last() =~= data@.take(end as int));
                assert(upto.last() == NEWLINE);
            }
            (end, end + 1)
        },
        None => {
            let end = data.len();
            proof {
                let line = data@.subrange(start as int, end as int);
                assert(line =~= rest@);
                assert(!line.contains(NEWLINE)) by {
                    if line.contains(NEWLINE) {
                        let k = choose|k: int| 0 <= k < line.len() && line[k] == NEWLINE;
                        assert(rest@[k] == NEWLINE);
                    }
                }
                lemma_scan_extend(pre, line);
                assert(pre + line =~= data@.take(end as int));
                assert(Seq::<u8>::empty() + line =~= line);
            }
            (end, end)
        },
    }
}

} // verus!
