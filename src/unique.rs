//! Unique lines: the distinct lines of a buffer, in first-seen order.

use vstd::prelude::*;
use ahash::RandomState;
use indexmap::IndexSet;
use crate::lines::{
    NEWLINE, scan, lines_of, join_lines, ends_at_boundary, count_byte, next_line,
    lemma_lines_concat, delimiter_free, lemma_lines_delimiter_free, lemma_lines_of_join,
};
use crate::bucket::{bucket, bucket_lines, partition_of, lemma_in_bucket, lemma_partition_lines, lemma_single_partition};
use crate::sets::{ordered_set_contents, new_ordered_set, ordered_set_insert};

verus! {

/// Each distinct line of `ls` once, in the order of its first occurrence.
pub open spec fn first_seen(ls: Seq<Seq<u8>>) -> Seq<Seq<u8>>
    decreases ls.len(),
{
    if ls.len() == 0 {
        Seq::empty()
    } else {
        let prev = first_seen(ls.drop_last());
        if prev.contains(ls.last()) {
            prev
        } else {
            prev.push(ls.last())
        }
    }
}

/// The unique lines of `data`: each distinct line once, with its delimiter,
/// in first-seen order.
pub open spec fn unique_of(data: Seq<u8>) -> Seq<u8> {
    join_lines(first_seen(lines_of(data)))
}

/// Walks the lines of one buffer and hands out each distinct line once, in
/// batches, so that the caller can write each batch out before the next.
pub struct UniqueLines<'a> {
    data: &'a [u8],
    set: IndexSet<&'a [u8], RandomState>,
    pos: usize,
}

impl<'a> UniqueLines<'a> {
    /// The buffer being walked.
    pub closed spec fn buffer(&self) -> Seq<u8> {
        self.data@
    }

    /// The lines walked so far.
    pub closed spec fn scanned(&self) -> Seq<Seq<u8>> {
        lines_of(self.data@.take(self.pos as int))
    }

    /// The number of bytes not walked yet.
    pub closed spec fn remaining(&self) -> nat {
        (self.data@.len() - self.pos) as nat
    }

    /// Every line has been walked.
    pub closed spec fn done(&self) -> bool {
        self.pos >= self.data@.len()
    }

    /// The walk position is at a line boundary and the set holds the
    /// distinct lines walked so far, in first-seen order.
    pub closed spec fn wf(&self) -> bool {
        &&& self.pos <= self.data@.len()
        &&& self.pos < self.data@.len() ==> scan(self.data@.take(self.pos as int)).1.len() == 0
        &&& ordered_set_contents(self.set) == first_seen(self.scanned())
    }

    /// Starts a walk over the lines of `data`.
    pub fn new(data: &'a [u8]) -> (r: Self)
        ensures
            r.wf(),
            r.buffer() == data@,
            r.scanned() == Seq::<Seq<u8>>::empty(),
    {
        let capacity = count_byte(data, NEWLINE);
        let set = new_ordered_set(capacity, RandomState::new());
        let r = UniqueLines { data, set, pos: 0 };
        assert(data@.take(0) =~= Seq::<u8>::empty());
        r
    }

    /// Whether every line has been walked.
    pub fn is_done(&self) -> (r: bool)
        requires
            self.wf(),
        ensures
            r == self.done(),
            r ==> self.scanned() == lines_of(self.buffer()),
    {
        proof {
            if self.done() {
                assert(self.data@.take(self.pos as int) =~= self.data@);
            }
        }
        self.pos >= self.data.len()
    }

    /// Walks on until `out` holds at least `limit` bytes or the buffer is
    /// done, walking at least one line if any is left, and appends to `out`
    /// each line not seen before, with its delimiter.
    pub fn next_batch(&mut self, out: &mut Vec<u8>, limit: usize)
        requires
            old(self).wf(),
        ensures
            final(self).wf(),
            final(self).buffer() == old(self).buffer(),
            first_seen(old(self).scanned()).len() <= first_seen(final(self).scanned()).len(),
            first_seen(final(self).scanned()).take(first_seen(old(self).scanned()).len() as int)
                == first_seen(old(self).scanned()),
            final(out)@ == old(out)@ + join_lines(
                first_seen(final(self).scanned()).skip(first_seen(old(self).scanned()).len() as int),
            ),
            final(self).done() || final(out)@.len() >= limit,
            !old(self).done() ==> final(self).remaining() < old(self).remaining(),
            final(self).done() ==> final(self).scanned() == lines_of(final(self).buffer()),
    {
        let ghost out0 = out@;
        let ghost n0 = first_seen(self.scanned()).len();
        proof {
            assert(first_seen(self.scanned()).skip(n0 as int) =~= Seq::<Seq<u8>>::empty());
            assert(first_seen(self.scanned()).take(n0 as int) =~= first_seen(self.scanned()));
            assert(out0 + join_lines(Seq::<Seq<u8>>::empty()) =~= out0);
        }
        let ghost fs0 = first_seen(self.scanned());
        let ghost pos0 = self.pos;
        let data = self.data;
        while self.pos < data.len()
            invariant
                self.data == data,
                self.wf(),
                pos0 <= self.pos,
                n0 == fs0.len(),
                n0 <= first_seen(self.scanned()).len(),
                first_seen(self.scanned()).take(n0 as int) == fs0,
                out@ == out0 + join_lines(first_seen(self.scanned()).skip(n0 as int)),
            ensures
                self.done() || (out@.len() >= limit && self.pos > pos0),
            decreases data@.len() - self.pos,
        {
            let ghost prev = self.scanned();
            let (end, next) = next_line(data, self.pos);
            let line = vstd::slice::slice_subrange(data, self.pos, end);
            let ghost before = out@;
            let fresh = ordered_set_insert(&mut self.set, line);
            if fresh {
                out.extend_from_slice(line);
                out.push(NEWLINE);
            }
            self.pos = next;
            proof {
                let fs = first_seen(prev);
                assert(prev.push(line@).drop_last() =~= prev);
                assert(self.scanned() == prev.push(line@));
                if fresh {
                    assert(fs.push(line@).take(n0 as int) =~= fs.take(n0 as int));
                    assert(fs.push(line@).skip(n0 as int) =~= fs.skip(n0 as int).push(line@));
                    assert(fs.skip(n0 as int).push(line@).drop_last() =~= fs.skip(n0 as int));
                    assert(before + line@ + seq![NEWLINE] =~= out0 + (join_lines(
                        fs.skip(n0 as int),
                    ) + line@.push(NEWLINE)));
                }
            }
            if out.len() >= limit {
                break;
            }
        }
        proof {
            if self.done() {
                assert(self.data@.take(self.pos as int) =~= self.data@);
            }
        }
    }
}

/// The unique lines of `data`, held whole in memory.
pub fn unique_lines(data: &[u8]) -> (r: Vec<u8>)
    ensures
        r@ == unique_of(data@),
{
    let mut walk = UniqueLines::new(data);
    let mut out: Vec<u8> = Vec::new();
    proof {
        reveal_with_fuel(first_seen, 1);
        assert(first_seen(walk.scanned()).skip(0) =~= first_seen(walk.scanned()));
    }
    while !walk.is_done()
        invariant
            walk.wf(),
            walk.buffer() == data@,
            out@ == join_lines(first_seen(walk.scanned())),
        decreases walk.remaining(),
    {
        let ghost before = out@;
        let ghost fs0 = first_seen(walk.scanned());
        walk.next_batch(&mut out, usize::MAX);
        proof {
            let fs1 = first_seen(walk.scanned());
            assert(fs1 =~= fs1.take(fs0.len() as int) + fs1.skip(fs0.len() as int));
            crate::lines::lemma_join_concat(fs0, fs1.skip(fs0.len() as int));
        }
    }
    out
}

/// Appends one segment to a buffer of segments, with a delimiter before it
/// where the buffer ends inside a line, so that lines of two segments never
/// merge.
pub fn append_segment(buf: &mut Vec<u8>, segment: &[u8])
    ensures
        final(buf)@ == if ends_at_boundary(old(buf)@) {
            old(buf)@ + segment@
        } else {
            old(buf)@.push(NEWLINE) + segment@
        },
        lines_of(final(buf)@) == lines_of(old(buf)@) + lines_of(segment@),
{
    let ghost b0 = buf@;
    if buf.len() > 0 && buf[buf.len() - 1] != NEWLINE {
        buf.push(NEWLINE);
        proof {
            let b1 = b0.push(NEWLINE);
            assert(b1.drop_last() =~= b0);
            assert(b0.last() != NEWLINE);
            assert(scan(b0).1.len() > 0);
            assert(lines_of(b1) == lines_of(b0));
            assert(ends_at_boundary(b1));
        }
    }
    let ghost b1 = buf@;
    assert(ends_at_boundary(b1));
    assert(lines_of(b1) == lines_of(b0));
    buf.extend_from_slice(segment);
    proof {
        assert(buf@ =~= b1 + segment@);
        lemma_lines_concat(b1, segment@);
    }
}

/// The first-seen lines of `ls` hold no line twice, hold exactly the lines
/// of `ls`, and are no more than the lines of `ls`.
pub proof fn lemma_first_seen_correct(ls: Seq<Seq<u8>>)
    ensures
        first_seen(ls).no_duplicates(),
        forall|l: Seq<u8>| #[trigger] first_seen(ls).contains(l) <==> ls.contains(l),
        first_seen(ls).len() <= ls.len(),
    decreases ls.len(),
{
    if ls.len() > 0 {
        let init = ls.drop_last();
        let x = ls.last();
        lemma_first_seen_correct(init);
        let p = first_seen(init);
        assert(init.push(x) =~= ls);
        assert forall|l: Seq<u8>| #[trigger] first_seen(ls).contains(l) <==> ls.contains(l) by {
            if ls.contains(l) && l != x {
                let j = choose|j: int| 0 <= j < ls.len() && ls[j] == l;
                assert(init[j] == l);
            }
            if init.contains(l) {
                let j = choose|j: int| 0 <= j < init.len() && init[j] == l;
                assert(ls[j] == l);
            }
            if !p.contains(x) && first_seen(ls).contains(l) && l != x {
                let j = choose|j: int| 0 <= j < p.push(x).len() && p.push(x)[j] == l;
                assert(p[j] == l);
            }
            assert(ls[ls.len() - 1] == x);
            if !p.contains(x) {
                assert(p.push(x)[p.len() as int] == x);
            }
            if p.contains(l) && !p.contains(x) {
                let j = choose|j: int| 0 <= j < p.len() && p[j] == l;
                assert(p.push(x)[j] == l);
            }
        }
    }
}

/// The lines of the unique lines of `data` are the first-seen lines of
/// `data`: each distinct line of `data` exactly once.
pub proof fn lemma_unique_correct(data: Seq<u8>)
    ensures
        lines_of(unique_of(data)) == first_seen(lines_of(data)),
        lines_of(unique_of(data)).no_duplicates(),
        forall|l: Seq<u8>| #[trigger] lines_of(unique_of(data)).contains(l) <==> lines_of(data).contains(l),
        lines_of(unique_of(data)).len() <= lines_of(data).len(),
{
    let ls = lines_of(data);
    let fs = first_seen(ls);
    lemma_first_seen_correct(ls);
    lemma_lines_delimiter_free(data);
    assert(delimiter_free(fs)) by {
        assert forall|i: int| 0 <= i < fs.len() implies !(#[trigger] fs[i]).contains(NEWLINE) by {
            assert(fs.contains(fs[i]));
            let j = choose|j: int| 0 <= j < ls.len() && ls[j] == fs[i];
        }
    }
    lemma_lines_of_join(fs);
}

/// Keeping one bucket and taking the first-seen lines commute.
pub proof fn lemma_first_seen_by_bucket(ls: Seq<Seq<u8>>, num_parts: nat, k: nat)
    ensures
        first_seen(bucket_lines(ls, num_parts, k)) == bucket_lines(first_seen(ls), num_parts, k),
    decreases ls.len(),
{
    let pb = |l: Seq<u8>| bucket(l, num_parts) == k;
    if ls.len() == 0 {
        reveal(Seq::filter);
    } else {
        let init = ls.drop_last();
        let x = ls.last();
        assert(init.push(x) =~= ls);
        lemma_first_seen_by_bucket(init, num_parts, k);
        init.lemma_filter_push(x, pb);
        let p = first_seen(init);
        p.lemma_filter_push(x, pb);
        assert(init.filter(pb).push(x).drop_last() =~= init.filter(pb));
        lemma_in_bucket(p, num_parts, k, x);
    }
}

/// Collecting the unique lines of partition `k` of a buffer gives the lines
/// of bucket `k` of the unique lines of the whole buffer, in the same order.
pub proof fn lemma_unique_by_bucket(data: Seq<u8>, num_parts: nat, k: nat)
    ensures
        unique_of(partition_of(data, num_parts, k)) == join_lines(
            bucket_lines(first_seen(lines_of(data)), num_parts, k),
        ),
{
    lemma_partition_lines(data, num_parts, k);
    lemma_first_seen_by_bucket(lines_of(data), num_parts, k);
}

/// With a single bucket, collecting the unique lines of the one partition
/// gives the unique lines of the whole buffer.
pub proof fn lemma_unique_single_bucket(data: Seq<u8>)
    ensures
        unique_of(partition_of(data, 1, 0)) == unique_of(data),
{
    lemma_single_partition(data);
}

} // verus!
