//! Added lines: the lines of a second buffer that a first one lacks.

use vstd::prelude::*;
use ahash::AHashSet;
use crate::lines::{ends_at_boundary, lemma_lines_concat, lemma_join_concat, NEWLINE, scan, lines_of, join_lines, count_byte, next_line, delimiter_free, lemma_lines_delimiter_free, lemma_lines_of_join};
use crate::bucket::{bucket, bucket_lines, partition_of, lemma_in_bucket, lemma_partition_lines, lemma_single_partition};
use crate::sets::{line_set_contents, new_line_set, line_set_insert, line_set_contains};

verus! {

/// The lines of `ls` that are not in `excluded`, in order and with their
/// repetitions.
pub open spec fn missing_lines(ls: Seq<Seq<u8>>, excluded: Set<Seq<u8>>) -> Seq<Seq<u8>> {
    ls.filter(|l: Seq<u8>| !excluded.contains(l))
}

/// The added lines of `first` and `second`: each line of `second` that is no
/// line of `first`, with its delimiter, in the order of `second`.
pub open spec fn added_of(first: Seq<u8>, second: Seq<u8>) -> Seq<u8> {
    join_lines(missing_lines(lines_of(second), lines_of(first).to_set()))
}

/// The lines of a first buffer, held as borrowed slices, against which the
/// lines of a second buffer are filtered.
pub struct AddedFilter<'a> {
    set: AHashSet<&'a [u8]>,
}

impl<'a> AddedFilter<'a> {
    /// The lines that are filtered out.
    pub closed spec fn excluded(&self) -> Set<Seq<u8>> {
        line_set_contents(self.set)
    }

    /// Builds the filter from the lines of `first`.
    pub fn new(first: &'a [u8]) -> (r: Self)
        ensures
            r.excluded() == lines_of(first@).to_set(),
    {
        let mut set = new_line_set(count_byte(first, NEWLINE));
        let mut pos: usize = 0;
        proof {
            assert(first@.take(0) =~= Seq::<u8>::empty());
            assert(lines_of(first@.take(0)).to_set() =~= Set::<Seq<u8>>::empty());
        }
        while pos < first.len()
            invariant
                pos <= first@.len(),
                pos < first@.len() ==> scan(first@.take(pos as int)).1.len() == 0,
                line_set_contents(set) == lines_of(first@.take(pos as int)).to_set(),
            decreases first@.len() - pos,
        {
            let (end, next) = next_line(first, pos);
            let line = vstd::slice::slice_subrange(first, pos, end);
            line_set_insert(&mut set, line);
            proof {
                let prev = lines_of(first@.take(pos as int));
                assert(prev.push(line@).to_set() =~= prev.to_set().insert(line@)) by {
                    broadcast use vstd::seq_lib::lemma_seq_contains_after_push;

                }
            }
            pos = next;
        }
        assert(first@.take(pos as int) =~= first@);
        AddedFilter { set }
    }

    /// Appends to `out` each line of `chunk` that is not filtered out, with
    /// its delimiter, in the order of `chunk`.
    pub fn filter_chunk(&self, chunk: &[u8], out: &mut Vec<u8>)
        ensures
            final(out)@ == old(out)@ + join_lines(missing_lines(lines_of(chunk@), self.excluded())),
    {
        let ghost start = out@;
        let mut pos: usize = 0;
        proof {
            assert(chunk@.take(0) =~= Seq::<u8>::empty());
            reveal(Seq::filter);
            assert(start + Seq::<u8>::empty() =~= start);
        }
        while pos < chunk.len()
            invariant
                pos <= chunk@.len(),
                pos < chunk@.len() ==> scan(chunk@.take(pos as int)).1.len() == 0,
                out@ == start + join_lines(
                    missing_lines(lines_of(chunk@.take(pos as int)), self.excluded()),
                ),
            decreases chunk@.len() - pos,
        {
            let (end, next) = next_line(chunk, pos);
            let line = vstd::slice::slice_subrange(chunk, pos, end);
            let ghost before = out@;
            let present = line_set_contains(&self.set, line);
            if !present {
                out.extend_from_slice(line);
                out.push(NEWLINE);
            }
            proof {
                let prev = lines_of(chunk@.take(pos as int));
                let excluded = self.excluded();
                let f = |l: Seq<u8>| !excluded.contains(l);
                prev.lemma_filter_push(line@, f);
                let m = prev.filter(f);
                if !present {
                    assert(m.push(line@).drop_last() =~= m);
                    assert(before + line@ + seq![NEWLINE] =~= start + (join_lines(m) + line@.push(
                        NEWLINE,
                    )));
                }
            }
            pos = next;
        }
        assert(chunk@.take(pos as int) =~= chunk@);
    }
}

/// The added lines of `first` and `second`, both held whole in memory.
pub fn added_lines(first: &[u8], second: &[u8]) -> (r: Vec<u8>)
    ensures
        r@ == added_of(first@, second@),
{
    let filter = AddedFilter::new(first);
    let mut out: Vec<u8> = Vec::new();
    filter.filter_chunk(second, &mut out);
    assert(Seq::<u8>::empty() + added_of(first@, second@) =~= added_of(first@, second@));
    out
}

/// Filtering out a set of lines and keeping a bucket commute, when the set
/// is the lines of a sequence and is restricted to the same bucket.
pub proof fn lemma_missing_by_bucket(
    la: Seq<Seq<u8>>,
    lb: Seq<Seq<u8>>,
    num_parts: nat,
    k: nat,
)
    ensures
        missing_lines(bucket_lines(lb, num_parts, k), bucket_lines(la, num_parts, k).to_set())
            == bucket_lines(missing_lines(lb, la.to_set()), num_parts, k),
    decreases lb.len(),
{
    let fa = la.to_set();
    let fba = bucket_lines(la, num_parts, k).to_set();
    let pb = |l: Seq<u8>| bucket(l, num_parts) == k;
    let ma = |l: Seq<u8>| !fa.contains(l);
    let mba = |l: Seq<u8>| !fba.contains(l);
    if lb.len() == 0 {
        reveal(Seq::filter);
    } else {
        let init = lb.drop_last();
        let x = lb.last();
        assert(init.push(x) =~= lb);
        lemma_missing_by_bucket(la, init, num_parts, k);
        init.lemma_filter_push(x, pb);
        init.lemma_filter_push(x, ma);
        init.filter(pb).lemma_filter_push(x, mba);
        init.filter(ma).lemma_filter_push(x, pb);
        lemma_in_bucket(la, num_parts, k, x);
    }
}

/// Added-lines correctness. No line of the result is a line of `first`;
/// every line of `second` that is no line of `first` is in the result; and
/// the result is the lines of `second` with those of `first` removed, so
/// that the others keep their repetitions and their order.
pub proof fn lemma_added_correct(first: Seq<u8>, second: Seq<u8>)
    ensures
        lines_of(added_of(first, second)) == missing_lines(lines_of(second), lines_of(first).to_set()),
        forall|i: int|
            0 <= i < lines_of(added_of(first, second)).len() ==> !lines_of(first).contains(
                #[trigger] lines_of(added_of(first, second))[i],
            ),
        forall|l: Seq<u8>|
            lines_of(second).contains(l) && !lines_of(first).contains(l) ==> #[trigger] lines_of(
                added_of(first, second),
            ).contains(l),
{
    let ls = lines_of(second);
    let ex = lines_of(first).to_set();
    let f = |l: Seq<u8>| !ex.contains(l);
    let m = ls.filter(f);
    lemma_lines_delimiter_free(second);
    assert(delimiter_free(m)) by {
        assert forall|i: int| 0 <= i < m.len() implies !(#[trigger] m[i]).contains(NEWLINE) by {
            assert(m.contains(m[i]));
            ls.lemma_filter_contains_rev(f, m[i]);
        }
    }
    lemma_lines_of_join(m);
    assert forall|i: int| 0 <= i < m.len() implies !lines_of(first).contains(#[trigger] m[i]) by {
        ls.lemma_filter_pred(f, i);
    }
    assert forall|l: Seq<u8>| ls.contains(l) && !lines_of(first).contains(l) implies #[trigger] m.contains(l) by {
        let j = choose|j: int| 0 <= j < ls.len() && ls[j] == l;
        ls.lemma_filter_contains(f, j);
    }
}

/// Combining partition `k` of two buffers gives the lines of bucket `k` of
/// the added lines of the whole buffers, in the same order.
pub proof fn lemma_added_by_bucket(first: Seq<u8>, second: Seq<u8>, num_parts: nat, k: nat)
    ensures
        added_of(partition_of(first, num_parts, k), partition_of(second, num_parts, k))
            == join_lines(
            bucket_lines(missing_lines(lines_of(second), lines_of(first).to_set()), num_parts, k),
        ),
{
    lemma_partition_lines(first, num_parts, k);
    lemma_partition_lines(second, num_parts, k);
    lemma_missing_by_bucket(lines_of(first), lines_of(second), num_parts, k);
}

/// With a single bucket, combining the one partition of each buffer gives the
/// added lines of the whole buffers.
pub proof fn lemma_added_single_bucket(first: Seq<u8>, second: Seq<u8>)
    ensures
        added_of(partition_of(first, 1, 0), partition_of(second, 1, 0)) == added_of(first, second),
{
    lemma_single_partition(first);
    lemma_single_partition(second);
}

/// Filtering a second buffer piece by piece, each piece cut at a line
/// boundary, gives the same added lines as filtering it whole.
pub proof fn lemma_added_concat(first: Seq<u8>, a: Seq<u8>, b: Seq<u8>)
    requires
        ends_at_boundary(a),
    ensures
        added_of(first, a + b) == added_of(first, a) + added_of(first, b),
{
    let ex = lines_of(first).to_set();
    lemma_lines_concat(a, b);
    Seq::filter_distributes_over_add(lines_of(a), lines_of(b), |l: Seq<u8>| !ex.contains(l));
    lemma_join_concat(missing_lines(lines_of(a), ex), missing_lines(lines_of(b), ex));
}

} // verus!
