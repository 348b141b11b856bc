//! Content-addressed bucketing: a line's bucket is the sum of its bytes
//! modulo the number of buckets, so equal lines always share a bucket.

use vstd::prelude::*;
use vstd::arithmetic::div_mod::{lemma_add_mod_noop, lemma_mod_add_multiples_vanish, lemma_small_mod};
use crate::lines::{ends_at_boundary, lemma_lines_concat, lemma_join_concat, NEWLINE, scan, lines_of, join_lines, delimiter_free, next_line, lemma_lines_delimiter_free, lemma_lines_of_join};

verus! {

/// The sum of the byte values of `s`.
pub open spec fn byte_sum(s: Seq<u8>) -> nat
    decreases s.len(),
{
    if s.len() == 0 {
        0
    } else {
        byte_sum(s.drop_last()) + s.last() as nat
    }
}

/// The bucket of a line among `num_parts` buckets.
pub open spec fn bucket(line: Seq<u8>, num_parts: nat) -> nat
    recommends
        num_parts > 0,
{
    byte_sum(line) % num_parts
}

/// The lines of `ls` that fall in bucket `k`, in their order.
pub open spec fn bucket_lines(ls: Seq<Seq<u8>>, num_parts: nat, k: nat) -> Seq<Seq<u8>> {
    ls.filter(|l: Seq<u8>| bucket(l, num_parts) == k)
}

/// The bytes of partition `k` of `data`: the lines of bucket `k`, each with
/// its delimiter, in the order of `data`.
pub open spec fn partition_of(data: Seq<u8>, num_parts: nat, k: nat) -> Seq<u8> {
    join_lines(bucket_lines(lines_of(data), num_parts, k))
}

/// The bucket of `line` among `num_parts` buckets.
pub fn bucket_of(line: &[u8], num_parts: usize) -> (r: usize)
    requires
        num_parts > 0,
    ensures
        r == bucket(line@, num_parts as nat),
        r < num_parts,
{
    let mut acc: usize = 0;
    let mut i: usize = 0;
    assert(line@.take(0) =~= Seq::<u8>::empty());
    while i < line.len()
        invariant
            num_parts > 0,
            i <= line@.len(),
            acc < num_parts,
            acc == byte_sum(line@.take(i as int)) % (num_parts as nat),
        decreases line@.len() - i,
    {
        let b: usize = line[i] as usize;
        let bm: usize = b % num_parts;
        let gap: usize = num_parts - bm;
        let ghost x: int = acc + bm;
        if acc >= gap {
            acc = acc - gap;
            proof {
                lemma_mod_add_multiples_vanish(x - num_parts, num_parts as int);
                lemma_small_mod((x - num_parts) as nat, num_parts as nat);
            }
        } else {
            acc = acc + bm;
            proof {
                lemma_small_mod(x as nat, num_parts as nat);
            }
        }
        proof {
            let prev = line@.take(i as int);
            let next = line@.take(i as int + 1);
            assert(next.drop_last() =~= prev);
            lemma_add_mod_noop(byte_sum(prev) as int, b as int, num_parts as int);
        }
        i = i + 1;
    }
    assert(line@.take(i as int) =~= line@);
    acc
}

/// Splits `data` into `num_parts` partitions: each line, with its delimiter,
/// goes to the partition of its bucket, and each partition keeps the order of
/// `data`.
pub fn partition_lines(data: &[u8], num_parts: usize) -> (r: Vec<Vec<u8>>)
    requires
        num_parts > 0,
    ensures
        r@.len() == num_parts,
        forall|k: int|
            0 <= k < num_parts ==> (#[trigger] r@[k])@ == partition_of(
                data@,
                num_parts as nat,
                k as nat,
            ),
{
    let mut parts: Vec<Vec<u8>> = Vec::new();
    let mut k: usize = 0;
    while k < num_parts
        invariant
            k <= num_parts,
            parts@.len() == k,
            forall|j: int| 0 <= j < k ==> (#[trigger] parts@[j])@ == Seq::<u8>::empty(),
        decreases num_parts - k,
    {
        parts.push(Vec::new());
        k = k + 1;
    }
    proof {
        assert forall|j: int| 0 <= j < num_parts implies (#[trigger] parts@[j])@ == join_lines(
            bucket_lines(lines_of(data@.take(0)), num_parts as nat, j as nat),
        ) by {
            assert(data@.take(0) =~= Seq::<u8>::empty());
            reveal(Seq::filter);
        }
    }
    let mut pos: usize = 0;
    while pos < data.len()
        invariant
            num_parts > 0,
            pos <= data@.len(),
            parts@.len() == num_parts,
            pos < data@.len() ==> scan(data@.take(pos as int)).1.len() == 0,
            forall|j: int|
                0 <= j < num_parts ==> (#[trigger] parts@[j])@ == join_lines(
                    bucket_lines(lines_of(data@.take(pos as int)), num_parts as nat, j as nat),
                ),
        decreases data@.len() - pos,
    {
        let (end, next) = next_line(data, pos);
        let line = vstd::slice::slice_subrange(data, pos, end);
        let b = bucket_of(line, num_parts);
        let ghost before = parts@;
        parts[b].extend_from_slice(line);
        parts[b].push(NEWLINE);
        proof {
            let prev_lines = lines_of(data@.take(pos as int));
            assert forall|j: int| 0 <= j < num_parts implies (#[trigger] parts@[j])@ == join_lines(
                bucket_lines(prev_lines.push(line@), num_parts as nat, j as nat),
            ) by {
                let f = |l: Seq<u8>| bucket(l, num_parts as nat) == j as nat;
                prev_lines.lemma_filter_push(line@, f);
                let prev_b = prev_lines.filter(f);
                if j == b as int {
                    assert(prev_b.push(line@).drop_last() =~= prev_b);
                    assert(before[j]@ + line@ + seq![NEWLINE] =~= join_lines(prev_b) + line@.push(
                        NEWLINE,
                    ));
                } else {
                    assert(parts@[j] == before[j]);
                }
            }
        }
        pos = next;
    }
    assert(data@.take(pos as int) =~= data@);
    parts
}

/// The lines of a partition are the lines of its bucket.
pub proof fn lemma_partition_lines(data: Seq<u8>, num_parts: nat, k: nat)
    ensures
        lines_of(partition_of(data, num_parts, k)) == bucket_lines(lines_of(data), num_parts, k),
{
    let ls = lines_of(data);
    let bl = bucket_lines(ls, num_parts, k);
    lemma_lines_delimiter_free(data);
    assert(delimiter_free(bl)) by {
        assert forall|i: int| 0 <= i < bl.len() implies !(#[trigger] bl[i]).contains(NEWLINE) by {
            let f = |l: Seq<u8>| bucket(l, num_parts) == k;
            assert(bl.contains(bl[i]));
            ls.lemma_filter_contains_rev(f, bl[i]);
            let m = choose|m: int| 0 <= m < ls.len() && ls[m] == bl[i];
            assert(!ls[m].contains(NEWLINE));
        }
    }
    lemma_lines_of_join(bl);
}

/// A line is in the lines of bucket `k` exactly when it is a line of `ls`
/// whose bucket is `k`.
pub proof fn lemma_in_bucket(ls: Seq<Seq<u8>>, num_parts: nat, k: nat, l: Seq<u8>)
    ensures
        bucket_lines(ls, num_parts, k).contains(l) <==> (ls.contains(l) && bucket(l, num_parts)
            == k),
{
    let f = |x: Seq<u8>| bucket(x, num_parts) == k;
    let bl = ls.filter(f);
    if bl.contains(l) {
        ls.lemma_filter_contains_rev(f, l);
        let m = choose|m: int| 0 <= m < bl.len() && bl[m] == l;
        ls.lemma_filter_pred(f, m);
    }
    if ls.contains(l) && bucket(l, num_parts) == k {
        let m = choose|m: int| 0 <= m < ls.len() && ls[m] == l;
        ls.lemma_filter_contains(f, m);
    }
}

/// Bucket consistency: a line goes to the same bucket whichever buffer it
/// comes from. For two buffers that share a line, the line is in partition
/// `bucket(line)` of each, and in no other partition of either.
pub proof fn lemma_bucket_consistency(
    d1: Seq<u8>,
    d2: Seq<u8>,
    num_parts: nat,
    i: int,
    j: int,
)
    requires
        num_parts > 0,
        0 <= i < lines_of(d1).len(),
        0 <= j < lines_of(d2).len(),
        lines_of(d1)[i] == lines_of(d2)[j],
    ensures
        bucket(lines_of(d1)[i], num_parts) < num_parts,
        lines_of(partition_of(d1, num_parts, bucket(lines_of(d1)[i], num_parts))).contains(
            lines_of(d1)[i],
        ),
        lines_of(partition_of(d2, num_parts, bucket(lines_of(d1)[i], num_parts))).contains(
            lines_of(d1)[i],
        ),
        forall|k: nat|
            k != bucket(lines_of(d1)[i], num_parts) ==> {
                &&& !lines_of(#[trigger] partition_of(d1, num_parts, k)).contains(lines_of(d1)[i])
                &&& !lines_of(partition_of(d2, num_parts, k)).contains(lines_of(d1)[i])
            },
{
    let l = lines_of(d1)[i];
    let b = bucket(l, num_parts);
    assert(lines_of(d1).contains(l));
    assert(lines_of(d2).contains(l));
    lemma_partition_lines(d1, num_parts, b);
    lemma_partition_lines(d2, num_parts, b);
    lemma_in_bucket(lines_of(d1), num_parts, b, l);
    lemma_in_bucket(lines_of(d2), num_parts, b, l);
    assert forall|k: nat| k != b implies {
        &&& !lines_of(#[trigger] partition_of(d1, num_parts, k)).contains(l)
        &&& !lines_of(partition_of(d2, num_parts, k)).contains(l)
    } by {
        lemma_partition_lines(d1, num_parts, k);
        lemma_partition_lines(d2, num_parts, k);
        lemma_in_bucket(lines_of(d1), num_parts, k, l);
        lemma_in_bucket(lines_of(d2), num_parts, k, l);
    }
}

/// With a single bucket every line falls in it.
pub proof fn lemma_single_bucket_lines(ls: Seq<Seq<u8>>)
    ensures
        bucket_lines(ls, 1, 0) == ls,
    decreases ls.len(),
{
    if ls.len() > 0 {
        let init = ls.drop_last();
        lemma_single_bucket_lines(init);
        init.lemma_filter_push(ls.last(), |l: Seq<u8>| bucket(l, 1) == 0);
        assert(init.push(ls.last()) =~= ls);
    } else {
        reveal(Seq::filter);
    }
}

/// With a single bucket the one partition holds every line of the buffer, in
/// order.
pub proof fn lemma_single_partition(data: Seq<u8>)
    ensures
        partition_of(data, 1, 0) == join_lines(lines_of(data)),
        lines_of(partition_of(data, 1, 0)) == lines_of(data),
{
    lemma_single_bucket_lines(lines_of(data));
    lemma_partition_lines(data, 1, 0);
}

/// Partitioning a buffer piece by piece, each piece cut at a line boundary,
/// gives the same partitions as partitioning it whole.
pub proof fn lemma_partition_concat(a: Seq<u8>, b: Seq<u8>, num_parts: nat, k: nat)
    requires
        ends_at_boundary(a),
    ensures
        partition_of(a + b, num_parts, k) == partition_of(a, num_parts, k) + partition_of(
            b,
            num_parts,
            k,
        ),
{
    lemma_lines_concat(a, b);
    Seq::filter_distributes_over_add(lines_of(a), lines_of(b), |l: Seq<u8>| bucket(l, num_parts) == k);
    lemma_join_concat(bucket_lines(lines_of(a), num_parts, k), bucket_lines(lines_of(b), num_parts, k));
}

} // verus!
