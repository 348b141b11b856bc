//! The hash sets of borrowed lines that the combiners build.

use vstd::prelude::*;
use ahash::{AHashSet, RandomState};
use indexmap::IndexSet;

verus! {

#[verifier::external_type_specification]
#[verifier::external_body]
pub struct ExRandomState(RandomState);

#[verifier::external_type_specification]
#[verifier::external_body]
#[verifier::reject_recursive_types(T)]
#[verifier::reject_recursive_types(S)]
pub struct ExAHashSet<T, S>(AHashSet<T, S>);

/// The lines that a hash set of borrowed lines holds.
pub uninterp spec fn line_set_contents(s: AHashSet<&[u8]>) -> Set<Seq<u8>>;

/// Relies on ahash::AHashSet::with_capacity: a new set is empty.
#[verifier::external_body]
pub(crate) fn new_line_set<'a>(capacity: usize) -> (r: AHashSet<&'a [u8]>)
    ensures
        line_set_contents(r) == Set::<Seq<u8>>::empty(),
{
    AHashSet::with_capacity(capacity)
}

/// Relies on std's HashSet::insert, reached through AHashSet's Deref: the
/// line is in the set afterwards, along with what was there.
#[verifier::external_body]
pub(crate) fn line_set_insert<'a>(set: &mut AHashSet<&'a [u8]>, line: &'a [u8])
    ensures
        line_set_contents(*final(set)) == line_set_contents(*old(set)).insert(line@),
{
    set.insert(line);
}

/// Relies on std's HashSet::contains, reached through AHashSet's Deref:
/// whether a byte-equal line is in the set.
#[verifier::external_body]
pub(crate) fn line_set_contains(set: &AHashSet<&[u8]>, line: &[u8]) -> (r: bool)
    ensures
        r == line_set_contents(*set).contains(line@),
{
    set.contains(line)
}

/// Relies on ahash::RandomState::new: a hasher with fresh random keys, of
/// which nothing is promised.
pub assume_specification[ RandomState::new ]() -> RandomState;

#[verifier::external_type_specification]
#[verifier::external_body]
#[verifier::reject_recursive_types(T)]
#[verifier::reject_recursive_types(S)]
pub struct ExIndexSet<T, S>(IndexSet<T, S>);

/// The lines that an insertion-ordered set of borrowed lines holds, in the
/// order in which they were first inserted.
pub uninterp spec fn ordered_set_contents(s: IndexSet<&[u8], RandomState>) -> Seq<Seq<u8>>;

/// Relies on indexmap::IndexSet::with_capacity_and_hasher: a new set is
/// empty.
#[verifier::external_body]
pub(crate) fn new_ordered_set<'a>(capacity: usize, hasher: RandomState) -> (r: IndexSet<
    &'a [u8],
    RandomState,
>)
    ensures
        ordered_set_contents(r) == Seq::<Seq<u8>>::empty(),
{
    IndexSet::with_capacity_and_hasher(capacity, hasher)
}

/// Relies on indexmap::IndexSet::insert: a line that no item equals is
/// appended and `true` returned; otherwise the set is left as it was and
/// `false` returned.
#[verifier::external_body]
pub(crate) fn ordered_set_insert<'a>(set: &mut IndexSet<&'a [u8], RandomState>, line: &'a [u8]) -> (r:
    bool)
    ensures
        r == !ordered_set_contents(*old(set)).contains(line@),
        ordered_set_contents(*final(set)) == if r {
            ordered_set_contents(*old(set)).push(line@)
        } else {
            ordered_set_contents(*old(set))
        },
{
    set.insert(line)
}

} // verus!
