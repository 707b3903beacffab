//! The union-find forest of the `disjoint-set` crate, over node indices.
//!
//! The forest is used as it comes. What the library knows of it is stated
//! here, method by method, over one name: the map from each member to the tag
//! of the set that it is in.

use disjoint_set::DisjointSet;
use vstd::prelude::*;

verus! {

/// `disjoint_set::DisjointSet`: a union-find forest, known by what its
/// methods are said to do to `forest_tags`.
#[verifier::external_type_specification]
#[verifier::external_body]
#[verifier::reject_recursive_types(T)]
pub struct ExDisjointSet<T: Clone>(DisjointSet<T>);

/// For each member of the forest, the tag of the set that holds it. Two
/// members are in one set exactly when their tags are equal.
pub uninterp spec fn forest_tags(ds: DisjointSet<usize>) -> Map<usize, usize>;

/// `DisjointSet::new`: a forest without members.
#[verifier::external_body]
pub(crate) fn forest_new() -> (ds: DisjointSet<usize>)
    ensures
        forest_tags(ds).dom() == Set::<usize>::empty(),
{
    DisjointSet::new()
}

/// `DisjointSet::make_set`: a member stays as it is; anything else becomes a
/// member, alone in a set whose tag no member had before.
#[verifier::external_body]
pub(crate) fn forest_make_set(ds: &mut DisjointSet<usize>, x: usize)
    ensures
        forest_tags(*old(ds)).contains_key(x) ==> forest_tags(*final(ds)) == forest_tags(*old(ds)),
        !forest_tags(*old(ds)).contains_key(x) ==> forest_tags(*final(ds)).dom() == forest_tags(
            *old(ds),
        ).dom().insert(x) && (forall|y: usize|
            forest_tags(*old(ds)).contains_key(y) ==> forest_tags(*final(ds))[y] == forest_tags(
                *old(ds),
            )[y] && forest_tags(*final(ds))[x] != #[trigger] forest_tags(*old(ds))[y]),
{
    ds.make_set(x)
}

/// `DisjointSet::find`: the tag of the set that holds `x`, or `None` where
/// `x` is no member. No set changes.
#[verifier::external_body]
pub(crate) fn forest_find(ds: &mut DisjointSet<usize>, x: usize) -> (r: Option<usize>)
    ensures
        forest_tags(*final(ds)) == forest_tags(*old(ds)),
        r == if forest_tags(*old(ds)).contains_key(x) {
            Some(forest_tags(*old(ds))[x])
        } else {
            None
        },
{
    ds.find(x)
}

/// `DisjointSet::union`: where both are members, the set of `x` joins the set
/// of `y` under the tag of the latter, which is returned; else nothing
/// changes and the call fails.
#[verifier::external_body]
pub(crate) fn forest_union(
    ds: &mut DisjointSet<usize>,
    x: usize,
    y: usize,
) -> (r: Result<usize, ()>)
    ensures
        forest_tags(*old(ds)).contains_key(x) && forest_tags(*old(ds)).contains_key(y) ==> r is Ok
            && r->Ok_0 == forest_tags(*old(ds))[y] && forest_tags(*final(ds)).dom() == forest_tags(
            *old(ds),
        ).dom()
            && (forall|z: usize| #[trigger]
            forest_tags(*old(ds)).contains_key(z) ==> forest_tags(*final(ds))[z] == if forest_tags(
                *old(ds),
            )[z] == forest_tags(*old(ds))[x] {
                forest_tags(*old(ds))[y]
            } else {
                forest_tags(*old(ds))[z]
            }),
        !(forest_tags(*old(ds)).contains_key(x) && forest_tags(*old(ds)).contains_key(y)) ==> r
            is Err && forest_tags(*final(ds)) == forest_tags(*old(ds)),
{
    ds.union(x, y)
}

} // verus!
