//! Ordered lookups in std's B-tree collections.
use std::collections::{BTreeMap, BTreeSet};

use vstd::prelude::*;
use vstd::std_specs::btree::spec_btree_keys_iter;
use vstd::std_specs::cmp::OrdSpec;
use vstd::std_specs::iter::IteratorSpec;

use crate::test_case::Test;

verus! {

/// Lexicographic order on pairs, the order of Rust's tuples.
pub open spec fn pair_lt(a: (u32, usize), b: (u32, usize)) -> bool {
    a.0 < b.0 || (a.0 == b.0 && a.1 < b.1)
}

/// The least element of the set that is at least `lower`.
///
/// Trusted: calls `BTreeSet::range(lower..)` and takes the first element.
/// std documents that the range yields the elements of the set within the
/// bounds in ascending order, so the first is the least one that is at
/// least `lower`, and there is none when every element is below `lower`.
#[verifier::external_body]
pub(crate) fn first_at_least(set: &BTreeSet<u64>, lower: u64) -> (found: Option<u64>)
    ensures
        match found {
            Some(k) => {
                &&& set@.contains(k)
                &&& lower <= k
                &&& forall|x: u64| set@.contains(x) && lower <= x ==> k <= x
            },
            None => forall|x: u64| set@.contains(x) ==> x < lower,
        },
{
    set.range(lower..).next().copied()
}

/// The least key of the map that is not below `lower`.
///
/// Trusted: calls `BTreeMap::range(lower..)` and takes the key of the first
/// entry. std documents that the range yields the entries whose keys are
/// within the bounds in ascending key order, and tuples order
/// lexicographically, so the first key is the least one not below `lower`,
/// and there is none when every key is below `lower`.
#[verifier::external_body]
pub(crate) fn first_key_at_least(
    map: &BTreeMap<(u32, usize), Vec<Test>>,
    lower: (u32, usize),
) -> (found: Option<(u32, usize)>)
    ensures
        match found {
            Some(k) => {
                &&& map@.contains_key(k)
                &&& !pair_lt(k, lower)
                &&& forall|x: (u32, usize)| map@.contains_key(x) && !pair_lt(x, lower) ==> !pair_lt(x, k)
            },
            None => forall|x: (u32, usize)| map@.contains_key(x) ==> pair_lt(x, lower),
        },
{
    map.range(lower..).next().map(|(key, _)| *key)
}

/// `u64` keys follow the order that vstd's B-tree specifications assume.
pub open spec fn u64_keys_ordered() -> bool {
    vstd::laws_cmp::obeys_cmp::<u64>()
}

pub(crate) proof fn lemma_u64_keys_ordered()
    ensures
        u64_keys_ordered(),
{
    broadcast use vstd::laws_cmp::group_laws_cmp;

}

/// `(u32, usize)` keys follow the order that vstd's B-tree specifications
/// assume.
pub open spec fn pair_keys_ordered() -> bool {
    vstd::laws_cmp::obeys_cmp::<(u32, usize)>()
}

pub(crate) proof fn lemma_pair_keys_ordered()
    ensures
        pair_keys_ordered(),
{
    broadcast use vstd::laws_cmp::group_laws_cmp;


}

/// The elements of the set in ascending order.
pub(crate) fn ascending_keys(set: &BTreeSet<u64>) -> (keys: Vec<u64>)
    ensures
        keys@.to_set() == set@,
        forall|i: int, j: int| 0 <= i < j < keys@.len() ==> keys@[i] < keys@[j],
{
    broadcast use vstd::std_specs::btree::group_btree_axioms;
    broadcast use vstd::laws_cmp::group_laws_cmp;

    let ghost listed = spec_btree_keys_iter(set).remaining();
    let mut keys: Vec<u64> = Vec::new();
    for k in it: set.iter()
        invariant
            it.seq() == listed,
            keys@.len() == it.index(),
            forall|i: int| 0 <= i < keys@.len() ==> keys@[i] == *listed[i],
    {
        keys.push(*k);
    }
    proof {
        assert(keys@ =~= listed.unref());
        assert(vstd::laws_cmp::obeys_cmp::<&u64>());
        assert(vstd::std_specs::btree::increasing_seq(listed));
        assert forall|i: int, j: int| 0 <= i < j < keys@.len() implies keys@[i] < keys@[j] by {
            assert(OrdSpec::cmp_spec(&listed[i], &listed[j]) is Less);
        }
    }
    keys
}

} // verus!
