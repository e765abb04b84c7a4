//! The keys of a ledger in rising order.

use vstd::prelude::*;
use std::collections::BTreeMap;
use vstd::std_specs::cmp::OrdSpec;
use vstd::std_specs::iter::IteratorSpec;

verus! {

/// Each key of `order` is below those that come after it.
pub open spec fn rising(order: Seq<i32>) -> bool {
    forall|i: int, j: int| 0 <= i < j < order.len() ==> order[i] < order[j]
}

/// The keys of a map, each once, from the lowest to the highest.
pub fn sorted_keys(entries: &BTreeMap<i32, i32>) -> (order: Vec<i32>)
    ensures
        order@.to_set() == entries@.dom(),
        rising(order@),
{
    let mut order: Vec<i32> = Vec::new();
    let walk = entries.keys();
    for key in it: walk
        invariant
            order@.len() == it.index(),
            forall|j: int| 0 <= j < order@.len() ==> order@[j] == *it.seq()[j],
    {
        order.push(*key);
    }
    proof {
        broadcast use vstd::laws_cmp::group_laws_cmp;

        let walked = entries.keys().remaining();
        assert(order@ =~= walked.unref());
        assert(vstd::laws_cmp::obeys_cmp::<&i32>());
        assert(vstd::std_specs::btree::increasing_seq(walked));
        assert forall|i: int, j: int| 0 <= i < j < order@.len() implies order@[i] < order@[j] by {
            assert(OrdSpec::cmp_spec(&walked[i], &walked[j]) is Less);
        }
    }
    order
}

} // verus!
