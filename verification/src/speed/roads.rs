//! The roads of a dispatcher in rising order.

use vstd::prelude::*;
use std::collections::BTreeSet;
use vstd::std_specs::cmp::OrdSpec;
use vstd::std_specs::iter::IteratorSpec;
use crate::speed::domain::Road;

verus! {

/// Each road of `order` is below those that come after it.
pub open spec fn rising(order: Seq<Road>) -> bool {
    forall|i: int, j: int| 0 <= i < j < order.len() ==> order[i] < order[j]
}

/// The roads of a set, each once, from the lowest to the highest.
pub fn sorted_roads(roads: &BTreeSet<Road>) -> (order: Vec<Road>)
    ensures
        order@.to_set() == roads@,
        rising(order@),
{
    let mut order: Vec<Road> = Vec::new();
    let walk = roads.iter();
    for road in it: walk
        invariant
            order@.len() == it.index(),
            forall|j: int| 0 <= j < order@.len() ==> order@[j] == *it.seq()[j],
    {
        order.push(*road);
    }
    proof {
        broadcast use vstd::laws_cmp::group_laws_cmp;

        let walked = roads.iter().remaining();
        assert(order@ =~= walked.unref());
        assert(vstd::laws_cmp::obeys_cmp::<&Road>());
        assert(vstd::std_specs::btree::increasing_seq(walked));
        assert forall|i: int, j: int| 0 <= i < j < order@.len() implies order@[i] < order@[j] by {
            assert(OrdSpec::cmp_spec(&walked[i], &walked[j]) is Less);
        }
    }
    order
}

} // verus!
