//! The order of node and edge indices: by their numbers.
use crate::exec_graph::{EdgeIndex, NodeIndex};
use std::cmp::Ordering;
use vstd::prelude::*;
use vstd::std_specs::cmp::PartialOrdSpec;
use vstd::std_specs::cmp::PartialOrdSpecImpl;

verus! {

/// The order of two numbers.
pub open spec fn order_of(a: u32, b: u32) -> Ordering {
    if a < b {
        Ordering::Less
    } else if a == b {
        Ordering::Equal
    } else {
        Ordering::Greater
    }
}

fn order_u32(a: u32, b: u32) -> (r: Ordering)
    ensures
        r == order_of(a, b),
{
    if a < b {
        Ordering::Less
    } else if a == b {
        Ordering::Equal
    } else {
        Ordering::Greater
    }
}

impl PartialOrd for NodeIndex {
    fn partial_cmp(&self, other: &NodeIndex) -> (r: Option<Ordering>) {
        Some(order_u32(self.0, other.0))
    }
}

impl PartialOrdSpecImpl for NodeIndex {
    open spec fn obeys_partial_cmp_spec() -> bool {
        true
    }

    open spec fn partial_cmp_spec(&self, other: &NodeIndex) -> Option<Ordering> {
        Some(order_of(self.0, other.0))
    }
}

impl PartialOrd for EdgeIndex {
    fn partial_cmp(&self, other: &EdgeIndex) -> (r: Option<Ordering>) {
        Some(order_u32(self.0, other.0))
    }
}

impl PartialOrdSpecImpl for EdgeIndex {
    open spec fn obeys_partial_cmp_spec() -> bool {
        true
    }

    open spec fn partial_cmp_spec(&self, other: &EdgeIndex) -> Option<Ordering> {
        Some(order_of(self.0, other.0))
    }
}

/// Node and edge indices are ordered by their numbers: `a < b` exactly
/// when `a`'s number is below `b`'s, and so `NodeIndex::new(i) <
/// NodeIndex::new(j)` for `i < j` up to the largest `u32`.
pub proof fn lemma_index_order(a: NodeIndex, b: NodeIndex, c: EdgeIndex, d: EdgeIndex)
    ensures
        (PartialOrdSpec::partial_cmp_spec(&a, &b) == Some(Ordering::Less)) <==> a.0 < b.0,
        (PartialOrdSpec::partial_cmp_spec(&a, &b) == Some(Ordering::Equal)) <==> a.0 == b.0,
        (PartialOrdSpec::partial_cmp_spec(&c, &d) == Some(Ordering::Less)) <==> c.0 < d.0,
        (PartialOrdSpec::partial_cmp_spec(&c, &d) == Some(Ordering::Equal)) <==> c.0 == d.0,
{
}

} // verus!
