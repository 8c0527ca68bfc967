//! The order of nodes by weight: the lighter a node, the greater it ranks, so
//! that the greatest node of a collection is the one to merge next.

use crate::huffman::node::HuffmanNode;
use std::cmp::Ordering;
use vstd::prelude::*;
use vstd::std_specs::cmp::PartialOrdSpecImpl;

verus! {

impl PartialOrd for HuffmanNode {
    /// Compares the weights in reverse: `self` is greater where it is lighter.
    fn partial_cmp(&self, other: &Self) -> (order: Option<Ordering>) {
        if other.frequency < self.frequency {
            Some(Ordering::Less)
        } else if other.frequency > self.frequency {
            Some(Ordering::Greater)
        } else {
            Some(Ordering::Equal)
        }
    }
}

impl PartialOrdSpecImpl for HuffmanNode {
    open spec fn obeys_partial_cmp_spec() -> bool {
        true
    }

    open spec fn partial_cmp_spec(&self, other: &Self) -> Option<Ordering> {
        if other.frequency < self.frequency {
            Some(Ordering::Less)
        } else if other.frequency > self.frequency {
            Some(Ordering::Greater)
        } else {
            Some(Ordering::Equal)
        }
    }
}

} // verus!
