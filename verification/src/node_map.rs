//! Tables keyed by nodes.
use std::collections::HashMap;
use vstd::prelude::*;

use crate::ids::{lemma_code_injective, NodeId};

verus! {

/// Values by node.
pub struct NodeMap<V> {
    pub table: HashMap<u128, V>,
}

impl<V> View for NodeMap<V> {
    type V = Map<NodeId, V>;

    open spec fn view(&self) -> Map<NodeId, V> {
        Map::new(
            |id: NodeId| self.table@.dom().contains(id.code() as u128),
            |id: NodeId| self.table@[id.code() as u128],
        )
    }
}

impl<V: Copy> NodeMap<V> {
    /// Every key is the code of a node.
    pub open spec fn wf(&self) -> bool {
        forall|k: u128|
            #[trigger] self.table@.dom().contains(k) ==> k < 0x1_0000_0000_0000_0000_0000_0000
    }

    /// An empty table.
    pub fn new() -> (r: NodeMap<V>)
        ensures
            r.wf(),
            r@ == Map::<NodeId, V>::empty(),
    {
        broadcast use vstd::std_specs::hash::group_hash_axioms;

        let r = NodeMap { table: HashMap::new() };
        proof {
            assert(r@ =~= Map::<NodeId, V>::empty());
        }
        r
    }

    /// Stores `value` for `node`.
    pub fn insert(&mut self, node: NodeId, value: V)
        requires
            old(self).wf(),
        ensures
            final(self).wf(),
            final(self)@ == old(self)@.insert(node, value),
    {
        broadcast use vstd::std_specs::hash::group_hash_axioms;

        let ghost before = self@;
        self.table.insert(node.key(), value);
        proof {
            assert forall|id: NodeId| id.code() as u128 == node.code() as u128 implies id
                == node by {
                lemma_code_injective(id, node);
            }
            assert(self@ =~= before.insert(node, value));
        }
    }

    /// What is stored for `node`.
    pub fn get(&self, node: NodeId) -> (r: Option<V>)
        ensures
            match r {
                Some(v) => self@.dom().contains(node) && self@[node] == v,
                None => !self@.dom().contains(node),
            },
    {
        broadcast use vstd::std_specs::hash::group_hash_axioms;

        match self.table.get(&node.key()) {
            Some(v) => Some(*v),
            None => None,
        }
    }

    /// Whether nothing is stored.
    pub fn is_empty(&self) -> (r: bool)
        requires
            self.wf(),
        ensures
            r == (self@ == Map::<NodeId, V>::empty()),
    {
        broadcast use vstd::std_specs::hash::group_hash_axioms;

        let n: usize = self.table.len();
        proof {
            if self.table@.dom().len() == 0 {
                assert(self.table@.dom() =~= Set::empty());
                assert(self@ =~= Map::<NodeId, V>::empty());
            } else {
                let k = self.table@.dom().choose();
                assert(self.table@.dom().contains(k));
                let id = NodeId {
                    index: (k % 0x1_0000_0000) as u32,
                    generation: (k / 0x1_0000_0000) as u64,
                };
                assert(id.code() == k);
                assert(self@.dom().contains(id));
            }
        }
        n == 0
    }
}

} // verus!
