//! The symbols of one file: nodes by qualified name.
use vstd::hash_map::StringHashMap;
use vstd::prelude::*;

use crate::ids::NodeId;

verus! {

/// Nodes by qualified name. Names keep the order in which they were first inserted.
pub struct SymbolTable {
    pub names: Vec<String>,
    pub nodes: StringHashMap<NodeId>,
}

impl View for SymbolTable {
    type V = Map<Seq<char>, NodeId>;

    open spec fn view(&self) -> Map<Seq<char>, NodeId> {
        self.nodes@
    }
}

/// Texts of strings.
pub open spec fn texts(s: Seq<String>) -> Seq<Seq<char>> {
    Seq::new(s.len(), |i: int| s[i]@)
}

impl SymbolTable {
    /// The names, in order.
    pub open spec fn order(&self) -> Seq<Seq<char>> {
        texts(self.names@)
    }

    /// Every name with a node is listed, once, and no other is.
    pub open spec fn wf(&self) -> bool {
        &&& self.order().no_duplicates()
        &&& forall|k: Seq<char>| #[trigger] self@.dom().contains(k) <==> self.order().contains(k)
    }

    /// A table without symbols.
    pub fn new() -> (r: SymbolTable)
        ensures
            r.wf(),
            r@ == Map::<Seq<char>, NodeId>::empty(),
            r.order() == Seq::<Seq<char>>::empty(),
    {
        let r = SymbolTable { names: Vec::new(), nodes: StringHashMap::new() };
        proof {
            assert(r.order() =~= Seq::<Seq<char>>::empty());
        }
        r
    }

    /// Lets `name` stand for `node`.
    pub fn insert(&mut self, name: String, node: NodeId)
        requires
            old(self).wf(),
        ensures
            final(self).wf(),
            final(self)@ == old(self)@.insert(name@, node),
            final(self).order() == (if old(self)@.dom().contains(name@) {
                old(self).order()
            } else {
                old(self).order().push(name@)
            }),
    {
        let ghost before = self.order();
        let ghost m = self@;
        if !self.nodes.contains_key(name.as_str()) {
            let copy: String = name.clone();
            self.names.push(copy);
            proof {
                assert(self.order() =~= before.push(name@));
                assert forall|i: int, j: int|
                    0 <= i < self.order().len() && 0 <= j < self.order().len() && i
                        != j implies self.order()[i] != self.order()[j] by {
                    if i < before.len() && j < before.len() {
                        assert(before[i] != before[j]);
                    } else {
                        let k = if i < before.len() {
                            i
                        } else {
                            j
                        };
                        assert(before.contains(before[k]));
                    }
                }
            }
        }
        self.nodes.insert(name, node);
        proof {
            assert forall|k: Seq<char>| #[trigger] self@.dom().contains(k) <==> self.order().contains(
                k,
            ) by {
                if self.order() == before.push(name@) {
                    if before.contains(k) {
                        let i = choose|i: int| 0 <= i < before.len() && before[i] == k;
                        assert(self.order()[i] == k);
                    }
                    if self.order().contains(k) && k != name@ {
                        let i = choose|i: int|
                            0 <= i < self.order().len() && self.order()[i] == k;
                        assert(before[i] == k);
                    }
                    assert(self.order()[before.len() as int] == name@);
                }
            }
        }
    }

    /// The node that `name` stands for.
    pub fn get(&self, name: &str) -> (r: Option<NodeId>)
        ensures
            r == node_named(self@, name@),
    {
        match self.nodes.get(name) {
            Some(id) => Some(*id),
            None => None,
        }
    }
}

/// The node that `name` stands for.
pub open spec fn node_named(symbols: Map<Seq<char>, NodeId>, name: Seq<char>) -> Option<NodeId> {
    if symbols.dom().contains(name) {
        Some(symbols[name])
    } else {
        None
    }
}

} // verus!
