use vstd::prelude::*;

use std::collections::HashMap;

use crate::IntersectionID;

verus! {

broadcast use vstd::std_specs::hash::group_hash_axioms;

/// A bidirectional mapping between intersections and the dense node ids the
/// routing engine uses. Node ids are assigned monotonically from 0.
pub struct NodeMap {
    node_to_id: HashMap<usize, usize>,
    id_to_node: Vec<IntersectionID>,
}

impl View for NodeMap {
    type V = Seq<IntersectionID>;

    closed spec fn view(&self) -> Seq<IntersectionID> {
        self.id_to_node@
    }
}

impl NodeMap {
    /// Both directions of the mapping agree and node ids are dense.
    pub closed spec fn wf(&self) -> bool {
        &&& forall|k: usize|
            self.node_to_id@.contains_key(k) ==> #[trigger] self.node_to_id@[k]
                < self.id_to_node@.len() && self.id_to_node@[self.node_to_id@[k] as int].0 == k
        &&& forall|i: int|
            0 <= i < self.id_to_node@.len() ==> self.node_to_id@.contains_key(
                (#[trigger] self.id_to_node@[i]).0,
            ) && self.node_to_id@[self.id_to_node@[i].0] == i
    }

    pub fn new() -> (r: NodeMap)
        ensures
            r.wf(),
            r@ =~= Seq::<IntersectionID>::empty(),
    {
        NodeMap { node_to_id: HashMap::new(), id_to_node: Vec::new() }
    }

    pub fn len(&self) -> (n: usize)
        ensures
            n == self@.len(),
    {
        self.id_to_node.len()
    }

    /// Returns the node id of `node`, assigning the next dense id on first
    /// sight.
    pub fn get_or_insert(&mut self, node: IntersectionID) -> (id: usize)
        requires
            old(self).wf(),
        ensures
            final(self).wf(),
            id < final(self)@.len(),
            final(self)@[id as int] == node,
            if old(self)@.contains(node) {
                final(self)@ == old(self)@
            } else {
                final(self)@ == old(self)@.push(node)
            },
            old(self)@.len() <= final(self)@.len(),
            forall|i: int| 0 <= i < old(self)@.len() ==> final(self)@[i] == old(self)@[i],
    {
        if let Some(found) = self.node_to_id.get(&node.0) {
            let id = *found;
            proof {
                assert(self.id_to_node@[id as int].0 == node.0);
                assert(self.id_to_node@[id as int] == node);
                assert(self@.contains(node));
            }
            return id;
        }
        let id = self.id_to_node.len();
        proof {
            if self@.contains(node) {
                let i = choose|i: int| 0 <= i < self@.len() && self@[i] == node;
                assert(self.node_to_id@.contains_key(self.id_to_node@[i].0));
                assert(false);
            }
        }
        self.node_to_id.insert(node.0, id);
        self.id_to_node.push(node);
        id
    }

    /// Looks a node up without inserting.
    pub fn get(&self, node: IntersectionID) -> (r: Option<usize>)
        requires
            self.wf(),
        ensures
            match r {
                Some(id) => id < self@.len() && self@[id as int] == node,
                None => !self@.contains(node),
            },
    {
        match self.node_to_id.get(&node.0) {
            Some(found) => {
                let id = *found;
                proof {
                    assert(self.id_to_node@[id as int].0 == node.0);
                }
                Some(id)
            },
            None => {
                proof {
                    if self@.contains(node) {
                        let i = choose|i: int| 0 <= i < self@.len() && self@[i] == node;
                        assert(self.node_to_id@.contains_key(self.id_to_node@[i].0));
                        assert(false);
                    }
                }
                None
            },
        }
    }

    /// The mapping is bidirectional: no intersection holds two dense ids.
    pub proof fn lemma_view_distinct(&self)
        requires
            self.wf(),
        ensures
            forall|i1: int, i2: int|
                0 <= i1 < i2 < self@.len() ==> self@[i1] != self@[i2],
    {
        assert forall|i1: int, i2: int| 0 <= i1 < i2 < self@.len() implies self@[i1]
            != self@[i2] by {
            if self@[i1] == self@[i2] {
                assert(self.node_to_id@[self.id_to_node@[i1].0] == i1);
                assert(self.node_to_id@[self.id_to_node@[i2].0] == i2);
            }
        }
    }

    /// The intersection a dense node id stands for.
    pub fn translate_id(&self, id: usize) -> (r: IntersectionID)
        requires
            id < self@.len(),
        ensures
            r == self@[id as int],
    {
        self.id_to_node[id]
    }
}

} // verus!
