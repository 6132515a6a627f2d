//! The sequencer: the graph in memory, and how it is read.
//!
//! The operations that build the graph are in [`construct`], those that run
//! it in [`schedule`].
use crate::graph::Graph;
use crate::handle::{GENERATION_BIT, HandleTable, SeqKey, table_get, table_new, table_slots};
use crate::node::{NodeStatus, SeqNode};
use std::collections::HashSet;
use vstd::prelude::*;

mod construct;
mod schedule;

verus! {

broadcast use vstd::std_specs::hash::group_hash_axioms;

/// Why an operation was refused.
#[derive(Clone, Copy, Debug, PartialEq, Eq, Structural)]
pub enum SeqError {
    /// An empty sequence of items, or an empty set of parents.
    InvalidInput,
    /// A handle that this sequencer did not issue.
    UnknownHandle,
}

/// A dependency graph of items, with the queue of the nodes that are ready to
/// start and the set of those being processed.
#[derive(Debug)]
pub struct Sequencer<I> {
    /// All root nodes.
    roots: Vec<SeqKey>,
    /// The position in `nodes` of each handle issued.
    table: HandleTable,
    /// Storage of all nodes of the graph.
    nodes: Vec<SeqNode<I>>,
    /// All nodes ready for processing.
    queued_nodes: Vec<SeqKey>,
    /// All nodes that are currently running.
    active_nodes: HashSet<u64>,
}

impl<I> View for Sequencer<I> {
    type V = Graph<I>;

    closed spec fn view(&self) -> Graph<I> {
        Graph {
            nodes: Map::new(|k: SeqKey| self.has(k), |k: SeqKey| self.nodes[self.pos(k)]@),
            roots: self.roots@,
            queued: self.queued_nodes@,
            active: Set::new(|k: SeqKey| self.active_nodes@.contains(k.raw)),
        }
    }
}

impl<I> Sequencer<I> {
    /// The handle table holds `key`.
    spec fn has(&self, key: SeqKey) -> bool {
        table_slots(self.table).dom().contains(key.raw)
    }

    /// Where the node of `key` is stored.
    spec fn pos(&self, key: SeqKey) -> int {
        table_slots(self.table)[key.raw] as int
    }

    /// The handle table and the node storage agree: each handle issued leads
    /// to the one node that carries it.
    pub closed spec fn repr_ok(&self) -> bool {
        &&& table_slots(self.table).dom().finite()
        &&& table_slots(self.table).dom().len() == self.nodes.len()
        &&& forall|raw: u64| #[trigger]
            table_slots(self.table).dom().contains(raw) ==> {
                &&& raw & GENERATION_BIT != 0
                &&& table_slots(self.table)[raw] < self.nodes.len()
                &&& self.nodes[table_slots(self.table)[raw] as int].key.raw == raw
            }
        &&& forall|i: int|
            0 <= i < self.nodes.len() ==> {
                &&& table_slots(self.table).dom().contains((#[trigger] self.nodes[i]).key.raw)
                &&& table_slots(self.table)[self.nodes[i].key.raw] == i
            }
    }

    /// The invariant of a sequencer: its storage is consistent, and the graph
    /// it stands for satisfies the invariant of graphs.
    pub open spec fn wf(&self) -> bool {
        &&& self.repr_ok()
        &&& self@.wf()
    }

    /// The graph has as many nodes as the storage.
    proof fn lemma_dom_len(&self)
        requires
            self.repr_ok(),
        ensures
            self@.nodes.dom().finite(),
            self@.nodes.dom().len() == self.nodes.len(),
    {
        let raws = table_slots(self.table).dom();
        let keys = self@.nodes.dom();
        let f = |raw: u64| SeqKey { raw };
        assert(keys =~= raws.map(f)) by {
            assert forall|k: SeqKey| keys.contains(k) <==> raws.map(f).contains(k) by {
                if keys.contains(k) {
                    assert(raws.contains(k.raw) && f(k.raw) == k);
                }
            }
        }
        vstd::set_lib::lemma_map_size(raws, keys, f);
        raws.lemma_map_finite(f);
    }

    /// Replacing the node of one handle, and nothing else in storage, replaces
    /// that node in the graph.
    proof fn lemma_node_replaced(&self, before: &Self, key: SeqKey)
        requires
            before.repr_ok(),
            before.has(key),
            self.table == before.table,
            self.nodes.len() == before.nodes.len(),
            self.nodes[before.pos(key)].key == key,
            forall|i: int|
                0 <= i < before.nodes.len() && i != before.pos(key) ==> self.nodes[i]
                    == before.nodes[i],
        ensures
            self.repr_ok(),
            self@.nodes == before@.nodes.insert(key, self.nodes[before.pos(key)]@),
    {
        assert(before.nodes[before.pos(key)].key == key);
        assert forall|i: int| 0 <= i < self.nodes.len() implies self.nodes[i].key
            == before.nodes[i].key by {}
        assert(self@.nodes =~= before@.nodes.insert(key, self.nodes[before.pos(key)]@));
    }

    /// The node stored for a handle.
    fn position(&self, key: SeqKey) -> (position: Option<usize>)
        requires
            self.repr_ok(),
        ensures
            self@.contains(key) <==> position is Some,
            position is Some ==> position.unwrap() == self.pos(key) && self.pos(key)
                < self.nodes.len() && self.nodes[self.pos(key)].key == key,
    {
        let raw: u64 = key.raw;
        if raw & GENERATION_BIT == 0 {
            None
        } else {
            assert(raw | GENERATION_BIT == raw) by (bit_vector)
                requires
                    raw & GENERATION_BIT != 0,
            ;
            table_get(&self.table, key)
        }
    }

    /// The number of nodes created so far.
    pub fn len(&self) -> (count: usize)
        requires
            self.wf(),
        ensures
            count == self@.nodes.len(),
    {
        proof {
            assert(self@.nodes.dom() =~= Set::new(|k: SeqKey| self.has(k)));
            self.lemma_dom_len();
        }
        self.nodes.len()
    }

    /// The root nodes, in creation order.
    pub fn roots(&self) -> (roots: &Vec<SeqKey>)
        ensures
            roots@ == self@.roots,
    {
        &self.roots
    }

    /// The nodes ready for processing, oldest entry first.
    pub fn queued_nodes(&self) -> (queued: &Vec<SeqKey>)
        ensures
            queued@ == self@.queued,
    {
        &self.queued_nodes
    }

    /// The node of a handle, if this sequencer issued the handle.
    pub fn get(&self, key: SeqKey) -> (found: Option<&SeqNode<I>>)
        requires
            self.wf(),
        ensures
            self@.contains(key) ==> (found matches Some(node) && node.handle() == key && node@
                == self@.nodes[key]),
            !self@.contains(key) ==> found is None,
    {
        match self.position(key) {
            Some(position) => Some(&self.nodes[position]),
            None => None,
        }
    }

    /// Whether every node named in `keys` is `Completed`.
    fn all_completed(&self, keys: &Vec<SeqKey>) -> (done: bool)
        requires
            self.repr_ok(),
            self@.contains_all(keys@),
        ensures
            done == self@.all_completed(keys@),
    {
        let mut i: usize = 0;
        while i < keys.len()
            invariant
                self.repr_ok(),
                self@.contains_all(keys@),
                i <= keys.len(),
                forall|j: int|
                    0 <= j < i ==> self@.status(#[trigger] keys@[j]) == NodeStatus::Completed,
            decreases keys.len() - i,
        {
            assert(self@.contains(keys@[i as int]));
            match self.position(keys[i]) {
                Some(position) => {
                    if self.nodes[position].status != NodeStatus::Completed {
                        assert(self@.status(keys@[i as int]) != NodeStatus::Completed);
                        return false;
                    }
                },
                None => {},
            }
            i += 1;
        }
        true
    }
}

impl<I> Default for Sequencer<I> {
    /// The sequencer without nodes.
    fn default() -> (fresh: Self)
        ensures
            fresh.wf(),
            fresh@ == Graph::<I>::empty(),
    {
        let fresh = Sequencer {
            roots: Vec::new(),
            table: table_new(),
            nodes: Vec::new(),
            queued_nodes: Vec::new(),
            active_nodes: HashSet::new(),
        };
        proof {
            assert(fresh@.nodes =~= Map::empty());
            assert(fresh@.active =~= Set::empty());
        }
        fresh
    }
}

} // verus!
