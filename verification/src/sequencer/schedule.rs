//! Running the graph: draining the ready queue, scanning the active set and
//! reporting completions.
use super::{SeqError, Sequencer};
use crate::graph::Graph;
use crate::handle::SeqKey;
use crate::laws::{law_drain_advances, law_finish_all_advances};
use crate::node::{NodeStatus, SeqNode};
use crate::preservation::{law_drain_keeps_invariant, law_finish_keeps_invariant};
use crate::seqs::{lemma_push_contains, lemma_push_no_duplicates, lemma_take_next};
use crate::shape::lemma_activate_next;
use vstd::prelude::*;

verus! {

broadcast use vstd::std_specs::hash::group_hash_axioms;

impl<I> Sequencer<I> {
    /// Whether a node has not started and waits for nothing.
    fn is_ready(&self, key: SeqKey) -> (ready: bool)
        requires
            self.repr_ok(),
            self@.edges_paired(),
            self@.contains(key),
        ensures
            ready == self@.ready(key),
    {
        match self.position(key) {
            Some(position) => {
                proof {
                    let parents = self@.parents(key);
                    assert forall|i: int| 0 <= i < parents.len() implies self@.contains(
                        #[trigger] parents[i],
                    ) by {
                        assert(parents.contains(parents[i]));
                    }
                }
                self.nodes[position].status == NodeStatus::Inactive && self.all_completed(
                    &self.nodes[position].parents,
                )
            },
            None => false,
        }
    }

    /// Queues all children of a node that are ready, in the order in which
    /// the node lists them.
    fn queue_ready_children(&mut self, key: SeqKey)
        requires
            old(self).repr_ok(),
            old(self)@.edges_paired(),
            old(self)@.contains(key),
        ensures
            final(self).repr_ok(),
            final(self)@ == (Graph {
                queued: old(self)@.queued + old(self)@.ready_among(old(self)@.children(key)),
                ..old(self)@
            }),
    {
        let ghost before = self@;
        let ghost children = self@.children(key);
        match self.position(key) {
            Some(position) => {
                let count = self.nodes[position].children.len();
                let mut i: usize = 0;
                assert(children.take(0) =~= Seq::empty());
                assert(self@.queued =~= before.queued + before.ready_among(children.take(0)));
                while i < count
                    invariant
                        self.repr_ok(),
                        position == self.pos(key),
                        position < self.nodes.len(),
                        self.nodes[position as int].children@ == children,
                        count == children.len(),
                        i <= count,
                        before.edges_paired(),
                        before.contains(key),
                        before.children(key) == children,
                        self@ == (Graph {
                            queued: before.queued + before.ready_among(children.take(i as int)),
                            ..before
                        }),
                    decreases count - i,
                {
                    let child = self.nodes[position].children[i];
                    proof {
                        assert(children.contains(children[i as int]));
                        lemma_take_next(children, i as int);
                    }
                    let ghost current = self@;
                    assert(current.ready(child) == before.ready(child));
                    if self.is_ready(child) {
                        self.queued_nodes.push(child);
                        proof {
                            assert(self@.nodes =~= current.nodes);
                            assert(self@.active =~= current.active);
                            assert(self@.queued =~= before.queued + before.ready_among(
                                children.take(i + 1),
                            ));
                        }
                    }
                    i += 1;
                }
                assert(children.take(count as int) =~= children);
            },
            None => {},
        }
    }

    /// Moves a node on in its life cycle, from `Inactive` to `Active` or from
    /// `Active` to `Completed`, and keeps the active set in step. No other
    /// change of status is made.
    fn set_node_status(&mut self, key: SeqKey, new_status: NodeStatus)
        requires
            old(self).repr_ok(),
            old(self)@.contains(key),
        ensures
            final(self).repr_ok(),
            final(self)@ == (match (old(self)@.status(key), new_status) {
                (NodeStatus::Active, NodeStatus::Completed) => old(self)@.complete(key),
                (NodeStatus::Inactive, NodeStatus::Active) => old(self)@.start(key),
                _ => old(self)@,
            }),
    {
        let ghost before = *self;
        match self.position(key) {
            Some(position) => {
                match (self.nodes[position].status, new_status) {
                    (NodeStatus::Active, NodeStatus::Completed) => {
                        self.active_nodes.remove(&key.raw);
                        self.nodes[position].status = new_status;
                        proof {
                            self.lemma_node_replaced(&before, key);
                            assert(self@.active =~= before@.active.remove(key));
                        }
                    },
                    (NodeStatus::Inactive, NodeStatus::Active) => {
                        self.active_nodes.insert(key.raw);
                        self.nodes[position].status = new_status;
                        proof {
                            self.lemma_node_replaced(&before, key);
                            assert(self@.active =~= before@.active.insert(key));
                        }
                    },
                    _ => {},
                }
            },
            None => {},
        }
    }

    /// Mark that a node is finished executing: an `Active` node becomes
    /// `Completed`, and its children that are thereby ready are queued. A node
    /// in any other status is left as it is.
    pub fn node_finished(&mut self, key: SeqKey) -> (outcome: Result<(), SeqError>)
        requires
            old(self).wf(),
        ensures
            final(self).wf(),
            old(self)@.contains(key) ==> outcome is Ok && final(self)@ == old(self)@.finish(key),
            !old(self)@.contains(key) ==> (outcome matches Err(SeqError::UnknownHandle))
                && final(self)@ == old(self)@,
            old(self)@.advances_to(final(self)@),
    {
        match self.position(key) {
            Some(position) => {
                if self.nodes[position].status == NodeStatus::Active {
                    self.set_node_status(key, NodeStatus::Completed);
                    self.queue_ready_children(key);
                    proof {
                        law_finish_keeps_invariant(old(self)@, key);
                    }
                }
                Ok(())
            },
            None => Err(SeqError::UnknownHandle),
        }
    }

    /// Drains the queue of nodes to process: calls `f` with the handle and
    /// the item of each queued node, oldest entry first, and marks all of them
    /// `Active`.
    pub fn drain_queue<F: FnMut(SeqKey, &I)>(&mut self, mut f: F)
        requires
            old(self).wf(),
            forall|key: SeqKey, item: &I| call_requires(f, (key, item)),
        ensures
            final(self).wf(),
            final(self)@ == old(self)@.drain(),
            old(self)@.advances_to(final(self)@),
            forall|i: int|
                0 <= i < old(self)@.queued.len() ==> call_ensures(
                    f,
                    (#[trigger] old(self)@.queued[i], &old(self)@.nodes[old(self)@.queued[i]].item),
                    (),
                ),
    {
        let ghost before = self@;
        let ghost visitor = f;
        let mut queued_nodes: Vec<SeqKey> = Vec::new();
        core::mem::swap(&mut self.queued_nodes, &mut queued_nodes);
        let mut i: usize = 0;
        proof {
            assert(queued_nodes@.take(0) =~= Seq::empty());
            assert(self@.nodes =~= before.activate(queued_nodes@.take(0)).nodes);
            assert(self@.active =~= before.activate(queued_nodes@.take(0)).active);
        }
        while i < queued_nodes.len()
            invariant
                self.repr_ok(),
                before.wf(),
                before.queued == queued_nodes@,
                i <= queued_nodes.len(),
                f == visitor,
                forall|key: SeqKey, item: &I| call_requires(f, (key, item)),
                self@ == (Graph {
                    queued: Seq::empty(),
                    ..before.activate(queued_nodes@.take(i as int))
                }),
                forall|j: int|
                    0 <= j < i ==> call_ensures(
                        f,
                        (#[trigger] before.queued[j], &before.nodes[before.queued[j]].item),
                        (),
                    ),
            decreases queued_nodes.len() - i,
        {
            let key = queued_nodes[i];
            proof {
                assert(before.queued.contains(queued_nodes@[i as int]));
                assert(before.ready(key));
                lemma_activate_next(before, queued_nodes@, i as int);
            }
            self.set_node_status(key, NodeStatus::Active);
            match self.position(key) {
                Some(position) => {
                    let node = &self.nodes[position];
                    assert(node.item == self@.nodes[key].item);
                    assert(self@.nodes[key].item == before.nodes[key].item);
                    f(node.key, &node.item);
                },
                None => {},
            }
            i += 1;
        }
        proof {
            assert(queued_nodes@.take(queued_nodes.len() as int) =~= queued_nodes@);
            law_drain_keeps_invariant(before);
            law_drain_advances(before);
        }
    }

    /// The handles of the nodes in the active set, each once, in the order in
    /// which the set hands them out.
    fn active_keys(&self) -> (keys: Vec<SeqKey>)
        ensures
            keys@.no_duplicates(),
            forall|k: SeqKey| keys@.contains(k) <==> self@.active.contains(k),
    {
        let mut keys: Vec<SeqKey> = Vec::new();
        for raw in it: self.active_nodes.iter()
            invariant
                it.seq().no_duplicates(),
                it.seq().unref().to_set() == self.active_nodes@,
                keys@.len() == it.index(),
                forall|j: int| 0 <= j < it.index() ==> (#[trigger] keys@[j]).raw == *it.seq()[j],
                keys@.no_duplicates(),
                forall|j: int|
                    0 <= j < keys@.len() ==> self.active_nodes@.contains((#[trigger] keys@[j]).raw),
                forall|raw: u64| #[trigger]
                    self.active_nodes@.contains(raw) ==> keys@.contains(SeqKey { raw }) || exists|
                        j: int,
                    |
                        it.index() <= j < it.seq().len() && *(#[trigger] it.seq()[j]) == raw,
        {
            let ghost sofar = keys@;
            let ghost at = it.index();
            keys.push(SeqKey { raw: *raw });
            proof {
                let raws = it.seq().unref();
                assert(raws[at] == *raw);
                assert(raws.to_set().contains(raws[at]));
                assert(!sofar.contains(SeqKey { raw: *raw })) by {
                    if sofar.contains(SeqKey { raw: *raw }) {
                        let j = choose|j: int| 0 <= j < sofar.len() && sofar[j] == SeqKey { raw: *raw };
                        assert(*it.seq()[j] == *it.seq()[at]);
                    }
                }
                lemma_push_no_duplicates(sofar, SeqKey { raw: *raw });
                assert forall|r: u64| #[trigger] self.active_nodes@.contains(r) implies keys@.contains(
                    SeqKey { raw: r },
                ) || exists|j: int|
                    at + 1 <= j < it.seq().len() && *(#[trigger] it.seq()[j]) == r by {
                    lemma_push_contains(sofar, SeqKey { raw: *raw }, SeqKey { raw: r });
                    if !sofar.contains(SeqKey { raw: r }) && r != *raw {
                        let j = choose|j: int|
                            at <= j < it.seq().len() && *(#[trigger] it.seq()[j]) == r;
                        assert(j != at);
                    }
                }
            }
        }
        proof {
            assert forall|k: SeqKey| keys@.contains(k) <==> self@.active.contains(k) by {
                if keys@.contains(k) {
                    let j = choose|j: int| 0 <= j < keys@.len() && keys@[j] == k;
                    assert(self.active_nodes@.contains(keys@[j].raw));
                }
                if self@.active.contains(k) {
                    assert(self.active_nodes@.contains(k.raw));
                    assert(SeqKey { raw: k.raw } == k);
                }
            }
        }
        keys
    }

    /// All nodes that are currently active, each once, in no particular
    /// order.
    pub fn iter_active(&self) -> (nodes: Vec<&SeqNode<I>>)
        requires
            self.wf(),
        ensures
            nodes.len() == self@.active.len(),
            forall|i: int|
                0 <= i < nodes.len() ==> self@.active.contains((#[trigger] nodes@[i]).handle())
                    && nodes@[i]@ == self@.nodes[nodes@[i].handle()],
            forall|i: int, j: int|
                0 <= i < nodes.len() && 0 <= j < nodes.len() && i != j ==> nodes@[i].handle()
                    != nodes@[j].handle(),
            forall|k: SeqKey|
                self@.active.contains(k) ==> exists|i: int|
                    0 <= i < nodes.len() && (#[trigger] nodes@[i]).handle() == k,
    {
        let keys = self.active_keys();
        let mut nodes: Vec<&SeqNode<I>> = Vec::new();
        let mut i: usize = 0;
        while i < keys.len()
            invariant
                self.wf(),
                i <= keys.len(),
                nodes.len() == i,
                forall|k: SeqKey| keys@.contains(k) <==> self@.active.contains(k),
                forall|j: int|
                    0 <= j < i ==> (#[trigger] nodes@[j]).key == keys@[j] && nodes@[j]@
                        == self@.nodes[keys@[j]],
            decreases keys.len() - i,
        {
            assert(keys@.contains(keys@[i as int]));
            match self.position(keys[i]) {
                Some(position) => {
                    nodes.push(&self.nodes[position]);
                },
                None => {},
            }
            i += 1;
        }
        proof {
            keys@.unique_seq_to_set();
            assert(keys@.to_set() =~= self@.active);
            assert forall|k: SeqKey| self@.active.contains(k) implies exists|i: int|
                0 <= i < nodes.len() && (#[trigger] nodes@[i]).key == k by {
                let j = choose|j: int| 0 <= j < keys@.len() && keys@[j] == k;
                assert(nodes@[j].key == k);
            }
            assert forall|i: int| 0 <= i < nodes.len() implies self@.active.contains(
                (#[trigger] nodes@[i]).key,
            ) && nodes@[i]@ == self@.nodes[nodes@[i].key] by {
                assert(keys@.contains(keys@[i]));
            }
        }
        nodes
    }

    /// Calls `f` with the handle and the item of every node that is active,
    /// each once, in no particular order. A node for which `f` returns `true`
    /// is finished there and then, as by `node_finished`. Returns the handles
    /// of the nodes finished, in the order in which they were.
    pub fn scan_active<F: FnMut(SeqKey, &I) -> bool>(&mut self, mut f: F) -> (done: Vec<SeqKey>)
        requires
            old(self).wf(),
            forall|key: SeqKey, item: &I| call_requires(f, (key, item)),
        ensures
            final(self).wf(),
            done@.no_duplicates(),
            forall|i: int| 0 <= i < done.len() ==> old(self)@.active.contains(#[trigger] done@[i]),
            final(self)@ == old(self)@.finish_all(done@),
            old(self)@.advances_to(final(self)@),
            forall|i: int|
                0 <= i < done.len() ==> call_ensures(
                    f,
                    (#[trigger] done@[i], &old(self)@.nodes[done@[i]].item),
                    true,
                ),
            forall|k: SeqKey|
                old(self)@.active.contains(k) && !done@.contains(k) ==> call_ensures(
                    f,
                    (k, &old(self)@.nodes[k].item),
                    false,
                ),
    {
        let ghost before = self@;
        let ghost visitor = f;
        let keys = self.active_keys();
        let mut done: Vec<SeqKey> = Vec::new();
        let mut i: usize = 0;
        proof {
            assert forall|j: int| 0 <= j < keys.len() implies self@.status(#[trigger] keys@[j])
                == NodeStatus::Active by {
                assert(keys@.contains(keys@[j]));
            }
        }
        while i < keys.len()
            invariant
                self.wf(),
                before.wf(),
                f == visitor,
                i <= keys.len(),
                keys@.no_duplicates(),
                forall|k: SeqKey| keys@.contains(k) <==> before.active.contains(k),
                forall|key: SeqKey, item: &I| call_requires(f, (key, item)),
                done@.no_duplicates(),
                forall|j: int|
                    0 <= j < done.len() ==> keys@.take(i as int).contains(#[trigger] done@[j]),
                self@ == before.finish_all(done@),
                forall|k: SeqKey|
                    before.contains(k) ==> self@.contains(k) && self@.nodes[k].item
                        == before.nodes[k].item,
                forall|j: int|
                    i <= j < keys.len() ==> self@.status(#[trigger] keys@[j])
                        == NodeStatus::Active,
                forall|j: int|
                    0 <= j < done.len() ==> call_ensures(
                        f,
                        (#[trigger] done@[j], &before.nodes[done@[j]].item),
                        true,
                    ),
                forall|j: int|
                    0 <= j < i && !done@.contains(keys@[j]) ==> call_ensures(
                        f,
                        (#[trigger] keys@[j], &before.nodes[keys@[j]].item),
                        false,
                    ),
            decreases keys.len() - i,
        {
            let key = keys[i];
            let ghost current = self@;
            let ghost sofar = done@;
            proof {
                assert(keys@.contains(keys@[i as int]));
                assert(before.contains(key));
                lemma_take_next(keys@, i as int);
                assert forall|k: SeqKey|
                    keys@.take(i + 1).contains(k) <==> keys@.take(i as int).contains(k) || k
                        == key by {
                    lemma_push_contains(keys@.take(i as int), key, k);
                }
                assert(!keys@.take(i as int).contains(key)) by {
                    if keys@.take(i as int).contains(key) {
                        let j = choose|j: int| 0 <= j < i && keys@.take(i as int)[j] == key;
                        assert(keys@[j] == keys@[i as int]);
                    }
                }
            }
            let finished = match self.position(key) {
                Some(position) => {
                    let node = &self.nodes[position];
                    f(node.key, &node.item)
                },
                None => false,
            };
            if finished {
                let _ = self.node_finished(key);
                done.push(key);
                proof {
                    assert(done@.drop_last() =~= sofar);
                    assert(self@ == before.finish_all(done@));
                    lemma_push_no_duplicates(sofar, key);
                    assert forall|j: int| i + 1 <= j < keys.len() implies self@.status(
                        #[trigger] keys@[j],
                    ) == NodeStatus::Active by {
                        assert(keys@[j] != keys@[i as int]);
                    }
                    assert forall|j: int| 0 <= j < i + 1 && !done@.contains(
                        keys@[j],
                    ) implies call_ensures(
                        f,
                        (#[trigger] keys@[j], &before.nodes[keys@[j]].item),
                        false,
                    ) by {
                        lemma_push_contains(sofar, key, keys@[j]);
                    }
                }
            } else {
                proof {
                    assert forall|j: int| 0 <= j < i + 1 && !done@.contains(
                        keys@[j],
                    ) implies call_ensures(
                        f,
                        (#[trigger] keys@[j], &before.nodes[keys@[j]].item),
                        false,
                    ) by {}
                }
            }
            i += 1;
        }
        proof {
            law_finish_all_advances(before, done@);
            assert(keys@.take(keys.len() as int) =~= keys@);
            assert forall|k: SeqKey|
                before.active.contains(k) && !done@.contains(k) implies call_ensures(
                f,
                (k, &before.nodes[k].item),
                false,
            ) by {
                let j = choose|j: int| 0 <= j < keys@.len() && keys@[j] == k;
                assert(keys@[j] == k);
            }
        }
        done
    }

    /// Whether any node is queued or active.
    pub fn has_pending(&self) -> (pending: bool)
        ensures
            pending == self@.pending(),
    {
        proof {
            if self.active_nodes@ =~= Set::empty() {
                assert(self@.active =~= Set::empty());
            } else {
                let raw = choose|raw: u64| self.active_nodes@.contains(raw);
                assert(self@.active.contains(SeqKey { raw }));
            }
        }
        self.queued_nodes.len() > 0 || !self.active_nodes.is_empty()
    }
}

} // verus!
