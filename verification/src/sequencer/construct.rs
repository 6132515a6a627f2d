//! Building the graph: roots, chains, joins and splices.
use super::{SeqError, Sequencer};
use crate::graph::{Graph, NodeView};
use crate::handle::{MAX_NODES, SeqKey, table_insert, table_slots};
use crate::laws::{law_add_chain_advances, law_add_node_advances, law_inject_advances};
use crate::node::{NodeStatus, SeqNode};
use crate::preservation::{
    law_add_chain_keeps_invariant, law_add_node_keeps_invariant, law_inject_keeps_invariant,
};
use crate::seqs::{distinct, lemma_distinct, lemma_take_next, lemma_without, renamed, without};
use crate::shape::{
    law_add_chain_from_front, law_add_chain_shape, lemma_link_next, lemma_reparent_next,
};
use vstd::prelude::*;

verus! {

impl<I> Sequencer<I> {
    /// Stores a new node without edges and issues its handle.
    fn create_node(&mut self, item: I) -> (key: SeqKey)
        requires
            old(self).repr_ok(),
            old(self).nodes.len() < MAX_NODES,
        ensures
            final(self).repr_ok(),
            !old(self)@.contains(key),
            final(self)@ == (Graph {
                nodes: old(self)@.nodes.insert(key, Graph::blank(item)),
                ..old(self)@
            }),
            final(self).nodes.len() == old(self).nodes.len() + 1,
    {
        let position = self.nodes.len();
        let key = table_insert(&mut self.table, position);
        self.nodes.push(
            SeqNode {
                key,
                parents: Vec::new(),
                children: Vec::new(),
                status: NodeStatus::Inactive,
                item,
            },
        );
        proof {
            assert forall|i: int| 0 <= i < self.nodes.len() implies {
                &&& table_slots(self.table).dom().contains((#[trigger] self.nodes[i]).key.raw)
                &&& table_slots(self.table)[self.nodes[i].key.raw] == i
            } by {
                if i < position {
                    assert(self.nodes[i] == old(self).nodes[i]);
                }
            }
            assert(self@.nodes =~= old(self)@.nodes.insert(key, Graph::blank(item)));
        }
        key
    }

    /// Stores a new node that waits for `parents`, records it as a child of
    /// each of them, and queues it if all of them are `Completed`.
    fn create_node_with_parents(&mut self, parents: Vec<SeqKey>, item: I) -> (key: SeqKey)
        requires
            old(self).repr_ok(),
            old(self).nodes.len() < MAX_NODES,
            old(self)@.contains_all(parents@),
            parents@.no_duplicates(),
            parents.len() > 0,
        ensures
            final(self).repr_ok(),
            !old(self)@.contains(key),
            final(self)@ == old(self)@.add_node(key, parents@, item),
            final(self).nodes.len() == old(self).nodes.len() + 1,
    {
        let ghost before = self@;
        let ready = self.all_completed(&parents);
        let key = self.create_node(item);
        let mut i: usize = 0;
        proof {
            assert(parents@.take(0) =~= Seq::empty());
            assert(self@.nodes =~= before.add_node(key, parents@.take(0), item).nodes.insert(
                key,
                Graph::blank(item),
            ));
        }
        while i < parents.len()
            invariant
                self.repr_ok(),
                i <= parents.len(),
                parents@.no_duplicates(),
                before.contains_all(parents@),
                !before.contains(key),
                self.nodes.len() == old(self).nodes.len() + 1,
                self@ == (Graph {
                    nodes: before.add_node(key, parents@.take(i as int), item).nodes.insert(
                        key,
                        Graph::blank(item),
                    ),
                    ..before
                }),
            decreases parents.len() - i,
        {
            let ghost current = *self;
            proof {
                lemma_link_next(before, key, parents@, item, i as int);
                assert(before.contains(parents@[i as int]));
            }
            match self.position(parents[i]) {
                Some(position) => {
                    self.nodes[position].children.push(key);
                    proof {
                        self.lemma_node_replaced(&current, parents@[i as int]);
                    }
                },
                None => {},
            }
            i += 1;
        }
        let ghost linked = *self;
        proof {
            assert(parents@.take(parents.len() as int) =~= parents@);
        }
        match self.position(key) {
            Some(position) => {
                self.nodes[position].parents = parents;
                proof {
                    self.lemma_node_replaced(&linked, key);
                    assert(linked@.nodes[key] == Graph::blank(item));
                    assert(self.nodes[position as int]@ == before.add_node(
                        key,
                        parents@,
                        item,
                    ).nodes[key]);
                    assert(self@.nodes =~= before.add_node(key, parents@, item).nodes);
                }
            },
            None => {},
        }
        let ghost named = self@;
        if ready {
            self.queued_nodes.push(key);
        }
        proof {
            assert(self@.nodes =~= named.nodes);
            assert(self@.active =~= named.active);
        }
        key
    }

    /// Inserts a new node with no parents and immediately queues it for
    /// processing. Returns the node's handle.
    pub fn new_node(&mut self, item: I) -> (key: SeqKey)
        requires
            old(self).wf(),
            old(self)@.nodes.len() < MAX_NODES,
        ensures
            final(self).wf(),
            !old(self)@.contains(key),
            final(self)@ == old(self)@.add_node(key, Seq::empty(), item),
            final(self)@.queued == old(self)@.queued.push(key),
            old(self)@.advances_to(final(self)@),
    {
        proof {
            self.lemma_dom_len();
        }
        let key = self.create_node(item);
        let ghost created = self@;
        self.roots.push(key);
        self.queued_nodes.push(key);
        proof {
            let g = old(self)@;
            assert(g.all_completed(Seq::empty()));
            assert(self@.nodes =~= created.nodes);
            assert(self@.nodes =~= g.add_node(key, Seq::empty(), item).nodes);
            assert(g.contains_all(Seq::empty()));
            law_add_node_keeps_invariant(g, key, Seq::empty(), item);
            law_add_node_advances(g, key, Seq::empty(), item);
        }
        key
    }

    /// Inserts items to be executed linearly, one after the other, the first
    /// of them once every node in `first` is done. Returns the handle of the
    /// last node.
    fn append_seq(&mut self, first: Vec<SeqKey>, items: Vec<I>) -> (last: SeqKey)
        requires
            old(self).repr_ok(),
            old(self).nodes.len() + items.len() <= MAX_NODES,
            old(self)@.contains_all(first@),
            first@.no_duplicates(),
            first.len() > 0,
            items.len() > 0,
        ensures
            final(self).repr_ok(),
            final(self).nodes.len() == old(self).nodes.len() + items.len(),
            exists|keys: Seq<SeqKey>|
                {
                    &&& old(self)@.fresh(keys)
                    &&& keys.len() == items.len()
                    &&& last == keys.last()
                    &&& #[trigger] old(self)@.add_chain(first@, keys, items@) == final(self)@
                },
    {
        let ghost before = self@;
        let ghost mut keys: Seq<SeqKey> = Seq::empty();
        let ghost origin = first@;
        let mut link = first;
        let mut last: Option<SeqKey> = None;
        for item in it: items
            invariant
                self.repr_ok(),
                it.seq() == items@,
                keys.len() == it.index(),
                before.fresh(keys),
                before.contains_all(origin),
                origin.no_duplicates(),
                origin.len() > 0,
                self.nodes.len() == old(self).nodes.len() + it.index(),
                old(self).nodes.len() + items.len() <= MAX_NODES,
                self@ == before.add_chain(origin, keys, items@.take(it.index() as int)),
                link@ == (if it.index() == 0 {
                    origin
                } else {
                    seq![keys.last()]
                }),
                last == (if it.index() == 0 {
                    None
                } else {
                    Some(keys.last())
                }),
                forall|k: SeqKey| before.contains(k) ==> self@.contains(k),
                forall|j: int| 0 <= j < keys.len() ==> self@.contains(#[trigger] keys[j]),
        {
            let ghost i = it.index() as int;
            let ghost current = self@;
            proof {
                if i > 0 {
                    assert(link@.no_duplicates());
                }
                assert forall|j: int| 0 <= j < link@.len() implies current.contains(
                    #[trigger] link@[j],
                ) by {
                    if i == 0 {
                        assert(before.contains(origin[j]));
                    }
                }
            }
            let key = self.create_node_with_parents(link, item);
            proof {
                let grown = keys.push(key);
                assert(before.fresh(grown)) by {
                    assert forall|a: int, b: int|
                        0 <= a < grown.len() && 0 <= b < grown.len() && a != b implies grown[a]
                        != grown[b] by {
                        if a < i {
                            assert(current.contains(keys[a]));
                        }
                        if b < i {
                            assert(current.contains(keys[b]));
                        }
                    }
                }
                lemma_take_next(items@, i);
                assert(grown.drop_last() =~= keys);
                assert(Graph::<I>::link(origin, grown, i) == link@);
                assert(self@ == before.add_chain(origin, grown, items@.take(i + 1)));
                keys = grown;
            }
            link = vec![key];
            last = Some(key);
            assert(link@ =~= seq![keys.last()]);
        }
        proof {
            assert(items@.take(items@.len() as int) =~= items@);
        }
        last.unwrap()
    }

    /// Inserts items to be executed linearly, one after the other. The first
    /// item is a root and immediately queued for processing. Returns the
    /// handle of the last node in the sequence.
    ///
    /// An empty sequence is refused with `InvalidInput`, and nothing changes.
    pub fn new_seq(&mut self, items: Vec<I>) -> (outcome: Result<SeqKey, SeqError>)
        requires
            old(self).wf(),
            old(self)@.nodes.len() + items.len() <= MAX_NODES,
        ensures
            final(self).wf(),
            items.len() == 0 ==> (outcome matches Err(SeqError::InvalidInput)) && final(self)@
                == old(self)@,
            items.len() > 0 ==> exists|keys: Seq<SeqKey>|
                {
                    &&& old(self)@.fresh(keys)
                    &&& keys.len() == items.len()
                    &&& outcome matches Ok(last) && last == keys.last()
                    &&& #[trigger] old(self)@.add_chain(Seq::empty(), keys, items@) == final(self)@
                },
            old(self)@.advances_to(final(self)@),
    {
        let ghost before = self@;
        let mut rest = items;
        if rest.len() == 0 {
            return Err(SeqError::InvalidInput);
        }
        proof {
            self.lemma_dom_len();
        }
        let root_item = rest.remove(0);
        let root = self.new_node(root_item);
        let ghost rooted = self@;
        proof {
            assert(rest@ =~= items@.drop_first());
        }
        if rest.len() == 0 {
            proof {
                let keys = seq![root];
                law_add_chain_from_front(before, Seq::empty(), keys, items@);
                assert(keys.drop_first() =~= Seq::empty());
                assert(before.add_chain(Seq::empty(), keys, items@) == self@);
                law_add_chain_advances(before, Seq::empty(), keys, items@);
            }
            Ok(root)
        } else {
            let first = vec![root];
            let ghost below = rest@;
            proof {
                self.lemma_dom_len();
                assert(rooted.nodes.dom() =~= before.nodes.dom().insert(root));
                assert(first@ =~= seq![root]);
                assert(rooted.contains(first@[0]));
            }
            let last = self.append_seq(first, rest);
            proof {
                let tail = choose|tail: Seq<SeqKey>|
                    {
                        &&& rooted.fresh(tail)
                        &&& tail.len() == below.len()
                        &&& last == tail.last()
                        &&& #[trigger] rooted.add_chain(seq![root], tail, below) == self@
                    };
                let keys = seq![root] + tail;
                assert(keys.drop_first() =~= tail);
                assert(before.fresh(keys)) by {
                    assert forall|i: int| 0 <= i < keys.len() implies !before.contains(
                        #[trigger] keys[i],
                    ) by {
                        if i > 0 {
                            assert(!rooted.contains(tail[i - 1]));
                        }
                    }
                    assert forall|i: int, j: int|
                        0 <= i < keys.len() && 0 <= j < keys.len() && i != j implies keys[i]
                        != keys[j] by {
                        if i > 0 {
                            assert(!rooted.contains(tail[i - 1]));
                        }
                        if j > 0 {
                            assert(!rooted.contains(tail[j - 1]));
                        }
                    }
                }
                law_add_chain_from_front(before, Seq::empty(), keys, items@);
                assert(before.add_chain(Seq::empty(), keys, items@) == self@);
                assert(before.contains_all(Seq::empty()));
                law_add_chain_keeps_invariant(before, Seq::empty(), keys, items@);
                law_add_chain_advances(before, Seq::empty(), keys, items@);
            }
            Ok(last)
        }
    }

    /// Whether `key` occurs in `keys`.
    fn holds(keys: &Vec<SeqKey>, key: SeqKey) -> (found: bool)
        ensures
            found == keys@.contains(key),
    {
        let mut i: usize = 0;
        while i < keys.len()
            invariant
                i <= keys.len(),
                forall|j: int| 0 <= j < i ==> keys@[j] != key,
            decreases keys.len() - i,
        {
            if keys[i] == key {
                return true;
            }
            i += 1;
        }
        false
    }

    /// The first occurrence of each entry of `keys`, provided that every
    /// entry is a handle of this sequencer.
    fn distinct_known(&self, keys: &Vec<SeqKey>) -> (found: Option<Vec<SeqKey>>)
        requires
            self.repr_ok(),
        ensures
            self@.contains_all(keys@) ==> (found matches Some(list) && list@ == distinct(keys@)),
            !self@.contains_all(keys@) ==> found is None,
    {
        let mut list: Vec<SeqKey> = Vec::new();
        let mut i: usize = 0;
        assert(keys@.take(0) =~= Seq::empty());
        while i < keys.len()
            invariant
                self.repr_ok(),
                i <= keys.len(),
                list@ == distinct(keys@.take(i as int)),
                forall|j: int| 0 <= j < i ==> self@.contains(#[trigger] keys@[j]),
            decreases keys.len() - i,
        {
            let key = keys[i];
            if self.position(key).is_none() {
                assert(!self@.contains(keys@[i as int]));
                return None;
            }
            proof {
                lemma_take_next(keys@, i as int);
            }
            if !Self::holds(&list, key) {
                list.push(key);
            }
            i += 1;
        }
        assert(keys@.take(keys.len() as int) =~= keys@);
        Some(list)
    }

    /// Inserts items to be executed linearly, one after the other, the first
    /// of them once every node in `parents` is done: at once, if all of them
    /// are `Completed` already. A handle named twice counts once. Returns the
    /// handle of the last node in the sequence.
    ///
    /// An empty sequence and an empty set of parents are refused with
    /// `InvalidInput`, a parent that is no node of this sequencer with
    /// `UnknownHandle`. Nothing changes then.
    pub fn new_child_seq(&mut self, parents: Vec<SeqKey>, items: Vec<I>) -> (outcome: Result<
        SeqKey,
        SeqError,
    >)
        requires
            old(self).wf(),
            old(self)@.nodes.len() + items.len() <= MAX_NODES,
        ensures
            final(self).wf(),
            items.len() == 0 || parents.len() == 0 ==> (outcome matches Err(
                SeqError::InvalidInput,
            )) && final(self)@ == old(self)@,
            items.len() > 0 && parents.len() > 0 && !old(self)@.contains_all(parents@) ==> (
            outcome matches Err(SeqError::UnknownHandle)) && final(self)@ == old(self)@,
            items.len() > 0 && parents.len() > 0 && old(self)@.contains_all(parents@)
                ==> exists|keys: Seq<SeqKey>|
                {
                    &&& old(self)@.fresh(keys)
                    &&& keys.len() == items.len()
                    &&& outcome matches Ok(last) && last == keys.last()
                    &&& #[trigger] old(self)@.add_chain(distinct(parents@), keys, items@)
                        == final(self)@
                },
            old(self)@.advances_to(final(self)@),
    {
        let ghost before = self@;
        if items.len() == 0 || parents.len() == 0 {
            return Err(SeqError::InvalidInput);
        }
        match self.distinct_known(&parents) {
            Some(first) => {
                proof {
                    self.lemma_dom_len();
                    lemma_distinct(parents@);
                    assert forall|i: int| 0 <= i < first@.len() implies before.contains(
                        #[trigger] first@[i],
                    ) by {
                        assert(first@.contains(first@[i]));
                        assert(parents@.contains(first@[i]));
                    }
                }
                let last = self.append_seq(first, items);
                proof {
                    let keys = choose|keys: Seq<SeqKey>|
                        {
                            &&& before.fresh(keys)
                            &&& keys.len() == items.len()
                            &&& last == keys.last()
                            &&& #[trigger] before.add_chain(first@, keys, items@) == self@
                        };
                    law_add_chain_keeps_invariant(before, first@, keys, items@);
                    law_add_chain_advances(before, first@, keys, items@);
                }
                Ok(last)
            },
            None => Err(SeqError::UnknownHandle),
        }
    }

    /// In the parents of node `key`, `to` takes the place of `from`.
    fn rename_parent(&mut self, key: SeqKey, from: SeqKey, to: SeqKey)
        requires
            old(self).repr_ok(),
            old(self)@.contains(key),
        ensures
            final(self).repr_ok(),
            final(self).nodes.len() == old(self).nodes.len(),
            final(self)@ == (Graph {
                nodes: old(self)@.nodes.insert(
                    key,
                    NodeView {
                        parents: renamed(old(self)@.parents(key), from, to),
                        ..old(self)@.nodes[key]
                    },
                ),
                ..old(self)@
            }),
    {
        let ghost before = *self;
        match self.position(key) {
            Some(position) => {
                let mut parents: Vec<SeqKey> = Vec::new();
                core::mem::swap(&mut self.nodes[position].parents, &mut parents);
                let ghost given = parents@;
                let mut i: usize = 0;
                while i < parents.len()
                    invariant
                        i <= parents.len(),
                        parents@.len() == given.len(),
                        forall|j: int| 0 <= j < i ==> parents@[j] == renamed(given, from, to)[j],
                        forall|j: int| i <= j < given.len() ==> parents@[j] == given[j],
                    decreases parents.len() - i,
                {
                    if parents[i] == from {
                        parents[i] = to;
                    }
                    i += 1;
                }
                assert(parents@ =~= renamed(given, from, to));
                self.nodes[position].parents = parents;
                proof {
                    self.lemma_node_replaced(&before, key);
                    assert(self@.active =~= before@.active);
                }
            },
            None => {},
        }
    }

    /// The entries of `keys` that do not occur in `banned`, order kept.
    fn without_keys(keys: &Vec<SeqKey>, banned: &Vec<SeqKey>) -> (kept: Vec<SeqKey>)
        ensures
            kept@ == without(keys@, banned@),
    {
        let mut kept: Vec<SeqKey> = Vec::new();
        let mut i: usize = 0;
        assert(keys@.take(0) =~= Seq::empty());
        while i < keys.len()
            invariant
                i <= keys.len(),
                kept@ == without(keys@.take(i as int), banned@),
            decreases keys.len() - i,
        {
            proof {
                lemma_take_next(keys@, i as int);
            }
            if !Self::holds(banned, keys[i]) {
                kept.push(keys[i]);
            }
            i += 1;
        }
        assert(keys@.take(keys.len() as int) =~= keys@);
        kept
    }

    /// Inserts items to be executed linearly, one after the other, between
    /// `parent` and its children: the first item waits for `parent`, and the
    /// children that `parent` had wait for the last item instead. A child that
    /// was queued leaves the queue. Returns the handle of the last node in the
    /// sequence.
    ///
    /// An empty sequence is refused with `InvalidInput`, and so is a parent
    /// that is no node of this sequencer. Nothing changes then.
    pub fn inject_child_seq(&mut self, parent: SeqKey, items: Vec<I>) -> (outcome: Result<
        SeqKey,
        SeqError,
    >)
        requires
            old(self).wf(),
            old(self)@.nodes.len() + items.len() <= MAX_NODES,
        ensures
            final(self).wf(),
            items.len() == 0 || !old(self)@.contains(parent) ==> (outcome matches Err(
                SeqError::InvalidInput,
            )) && final(self)@ == old(self)@,
            items.len() > 0 && old(self)@.contains(parent) ==> exists|keys: Seq<SeqKey>|
                {
                    &&& old(self)@.fresh(keys)
                    &&& keys.len() == items.len()
                    &&& outcome matches Ok(last) && last == keys.last()
                    &&& #[trigger] old(self)@.inject(parent, keys, items@) == final(self)@
                },
            old(self)@.advances_to(final(self)@),
    {
        let ghost before = self@;
        let ghost start = *self;
        if items.len() == 0 {
            return Err(SeqError::InvalidInput);
        }
        match self.position(parent) {
            Some(position) => {
                proof {
                    self.lemma_dom_len();
                }
                let parent_done = self.nodes[position].status == NodeStatus::Completed;
                // Detach children from parent
                let mut orphans: Vec<SeqKey> = Vec::new();
                core::mem::swap(&mut self.nodes[position].children, &mut orphans);
                let ghost cut = self@;
                let first = vec![parent];
                proof {
                    self.lemma_node_replaced(&start, parent);
                    assert(self@.active =~= before.active);
                    assert(cut == before.detach(parent));
                    assert(orphans@ == before.children(parent));
                    assert(first@ =~= seq![parent]);
                    assert(cut.contains(first@[0]));
                }
                // Inject the new sequence
                let last = self.append_seq(first, items);
                let ghost chain = self@;
                let ghost keys = choose|keys: Seq<SeqKey>|
                    {
                        &&& cut.fresh(keys)
                        &&& keys.len() == items.len()
                        &&& last == keys.last()
                        &&& #[trigger] cut.add_chain(seq![parent], keys, items@) == chain
                    };
                proof {
                    assert(cut.nodes.dom() =~= before.nodes.dom());
                    assert(cut.contains_all(seq![parent]));
                    law_add_chain_shape(cut, seq![parent], keys, items@);
                    assert forall|i: int| 0 <= i < orphans@.len() implies chain.contains(
                        #[trigger] orphans@[i],
                    ) by {
                        assert(before.children(parent).contains(orphans@[i]));
                    }
                    assert(keys.contains(keys[keys.len() - 1]));
                    assert(chain.contains(last));
                }
                // The parent's former children wait for the last node of the new sequence
                let mut i: usize = 0;
                proof {
                    assert(orphans@.take(0) =~= Seq::empty());
                    assert(chain.reparent(orphans@.take(0), parent, last).nodes =~= chain.nodes);
                }
                while i < orphans.len()
                    invariant
                        self.repr_ok(),
                        i <= orphans.len(),
                        orphans@.no_duplicates(),
                        forall|j: int| 0 <= j < orphans@.len() ==> chain.contains(
                            #[trigger] orphans@[j],
                        ),
                        self@ == (Graph {
                            nodes: chain.reparent(orphans@.take(i as int), parent, last).nodes,
                            ..chain
                        }),
                    decreases orphans.len() - i,
                {
                    proof {
                        lemma_reparent_next(chain, orphans@, parent, last, i as int);
                    }
                    self.rename_parent(orphans[i], parent, last);
                    i += 1;
                }
                // A child can only have been queued if the parent was done
                if parent_done {
                    let kept = Self::without_keys(&self.queued_nodes, &orphans);
                    self.queued_nodes = kept;
                } else {
                    proof {
                        assert forall|j: int| 0 <= j < chain.queued.len() implies !orphans@.contains(
                            #[trigger] chain.queued[j],
                        ) by {
                            let queued = chain.queued[j];
                            if orphans@.contains(queued) {
                                assert(before.queued.contains(before.queued[j]));
                                assert(before.ready(queued));
                                assert(before.parents(queued).contains(parent));
                                let at = choose|at: int|
                                    0 <= at < before.parents(queued).len() && before.parents(
                                        queued,
                                    )[at] == parent;
                                assert(before.status(before.parents(queued)[at])
                                    == NodeStatus::Completed);
                            }
                        }
                        lemma_without(chain.queued, orphans@);
                    }
                }
                let ghost moved = *self;
                proof {
                    assert(orphans@.take(orphans.len() as int) =~= orphans@);
                    assert(moved@.nodes =~= chain.reparent(orphans@, parent, last).nodes);
                    assert(moved@.active =~= chain.active);
                    assert(moved@.queued == without(chain.queued, orphans@));
                }
                match self.position(last) {
                    Some(end) => {
                        self.nodes[end].children = orphans;
                        proof {
                            self.lemma_node_replaced(&moved, last);
                            assert(self@.active =~= chain.active);
                            assert(self@ == chain.adopt(last, parent, orphans@));
                            assert(before.fresh(keys));
                            assert(before.inject(parent, keys, items@) == self@);
                            law_inject_keeps_invariant(before, parent, keys, items@);
                            law_inject_advances(before, parent, keys, items@);
                        }
                    },
                    None => {},
                }
                Ok(last)
            },
            None => Err(SeqError::InvalidInput),
        }
    }
}

} // verus!
