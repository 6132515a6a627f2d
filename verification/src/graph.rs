//! The mathematical model of a sequencer: a graph of nodes with a ready queue
//! and an active set, and the transitions that the operations perform on it.
use crate::handle::SeqKey;
use crate::node::NodeStatus;
use crate::seqs::{renamed, without};
use vstd::prelude::*;

verus! {

/// What a node is, as a mathematical value.
pub struct NodeView<I> {
    /// The nodes this node waits for.
    pub parents: Seq<SeqKey>,
    /// The nodes that wait for this node.
    pub children: Seq<SeqKey>,
    /// Where the node stands in its life cycle.
    pub status: NodeStatus,
    /// The payload.
    pub item: I,
}

/// What a sequencer is, as a mathematical value.
pub struct Graph<I> {
    /// Every node ever created, by handle.
    pub nodes: Map<SeqKey, NodeView<I>>,
    /// The nodes without parents, in creation order.
    pub roots: Seq<SeqKey>,
    /// The ready queue, oldest entry first.
    pub queued: Seq<SeqKey>,
    /// The nodes being processed.
    pub active: Set<SeqKey>,
}

impl<I> Graph<I> {
    /// The graph without nodes.
    pub open spec fn empty() -> Self {
        Graph { nodes: Map::empty(), roots: Seq::empty(), queued: Seq::empty(), active: Set::empty() }
    }

    /// `key` is a node of the graph.
    #[verifier::inline]
    pub open spec fn contains(self, key: SeqKey) -> bool {
        self.nodes.dom().contains(key)
    }

    /// The status of node `key`.
    #[verifier::inline]
    pub open spec fn status(self, key: SeqKey) -> NodeStatus {
        self.nodes[key].status
    }

    /// The nodes that node `key` waits for.
    #[verifier::inline]
    pub open spec fn parents(self, key: SeqKey) -> Seq<SeqKey> {
        self.nodes[key].parents
    }

    /// The nodes that wait for node `key`.
    #[verifier::inline]
    pub open spec fn children(self, key: SeqKey) -> Seq<SeqKey> {
        self.nodes[key].children
    }

    /// Every entry of `keys` is a node of the graph.
    pub open spec fn contains_all(self, keys: Seq<SeqKey>) -> bool {
        forall|i: int| 0 <= i < keys.len() ==> self.contains(#[trigger] keys[i])
    }

    /// No entry of `keys` is a node of the graph, and no two entries are equal.
    pub open spec fn fresh(self, keys: Seq<SeqKey>) -> bool {
        &&& keys.no_duplicates()
        &&& forall|i: int| 0 <= i < keys.len() ==> !self.contains(#[trigger] keys[i])
    }

    /// Every node named in `keys` is `Completed`.
    pub open spec fn all_completed(self, keys: Seq<SeqKey>) -> bool {
        forall|i: int| 0 <= i < keys.len() ==> self.status(#[trigger] keys[i]) == NodeStatus::Completed
    }

    /// Readiness: the node has not started and waits for nothing.
    pub open spec fn ready(self, key: SeqKey) -> bool {
        &&& self.contains(key)
        &&& self.status(key) == NodeStatus::Inactive
        &&& self.all_completed(self.parents(key))
    }

    /// Something is queued or being processed.
    pub open spec fn pending(self) -> bool {
        self.queued.len() > 0 || !(self.active =~= Set::empty())
    }

    // ------------------------------------------------------------------
    // Invariants
    // ------------------------------------------------------------------

    /// An edge is recorded at both of its ends, and both ends exist.
    pub open spec fn edges_paired(self) -> bool {
        &&& forall|p: SeqKey, c: SeqKey|
            self.contains(p) && #[trigger] self.children(p).contains(c) ==> self.contains(c)
                && self.parents(c).contains(p)
        &&& forall|c: SeqKey, p: SeqKey|
            self.contains(c) && #[trigger] self.parents(c).contains(p) ==> self.contains(p)
                && self.children(p).contains(c)
    }

    /// No edge is recorded twice.
    pub open spec fn edges_distinct(self) -> bool {
        forall|k: SeqKey| #[trigger]
            self.contains(k) ==> self.parents(k).no_duplicates() && self.children(k).no_duplicates()
    }

    /// The root list holds exactly the nodes without parents, each once.
    pub open spec fn roots_exact(self) -> bool {
        &&& self.roots.no_duplicates()
        &&& forall|k: SeqKey| #[trigger]
            self.roots.contains(k) <==> self.contains(k) && self.parents(k).len() == 0
    }

    /// The ready queue holds exactly the ready nodes, each once.
    pub open spec fn queue_exact(self) -> bool {
        &&& self.queued.no_duplicates()
        &&& forall|k: SeqKey| #[trigger] self.queued.contains(k) <==> self.ready(k)
    }

    /// The active set holds exactly the nodes whose status is `Active`.
    pub open spec fn active_exact(self) -> bool {
        forall|k: SeqKey| #[trigger]
            self.active.contains(k) <==> self.contains(k) && self.status(k) == NodeStatus::Active
    }

    /// The invariant of a sequencer.
    pub open spec fn wf(self) -> bool {
        &&& self.nodes.dom().finite()
        &&& self.edges_paired()
        &&& self.edges_distinct()
        &&& self.roots_exact()
        &&& self.queue_exact()
        &&& self.active_exact()
    }

    /// Every node of `self` is a node of `next`, in the same status or a
    /// later one: `Inactive` comes before `Active`, `Active` before
    /// `Completed`.
    pub open spec fn advances_to(self, next: Self) -> bool {
        forall|k: SeqKey| #[trigger]
            self.contains(k) ==> next.contains(k) && self.status(k).rank() <= next.status(
                k,
            ).rank()
    }

    // ------------------------------------------------------------------
    // Transitions
    // ------------------------------------------------------------------

    /// A new `Inactive` node `key` that waits for `parents`. It is recorded as
    /// a child of each parent, listed as a root if it has no parent, and
    /// queued if it waits for nothing.
    pub open spec fn add_node(self, key: SeqKey, parents: Seq<SeqKey>, item: I) -> Self {
        Graph {
            nodes: Map::new(
                |k: SeqKey| k == key || self.contains(k),
                |k: SeqKey|
                    if k == key {
                        NodeView {
                            parents,
                            children: Seq::empty(),
                            status: NodeStatus::Inactive,
                            item,
                        }
                    } else if parents.contains(k) {
                        NodeView { children: self.children(k).push(key), ..self.nodes[k] }
                    } else {
                        self.nodes[k]
                    },
            ),
            roots: if parents.len() == 0 {
                self.roots.push(key)
            } else {
                self.roots
            },
            queued: if self.all_completed(parents) {
                self.queued.push(key)
            } else {
                self.queued
            },
            active: self.active,
        }
    }

    /// The parents of entry `i` of a chain whose first node waits for `first`.
    pub open spec fn link(first: Seq<SeqKey>, keys: Seq<SeqKey>, i: int) -> Seq<SeqKey> {
        if i == 0 {
            first
        } else {
            seq![keys[i - 1]]
        }
    }

    /// New nodes `keys` holding `items`: the first waits for `first`, each
    /// other one for the node before it.
    pub open spec fn add_chain(self, first: Seq<SeqKey>, keys: Seq<SeqKey>, items: Seq<I>) -> Self
        decreases keys.len(),
    {
        if keys.len() == 0 {
            self
        } else {
            self.add_chain(first, keys.drop_last(), items.drop_last()).add_node(
                keys.last(),
                Self::link(first, keys, keys.len() - 1),
                items.last(),
            )
        }
    }

    /// The entries of `keys` that are ready, order kept.
    pub open spec fn ready_among(self, keys: Seq<SeqKey>) -> Seq<SeqKey>
        decreases keys.len(),
    {
        if keys.len() == 0 {
            Seq::empty()
        } else if self.ready(keys.last()) {
            self.ready_among(keys.drop_last()).push(keys.last())
        } else {
            self.ready_among(keys.drop_last())
        }
    }

    /// A node without edges that has not started.
    pub open spec fn blank(item: I) -> NodeView<I> {
        NodeView {
            parents: Seq::empty(),
            children: Seq::empty(),
            status: NodeStatus::Inactive,
            item,
        }
    }

    /// Node `key` becomes `Active` and joins the active set.
    pub open spec fn start(self, key: SeqKey) -> Self {
        Graph {
            nodes: self.nodes.insert(
                key,
                NodeView { status: NodeStatus::Active, ..self.nodes[key] },
            ),
            active: self.active.insert(key),
            ..self
        }
    }

    /// Node `key` becomes `Completed` and leaves the active set.
    pub open spec fn complete(self, key: SeqKey) -> Self {
        Graph {
            nodes: self.nodes.insert(
                key,
                NodeView { status: NodeStatus::Completed, ..self.nodes[key] },
            ),
            active: self.active.remove(key),
            ..self
        }
    }

    /// Completion of `key`: an `Active` node becomes `Completed`, and those of
    /// its children that are thereby ready join the queue in the order in
    /// which the node lists them. Any other key changes nothing.
    pub open spec fn finish(self, key: SeqKey) -> Self {
        if self.contains(key) && self.status(key) == NodeStatus::Active {
            Graph {
                queued: self.queued + self.complete(key).ready_among(self.children(key)),
                ..self.complete(key)
            }
        } else {
            self
        }
    }

    /// Completion of each entry of `keys`, first entry first.
    pub open spec fn finish_all(self, keys: Seq<SeqKey>) -> Self
        decreases keys.len(),
    {
        if keys.len() == 0 {
            self
        } else {
            self.finish_all(keys.drop_last()).finish(keys.last())
        }
    }

    /// The nodes named in `keys` become `Active` and join the active set.
    pub open spec fn activate(self, keys: Seq<SeqKey>) -> Self {
        Graph {
            nodes: Map::new(
                |k: SeqKey| self.contains(k),
                |k: SeqKey|
                    if keys.contains(k) {
                        NodeView { status: NodeStatus::Active, ..self.nodes[k] }
                    } else {
                        self.nodes[k]
                    },
            ),
            active: Set::new(|k: SeqKey| self.active.contains(k) || keys.contains(k)),
            ..self
        }
    }

    /// Every queued node becomes `Active`, and the queue is left empty.
    pub open spec fn drain(self) -> Self {
        Graph { queued: Seq::empty(), ..self.activate(self.queued) }
    }

    /// Node `key` gives up its children.
    pub open spec fn detach(self, key: SeqKey) -> Self {
        Graph {
            nodes: self.nodes.insert(key, NodeView { children: Seq::empty(), ..self.nodes[key] }),
            ..self
        }
    }

    /// Each node named in `keys` waits for `to` where it waited for `from`.
    pub open spec fn reparent(self, keys: Seq<SeqKey>, from: SeqKey, to: SeqKey) -> Self {
        Graph {
            nodes: Map::new(
                |k: SeqKey| self.contains(k),
                |k: SeqKey|
                    if keys.contains(k) {
                        NodeView { parents: renamed(self.parents(k), from, to), ..self.nodes[k] }
                    } else {
                        self.nodes[k]
                    },
            ),
            ..self
        }
    }

    /// Node `key` takes `orphans` as its children. Each of them waits for
    /// `key` where it waited for `from`, and leaves the ready queue.
    pub open spec fn adopt(self, key: SeqKey, from: SeqKey, orphans: Seq<SeqKey>) -> Self {
        Graph {
            nodes: self.reparent(orphans, from, key).nodes.insert(
                key,
                NodeView { children: orphans, ..self.reparent(orphans, from, key).nodes[key] },
            ),
            queued: without(self.queued, orphans),
            ..self
        }
    }

    /// A chain `keys` spliced in below `parent`: the chain's first node waits
    /// for `parent`, and the children that `parent` had wait for the chain's
    /// last node instead.
    pub open spec fn inject(self, parent: SeqKey, keys: Seq<SeqKey>, items: Seq<I>) -> Self {
        self.detach(parent).add_chain(seq![parent], keys, items).adopt(
            keys.last(),
            parent,
            self.children(parent),
        )
    }
}

/// One change that a sequencer can undergo.
pub enum Step<I> {
    /// A node is created.
    Add { key: SeqKey, parents: Seq<SeqKey>, item: I },
    /// A chain of nodes is spliced in below a node.
    Inject { parent: SeqKey, keys: Seq<SeqKey>, items: Seq<I> },
    /// A node is reported finished.
    Finish { key: SeqKey },
    /// The ready queue is drained.
    Drain,
}

impl<I> Graph<I> {
    /// The step can be taken: new nodes get new handles, and wait for nodes
    /// of the graph.
    pub open spec fn admits(self, step: Step<I>) -> bool {
        match step {
            Step::Add { key, parents, item } => {
                &&& !self.contains(key)
                &&& self.contains_all(parents)
                &&& parents.no_duplicates()
            },
            Step::Inject { parent, keys, items } => {
                &&& self.contains(parent)
                &&& self.fresh(keys)
                &&& keys.len() > 0
                &&& keys.len() == items.len()
            },
            Step::Finish { key } => true,
            Step::Drain => true,
        }
    }

    /// The graph after the step.
    pub open spec fn apply(self, step: Step<I>) -> Self {
        match step {
            Step::Add { key, parents, item } => self.add_node(key, parents, item),
            Step::Inject { parent, keys, items } => self.inject(parent, keys, items),
            Step::Finish { key } => self.finish(key),
            Step::Drain => self.drain(),
        }
    }
}

} // verus!
