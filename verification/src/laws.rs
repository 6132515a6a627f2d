//! What holds of every sequencer: a node's status only ever advances, the
//! ready queue holds exactly the nodes that wait for nothing, each once, and
//! a node that has started is never queued again.
use crate::graph::{Graph, Step};
use crate::handle::SeqKey;
use crate::node::NodeStatus;
use crate::preservation::{
    law_finish_all_keeps_invariant, law_finish_keeps_invariant, law_step_keeps_invariant,
};
use crate::seqs::{lemma_concat_contains, lemma_push_contains, lemma_same_entries, lemma_without};
use crate::shape::{law_add_chain_shape, law_inject_shape, lemma_finish_all_nodes};
use vstd::prelude::*;

verus! {

/// Creating a node moves no status back.
pub proof fn law_add_node_advances<I>(g: Graph<I>, key: SeqKey, parents: Seq<SeqKey>, item: I)
    requires
        !g.contains(key),
    ensures
        g.advances_to(g.add_node(key, parents, item)),
{
}

/// Creating a chain moves no status back.
pub proof fn law_add_chain_advances<I>(
    g: Graph<I>,
    first: Seq<SeqKey>,
    keys: Seq<SeqKey>,
    items: Seq<I>,
)
    requires
        g.fresh(keys),
        g.contains_all(first),
        keys.len() == items.len(),
    ensures
        g.advances_to(g.add_chain(first, keys, items)),
{
    law_add_chain_shape(g, first, keys, items);
    assert forall|k: SeqKey| g.contains(k) implies !keys.contains(k) by {
        if keys.contains(k) {
            let i = keys.index_of(k);
            assert(!g.contains(keys[i]));
        }
    }
}

/// Splicing a chain in moves no status back.
pub proof fn law_inject_advances<I>(
    g: Graph<I>,
    parent: SeqKey,
    keys: Seq<SeqKey>,
    items: Seq<I>,
)
    requires
        g.wf(),
        g.contains(parent),
        g.fresh(keys),
        keys.len() > 0,
        keys.len() == items.len(),
    ensures
        g.advances_to(g.inject(parent, keys, items)),
{
    law_inject_shape(g, parent, keys, items);
    assert forall|k: SeqKey| g.contains(k) implies !keys.contains(k) by {
        if keys.contains(k) {
            let i = keys.index_of(k);
            assert(!g.contains(keys[i]));
        }
    }
}

/// Completion moves no status back: it moves one node from `Active` to
/// `Completed`, or none.
pub proof fn law_finish_advances<I>(g: Graph<I>, key: SeqKey)
    ensures
        g.advances_to(g.finish(key)),
{
}

/// Completion of several nodes moves no status back.
pub proof fn law_finish_all_advances<I>(g: Graph<I>, keys: Seq<SeqKey>)
    ensures
        g.advances_to(g.finish_all(keys)),
    decreases keys.len(),
{
    if keys.len() > 0 {
        law_finish_all_advances(g, keys.drop_last());
        law_finish_advances(g.finish_all(keys.drop_last()), keys.last());
    }
}

/// Draining moves no status back: it moves the queued nodes from `Inactive`
/// to `Active`.
pub proof fn law_drain_advances<I>(g: Graph<I>)
    requires
        g.wf(),
    ensures
        g.advances_to(g.drain()),
{
    assert forall|k: SeqKey| #[trigger] g.contains(k) implies g.drain().contains(k)
        && g.status(k).rank() <= g.drain().status(k).rank() by {
        assert(g.queued.contains(k) <==> g.ready(k));
    }
}

/// Status is monotonic: whatever the step, every node stays, in the status it
/// had or a later one.
pub proof fn law_status_is_monotonic<I>(g: Graph<I>, step: Step<I>)
    requires
        g.wf(),
        g.admits(step),
    ensures
        g.advances_to(g.apply(step)),
{
    match step {
        Step::Add { key, parents, item } => law_add_node_advances(g, key, parents, item),
        Step::Inject { parent, keys, items } => law_inject_advances(g, parent, keys, items),
        Step::Finish { key } => law_finish_advances(g, key),
        Step::Drain => law_drain_advances(g),
    }
}

/// A node without parents is at the end of the ready queue as soon as it is
/// created.
pub proof fn law_root_is_queued<I>(g: Graph<I>, key: SeqKey, item: I)
    ensures
        g.add_node(key, Seq::empty(), item).queued == g.queued.push(key),
        g.add_node(key, Seq::empty(), item).roots == g.roots.push(key),
{
}

/// The first node of a chain that waits for no node joins the ready queue and
/// the root list as soon as the chain is created, and no other node does.
pub proof fn law_chain_root_is_queued<I>(g: Graph<I>, keys: Seq<SeqKey>, items: Seq<I>)
    requires
        g.fresh(keys),
        keys.len() > 0,
        keys.len() == items.len(),
    ensures
        g.add_chain(Seq::empty(), keys, items).queued == g.queued.push(keys[0]),
        g.add_chain(Seq::empty(), keys, items).roots == g.roots.push(keys[0]),
{
    law_add_chain_shape(g, Seq::empty(), keys, items);
}

/// Readiness decides the queue: in every state a node is queued if and only
/// if it has not started and all of its parents are `Completed`, and no node
/// is queued twice.
pub proof fn law_queued_iff_ready<I>(g: Graph<I>, key: SeqKey)
    requires
        g.wf(),
    ensures
        g.queued.contains(key) <==> g.contains(key) && g.status(key) == NodeStatus::Inactive
            && g.all_completed(g.parents(key)),
        g.queued.no_duplicates(),
{
    assert(g.queued.contains(key) <==> g.ready(key));
}

/// The active set holds exactly the nodes whose status is `Active`, and no
/// node is queued and active at once.
pub proof fn law_active_iff_status<I>(g: Graph<I>, key: SeqKey)
    requires
        g.wf(),
    ensures
        g.active.contains(key) <==> g.contains(key) && g.status(key) == NodeStatus::Active,
        !(g.queued.contains(key) && g.active.contains(key)),
{
    assert(g.queued.contains(key) <==> g.ready(key));
}

/// A node enters the ready queue at the completion of a parent exactly when
/// that parent was the last one outstanding: the node has not started, the
/// parent was `Active`, and every other parent is `Completed`.
pub proof fn law_last_parent_enqueues<I>(g: Graph<I>, parent: SeqKey, child: SeqKey)
    requires
        g.wf(),
        g.contains(child),
    ensures
        (g.finish(parent).queued.contains(child) && !g.queued.contains(child)) <==> {
            &&& g.status(child) == NodeStatus::Inactive
            &&& g.parents(child).contains(parent)
            &&& g.status(parent) == NodeStatus::Active
            &&& forall|i: int|
                0 <= i < g.parents(child).len() && g.parents(child)[i] != parent ==> g.status(
                    #[trigger] g.parents(child)[i],
                ) == NodeStatus::Completed
        },
{
    let h = g.finish(parent);
    law_finish_keeps_invariant(g, parent);
    assert(g.queued.contains(child) <==> g.ready(child));
    assert(h.queued.contains(child) <==> h.ready(child));
    let others_done = forall|i: int|
        0 <= i < g.parents(child).len() && g.parents(child)[i] != parent ==> g.status(
            #[trigger] g.parents(child)[i],
        ) == NodeStatus::Completed;
    if g.contains(parent) && g.status(parent) == NodeStatus::Active {
        assert(h.parents(child) == g.parents(child));
        if h.ready(child) && !g.ready(child) {
            let i = choose|i: int|
                0 <= i < g.parents(child).len() && g.status(#[trigger] g.parents(child)[i])
                    != NodeStatus::Completed;
            assert(h.status(h.parents(child)[i]) == NodeStatus::Completed);
            assert(g.parents(child)[i] == parent);
            assert forall|j: int|
                0 <= j < g.parents(child).len() && g.parents(child)[j] != parent implies g.status(
                #[trigger] g.parents(child)[j],
            ) == NodeStatus::Completed by {
                assert(h.status(h.parents(child)[j]) == NodeStatus::Completed);
            }
        }
        if g.status(child) == NodeStatus::Inactive && g.parents(child).contains(parent)
            && others_done {
            let i = choose|i: int| 0 <= i < g.parents(child).len() && g.parents(child)[i] == parent;
            assert(g.status(g.parents(child)[i]) != NodeStatus::Completed);
            assert(child != parent);
            assert forall|j: int| 0 <= j < h.parents(child).len() implies h.status(
                #[trigger] h.parents(child)[j],
            ) == NodeStatus::Completed by {
                if g.parents(child)[j] != parent {
                    assert(g.status(g.parents(child)[j]) == NodeStatus::Completed);
                }
            }
        }
    } else {
        if g.parents(child).contains(parent) {
            assert(g.contains(parent));
        }
    }
}

/// The order in which nodes complete does not matter: two runs of completions
/// that name the same nodes end with every node in the same status, with the
/// same nodes active and with the same nodes queued, each once.
pub proof fn law_completion_order<I>(g: Graph<I>, first: Seq<SeqKey>, second: Seq<SeqKey>)
    requires
        g.wf(),
        forall|k: SeqKey| first.contains(k) <==> second.contains(k),
    ensures
        g.finish_all(first).nodes == g.finish_all(second).nodes,
        g.finish_all(first).active == g.finish_all(second).active,
        g.finish_all(first).roots == g.finish_all(second).roots,
        g.finish_all(first).queued.to_multiset() == g.finish_all(second).queued.to_multiset(),
{
    let a = g.finish_all(first);
    let b = g.finish_all(second);
    lemma_finish_all_nodes(g, first);
    lemma_finish_all_nodes(g, second);
    law_finish_all_keeps_invariant(g, first);
    law_finish_all_keeps_invariant(g, second);
    assert(a.nodes =~= b.nodes);
    assert(a.active =~= b.active);
    assert forall|k: SeqKey| a.ready(k) <==> b.ready(k) by {}
    assert forall|k: SeqKey| a.queued.contains(k) <==> b.queued.contains(k) by {
        assert(a.queued.contains(k) <==> a.ready(k));
        assert(b.queued.contains(k) <==> b.ready(k));
    }
    lemma_same_entries(a.queued, b.queued);
}

/// Completion is idempotent: the second report of a node changes nothing.
pub proof fn law_finish_is_idempotent<I>(g: Graph<I>, key: SeqKey)
    ensures
        g.finish(key).finish(key) == g.finish(key),
{
}

/// A drain takes every queued node once: the queue names no node twice, each
/// node it names is `Active` afterwards, and the queue is left empty.
pub proof fn law_drain_takes_each_once<I>(g: Graph<I>)
    requires
        g.wf(),
    ensures
        g.queued.no_duplicates(),
        g.drain().queued.len() == 0,
        forall|i: int|
            0 <= i < g.queued.len() ==> g.drain().status(#[trigger] g.queued[i])
                == NodeStatus::Active,
{
    assert forall|i: int| 0 <= i < g.queued.len() implies g.drain().status(#[trigger] g.queued[i])
        == NodeStatus::Active by {
        assert(g.queued.contains(g.queued[i]));
        assert(g.ready(g.queued[i]));
    }
}

/// A node that has started is never queued again: whatever the step, a node
/// that is `Active` or `Completed` before it is not in the queue after it.
pub proof fn law_started_is_never_queued<I>(g: Graph<I>, step: Step<I>, key: SeqKey)
    requires
        g.wf(),
        g.admits(step),
        g.contains(key),
        g.status(key) != NodeStatus::Inactive,
    ensures
        !g.queued.contains(key),
        !g.apply(step).queued.contains(key),
{
    law_step_keeps_invariant(g, step);
    law_status_is_monotonic(g, step);
    assert(g.queued.contains(key) <==> g.ready(key));
    assert(g.apply(step).queued.contains(key) <==> g.apply(step).ready(key));
}

/// A queued node stays queued until it is drained: no step but a drain takes
/// it off the queue, except that a splice below its parent makes it wait for
/// the nodes spliced in.
pub proof fn law_queued_until_drained<I>(g: Graph<I>, step: Step<I>, key: SeqKey)
    requires
        g.wf(),
        g.admits(step),
        g.queued.contains(key),
        !(step is Drain),
        step matches Step::Inject { parent, .. } ==> !g.children(parent).contains(key),
    ensures
        g.apply(step).queued.contains(key),
{
    match step {
        Step::Add { key: added, parents, item } => {
            lemma_push_contains(g.queued, added, key);
        },
        Step::Inject { parent, keys, items } => {
            law_inject_shape(g, parent, keys, items);
            let grown = if g.status(parent) == NodeStatus::Completed {
                g.queued.push(keys[0])
            } else {
                g.queued
            };
            lemma_push_contains(g.queued, keys[0], key);
            lemma_without(grown, g.children(parent));
        },
        Step::Finish { key: finished } => {
            if g.contains(finished) && g.status(finished) == NodeStatus::Active {
                lemma_concat_contains(
                    g.queued,
                    g.complete(finished).ready_among(g.children(finished)),
                    key,
                );
            }
        },
        Step::Drain => {},
    }
}

} // verus!
