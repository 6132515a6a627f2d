//! The invariant of graphs is kept by every transition.
use crate::graph::{Graph, Step};
use crate::handle::SeqKey;
use crate::node::NodeStatus;
use crate::seqs::{
    lemma_concat_contains, lemma_concat_no_duplicates, lemma_index_of, lemma_push_contains,
    lemma_push_no_duplicates, lemma_renamed, lemma_without, renamed,
};
use crate::shape::{law_add_chain_shape, law_inject_shape, lemma_ready_among, spliced};
use vstd::prelude::*;

verus! {

/// The empty graph satisfies the invariant.
pub proof fn law_empty_is_wf<I>()
    ensures
        Graph::<I>::empty().wf(),
{
}

/// Adding a node keeps the invariant, provided the handle is new and the
/// parents are distinct nodes of the graph.
pub proof fn law_add_node_keeps_invariant<I>(
    g: Graph<I>,
    key: SeqKey,
    parents: Seq<SeqKey>,
    item: I,
)
    requires
        g.wf(),
        !g.contains(key),
        g.contains_all(parents),
        parents.no_duplicates(),
    ensures
        g.add_node(key, parents, item).wf(),
{
    let h = g.add_node(key, parents, item);
    assert(h.nodes.dom() =~= g.nodes.dom().insert(key));
    assert(!parents.contains(key));
    // No old node names the new one.
    assert forall|k: SeqKey| g.contains(k) implies !g.children(k).contains(key) && !g.parents(
        k,
    ).contains(key) by {}
    assert forall|k: SeqKey, x: SeqKey| h.contains(k) implies (h.children(k).contains(x) <==> (k
        != key && g.children(k).contains(x)) || (x == key && parents.contains(k))) by {
        if k != key && parents.contains(k) {
            lemma_push_contains(g.children(k), key, x);
        }
    }
    assert(h.edges_paired()) by {
        assert forall|p: SeqKey, c: SeqKey|
            h.contains(p) && #[trigger] h.children(p).contains(c) implies h.contains(c)
            && h.parents(c).contains(p) by {}
        assert forall|c: SeqKey, p: SeqKey|
            h.contains(c) && #[trigger] h.parents(c).contains(p) implies h.contains(p)
            && h.children(p).contains(c) by {}
    }
    assert(h.edges_distinct()) by {
        assert forall|k: SeqKey| #[trigger] h.contains(k) implies h.parents(k).no_duplicates()
            && h.children(k).no_duplicates() by {
            if k != key && parents.contains(k) {
                lemma_push_no_duplicates(g.children(k), key);
            }
        }
    }
    assert(h.roots_exact()) by {
        assert(!g.roots.contains(key));
        if parents.len() == 0 {
            lemma_push_no_duplicates(g.roots, key);
        }
        assert forall|k: SeqKey| #[trigger]
            h.roots.contains(k) <==> h.contains(k) && h.parents(k).len() == 0 by {
            lemma_push_contains(g.roots, key, k);
            assert(g.roots.contains(k) <==> g.contains(k) && g.parents(k).len() == 0);
        }
    }
    assert(h.queue_exact()) by {
        assert(!g.queued.contains(key));
        if g.all_completed(parents) {
            lemma_push_no_duplicates(g.queued, key);
        }
        assert forall|k: SeqKey| k != key && h.contains(k) implies (h.ready(k) <==> g.ready(
            k,
        )) by {
            assert(h.parents(k) == g.parents(k));
            if g.ready(k) {
                assert forall|i: int| 0 <= i < h.parents(k).len() implies h.status(
                    #[trigger] h.parents(k)[i],
                ) == NodeStatus::Completed by {
                    assert(g.parents(k).contains(g.parents(k)[i]));
                }
            }
            if h.ready(k) {
                assert forall|i: int| 0 <= i < g.parents(k).len() implies g.status(
                    #[trigger] g.parents(k)[i],
                ) == NodeStatus::Completed by {
                    assert(g.parents(k).contains(g.parents(k)[i]));
                    assert(h.status(h.parents(k)[i]) == NodeStatus::Completed);
                }
            }
        }
        assert(h.ready(key) <==> g.all_completed(parents)) by {
            if g.all_completed(parents) {
                assert forall|i: int| 0 <= i < h.parents(key).len() implies h.status(
                    #[trigger] h.parents(key)[i],
                ) == NodeStatus::Completed by {
                    assert(g.status(parents[i]) == NodeStatus::Completed);
                }
            }
            if h.ready(key) {
                assert forall|i: int| 0 <= i < parents.len() implies g.status(
                    #[trigger] parents[i],
                ) == NodeStatus::Completed by {
                    assert(h.status(h.parents(key)[i]) == NodeStatus::Completed);
                }
            }
        }
        assert forall|k: SeqKey| #[trigger] h.queued.contains(k) <==> h.ready(k) by {
            lemma_push_contains(g.queued, key, k);
            assert(g.queued.contains(k) <==> g.ready(k));
        }
    }
    assert(h.active_exact()) by {
        assert forall|k: SeqKey| #[trigger]
            h.active.contains(k) <==> h.contains(k) && h.status(k) == NodeStatus::Active by {
            assert(g.active.contains(k) <==> g.contains(k) && g.status(k) == NodeStatus::Active);
        }
    }
}

/// Adding a chain keeps the invariant, provided the handles are new and the
/// nodes that the first entry waits for are distinct nodes of the graph.
pub proof fn law_add_chain_keeps_invariant<I>(
    g: Graph<I>,
    first: Seq<SeqKey>,
    keys: Seq<SeqKey>,
    items: Seq<I>,
)
    requires
        g.wf(),
        g.fresh(keys),
        g.contains_all(first),
        first.no_duplicates(),
        keys.len() == items.len(),
    ensures
        g.add_chain(first, keys, items).wf(),
    decreases keys.len(),
{
    let n = keys.len() as int;
    if n > 0 {
        let head = keys.drop_last();
        let last = keys[n - 1];
        let c0 = g.add_chain(first, head, items.drop_last());
        let link = Graph::<I>::link(first, keys, n - 1);
        law_add_chain_keeps_invariant(g, first, head, items.drop_last());
        law_add_chain_shape(g, first, head, items.drop_last());
        assert(!head.contains(last)) by {
            if head.contains(last) {
                let i = choose|i: int| 0 <= i < head.len() && head[i] == last;
                assert(keys[i] == keys[n - 1]);
            }
        }
        assert(!c0.contains(last));
        if n >= 2 {
            assert(head[n - 2] == keys[n - 2]);
            assert(head.contains(keys[n - 2]));
            assert(c0.contains(link[0]));
        }
        law_add_node_keeps_invariant(c0, last, link, items.last());
    }
}

/// Completion keeps the invariant.
pub proof fn law_finish_keeps_invariant<I>(g: Graph<I>, key: SeqKey)
    requires
        g.wf(),
    ensures
        g.finish(key).wf(),
{
    if g.contains(key) && g.status(key) == NodeStatus::Active {
        let h = g.finish(key);
        let m = g.complete(key);
        let fresh = m.ready_among(g.children(key));
        lemma_ready_among(m, g.children(key));
        assert(h.nodes.dom() =~= g.nodes.dom());
        assert(h.edges_paired());
        assert(h.edges_distinct());
        assert(h.roots_exact()) by {
            assert forall|k: SeqKey| #[trigger]
                h.roots.contains(k) <==> h.contains(k) && h.parents(k).len() == 0 by {
                assert(g.roots.contains(k) <==> g.contains(k) && g.parents(k).len() == 0);
            }
        }
        assert(h.active_exact()) by {
            assert forall|k: SeqKey| #[trigger]
                h.active.contains(k) <==> h.contains(k) && h.status(k)
                    == NodeStatus::Active by {
                assert(g.active.contains(k) <==> g.contains(k) && g.status(k)
                    == NodeStatus::Active);
            }
        }
        assert forall|k: SeqKey| m.ready(k) <==> h.ready(k) by {}
        // A node that was ready stays ready.
        assert forall|k: SeqKey| g.ready(k) implies h.ready(k) by {
            assert forall|i: int| 0 <= i < h.parents(k).len() implies h.status(
                #[trigger] h.parents(k)[i],
            ) == NodeStatus::Completed by {
                assert(g.status(g.parents(k)[i]) == NodeStatus::Completed);
            }
        }
        // A node that becomes ready waited for `key`.
        assert forall|k: SeqKey| h.ready(k) && !g.ready(k) implies g.children(key).contains(
            k,
        ) by {
            let i = choose|i: int|
                0 <= i < g.parents(k).len() && g.status(#[trigger] g.parents(k)[i])
                    != NodeStatus::Completed;
            assert(h.status(h.parents(k)[i]) == NodeStatus::Completed);
            assert(g.parents(k)[i] == key);
            assert(g.parents(k).contains(key));
        }
        // A node that waits for `key` was not ready.
        assert forall|k: SeqKey| g.children(key).contains(k) implies !g.ready(k) by {
            assert(g.parents(k).contains(key));
            let i = choose|i: int| 0 <= i < g.parents(k).len() && g.parents(k)[i] == key;
            assert(g.status(g.parents(k)[i]) != NodeStatus::Completed);
        }
        assert(h.queue_exact()) by {
            assert forall|x: SeqKey| g.queued.contains(x) implies !fresh.contains(x) by {
                assert(g.ready(x));
            }
            lemma_concat_no_duplicates(g.queued, fresh);
            assert forall|k: SeqKey| #[trigger] h.queued.contains(k) <==> h.ready(k) by {
                lemma_concat_contains(g.queued, fresh, k);
                assert(g.queued.contains(k) <==> g.ready(k));
                assert(fresh.contains(k) <==> g.children(key).contains(k) && m.ready(k));
            }
        }
    }
}

/// Completion of several nodes keeps the invariant.
pub proof fn law_finish_all_keeps_invariant<I>(g: Graph<I>, keys: Seq<SeqKey>)
    requires
        g.wf(),
    ensures
        g.finish_all(keys).wf(),
    decreases keys.len(),
{
    if keys.len() > 0 {
        law_finish_all_keeps_invariant(g, keys.drop_last());
        law_finish_keeps_invariant(g.finish_all(keys.drop_last()), keys.last());
    }
}

/// Draining the queue keeps the invariant.
pub proof fn law_drain_keeps_invariant<I>(g: Graph<I>)
    requires
        g.wf(),
    ensures
        g.drain().wf(),
{
    let h = g.drain();
    assert(h.nodes.dom() =~= g.nodes.dom());
    assert(h.edges_paired());
    assert(h.edges_distinct());
    assert(h.roots_exact()) by {
        assert forall|k: SeqKey| #[trigger]
            h.roots.contains(k) <==> h.contains(k) && h.parents(k).len() == 0 by {
            assert(g.roots.contains(k) <==> g.contains(k) && g.parents(k).len() == 0);
        }
    }
    assert(h.active_exact()) by {
        assert forall|k: SeqKey| #[trigger]
            h.active.contains(k) <==> h.contains(k) && h.status(k) == NodeStatus::Active by {
            assert(g.active.contains(k) <==> g.contains(k) && g.status(k) == NodeStatus::Active);
            assert(g.queued.contains(k) <==> g.ready(k));
        }
    }
    assert(h.queue_exact()) by {
        assert forall|k: SeqKey| !h.ready(k) by {
            if h.ready(k) {
                assert(!g.queued.contains(k));
                assert forall|i: int| 0 <= i < g.parents(k).len() implies g.status(
                    #[trigger] g.parents(k)[i],
                ) == NodeStatus::Completed by {
                    assert(h.status(h.parents(k)[i]) == NodeStatus::Completed);
                    assert(g.parents(k).contains(g.parents(k)[i]));
                }
                assert(g.ready(k));
            }
        }
    }
}

/// Adding a chain to a finite graph leaves a finite graph.
proof fn lemma_add_chain_finite<I>(
    g: Graph<I>,
    first: Seq<SeqKey>,
    keys: Seq<SeqKey>,
    items: Seq<I>,
)
    requires
        g.nodes.dom().finite(),
    ensures
        g.add_chain(first, keys, items).nodes.dom().finite(),
    decreases keys.len(),
{
    if keys.len() > 0 {
        let c0 = g.add_chain(first, keys.drop_last(), items.drop_last());
        lemma_add_chain_finite(g, first, keys.drop_last(), items.drop_last());
        assert(g.add_chain(first, keys, items).nodes.dom() =~= c0.nodes.dom().insert(keys.last()));
    }
}

/// Splicing a chain in below a node keeps the invariant, provided the handles
/// are new.
pub proof fn law_inject_keeps_invariant<I>(
    g: Graph<I>,
    parent: SeqKey,
    keys: Seq<SeqKey>,
    items: Seq<I>,
)
    requires
        g.wf(),
        g.contains(parent),
        g.fresh(keys),
        keys.len() > 0,
        keys.len() == items.len(),
    ensures
        g.inject(parent, keys, items).wf(),
{
    let n = keys.len() as int;
    let orphans = g.children(parent);
    let last = keys[n - 1];
    let f = spliced(g, parent, keys, items);
    law_inject_shape(g, parent, keys, items);
    assert(f.nodes.dom().finite()) by {
        let d = g.detach(parent);
        assert(d.nodes.dom() =~= g.nodes.dom());
        lemma_add_chain_finite(d, seq![parent], keys, items);
        assert(f.nodes.dom() =~= d.add_chain(seq![parent], keys, items).nodes.dom());
    }
    // Where each new node stands in the chain.
    assert forall|k: SeqKey| keys.contains(k) implies 0 <= keys.index_of(k) < n
        && keys[keys.index_of(k)] == k && !g.contains(k) by {}
    assert forall|i: int| 0 <= i < n implies keys.contains(#[trigger] keys[i]) && keys.index_of(
        keys[i],
    ) == i by {
        lemma_index_of(keys, i);
    }
    // What the old nodes name is old.
    assert forall|k: SeqKey, x: SeqKey| g.contains(k) && g.parents(k).contains(x) implies g.contains(
        x,
    ) && !keys.contains(x) by {}
    assert forall|k: SeqKey, x: SeqKey| g.contains(k) && g.children(k).contains(x) implies g.contains(
        x,
    ) && !keys.contains(x) by {}
    assert forall|k: SeqKey| orphans.contains(k) implies g.contains(k) && g.parents(k).contains(
        parent,
    ) by {}
    assert forall|k: SeqKey| g.contains(k) implies renamed(g.parents(k), parent, last).len()
        == g.parents(k).len() && (g.parents(k).contains(parent) ==> renamed(
        g.parents(k),
        parent,
        last,
    ).contains(last)) && renamed(g.parents(k), parent, last).no_duplicates() && (forall|x: SeqKey|
     #[trigger]
        renamed(g.parents(k), parent, last).contains(x) ==> x == last || (x != parent
            && g.parents(k).contains(x))) && (forall|x: SeqKey|
        x != parent && g.parents(k).contains(x) ==> #[trigger] renamed(
            g.parents(k),
            parent,
            last,
        ).contains(x)) by {
        lemma_renamed(g.parents(k), parent, last);
        assert(!g.parents(k).contains(last));
    }
    assert forall|a: SeqKey, x: SeqKey| #[trigger] (seq![a]).contains(x) <==> x == a by {
        if x == a {
            assert(seq![a][0] == x);
        }
    }
    assert(f.edges_paired()) by {
        assert forall|p: SeqKey, c: SeqKey|
            f.contains(p) && #[trigger] f.children(p).contains(c) implies f.contains(c)
            && f.parents(c).contains(p) by {
            if keys.contains(p) {
                let i = keys.index_of(p);
                if i + 1 < n {
                    assert(c == keys[i + 1]);
                    assert(f.parents(c) == seq![keys[i]]);
                } else {
                    assert(orphans.contains(c));
                    assert(p == last);
                }
            } else if p == parent {
                assert(c == keys[0]);
                assert(f.parents(c) == seq![parent]);
            } else {
                assert(g.children(p).contains(c));
                assert(g.parents(c).contains(p));
            }
        }
        assert forall|c: SeqKey, p: SeqKey|
            f.contains(c) && #[trigger] f.parents(c).contains(p) implies f.contains(p)
            && f.children(p).contains(c) by {
            if keys.contains(c) {
                let i = keys.index_of(c);
                if i == 0 {
                    assert(p == parent);
                    assert(f.children(parent) == seq![keys[0]]);
                } else {
                    assert(f.parents(c) == seq![keys[i - 1]]);
                    assert(p == keys[i - 1]);
                    assert(f.children(p) == seq![keys[i]]);
                }
            } else if orphans.contains(c) {
                if p == last {
                    assert(f.children(last) == orphans);
                } else {
                    assert(g.parents(c).contains(p));
                    assert(g.children(p).contains(c));
                }
            } else {
                assert(g.parents(c).contains(p));
                assert(g.children(p).contains(c));
                assert(p != parent);
            }
        }
    }
    assert(f.edges_distinct()) by {
        assert forall|k: SeqKey| #[trigger] f.contains(k) implies f.parents(k).no_duplicates()
            && f.children(k).no_duplicates() by {
            if keys.contains(k) {
                let i = keys.index_of(k);
                assert(f.parents(k).len() == 1);
            }
        }
    }
    assert(f.roots_exact()) by {
        assert forall|k: SeqKey| #[trigger]
            f.roots.contains(k) <==> f.contains(k) && f.parents(k).len() == 0 by {
            assert(g.roots.contains(k) <==> g.contains(k) && g.parents(k).len() == 0);
            if keys.contains(k) {
                assert(f.parents(k).len() == 1);
            }
        }
    }
    assert(f.active_exact()) by {
        assert forall|k: SeqKey| #[trigger]
            f.active.contains(k) <==> f.contains(k) && f.status(k) == NodeStatus::Active by {
            assert(g.active.contains(k) <==> g.contains(k) && g.status(k) == NodeStatus::Active);
        }
    }
    assert(f.queue_exact()) by {
        let q0 = if g.status(parent) == NodeStatus::Completed {
            g.queued.push(keys[0])
        } else {
            g.queued
        };
        assert(!g.queued.contains(keys[0])) by {
            assert(g.queued.contains(keys[0]) <==> g.ready(keys[0]));
        }
        if g.status(parent) == NodeStatus::Completed {
            lemma_push_no_duplicates(g.queued, keys[0]);
        }
        lemma_without(q0, orphans);
        assert forall|k: SeqKey| #[trigger] f.queued.contains(k) <==> f.ready(k) by {
            lemma_push_contains(g.queued, keys[0], k);
            assert(g.queued.contains(k) <==> g.ready(k));
            assert(f.queued.contains(k) <==> q0.contains(k) && !orphans.contains(k));
            if keys.contains(k) {
                let i = keys.index_of(k);
                if i == 0 {
                    assert(f.parents(k) == seq![parent]);
                    if f.ready(k) {
                        assert(f.status(f.parents(k)[0]) == NodeStatus::Completed);
                    }
                } else {
                    assert(f.parents(k) == seq![keys[i - 1]]);
                    assert(f.status(f.parents(k)[0]) == NodeStatus::Inactive);
                    assert(keys[i] != keys[0]);
                }
            } else if g.contains(k) {
                if orphans.contains(k) {
                    let r = renamed(g.parents(k), parent, last);
                    assert(r.contains(last));
                    let j = choose|j: int| 0 <= j < r.len() && r[j] == last;
                    assert(f.status(f.parents(k)[j]) == NodeStatus::Inactive);
                } else {
                    assert(f.parents(k) == g.parents(k));
                    if g.ready(k) {
                        assert forall|i: int| 0 <= i < f.parents(k).len() implies f.status(
                            #[trigger] f.parents(k)[i],
                        ) == NodeStatus::Completed by {
                            assert(g.parents(k).contains(g.parents(k)[i]));
                            assert(g.status(g.parents(k)[i]) == NodeStatus::Completed);
                        }
                    }
                    if f.ready(k) {
                        assert forall|i: int| 0 <= i < g.parents(k).len() implies g.status(
                            #[trigger] g.parents(k)[i],
                        ) == NodeStatus::Completed by {
                            assert(g.parents(k).contains(g.parents(k)[i]));
                            assert(f.status(f.parents(k)[i]) == NodeStatus::Completed);
                        }
                    }
                }
            }
        }
    }
}

/// Every step keeps the invariant.
pub proof fn law_step_keeps_invariant<I>(g: Graph<I>, step: Step<I>)
    requires
        g.wf(),
        g.admits(step),
    ensures
        g.apply(step).wf(),
{
    match step {
        Step::Add { key, parents, item } => law_add_node_keeps_invariant(g, key, parents, item),
        Step::Inject { parent, keys, items } => law_inject_keeps_invariant(
            g,
            parent,
            keys,
            items,
        ),
        Step::Finish { key } => law_finish_keeps_invariant(g, key),
        Step::Drain => law_drain_keeps_invariant(g),
    }
}

} // verus!
