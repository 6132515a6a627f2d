//! Transitions written out: what a graph is, node by node, after a chain was
//! added to it or spliced into it, and what it is part-way through a
//! transition that an operation performs one node at a time.
use crate::graph::{Graph, NodeView};
use crate::handle::SeqKey;
use crate::node::NodeStatus;
use crate::seqs::{
    lemma_index_of, lemma_push_contains, lemma_push_no_duplicates, lemma_take_next, renamed,
    without,
};
use vstd::prelude::*;

verus! {

/// The node that entry `i` of a chain becomes.
pub open spec fn chain_node<I>(first: Seq<SeqKey>, keys: Seq<SeqKey>, items: Seq<I>, i: int)
    -> NodeView<I> {
    NodeView {
        parents: Graph::<I>::link(first, keys, i),
        children: if i + 1 < keys.len() {
            seq![keys[i + 1]]
        } else {
            Seq::empty()
        },
        status: NodeStatus::Inactive,
        item: items[i],
    }
}

/// A graph with a chain added, written out node by node: the new nodes, linked
/// one to the next; the first of them as a child of each node it waits for;
/// the first of them in the root list if it waits for no node, and in the
/// queue if it waits for no unfinished node. Nothing else changes.
pub open spec fn chained<I>(g: Graph<I>, first: Seq<SeqKey>, keys: Seq<SeqKey>, items: Seq<I>)
    -> Graph<I> {
    if keys.len() == 0 {
        g
    } else {
        Graph {
            nodes: Map::new(
                |k: SeqKey| g.contains(k) || keys.contains(k),
                |k: SeqKey|
                    if keys.contains(k) {
                        chain_node(first, keys, items, keys.index_of(k))
                    } else if first.contains(k) {
                        NodeView { children: g.children(k).push(keys[0]), ..g.nodes[k] }
                    } else {
                        g.nodes[k]
                    },
            ),
            roots: if first.len() == 0 {
                g.roots.push(keys[0])
            } else {
                g.roots
            },
            queued: if g.all_completed(first) {
                g.queued.push(keys[0])
            } else {
                g.queued
            },
            active: g.active,
        }
    }
}

/// A chain of one node is that node added.
proof fn lemma_chained_one<I>(g: Graph<I>, first: Seq<SeqKey>, keys: Seq<SeqKey>, items: Seq<I>)
    requires
        g.fresh(keys),
        g.contains_all(first),
        keys.len() == 1,
        items.len() == 1,
    ensures
        g.add_node(keys[0], first, items[0]) == chained(g, first, keys, items),
{
    let a = g.add_node(keys[0], first, items[0]);
    let b = chained(g, first, keys, items);
    assert forall|k: SeqKey| keys.contains(k) <==> k == keys[0] by {
        if k == keys[0] {
            assert(keys[0] == k);
        }
    }
    lemma_index_of(keys, 0);
    assert(a.nodes =~= b.nodes);
}

/// A chain of two or more nodes is the chain without its last node, with that
/// node added as a child of the one before it.
proof fn lemma_chained_more<I>(g: Graph<I>, first: Seq<SeqKey>, keys: Seq<SeqKey>, items: Seq<I>)
    requires
        g.fresh(keys),
        g.contains_all(first),
        keys.len() >= 2,
        items.len() == keys.len(),
    ensures
        chained(g, first, keys.drop_last(), items.drop_last()).add_node(
            keys.last(),
            seq![keys[keys.len() - 2]],
            items.last(),
        ) == chained(g, first, keys, items),
{
    let n = keys.len() as int;
    let head = keys.drop_last();
    let tail = items.drop_last();
    let last = keys[n - 1];
    let prev = keys[n - 2];
    let link = seq![prev];
    let c0 = chained(g, first, head, tail);
    let a = c0.add_node(last, link, items.last());
    let b = chained(g, first, keys, items);
    assert(head.no_duplicates());
    assert forall|k: SeqKey| keys.contains(k) <==> head.contains(k) || k == last by {
        assert(keys =~= head.push(last));
        lemma_push_contains(head, last, k);
    }
    assert(!head.contains(last)) by {
        if head.contains(last) {
            let i = choose|i: int| 0 <= i < head.len() && head[i] == last;
            assert(keys[i] == keys[n - 1]);
        }
    }
    assert forall|k: SeqKey| link.contains(k) <==> k == prev by {
        if k == prev {
            assert(link[0] == k);
        }
    }
    assert forall|k: SeqKey| head.contains(k) implies keys.index_of(k) == head.index_of(k)
        && 0 <= head.index_of(k) < n - 1 && keys[head.index_of(k)] == k by {
        let i = head.index_of(k);
        assert(head[i] == keys[i]);
        lemma_index_of(keys, i);
    }
    lemma_index_of(keys, n - 1);
    lemma_index_of(keys, n - 2);
    lemma_index_of(head, n - 2);
    assert(head[0] == keys[0]);
    assert(c0.nodes[prev] == chain_node(first, head, tail, n - 2));
    assert(c0.children(prev).push(last) =~= seq![last]);
    assert(!c0.all_completed(link)) by {
        assert(c0.status(link[0]) == NodeStatus::Inactive);
    }
    assert forall|k: SeqKey| #[trigger] a.contains(k) implies a.nodes[k] == b.nodes[k] by {
        if k == last {
        } else if k == prev {
            if n >= 3 {
                assert(head[n - 3] == keys[n - 3]);
            }
        } else if head.contains(k) {
            let i = head.index_of(k);
            assert(head[i] == k);
            assert(i != n - 2);
            assert(head[i + 1] == keys[i + 1]);
            if i > 0 {
                assert(head[i - 1] == keys[i - 1]);
            }
        } else {
        }
    }
    assert(a.nodes =~= b.nodes);
}

/// A chain added node by node is the chain written out.
pub proof fn law_add_chain_shape<I>(
    g: Graph<I>,
    first: Seq<SeqKey>,
    keys: Seq<SeqKey>,
    items: Seq<I>,
)
    requires
        g.fresh(keys),
        g.contains_all(first),
        keys.len() == items.len(),
    ensures
        g.add_chain(first, keys, items) == chained(g, first, keys, items),
    decreases keys.len(),
{
    let n = keys.len() as int;
    if n > 0 {
        law_add_chain_shape(g, first, keys.drop_last(), items.drop_last());
        if n == 1 {
            lemma_chained_one(g, first, keys, items);
        } else {
            lemma_chained_more(g, first, keys, items);
        }
    }
}

/// A chain is its first node, and the rest of it as a chain below that node.
pub proof fn law_add_chain_from_front<I>(
    g: Graph<I>,
    first: Seq<SeqKey>,
    keys: Seq<SeqKey>,
    items: Seq<I>,
)
    requires
        keys.len() > 0,
        keys.len() == items.len(),
    ensures
        g.add_chain(first, keys, items) == g.add_node(keys[0], first, items[0]).add_chain(
            seq![keys[0]],
            keys.drop_first(),
            items.drop_first(),
        ),
    decreases keys.len(),
{
    let n = keys.len() as int;
    let root = g.add_node(keys[0], first, items[0]);
    if n == 1 {
        assert(g.add_chain(first, keys.drop_last(), items.drop_last()) == g);
        assert(root.add_chain(seq![keys[0]], keys.drop_first(), items.drop_first()) == root);
    } else {
        law_add_chain_from_front(g, first, keys.drop_last(), items.drop_last());
        assert(keys.drop_last().drop_first() =~= keys.drop_first().drop_last());
        assert(items.drop_last().drop_first() =~= items.drop_first().drop_last());
        assert(Graph::<I>::link(first, keys, n - 1) =~= Graph::<I>::link(
            seq![keys[0]],
            keys.drop_first(),
            n - 2,
        ));
    }
}

/// A graph with a chain spliced in below `parent`, written out node by node.
/// The new nodes are linked one to the next, and the last of them has the
/// children that `parent` had. `parent` has the first new node as its only
/// child. Each former child of `parent` waits for the last new node where it
/// waited for `parent`, and is not queued. The first new node is queued if
/// `parent` is `Completed`.
pub open spec fn spliced<I>(g: Graph<I>, parent: SeqKey, keys: Seq<SeqKey>, items: Seq<I>)
    -> Graph<I> {
    Graph {
        nodes: Map::new(
            |k: SeqKey| g.contains(k) || keys.contains(k),
            |k: SeqKey|
                if keys.contains(k) {
                    NodeView {
                        children: if keys.index_of(k) + 1 < keys.len() {
                            seq![keys[keys.index_of(k) + 1]]
                        } else {
                            g.children(parent)
                        },
                        ..chain_node(seq![parent], keys, items, keys.index_of(k))
                    }
                } else {
                    NodeView {
                        parents: if g.children(parent).contains(k) {
                            renamed(g.parents(k), parent, keys.last())
                        } else {
                            g.parents(k)
                        },
                        children: if k == parent {
                            seq![keys[0]]
                        } else {
                            g.children(k)
                        },
                        status: g.status(k),
                        item: g.nodes[k].item,
                    }
                },
        ),
        roots: g.roots,
        queued: without(
            if g.status(parent) == NodeStatus::Completed {
                g.queued.push(keys[0])
            } else {
                g.queued
            },
            g.children(parent),
        ),
        active: g.active,
    }
}

/// A chain spliced in step by step is the splice written out.
pub proof fn law_inject_shape<I>(g: Graph<I>, parent: SeqKey, keys: Seq<SeqKey>, items: Seq<I>)
    requires
        g.wf(),
        g.contains(parent),
        g.fresh(keys),
        keys.len() > 0,
        keys.len() == items.len(),
    ensures
        g.inject(parent, keys, items) == spliced(g, parent, keys, items),
{
    let n = keys.len() as int;
    let d = g.detach(parent);
    let first = seq![parent];
    let orphans = g.children(parent);
    let last = keys[n - 1];
    let c = d.add_chain(first, keys, items);
    let a = g.inject(parent, keys, items);
    let b = spliced(g, parent, keys, items);
    assert(d.nodes.dom() =~= g.nodes.dom());
    assert(d.fresh(keys));
    assert(d.contains_all(first));
    law_add_chain_shape(d, first, keys, items);
    assert(c == chained(d, first, keys, items));
    assert forall|k: SeqKey| first.contains(k) <==> k == parent by {
        if k == parent {
            assert(first[0] == k);
        }
    }
    assert(d.all_completed(first) <==> g.status(parent) == NodeStatus::Completed) by {
        assert(first[0] == parent);
    }
    assert(d.children(parent).push(keys[0]) =~= seq![keys[0]]);
    lemma_index_of(keys, n - 1);
    assert forall|k: SeqKey| orphans.contains(k) implies !keys.contains(k) by {
        assert(g.contains(k));
        if keys.contains(k) {
            let i = keys.index_of(k);
            assert(!g.contains(keys[i]));
        }
    }
    assert forall|k: SeqKey| keys.contains(k) implies (keys.index_of(k) + 1 < n <==> k != last)
        && 0 <= keys.index_of(k) < n by {
        let i = keys.index_of(k);
        assert(keys[i] == k);
    }
    assert forall|k: SeqKey| #[trigger] a.contains(k) implies a.nodes[k] == b.nodes[k] by {
        if keys.contains(k) {
        } else if k == parent {
        } else {
        }
    }
    assert(a.nodes =~= b.nodes);
}

/// What `ready_among` keeps: the entries that are ready, each as often as
/// before.
pub proof fn lemma_ready_among<I>(g: Graph<I>, keys: Seq<SeqKey>)
    ensures
        forall|x: SeqKey| #[trigger]
            g.ready_among(keys).contains(x) <==> keys.contains(x) && g.ready(x),
        keys.no_duplicates() ==> g.ready_among(keys).no_duplicates(),
    decreases keys.len(),
{
    if keys.len() > 0 {
        let rest = keys.drop_last();
        let last = keys.last();
        lemma_ready_among(g, rest);
        assert(keys =~= rest.push(last));
        assert forall|x: SeqKey| #[trigger]
            g.ready_among(keys).contains(x) <==> keys.contains(x) && g.ready(x) by {
            lemma_push_contains(rest, last, x);
            lemma_push_contains(g.ready_among(rest), last, x);
        }
        if keys.no_duplicates() {
            assert(rest.no_duplicates()) by {
                assert forall|i: int, j: int|
                    0 <= i < rest.len() && 0 <= j < rest.len() && i != j implies rest[i]
                    != rest[j] by {
                    assert(rest[i] == keys[i] && rest[j] == keys[j]);
                }
            }
            assert(!rest.contains(last)) by {
                if rest.contains(last) {
                    let i = choose|i: int| 0 <= i < rest.len() && rest[i] == last;
                    assert(keys[i] == keys[keys.len() - 1]);
                }
            }
            if g.ready(last) {
                lemma_push_no_duplicates(g.ready_among(rest), last);
            }
        }
    }
}

/// Recording the new node as a child of the next parent, after those
/// before it.
pub proof fn lemma_link_next<I>(g: Graph<I>, key: SeqKey, parents: Seq<SeqKey>, item: I, i: int)
    requires
        0 <= i < parents.len(),
        parents.no_duplicates(),
        g.contains_all(parents),
        !g.contains(key),
    ensures
        ({
            let linked = g.add_node(key, parents.take(i), item).nodes.insert(
                key,
                Graph::blank(item),
            );
            let parent = linked[parents[i]];
            &&& parent == g.nodes[parents[i]]
            &&& linked.insert(
                parents[i],
                NodeView { children: parent.children.push(key), ..parent },
            ) == g.add_node(key, parents.take(i + 1), item).nodes.insert(
                key,
                Graph::blank(item),
            )
        }),
{
    let linked = g.add_node(key, parents.take(i), item).nodes.insert(key, Graph::blank(item));
    let parent = linked[parents[i]];
    let a = linked.insert(parents[i], NodeView { children: parent.children.push(key), ..parent });
    let b = g.add_node(key, parents.take(i + 1), item).nodes.insert(key, Graph::blank(item));
    lemma_take_next(parents, i);
    assert forall|k: SeqKey|
        parents.take(i + 1).contains(k) <==> parents.take(i).contains(k) || k
            == parents[i] by {
        lemma_push_contains(parents.take(i), parents[i], k);
    }
    assert(!parents.take(i).contains(parents[i])) by {
        if parents.take(i).contains(parents[i]) {
            let j = choose|j: int| 0 <= j < i && parents.take(i)[j] == parents[i];
            assert(parents[j] == parents[i]);
        }
    }
    assert(g.contains(parents[i]));
    assert(a =~= b);
}

/// Activating the next queued node, after those before it.
pub proof fn lemma_activate_next<I>(g: Graph<I>, keys: Seq<SeqKey>, i: int)
    requires
        0 <= i < keys.len(),
        keys.no_duplicates(),
        g.contains(keys[i]),
    ensures
        g.activate(keys.take(i)).start(keys[i]) == g.activate(keys.take(i + 1)),
        g.activate(keys.take(i)).status(keys[i]) == g.status(keys[i]),
{
    let a = g.activate(keys.take(i)).start(keys[i]);
    let b = g.activate(keys.take(i + 1));
    lemma_take_next(keys, i);
    assert forall|k: SeqKey|
        keys.take(i + 1).contains(k) <==> keys.take(i).contains(k) || k == keys[i] by {
        lemma_push_contains(keys.take(i), keys[i], k);
    }
    assert(!keys.take(i).contains(keys[i])) by {
        if keys.take(i).contains(keys[i]) {
            let j = choose|j: int| 0 <= j < i && keys.take(i)[j] == keys[i];
            assert(keys[j] == keys[i]);
        }
    }
    assert(a.nodes =~= b.nodes);
    assert(a.active =~= b.active);
}

/// Giving the next orphan its new parent, after those before it.
pub proof fn lemma_reparent_next<I>(g: Graph<I>, keys: Seq<SeqKey>, from: SeqKey, to: SeqKey, i: int)
    requires
        0 <= i < keys.len(),
        keys.no_duplicates(),
        g.contains(keys[i]),
    ensures
        ({
            let done = g.reparent(keys.take(i), from, to);
            &&& done.nodes[keys[i]] == g.nodes[keys[i]]
            &&& done.nodes.insert(
                keys[i],
                NodeView {
                    parents: renamed(g.parents(keys[i]), from, to),
                    ..g.nodes[keys[i]]
                },
            ) == g.reparent(keys.take(i + 1), from, to).nodes
        }),
{
    let done = g.reparent(keys.take(i), from, to);
    lemma_take_next(keys, i);
    assert forall|k: SeqKey|
        keys.take(i + 1).contains(k) <==> keys.take(i).contains(k) || k == keys[i] by {
        lemma_push_contains(keys.take(i), keys[i], k);
    }
    assert(!keys.take(i).contains(keys[i])) by {
        if keys.take(i).contains(keys[i]) {
            let j = choose|j: int| 0 <= j < i && keys.take(i)[j] == keys[i];
            assert(keys[j] == keys[i]);
        }
    }
    assert(done.nodes.insert(
        keys[i],
        NodeView { parents: renamed(g.parents(keys[i]), from, to), ..g.nodes[keys[i]] },
    ) =~= g.reparent(keys.take(i + 1), from, to).nodes);
}

/// What completing each entry of `keys` leaves of the nodes and of the active
/// set: the nodes named that were `Active` are `Completed` and have left the
/// set, in whatever order they were named.
pub proof fn lemma_finish_all_nodes<I>(g: Graph<I>, keys: Seq<SeqKey>)
    ensures
        g.finish_all(keys).roots == g.roots,
        g.finish_all(keys).nodes == Map::new(
            |k: SeqKey| g.contains(k),
            |k: SeqKey|
                if keys.contains(k) && g.status(k) == NodeStatus::Active {
                    NodeView { status: NodeStatus::Completed, ..g.nodes[k] }
                } else {
                    g.nodes[k]
                },
        ),
        g.finish_all(keys).active == Set::new(
            |k: SeqKey|
                g.active.contains(k) && !(keys.contains(k) && g.contains(k) && g.status(k)
                    == NodeStatus::Active),
        ),
    decreases keys.len(),
{
    let nodes = Map::new(
        |k: SeqKey| g.contains(k),
        |k: SeqKey|
            if keys.contains(k) && g.status(k) == NodeStatus::Active {
                NodeView { status: NodeStatus::Completed, ..g.nodes[k] }
            } else {
                g.nodes[k]
            },
    );
    let active = Set::new(
        |k: SeqKey|
            g.active.contains(k) && !(keys.contains(k) && g.contains(k) && g.status(k)
                == NodeStatus::Active),
    );
    if keys.len() == 0 {
        assert(g.nodes =~= nodes);
        assert(g.active =~= active);
    } else {
        let head = keys.drop_last();
        let last = keys.last();
        lemma_finish_all_nodes(g, head);
        assert forall|k: SeqKey| keys.contains(k) <==> head.contains(k) || k == last by {
            assert(keys =~= head.push(last));
            lemma_push_contains(head, last, k);
        }
        assert(g.finish_all(keys).nodes =~= nodes);
        assert(g.finish_all(keys).active =~= active);
    }
}

} // verus!
