//! The specification of the breadth-first walk.
//!
//! [`bfs_from`] computes, over the mathematical model of a graph, the exact
//! sequence of visitor events that a breadth-first traversal produces from a
//! given visited-marker state and pending queue. It yields `None` exactly when
//! the traversal would be a fatal contract violation: a dequeued, not yet
//! visited reference that resolves to no node (in particular, the root of an
//! empty graph).

use vstd::prelude::*;

use crate::node::NodeModel;
use crate::node::NodeRef;

verus! {

/// One visitor event: the node being expanded, paired with one resolved
/// outgoing target, or with an explicit absent target when the node has no
/// outgoing edges or the edge points past the graph's bounds.
pub type Event = (NodeRef, Option<NodeRef>);

/// How many positions of a visited-marker sequence are still unvisited.
pub open spec fn count_false(s: Seq<bool>) -> nat
    decreases s.len(),
{
    if s.len() == 0 {
        0
    } else {
        count_false(s.drop_last()) + (if s.last() {
            0nat
        } else {
            1nat
        })
    }
}

/// Marking an unvisited position visited strictly lowers the unvisited count.
pub proof fn lemma_count_false_update(s: Seq<bool>, i: int)
    requires
        0 <= i < s.len(),
        !s[i],
    ensures
        count_false(s.update(i, true)) < count_false(s),
    decreases s.len(),
{
    if i == s.len() - 1 {
        assert(s.update(i, true).drop_last() =~= s.drop_last());
        assert(s.update(i, true).last());
    } else {
        assert(s.update(i, true).drop_last() =~= s.drop_last().update(i, true));
        assert(s.update(i, true).last() == s.last());
        lemma_count_false_update(s.drop_last(), i);
    }
}

/// The events reported when the node referred to by `h` is expanded: one per
/// outgoing edge, in edge-insertion order, each with its target resolved or
/// absent; or a single event with an absent target when there are no edges.
pub open spec fn node_events(g: Seq<NodeModel>, h: NodeRef) -> Seq<Event> {
    let edges = g[h.0 as int].edges;
    if edges.len() == 0 {
        seq![(h, None)]
    } else {
        Seq::new(
            edges.len(),
            |k: int|
                (
                    h,
                    if edges[k].0 < g.len() {
                        Some(edges[k])
                    } else {
                        None
                    },
                ),
        )
    }
}

/// The event sequence of a breadth-first traversal of `g` continued from the
/// given visited markers and pending queue, or `None` when a dequeued,
/// unvisited reference resolves to no node.
pub open spec fn bfs_from(g: Seq<NodeModel>, visited: Seq<bool>, queue: Seq<NodeRef>) -> Option<
    Seq<Event>,
>
    decreases count_false(visited), queue.len(),
    via bfs_from_decreases
{
    if queue.len() == 0 {
        Some(Seq::empty())
    } else {
        let h = queue[0];
        if h.0 >= g.len() || h.0 >= visited.len() {
            None
        } else if visited[h.0 as int] {
            bfs_from(g, visited, queue.drop_first())
        } else {
            match bfs_from(
                g,
                visited.update(h.0 as int, true),
                queue.drop_first() + g[h.0 as int].edges,
            ) {
                Some(rest) => Some(node_events(g, h) + rest),
                None => None,
            }
        }
    }
}

#[via_fn]
proof fn bfs_from_decreases(g: Seq<NodeModel>, visited: Seq<bool>, queue: Seq<NodeRef>) {
    if queue.len() > 0 {
        let h = queue[0];
        if h.0 < g.len() && h.0 < visited.len() && !visited[h.0 as int] {
            lemma_count_false_update(visited, h.0 as int);
        }
    }
}

/// All visited markers clear: the state in which a walk begins.
pub open spec fn unvisited(n: nat) -> Seq<bool> {
    Seq::new(n, |i: int| false)
}

/// The full event sequence of a breadth-first walk of `g` from the root
/// reference at position zero, or `None` when the walk is a fatal contract
/// violation (an empty graph, or a reachable edge past the graph's bounds).
pub open spec fn bfs_events(g: Seq<NodeModel>) -> Option<Seq<Event>> {
    bfs_from(g, unvisited(g.len()), seq![NodeRef(0)])
}

/// No event of `evs` reports `a` as its source.
pub open spec fn no_source(evs: Seq<Event>, a: NodeRef) -> bool {
    forall|i: int| 0 <= i < evs.len() ==> (#[trigger] evs[i]).0 != a
}

/// The events of `evs` whose source is `a` are exactly the positions
/// `p..p + node_events(g, a).len()`, and there they spell out the node's own
/// event block: one event per out-edge in insertion order, or the single
/// no-edge event.
pub open spec fn source_block_at(evs: Seq<Event>, g: Seq<NodeModel>, a: NodeRef, p: int) -> bool {
    &&& 0 <= p
    &&& p + node_events(g, a).len() <= evs.len()
    &&& evs.subrange(p, p + node_events(g, a).len() as int) == node_events(g, a)
    &&& forall|i: int|
        0 <= i < evs.len() && (#[trigger] evs[i]).0 == a ==> p <= i < p + node_events(
            g,
            a,
        ).len()
}

/// Every event block names its own node as the source.
proof fn lemma_node_events_source(g: Seq<NodeModel>, h: NodeRef)
    ensures
        forall|i: int|
            0 <= i < node_events(g, h).len() ==> (#[trigger] node_events(g, h)[i]).0 == h,
{
}

/// Visited once, edges in order: continued from any traversal state, the
/// breadth-first event sequence reports the sources already marked visited
/// never, and any other source either never or in exactly one contiguous
/// block, equal to that node's own event block.
pub proof fn lemma_bfs_source_block(
    g: Seq<NodeModel>,
    visited: Seq<bool>,
    queue: Seq<NodeRef>,
    a: NodeRef,
)
    requires
        bfs_from(g, visited, queue) is Some,
    ensures
        ({
            let evs = bfs_from(g, visited, queue).unwrap();
            &&& (a.0 < visited.len() && visited[a.0 as int] ==> no_source(evs, a))
            &&& (no_source(evs, a) || (exists|p: int| source_block_at(evs, g, a, p)))
        }),
    decreases count_false(visited), queue.len(),
{
    let evs = bfs_from(g, visited, queue).unwrap();
    if queue.len() == 0 {
        assert(no_source(evs, a));
    } else {
        let h = queue[0];
        if visited[h.0 as int] {
            lemma_bfs_source_block(g, visited, queue.drop_first(), a);
        } else {
            let v2 = visited.update(h.0 as int, true);
            let q2 = queue.drop_first() + g[h.0 as int].edges;
            lemma_count_false_update(visited, h.0 as int);
            lemma_bfs_source_block(g, v2, q2, a);
            let block = node_events(g, h);
            let rest = bfs_from(g, v2, q2).unwrap();
            assert(evs == block + rest);
            lemma_node_events_source(g, h);
            if a == h {
                assert(v2[a.0 as int]);
                assert(no_source(rest, a));
                assert(evs.subrange(0, block.len() as int) =~= block);
                assert(forall|i: int|
                    block.len() <= i < evs.len() ==> (#[trigger] evs[i]) == rest[i - block.len()]);
                assert(source_block_at(evs, g, a, 0));
            } else {
                assert(forall|i: int|
                    0 <= i < block.len() ==> (#[trigger] evs[i]).0 == h && evs[i].0 != a);
                if no_source(rest, a) {
                    assert(no_source(evs, a));
                } else {
                    let p = choose|p: int| source_block_at(rest, g, a, p);
                    let q = block.len() + p;
                    assert(evs.subrange(q, q + node_events(g, a).len() as int) =~= rest.subrange(
                        p,
                        p + node_events(g, a).len() as int,
                    ));
                    assert(forall|i: int|
                        block.len() <= i < evs.len() ==> (#[trigger] evs[i]) == rest[i
                            - block.len()]);
                    assert(source_block_at(evs, g, a, q));
                }
            }
        }
    }
}

/// Visited-once law for a whole walk: for any graph on which the walk is
/// defined and any node reference, the walk's events either never name the
/// reference as their source, or name it in exactly one contiguous block,
/// equal to the node's own event block — one event per outgoing edge in
/// edge-insertion order, or the single no-edge event — no matter how many
/// incoming edges point at the node.
pub proof fn lemma_walk_expands_each_node_once(g: Seq<NodeModel>, a: NodeRef)
    requires
        bfs_events(g) is Some,
    ensures
        no_source(bfs_events(g).unwrap(), a) || (exists|p: int|
            source_block_at(bfs_events(g).unwrap(), g, a, p)),
{
    lemma_bfs_source_block(g, unvisited(g.len()), seq![NodeRef(0)], a);
}

/// A sequence of in-bounds references in which each next reference is an
/// outgoing edge of the one before it.
pub open spec fn is_path(g: Seq<NodeModel>, p: Seq<NodeRef>) -> bool {
    &&& p.len() > 0
    &&& forall|j: int| 0 <= j < p.len() ==> (#[trigger] p[j]).0 < g.len()
    &&& forall|j: int|
        0 <= j < p.len() - 1 ==> g[(#[trigger] p[j]).0 as int].edges.contains(p[j + 1])
}

/// Whether a path of edges leads from the root reference at position zero to
/// the node `a`.
pub open spec fn reachable(g: Seq<NodeModel>, a: NodeRef) -> bool {
    exists|p: Seq<NodeRef>| is_path(g, p) && p[0] == NodeRef(0) && p.last() == a
}

/// The position of the last occurrence of `h` in `p`.
proof fn lemma_last_occurrence(p: Seq<NodeRef>, h: NodeRef) -> (j: int)
    requires
        exists|j: int| 0 <= j < p.len() && p[j] == h,
    ensures
        0 <= j < p.len(),
        p[j] == h,
        forall|j2: int| j < j2 < p.len() ==> p[j2] != h,
    decreases p.len(),
{
    if p.last() == h {
        p.len() - 1
    } else {
        let j0 = choose|j: int| 0 <= j < p.len() && p[j] == h;
        assert(p.drop_last()[j0] == h);
        let j = lemma_last_occurrence(p.drop_last(), h);
        assert(forall|j2: int| j < j2 < p.len() - 1 ==> p[j2] == p.drop_last()[j2]);
        j
    }
}

/// Completeness, continued from any traversal state: a node at the end of a
/// path of edges whose nodes are all still unvisited, and whose first node is
/// pending, is expanded before the traversal ends.
proof fn lemma_bfs_reaches(g: Seq<NodeModel>, visited: Seq<bool>, queue: Seq<NodeRef>, p: Seq<NodeRef>)
    requires
        bfs_from(g, visited, queue) is Some,
        visited.len() == g.len(),
        is_path(g, p),
        queue.contains(p[0]),
        forall|j: int| 0 <= j < p.len() ==> !visited[(#[trigger] p[j]).0 as int],
    ensures
        !no_source(bfs_from(g, visited, queue).unwrap(), p.last()),
    decreases count_false(visited), queue.len(),
{
    let evs = bfs_from(g, visited, queue).unwrap();
    let h = queue[0];
    let a = p.last();
    if visited[h.0 as int] {
        assert(p[0] != h);
        let i = choose|i: int| 0 <= i < queue.len() && queue[i] == p[0];
        assert(queue.drop_first()[i - 1] == p[0]);
        lemma_bfs_reaches(g, visited, queue.drop_first(), p);
    } else {
        let v2 = visited.update(h.0 as int, true);
        let q2 = queue.drop_first() + g[h.0 as int].edges;
        lemma_count_false_update(visited, h.0 as int);
        let block = node_events(g, h);
        let rest = bfs_from(g, v2, q2).unwrap();
        assert(evs == block + rest);
        lemma_node_events_source(g, h);
        assert(block.len() > 0);
        if a == h {
            assert(evs[0].0 == a);
        } else {
            if exists|j: int| 0 <= j < p.len() && p[j] == h {
                let j = lemma_last_occurrence(p, h);
                assert(j < p.len() - 1);
                let p2 = p.subrange(j + 1, p.len() as int);
                assert(forall|i: int| 0 <= i < p2.len() ==> (#[trigger] p2[i]) == p[j + 1 + i]);
                assert forall|i: int| 0 <= i < p2.len() implies (#[trigger] p2[i]).0 < g.len() by {
                    assert(p[j + 1 + i].0 < g.len());
                }
                assert forall|i: int|
                    0 <= i < p2.len() - 1 implies g[(#[trigger] p2[i]).0 as int].edges.contains(
                    p2[i + 1],
                ) by {
                    let jj = j + 1 + i;
                    assert(p2[i] == p[jj]);
                    assert(p2[i + 1] == p[jj + 1]);
                    assert(g[p[jj].0 as int].edges.contains(p[jj + 1]));
                }
                assert(is_path(g, p2));
                assert(p2.last() == a);
                assert(forall|i: int| 0 <= i < p2.len() ==> (#[trigger] p2[i]) != h);
                assert(forall|i: int|
                    0 <= i < p2.len() ==> !v2[(#[trigger] p2[i]).0 as int]) by {
                    assert(forall|i: int|
                        0 <= i < p2.len() ==> (#[trigger] p2[i]).0 != h.0) by {
                        assert(forall|i: int|
                            0 <= i < p2.len() && (#[trigger] p2[i]).0 == h.0 ==> p2[i] == h);
                    }
                }
                assert(g[h.0 as int].edges.contains(p2[0]));
                let k = choose|k: int|
                    0 <= k < g[h.0 as int].edges.len() && g[h.0 as int].edges[k] == p2[0];
                assert(q2[queue.drop_first().len() + k] == p2[0]);
                assert(q2.contains(p2[0]));
                lemma_bfs_reaches(g, v2, q2, p2);
                let i = choose|i: int| 0 <= i < rest.len() && (#[trigger] rest[i]).0 == a;
                assert(evs[block.len() + i].0 == a);
            } else {
                assert(p[0] != h);
                let i = choose|i: int| 0 <= i < queue.len() && queue[i] == p[0];
                assert(queue.drop_first()[i - 1] == p[0]);
                assert(q2[i - 1] == p[0]);
                assert(q2.contains(p[0]));
                assert(forall|j: int| 0 <= j < p.len() ==> (#[trigger] p[j]) != h);
                assert(forall|j: int|
                    0 <= j < p.len() ==> !v2[(#[trigger] p[j]).0 as int]) by {
                    assert(forall|j: int|
                        0 <= j < p.len() && (#[trigger] p[j]).0 == h.0 ==> p[j] == h);
                }
                lemma_bfs_reaches(g, v2, q2, p);
                let i2 = choose|i2: int| 0 <= i2 < rest.len() && (#[trigger] rest[i2]).0 == a;
                assert(evs[block.len() + i2].0 == a);
            }
        }
    }
}

/// Completeness law for a whole walk: every node to which a path of edges
/// leads from the root is expanded, so the walk's events name it as a source.
pub proof fn lemma_walk_reaches_every_reachable_node(g: Seq<NodeModel>, a: NodeRef)
    requires
        bfs_events(g) is Some,
        reachable(g, a),
    ensures
        !no_source(bfs_events(g).unwrap(), a),
{
    let p = choose|p: Seq<NodeRef>| is_path(g, p) && p[0] == NodeRef(0) && p.last() == a;
    assert(seq![NodeRef(0)][0] == p[0]);
    assert(seq![NodeRef(0)].contains(p[0]));
    assert(forall|j: int| 0 <= j < p.len() ==> !unvisited(g.len())[(#[trigger] p[j]).0 as int]);
    lemma_bfs_reaches(g, unvisited(g.len()), seq![NodeRef(0)], p);
}

/// The visited-once property in both directions: a reachable node's own event
/// block — one event per outgoing edge in insertion order, or the single
/// no-edge event — appears in the walk's events in exactly one place, no
/// matter how many distinct incoming edges point at the node.
pub proof fn lemma_walk_visits_reachable_exactly_once(g: Seq<NodeModel>, a: NodeRef)
    requires
        bfs_events(g) is Some,
        reachable(g, a),
    ensures
        exists|p: int| source_block_at(bfs_events(g).unwrap(), g, a, p),
{
    lemma_walk_reaches_every_reachable_node(g, a);
    lemma_walk_expands_each_node_once(g, a);
}

/// A breadth-first traversal is defined whenever every pending reference and
/// every edge of the graph stays inside the graph's bounds: it then reaches
/// no dangling reference.
pub proof fn lemma_bfs_total(g: Seq<NodeModel>, visited: Seq<bool>, queue: Seq<NodeRef>)
    requires
        visited.len() == g.len(),
        forall|j: int| 0 <= j < queue.len() ==> (#[trigger] queue[j]).0 < g.len(),
        forall|i: int, k: int|
            0 <= i < g.len() && 0 <= k < g[i].edges.len() ==> (#[trigger] g[i].edges[k]).0
                < g.len(),
    ensures
        bfs_from(g, visited, queue) is Some,
    decreases count_false(visited), queue.len(),
{
    if queue.len() == 0 {
    } else {
        let h = queue[0];
        assert(h.0 < g.len());
        if visited[h.0 as int] {
            lemma_bfs_total(g, visited, queue.drop_first());
        } else {
            let v2 = visited.update(h.0 as int, true);
            let q2 = queue.drop_first() + g[h.0 as int].edges;
            lemma_count_false_update(visited, h.0 as int);
            assert(forall|j: int| 0 <= j < q2.len() ==> (#[trigger] q2[j]).0 < g.len());
            lemma_bfs_total(g, v2, q2);
        }
    }
}

/// Every non-empty graph all of whose edges stay inside its bounds can be
/// walked: the traversal is defined, so `walk`'s precondition holds.
pub proof fn lemma_walk_defined(g: Seq<NodeModel>)
    requires
        g.len() > 0,
        forall|i: int, k: int|
            0 <= i < g.len() && 0 <= k < g[i].edges.len() ==> (#[trigger] g[i].edges[k]).0
                < g.len(),
    ensures
        bfs_events(g) is Some,
{
    lemma_bfs_total(g, unvisited(g.len()), seq![NodeRef(0)]);
}

} // verus!
