//! The graph: an append-only arena of nodes, plus linking, lookup and the
//! breadth-first walk.

use vstd::prelude::*;

use std::collections::VecDeque;

use crate::bfs::bfs_events;
use crate::bfs::bfs_from;
use crate::bfs::count_false;
use crate::bfs::lemma_count_false_update;
use crate::bfs::node_events;
use crate::bfs::unvisited;
use crate::bfs::Event;
use crate::label::label_of;
use crate::label::node_label;
use crate::node::NodeModel;
use crate::node::NodeRef;

verus! {

/// One vertex of a graph: its identity, a display label, and the ordered list
/// of outgoing edges. The identity is maintained by the owning graph alone and
/// always equals the node's position in the arena; the label may be rewritten
/// freely by the owner.
#[derive(Debug)]
pub struct Node {
    id: NodeRef,
    pub label: String,
    edges: Vec<NodeRef>,
}

impl View for Node {
    type V = NodeModel;

    closed spec fn view(&self) -> NodeModel {
        NodeModel { id: self.id, label: self.label@, edges: self.edges@ }
    }
}

impl Node {
    /// The node's identity: in a well-formed graph, the reference under which
    /// the node was handed out.
    pub fn id(&self) -> (r: NodeRef)
        ensures
            r == self@.id,
    {
        self.id
    }

    /// The node's outgoing edges, in insertion order.
    pub fn edges(&self) -> (r: &Vec<NodeRef>)
        ensures
            r@ == self@.edges,
    {
        &self.edges
    }

    /// Appends one outgoing edge, keeping identity and label unchanged.
    fn push_edge(&mut self, to: NodeRef)
        ensures
            final(self)@ == (NodeModel { edges: old(self)@.edges.push(to), ..old(self)@ }),
    {
        self.edges.push(to);
    }
}

/// A graph stored as a single contiguous, append-only arena of nodes. Nodes
/// never move once created, so a [`NodeRef`] handed out once stays valid for
/// the graph's whole lifetime.
pub struct Graph {
    nodes: Vec<Node>,
}

/// A well-formed graph stores every node at the position its identity names.
pub open spec fn graph_wf(g: Seq<NodeModel>) -> bool {
    forall|i: int| 0 <= i < g.len() ==> (#[trigger] g[i]).id.0 == i
}

/// Identity law: in a well-formed graph, any in-bounds reference — in
/// particular any reference returned by node creation — resolves to the node
/// whose own identity equals that reference.
pub proof fn lemma_resolves_to_identity(g: Seq<NodeModel>, r: NodeRef)
    requires
        graph_wf(g),
        r.0 < g.len(),
    ensures
        g[r.0 as int].id == r,
{
}

/// Index stability law: appending a node never changes what any earlier
/// reference resolves to.
pub proof fn lemma_index_stability(g: Seq<NodeModel>, n: NodeModel, r: NodeRef)
    requires
        r.0 < g.len(),
    ensures
        g.push(n)[r.0 as int] == g[r.0 as int],
{
}

impl View for Graph {
    type V = Seq<NodeModel>;

    closed spec fn view(&self) -> Seq<NodeModel> {
        Seq::new(self.nodes@.len(), |i: int| self.nodes@[i]@)
    }
}

impl Graph {
    /// Whether the graph is well formed: every operation of this type keeps
    /// this invariant, and a graph built through them alone always has it.
    pub open spec fn wf(&self) -> bool {
        graph_wf(self@)
    }

    /// Creates a new empty graph.
    pub fn new() -> (g: Graph)
        ensures
            g@ == Seq::<NodeModel>::empty(),
            g.wf(),
    {
        let g = Graph { nodes: Vec::new() };
        proof {
            assert(g@ =~= Seq::<NodeModel>::empty());
        }
        g
    }

    /// Appends a new node with an empty edge list and an auto-derived label,
    /// and returns its reference. The reference's index equals the pre-call
    /// node count: allocation is sequential, with no reuse and no gaps.
    pub fn add_node(&mut self) -> (r: NodeRef)
        ensures
            r.0 == old(self)@.len(),
            final(self)@ == old(self)@.push(
                (NodeModel {
                    id: r,
                    label: label_of(old(self)@.len()),
                    edges: Seq::<NodeRef>::empty(),
                }),
            ),
            old(self).wf() ==> final(self).wf(),
    {
        let node_id = self.nodes.len();
        let node = Node { id: NodeRef(node_id), label: node_label(node_id), edges: Vec::new() };
        self.nodes.push(node);
        proof {
            assert(self@ =~= old(self)@.push(
                NodeModel {
                    id: NodeRef(node_id),
                    label: label_of(old(self)@.len()),
                    edges: Seq::<NodeRef>::empty(),
                },
            ));
        }
        NodeRef(node_id)
    }

    /// Appends `to` to `from`'s outgoing edge sequence. The source must be a
    /// valid reference; the target is not validated here, and resolution
    /// happens lazily at lookup or traversal time. Repeated links of the same
    /// pair produce duplicate edges.
    pub fn link(&mut self, from: NodeRef, to: NodeRef)
        requires
            from.0 < old(self)@.len(),
        ensures
            final(self)@ == old(self)@.update(
                from.0 as int,
                (NodeModel {
                    edges: old(self)@[from.0 as int].edges.push(to),
                    ..old(self)@[from.0 as int]
                }),
            ),
            old(self).wf() ==> final(self).wf(),
    {
        let node = &mut self.nodes[from.0];
        node.push_edge(to);
        proof {
            assert(self@ =~= old(self)@.update(
                from.0 as int,
                NodeModel {
                    edges: old(self)@[from.0 as int].edges.push(to),
                    ..old(self)@[from.0 as int]
                },
            ));
        }
    }

    /// Appends a new node whose edge list is seeded with the supplied ordered
    /// sequence, and then additionally links the node once per supplied edge,
    /// so the final edge list is the sequence repeated twice. Targets need not
    /// exist yet: forward references resolve lazily at lookup or traversal
    /// time.
    pub fn add_node_linked(&mut self, edges: Vec<NodeRef>) -> (r: NodeRef)
        ensures
            r.0 == old(self)@.len(),
            final(self)@ == old(self)@.push(
                (NodeModel {
                    id: r,
                    label: label_of(old(self)@.len()),
                    edges: edges@ + edges@,
                }),
            ),
            old(self).wf() ==> final(self).wf(),
    {
        let node_id = self.nodes.len();
        let mut seeded: Vec<NodeRef> = Vec::new();
        let mut k: usize = 0;
        while k < edges.len()
            invariant
                k <= edges@.len(),
                seeded@ == edges@.take(k as int),
            decreases edges@.len() - k,
        {
            seeded.push(edges[k]);
            proof {
                assert(edges@.take(k as int).push(edges@[k as int]) =~= edges@.take(k + 1));
            }
            k += 1;
        }
        proof {
            assert(seeded@ =~= edges@);
        }
        let node = Node { id: NodeRef(node_id), label: node_label(node_id), edges: seeded };
        self.nodes.push(node);
        proof {
            assert(self@ =~= old(self)@.push(
                NodeModel {
                    id: NodeRef(node_id),
                    label: label_of(old(self)@.len()),
                    edges: edges@ + edges@.take(0),
                },
            ));
        }
        let mut k: usize = 0;
        while k < edges.len()
            invariant
                k <= edges@.len(),
                node_id == old(self)@.len(),
                self@.len() == old(self)@.len() + 1,
                self@ == old(self)@.push(
                    (NodeModel {
                        id: NodeRef(node_id),
                        label: label_of(old(self)@.len()),
                        edges: edges@ + edges@.take(k as int),
                    }),
                ),
            decreases edges@.len() - k,
        {
            self.link(NodeRef(node_id), edges[k]);
            proof {
                assert((edges@ + edges@.take(k as int)).push(edges@[k as int]) =~= edges@
                    + edges@.take(k + 1));
                assert(self@ =~= old(self)@.push(
                    NodeModel {
                        id: NodeRef(node_id),
                        label: label_of(old(self)@.len()),
                        edges: edges@ + edges@.take(k + 1),
                    },
                ));
            }
            k += 1;
        }
        proof {
            assert(edges@ + edges@.take(edges@.len() as int) =~= edges@ + edges@);
        }
        NodeRef(node_id)
    }

    /// Resolves a reference to an immutable view of its node, or reports an
    /// explicit absence when the index is out of the current bounds.
    pub fn node_as_ref(&self, id: NodeRef) -> (r: Option<&Node>)
        ensures
            match r {
                Some(node) => id.0 < self@.len() && node@ == self@[id.0 as int],
                None => id.0 >= self@.len(),
            },
    {
        if id.0 < self.nodes.len() {
            Some(&self.nodes[id.0])
        } else {
            None
        }
    }

    /// Resolves a reference to a mutable view of its node, or reports an
    /// explicit absence when the index is out of the current bounds. The
    /// caller may rewrite the label; the identity is never exposed as mutable.
    pub fn node_as_mut_ref(&mut self, id: NodeRef) -> (r: Option<&mut Node>)
        ensures
            id.0 < old(self)@.len() ==> r is Some && (*r.unwrap())@ == old(self)@[id.0 as int]
                && final(self)@ =~= old(self)@.update(id.0 as int, (*final(r.unwrap()))@),
            id.0 >= old(self)@.len() ==> r is None && final(self)@ == old(self)@,
    {
        if id.0 < self.nodes.len() {
            Some(&mut self.nodes[id.0])
        } else {
            None
        }
    }

    /// Walks the graph breadth-first from the root reference at position zero
    /// and returns one event per (expanded node, outgoing connection) pair:
    /// nodes in breadth-first layer order, and within one node the events in
    /// edge-insertion order, each target resolved or reported absent. A node
    /// enqueued through several incoming edges is expanded only on its first
    /// dequeue. Calling this on an empty graph, or on one where a reachable
    /// edge points past the graph's bounds, is a fatal contract violation and
    /// is ruled out by the precondition.
    #[verifier::loop_isolation(false)]
    pub fn walk(&self) -> (events: Vec<Event>)
        requires
            bfs_events(self@) is Some,
        ensures
            events@ == bfs_events(self@).unwrap(),
    {
        let ghost g = self@;
        let n = self.nodes.len();
        let mut visited: Vec<bool> = vec![false; n];
        let mut queue: VecDeque<NodeRef> = VecDeque::new();
        queue.push_back(NodeRef(0));
        let mut events: Vec<Event> = Vec::new();
        proof {
            assert(visited@ =~= unvisited(g.len()));
            assert(queue@ =~= seq![NodeRef(0)]);
        }
        while queue.len() != 0
            invariant
                visited@.len() == g.len(),
                bfs_from(g, visited@, queue@) is Some,
                events@ + bfs_from(g, visited@, queue@).unwrap() == bfs_events(g).unwrap(),
            decreases count_false(visited@), queue@.len(),
        {
            let ghost v0 = visited@;
            let ghost q0 = queue@;
            let head = queue.pop_front().unwrap();
            proof {
                assert(queue@ =~= q0.drop_first());
                assert(head == q0[0]);
                // A dangling dequeued reference would have made bfs_from None.
                assert(bfs_from(g, v0, q0) is Some);
            }
            assert(head.0 < g.len() && head.0 < v0.len());
            if !visited[head.0] {
                visited[head.0] = true;
                proof {
                    assert(visited@ =~= v0.update(head.0 as int, true));
                    lemma_count_false_update(v0, head.0 as int);
                }
                let ghost q2 = q0.drop_first() + g[head.0 as int].edges;
                proof {
                    assert(bfs_from(g, v0, q0) == match bfs_from(g, visited@, q2) {
                        Some(rest) => Some(node_events(g, head) + rest),
                        None => None::<Seq<Event>>,
                    });
                }
                let ghost e0 = events@;
                let node = &self.nodes[head.0];
                proof {
                    assert(node@ == g[head.0 as int]);
                }
                if node.edges.len() > 0 {
                    proof {
                        assert(events@ =~= e0 + node_events(g, head).take(0));
                        assert(queue@ =~= q0.drop_first() + node.edges@.take(0));
                    }
                    let mut k: usize = 0;
                    while k < node.edges.len()
                        invariant
                            k <= node.edges@.len(),
                            events@ == e0 + node_events(g, head).take(k as int),
                            queue@ == q0.drop_first() + node.edges@.take(k as int),
                        decreases node.edges@.len() - k,
                    {
                        let e = node.edges[k];
                        let target = if e.0 < n {
                            Some(e)
                        } else {
                            None
                        };
                        events.push((head, target));
                        queue.push_back(e);
                        proof {
                            assert(events@ =~= e0 + node_events(g, head).take(k as int + 1));
                            assert(queue@ =~= q0.drop_first() + node.edges@.take(k as int + 1));
                        }
                        k += 1;
                    }
                    proof {
                        assert(node_events(g, head).take(node.edges@.len() as int) =~= node_events(
                            g,
                            head,
                        ));
                        assert(node.edges@.take(node.edges@.len() as int) =~= node.edges@);
                        assert(queue@ =~= q2);
                    }
                } else {
                    events.push((head, None));
                    proof {
                        assert(node_events(g, head) =~= seq![(head, None::<NodeRef>)]);
                        assert(events@ =~= e0 + node_events(g, head));
                        assert(queue@ =~= q2);
                    }
                }
                proof {
                    assert(events@ + bfs_from(g, visited@, queue@).unwrap() =~= bfs_events(
                        g,
                    ).unwrap());
                }
            } else {
                proof {
                    assert(bfs_from(g, v0, q0) == bfs_from(g, visited@, queue@));
                }
            }
        }
        proof {
            assert(bfs_from(g, visited@, queue@) == Some(Seq::<Event>::empty()));
            assert(events@ =~= bfs_events(g).unwrap());
        }
        events
    }
}

} // verus!
