use arena_graph::Graph;
use arena_graph::NodeRef;

#[test]
fn new_graph_is_empty() {
    let g = Graph::new();
    assert!(g.node_as_ref(NodeRef(0)).is_none());
}

#[test]
fn add_node_returns_sequential_references() {
    let mut g = Graph::new();
    let r0 = g.add_node();
    let r1 = g.add_node();
    let r2 = g.add_node();
    assert_eq!(r0, NodeRef(0));
    assert_eq!(r1, NodeRef(1));
    assert_eq!(r2, NodeRef(2));
}

#[test]
fn returned_reference_resolves_to_its_own_identity() {
    let mut g = Graph::new();
    let r0 = g.add_node();
    let r1 = g.add_node_linked(vec![r0]);
    let n0 = g.node_as_ref(r0).unwrap();
    assert_eq!(n0.id(), r0);
    let n1 = g.node_as_ref(r1).unwrap();
    assert_eq!(n1.id(), r1);
}

#[test]
fn labels_are_derived_from_positions() {
    let mut g = Graph::new();
    let mut refs = Vec::new();
    for _ in 0..11 {
        refs.push(g.add_node());
    }
    assert_eq!(g.node_as_ref(refs[0]).unwrap().label, ".L0");
    assert_eq!(g.node_as_ref(refs[7]).unwrap().label, ".L7");
    assert_eq!(g.node_as_ref(refs[10]).unwrap().label, ".L10");
}

#[test]
fn adding_a_node_keeps_earlier_resolutions_stable() {
    let mut g = Graph::new();
    let r0 = g.add_node();
    let r1 = g.add_node();
    g.link(r0, r1);
    let before: Vec<(NodeRef, String, Vec<NodeRef>)> = vec![r0, r1]
        .into_iter()
        .map(|r| {
            let n = g.node_as_ref(r).unwrap();
            (n.id(), n.label.clone(), n.edges().clone())
        })
        .collect();
    let r2 = g.add_node();
    assert_eq!(r2, NodeRef(2));
    for (r, (id, label, edges)) in [r0, r1].iter().zip(before.iter()) {
        let n = g.node_as_ref(*r).unwrap();
        assert_eq!(n.id(), *id);
        assert_eq!(&n.label, label);
        assert_eq!(n.edges(), edges);
    }
}

#[test]
fn link_appends_edges_in_order_with_duplicates() {
    let mut g = Graph::new();
    let a = g.add_node();
    let b1 = g.add_node();
    let b2 = g.add_node();
    g.link(a, b1);
    g.link(a, b2);
    g.link(a, b1);
    let n = g.node_as_ref(a).unwrap();
    assert_eq!(n.edges(), &vec![b1, b2, b1]);
}

#[test]
fn add_node_linked_seeds_and_links_each_edge() {
    let mut g = Graph::new();
    let r0 = g.add_node();
    let r1 = g.add_node();
    let r2 = g.add_node_linked(vec![r0, r1]);
    // The edge list is seeded with the supplied sequence and the linking
    // operation then appends each supplied edge once more.
    let n = g.node_as_ref(r2).unwrap();
    assert_eq!(n.edges(), &vec![r0, r1, r0, r1]);
}

#[test]
fn lookup_past_the_node_count_is_an_absence_not_an_error() {
    let mut g = Graph::new();
    g.add_node();
    g.add_node();
    assert!(g.node_as_ref(NodeRef(2)).is_none());
    assert!(g.node_as_ref(NodeRef(1000)).is_none());
    assert!(g.node_as_mut_ref(NodeRef(2)).is_none());
    assert!(g.node_as_mut_ref(NodeRef(usize::MAX)).is_none());
    assert!(g.node_as_ref(NodeRef(1)).is_some());
}

#[test]
fn mutable_lookup_permits_label_changes() {
    let mut g = Graph::new();
    let r = g.add_node();
    assert_eq!(g.node_as_ref(r).unwrap().label, ".L0");
    g.node_as_mut_ref(r).unwrap().label = "entry".to_string();
    assert_eq!(g.node_as_ref(r).unwrap().label, "entry");
}

#[test]
fn walk_reports_branching_and_cycle_in_breadth_first_order() {
    //                   __C
    //                  /
    // root -> A -> B -
    //         |________\_D -> A
    let mut g = Graph::new();
    let root = g.add_node();
    let a = g.add_node();
    let b = g.add_node();
    let c = g.add_node();
    let d = g.add_node();
    g.link(root, a);
    g.link(a, b);
    g.link(b, c);
    g.link(b, d);
    g.link(d, a);
    let events = g.walk();
    assert_eq!(
        events,
        vec![
            (root, Some(a)),
            (a, Some(b)),
            (b, Some(c)),
            (b, Some(d)),
            (c, None),
            (d, Some(a)),
        ]
    );
}

#[test]
fn walk_expands_a_node_once_despite_many_incoming_edges() {
    // A diamond: root -> a, root -> b, a -> c, b -> c; c is enqueued twice
    // but its no-edge event appears exactly once.
    let mut g = Graph::new();
    let root = g.add_node();
    let a = g.add_node();
    let b = g.add_node();
    let c = g.add_node();
    g.link(root, a);
    g.link(root, b);
    g.link(a, c);
    g.link(b, c);
    let events = g.walk();
    assert_eq!(
        events,
        vec![
            (root, Some(a)),
            (root, Some(b)),
            (a, Some(c)),
            (b, Some(c)),
            (c, None),
        ]
    );
    let c_events: Vec<_> = events.iter().filter(|e| e.0 == c).collect();
    assert_eq!(c_events.len(), 1);
}

#[test]
fn walk_visits_edges_of_one_node_in_insertion_order() {
    let mut g = Graph::new();
    let a = g.add_node();
    let b1 = g.add_node();
    let b2 = g.add_node();
    g.link(a, b1);
    g.link(a, b2);
    let events = g.walk();
    let p1 = events.iter().position(|e| *e == (a, Some(b1))).unwrap();
    let p2 = events.iter().position(|e| *e == (a, Some(b2))).unwrap();
    assert!(p1 < p2);
}

#[test]
fn walk_terminates_on_cycles_and_self_loops() {
    let mut g = Graph::new();
    let root = g.add_node();
    let a = g.add_node();
    g.link(root, a);
    g.link(a, root);
    g.link(a, a);
    let events = g.walk();
    assert_eq!(events, vec![(root, Some(a)), (a, Some(root)), (a, Some(a))]);
}

#[test]
fn walk_of_a_single_unlinked_node_reports_one_absent_target() {
    let mut g = Graph::new();
    let root = g.add_node();
    let events = g.walk();
    assert_eq!(events, vec![(root, None)]);
}

#[test]
fn forward_references_are_permitted_and_resolve_lazily() {
    // A node may be linked to a target that does not exist yet; resolution
    // happens lazily, and until the target exists it is an explicit absence.
    let mut g = Graph::new();
    g.add_node();
    let forward = NodeRef(2);
    let r1 = g.add_node_linked(vec![forward]);
    // The edge list holds the forward reference twice (seeded, then linked).
    assert_eq!(g.node_as_ref(r1).unwrap().edges(), &vec![forward, forward]);
    assert!(g.node_as_ref(forward).is_none());
    // Once the target exists, the same reference resolves to it.
    let r2 = g.add_node();
    assert_eq!(r2, forward);
    assert_eq!(g.node_as_ref(forward).unwrap().id(), forward);
}

#[test]
fn walk_visits_duplicate_edges_separately() {
    // The root is seeded with a forward reference to the next node; seeding
    // plus linking doubles the edge, and the walk reports each copy.
    let mut g = Graph::new();
    let root = g.add_node_linked(vec![NodeRef(1)]);
    let a = g.add_node();
    let events = g.walk();
    assert_eq!(events, vec![(root, Some(a)), (root, Some(a)), (a, None)]);
}

#[test]
fn node_reference_order_follows_indices() {
    let r0 = NodeRef(0);
    let r1 = NodeRef(1);
    assert!(r0 < r1);
    assert_eq!(r0, NodeRef(0));
    assert_ne!(r0, r1);
    let copied = r0;
    assert_eq!(copied, r0);
}
