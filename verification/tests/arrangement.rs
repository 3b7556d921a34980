use mer3ly_site::arrangement::{arrangement_order, catalog, degree_weights, radial_rings, spec, stack_layers};

fn ids(list: &[&str]) -> Vec<String> {
    list.iter().map(|id| (*id).to_owned()).collect()
}

fn edges(pairs: &[(&str, &str)]) -> Vec<(String, String)> {
    pairs
        .iter()
        .map(|(a, b)| ((*a).to_owned(), (*b).to_owned()))
        .collect()
}

fn at<T: Copy>(nodes: &[String], values: &[T], id: &str) -> T {
    let index = nodes.iter().position(|node| node == id).expect("known node");
    values[index]
}

#[test]
fn every_offered_arrangement_is_in_the_catalog() {
    for id in arrangement_order() {
        assert!(spec(id).is_some(), "{id} has no catalog entry");
    }
}

#[test]
fn rings_count_hops_from_the_focus() {
    let nodes = ids(&["a", "b", "c", "d"]);
    let rings = radial_rings(&nodes, &edges(&[("a", "b"), ("b", "c")]), "a");
    assert_eq!(at(&nodes, &rings, "a"), Some(0));
    assert_eq!(at(&nodes, &rings, "b"), Some(1));
    assert_eq!(at(&nodes, &rings, "c"), Some(2));
    assert!(at(&nodes, &rings, "d").is_none(), "an unreachable node has no ring");
}

#[test]
fn layers_follow_the_longest_path_not_the_shortest() {
    // a -> b -> c and a -> c: c must sit past b, or the edge a -> c would
    // draw backwards through the stack.
    let nodes = ids(&["a", "b", "c"]);
    let layers = stack_layers(&nodes, &edges(&[("a", "b"), ("b", "c"), ("a", "c")]));
    assert_eq!(at(&nodes, &layers, "a"), 0);
    assert_eq!(at(&nodes, &layers, "b"), 1);
    assert_eq!(at(&nodes, &layers, "c"), 2);
}

#[test]
fn a_cycle_lands_in_one_overflow_layer_rather_than_vanishing() {
    let nodes = ids(&["a", "b", "c"]);
    let layers = stack_layers(&nodes, &edges(&[("a", "b"), ("b", "c"), ("c", "b")]));
    assert_eq!(at(&nodes, &layers, "a"), 0);
    assert_eq!(
        at(&nodes, &layers, "b"),
        at(&nodes, &layers, "c"),
        "both cyclic nodes share the overflow layer"
    );
    assert!(at(&nodes, &layers, "b") > at(&nodes, &layers, "a"));
}

#[test]
fn a_repeated_edge_is_one_dependency() {
    // Counting it twice would leave the target's indegree above zero
    // forever, stranding it in the cycle overflow.
    let nodes = ids(&["a", "b"]);
    let layers = stack_layers(&nodes, &edges(&[("a", "b"), ("a", "b")]));
    assert_eq!(at(&nodes, &layers, "a"), 0);
    assert_eq!(at(&nodes, &layers, "b"), 1, "b is a real layer, not the overflow");
}

#[test]
fn catalog_lists_every_offered_arrangement_once() {
    let entries = catalog();
    assert_eq!(entries.len(), 9);
    assert_eq!(entries[0].id, "graph_layout:radial");
    assert_eq!(entries[1].display_name, "Stack");
    assert!(spec("graph_layout:unknown").is_none());
    assert_eq!(spec("graph_layout:kanban").unwrap().display_name, "Columns");
}

#[test]
fn an_unknown_focus_puts_every_node_outside_the_rings() {
    let nodes = ids(&["a", "b"]);
    let rings = radial_rings(&nodes, &edges(&[("a", "b")]), "z");
    assert!(rings.iter().all(|ring| ring.is_none()));
}

#[test]
fn linked_rings_differ_by_at_most_one_hop() {
    let nodes = ids(&["hub", "x", "y", "z", "w"]);
    let links = edges(&[("hub", "x"), ("x", "y"), ("y", "z"), ("hub", "z"), ("w", "w")]);
    let rings = radial_rings(&nodes, &links, "hub");
    assert_eq!(at(&nodes, &rings, "hub"), Some(0));
    assert_eq!(at(&nodes, &rings, "y"), Some(2));
    assert_eq!(at(&nodes, &rings, "z"), Some(1));
    assert_eq!(at(&nodes, &rings, "w"), None, "a self-edge reaches nothing");
    for (source, target) in &links {
        if let (Some(a), Some(b)) = (at(&nodes, &rings, source), at(&nodes, &rings, target)) {
            assert!(a.abs_diff(b) <= 1);
        }
    }
}

#[test]
fn settled_layers_sit_below_their_dependents_and_below_the_overflow() {
    let nodes = ids(&["root", "mid", "leaf", "loop-a", "loop-b", "lonely"]);
    let links = edges(&[
        ("root", "mid"),
        ("mid", "leaf"),
        ("root", "leaf"),
        ("leaf", "loop-a"),
        ("loop-a", "loop-b"),
        ("loop-b", "loop-a"),
        ("ghost", "root"),
    ]);
    let layers = stack_layers(&nodes, &links);
    assert_eq!(at(&nodes, &layers, "root"), 0);
    assert_eq!(at(&nodes, &layers, "mid"), 1);
    assert_eq!(at(&nodes, &layers, "leaf"), 2);
    assert_eq!(at(&nodes, &layers, "lonely"), 0);
    assert_eq!(at(&nodes, &layers, "loop-a"), 4);
    assert_eq!(at(&nodes, &layers, "loop-b"), 4);
}

#[test]
fn layers_depend_only_on_which_known_nodes_the_edges_relate() {
    let nodes = ids(&["a", "b", "c", "d"]);
    let plain = stack_layers(&nodes, &edges(&[("a", "b"), ("b", "c"), ("a", "d")]));
    let shuffled = stack_layers(
        &nodes,
        &edges(&[("a", "d"), ("b", "c"), ("x", "a"), ("a", "b"), ("b", "c"), ("c", "unknown")]),
    );
    assert_eq!(plain, shuffled);
    assert_eq!(plain, vec![0, 1, 2, 1]);
}

#[test]
fn degree_weights_count_every_listed_relation_between_distinct_known_nodes() {
    let nodes = ids(&["a", "b", "c"]);
    let weights = degree_weights(&nodes, &edges(&[("a", "b"), ("a", "b"), ("b", "c"), ("c", "c"), ("a", "x")]));
    assert_eq!(weights, vec![3, 4, 2]);
    assert_eq!(degree_weights(&nodes, &Vec::new()), vec![1, 1, 1]);
}
