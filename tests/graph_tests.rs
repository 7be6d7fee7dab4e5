use std::rc::Rc;
use txgraph::graph::Graph;

fn values<T: Copy>(hs: &[Rc<T>]) -> Vec<T> {
    hs.iter().map(|h| **h).collect()
}

fn samples() -> Vec<i32> {
    let mut v: Vec<i32> = vec![0, 1, -1, i32::MIN, i32::MAX, 42, -42];
    for k in -50..50 {
        v.push(k * 7919);
    }
    v
}

#[test]
fn property_add_vertex_contains_vertex() {
    for val in samples() {
        let mut graph = Graph::new();
        graph.insert_vertex(val);
        assert!(graph.contains_vertex(&val));
    }
}

#[test]
fn property_add_edge_contains_edge() {
    let s = samples();
    for &val1 in &s {
        for &val2 in s.iter().take(20) {
            let mut graph = Graph::new();
            graph.insert_edge(val1, val2);
            assert!(graph.contains_edge(&val1, &val2));
            assert!(graph.contains_vertex(&val1));
            assert!(graph.contains_vertex(&val2));
        }
    }
}

#[test]
fn edge_not_present_after_removal() {
    let s = samples();
    for &u in &s {
        for &v in s.iter().take(20) {
            let mut graph = Graph::new();
            graph.insert_edge(u.clone(), v.clone());
            graph.remove_edge(&u, &v);
            assert!(!graph.contains_edge(&u, &v));
        }
    }
}

#[test]
fn vertex_not_present_after_removal() {
    for val in samples() {
        let mut graph = Graph::new();
        graph.insert_vertex(val.clone());
        graph.remove_vertex(&val);
        assert!(!graph.contains_vertex(&val));
    }
}

#[test]
fn direct_path_exists() {
    let mut graph = Graph::new();
    graph.insert_edge("A", "B");
    assert!(graph.path_exists_between(&"A", &"B"));
}

#[test]
fn indirect_path_exists() {
    let mut graph = Graph::new();
    graph.insert_edge("A", "B");
    graph.insert_edge("B", "C");
    assert!(graph.path_exists_between(&"A", &"C"));
}

#[test]
fn no_path_exists() {
    let mut graph = Graph::new();
    graph.insert_edge("A", "B");
    graph.insert_edge("C", "D");
    assert!(!graph.path_exists_between(&"A", &"C"));
}

#[test]
fn complex_graph_with_path() {
    let mut graph = Graph::new();
    graph.insert_edge("A", "B");
    graph.insert_edge("B", "C");
    graph.insert_edge("C", "D");
    graph.insert_edge("D", "E");
    graph.insert_edge("A", "F");
    graph.insert_edge("F", "G");
    graph.insert_edge("G", "D");
    assert!(graph.path_exists_between(&"A", &"E"));
}

#[test]
fn complex_graph_without_path() {
    let mut graph = Graph::new();
    graph.insert_edge("A", "B");
    graph.insert_edge("B", "C");
    graph.insert_edge("E", "F");
    graph.insert_edge("F", "G");
    assert!(!graph.path_exists_between(&"A", &"G"));
}

#[test]
fn test_contains_vertex() {
    let mut graph = Graph::new();
    graph.insert_edge("A", "B");
    graph.insert_edge("C", "B");

    assert!(graph.contains_vertex(&"A"));
    assert!(graph.contains_vertex(&"B"));
    assert!(graph.contains_vertex(&"C"));
}

#[test]
fn reflexive_reachability() {
    let mut graph = Graph::new();
    graph.insert_vertex("A");
    assert!(graph.path_exists_between(&"A", &"A"));
    assert!(!graph.path_exists_between(&"Z", &"Z"));
    graph.insert_edge("B", "C");
    assert!(graph.path_exists_between(&"C", &"C"));
    assert!(!graph.path_exists_between(&"C", &"B"));
}

#[test]
fn unknown_start_reaches_nothing() {
    let mut graph = Graph::new();
    graph.insert_edge(1, 2);
    assert!(!graph.path_exists_between(&3, &2));
    assert!(!graph.path_exists_between(&3, &3));
}

#[test]
fn self_loop_is_an_edge() {
    let mut graph = Graph::new();
    graph.insert_edge(5, 5);
    assert!(graph.contains_edge(&5, &5));
    assert_eq!(graph.vertices().len(), 1);
    assert_eq!(values(&graph.neighbors(&5)), vec![5]);
}

#[test]
fn neighbors_are_predecessors() {
    let mut graph = Graph::new();
    graph.insert_edge("A", "B");
    graph.insert_edge("C", "B");
    graph.insert_edge("B", "D");
    let mut preds = values(&graph.neighbors(&"B"));
    preds.sort();
    assert_eq!(preds, vec!["A", "C"]);
    assert!(graph.neighbors(&"A").is_empty());
    assert!(graph.neighbors(&"unknown").is_empty());
}

#[test]
fn vertices_lists_each_once() {
    let mut graph = Graph::new();
    graph.insert_edge(1, 2);
    graph.insert_edge(2, 3);
    graph.insert_edge(1, 2);
    graph.insert_vertex(1);
    graph.insert_vertex(9);
    let mut vs = values(&graph.vertices());
    vs.sort();
    assert_eq!(vs, vec![1, 2, 3, 9]);
    assert!(Graph::<i32>::new().vertices().is_empty());
}

#[test]
fn insert_vertex_keeps_existing_edges() {
    let mut graph = Graph::new();
    graph.insert_edge(1, 2);
    graph.insert_vertex(1);
    assert!(graph.contains_edge(&1, &2));
}

#[test]
fn repeated_edge_insert_is_idempotent() {
    let mut graph = Graph::new();
    graph.insert_edge(1, 2);
    graph.insert_edge(1, 2);
    graph.remove_edge(&1, &2);
    assert!(!graph.contains_edge(&1, &2));
    assert!(graph.contains_vertex(&1));
    assert!(graph.contains_vertex(&2));
}

#[test]
fn remove_edge_on_unknown_vertex_is_a_no_op() {
    let mut graph = Graph::new();
    graph.insert_edge(1, 2);
    graph.remove_edge(&7, &2);
    graph.remove_edge(&1, &7);
    graph.remove_edge(&2, &1);
    assert!(graph.contains_edge(&1, &2));
    assert_eq!(graph.vertices().len(), 2);
}

#[test]
fn remove_vertex_drops_incoming_and_outgoing_edges() {
    let mut graph = Graph::new();
    graph.insert_edge(1, 2);
    graph.insert_edge(2, 3);
    graph.insert_edge(3, 2);
    graph.insert_edge(4, 3);
    graph.remove_vertex(&2);
    assert!(!graph.contains_vertex(&2));
    assert!(!graph.contains_edge(&1, &2));
    assert!(!graph.contains_edge(&3, &2));
    assert!(graph.contains_edge(&4, &3));
    assert!(!graph.path_exists_between(&1, &3));
    assert!(graph.neighbors(&2).is_empty());
    let mut preds = values(&graph.neighbors(&3));
    preds.sort();
    assert_eq!(preds, vec![4]);
    graph.insert_edge(1, 3);
    assert!(graph.path_exists_between(&1, &3));
}

#[test]
fn remove_unknown_vertex_changes_nothing() {
    let mut graph = Graph::new();
    graph.insert_edge(1, 2);
    graph.remove_vertex(&3);
    assert!(graph.contains_edge(&1, &2));
    assert_eq!(graph.vertices().len(), 2);
}

#[test]
fn contains_edge_is_directed() {
    let mut graph = Graph::new();
    graph.insert_edge(1, 2);
    assert!(graph.contains_edge(&1, &2));
    assert!(!graph.contains_edge(&2, &1));
    assert!(!graph.contains_edge(&3, &1));
}
