use texturegen::dag::PortNumbered;
use texturegen::{port, Port, WouldBreak};

fn graph(n: usize) -> (PortNumbered<usize>, Vec<u32>) {
    let mut g = PortNumbered::new();
    let ids = (0..n).map(|i| g.add_node(i)).collect();
    (g, ids)
}

#[test]
fn nodes_get_consecutive_handles_and_keep_their_weights() {
    let (g, ids) = graph(3);
    assert_eq!(ids, vec![0, 1, 2]);
    assert_eq!(g.node_weight(1), Some(&1));
    assert_eq!(g.node_weight(3), None);
    assert_eq!(g.node_count(), 3);
}

#[test]
fn update_edge_refuses_cycles() {
    let (mut g, n) = graph(3);
    assert_eq!(g.update_edge(port(n[0], 0), port(n[1], 0)), Ok(()));
    assert_eq!(g.update_edge(port(n[1], 0), port(n[2], 0)), Ok(()));
    assert_eq!(g.update_edge(port(n[2], 0), port(n[0], 0)), Err(WouldBreak::WouldCycle));
    assert_eq!(g.update_edge(port(n[1], 1), port(n[1], 1)), Err(WouldBreak::WouldCycle));
    assert_eq!(g.edge_count(), 2);
}

#[test]
fn refused_edge_keeps_the_old_one_in_place() {
    let (mut g, n) = graph(3);
    assert_eq!(g.update_edge(port(n[1], 0), port(n[0], 0)), Ok(()));
    assert_eq!(g.update_edge(port(n[0], 0), port(n[2], 0)), Ok(()));
    // would replace the edge into (0, 0) but closes 0 -> 2 -> 0
    assert_eq!(g.update_edge(port(n[2], 0), port(n[0], 0)), Err(WouldBreak::WouldCycle));
    assert_eq!(g.edges(), vec![
        (Port { node: 1, port: 0 }, Port { node: 0, port: 0 }),
        (Port { node: 0, port: 0 }, Port { node: 2, port: 0 }),
    ]);
}

#[test]
fn parallel_edges_into_different_ports() {
    let (mut g, n) = graph(2);
    assert_eq!(g.update_edge(port(n[0], 0), port(n[1], 0)), Ok(()));
    assert_eq!(g.update_edge(port(n[0], 0), port(n[1], 1)), Ok(()));
    assert_eq!(g.edge_count(), 2);
    let mut parents = g.parents(n[1]);
    parents.sort_by_key(|p| p.1);
    assert_eq!(parents, vec![(Port { node: 0, port: 0 }, 0), (Port { node: 0, port: 0 }, 1)]);
    assert_eq!(g.children(n[0]).len(), 2);
    assert!(g.children(n[1]).is_empty());
}

#[test]
fn remove_edge_to_port_returns_the_source() {
    let (mut g, n) = graph(2);
    assert_eq!(g.update_edge(port(n[0], 3), port(n[1], 2)), Ok(()));
    assert_eq!(g.remove_edge_to_port(port(n[1], 1)), None);
    assert_eq!(g.remove_edge_to_port(port(n[1], 2)), Some(Port { node: 0, port: 3 }));
    assert_eq!(g.remove_edge_to_port(port(n[1], 2)), None);
    assert_eq!(g.edge_count(), 0);
}

#[test]
fn removing_edges_and_nodes() {
    let (mut g, n) = graph(4);
    g.update_edge(port(n[0], 0), port(n[1], 0)).unwrap();
    g.update_edge(port(n[1], 0), port(n[2], 0)).unwrap();
    g.update_edge(port(n[1], 0), port(n[3], 0)).unwrap();
    g.update_edge(port(n[0], 0), port(n[3], 1)).unwrap();
    g.remove_outgoing_edges(n[1]);
    assert_eq!(g.edge_count(), 2);
    assert!(g.children(n[1]).is_empty());
    assert_eq!(g.remove_node(n[0]), Some(0));
    assert_eq!(g.edge_count(), 0);
    assert_eq!(g.remove_node(n[0]), None);
    assert_eq!(g.node_weight(n[0]), None);
    assert_eq!(g.node_weight(n[3]), Some(&3));
}

#[test]
fn reachable_follows_edges_forward() {
    let (mut g, n) = graph(4);
    g.update_edge(port(n[0], 0), port(n[1], 0)).unwrap();
    g.update_edge(port(n[1], 0), port(n[2], 0)).unwrap();
    let mut r = g.reachable(n[0]);
    r.sort();
    assert_eq!(r, vec![0, 1, 2]);
    assert_eq!(g.reachable(n[3]), vec![3]);
}

#[test]
fn removing_outgoing_edges_of_an_unknown_handle_changes_nothing() {
    let (mut g, n) = graph(2);
    g.update_edge(port(n[0], 0), port(n[1], 0)).unwrap();
    g.remove_outgoing_edges(7);
    assert_eq!(g.edge_count(), 1);
}
