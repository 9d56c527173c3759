use rustafarian_client::packet::NodeType;
use rustafarian_client::routing::{compute_route, Topology};

#[test]
fn simple_routing() {
    let mut topology = Topology::new();
    topology.add_node(1);
    topology.add_node(2);
    topology.add_edge(1, 2);

    compute_route(&topology, 1, 2);

    assert_eq!(vec![1, 2], compute_route(&topology, 1, 2));
}

#[test]
fn complex_routing() {
    let mut topology = Topology::new();
    topology.add_node(1);
    topology.add_node(2);
    topology.add_node(3);
    topology.add_node(4);
    topology.add_edge(1, 2);
    topology.add_edge(2, 3);
    topology.add_edge(3, 4);

    assert_eq!(vec![1, 2, 3, 4], compute_route(&topology, 1, 4));
}

#[test]
fn no_route() {
    let mut topology = Topology::new();
    topology.add_node(1);
    topology.add_node(2);
    topology.add_node(3);
    topology.add_node(4);
    topology.add_edge(1, 2);
    topology.add_edge(3, 4);

    assert_eq!(Vec::<u8>::new(), compute_route(&topology, 1, 4));
}

#[test]
fn no_route_with_cycle() {
    let mut topology = Topology::new();
    topology.add_node(1);
    topology.add_node(2);
    topology.add_node(3);
    topology.add_node(4);
    topology.add_edge(1, 2);
    topology.add_edge(2, 3);

    assert_eq!(Vec::<u8>::new(), compute_route(&topology, 1, 4));
}

#[test]
fn no_route_with_cycle_and_other_edges() {
    let mut topology = Topology::new();
    topology.add_node(1);
    topology.add_node(2);
    topology.add_node(3);
    topology.add_node(4);
    topology.add_edge(1, 2);
    topology.add_edge(2, 3);
    topology.add_edge(1, 3);

    assert_eq!(Vec::<u8>::new(), compute_route(&topology, 1, 4));
}

fn setup_topology() -> Topology {
    let mut topology = Topology::new();
    topology.add_node(1);
    topology.add_node(2);
    topology.add_node(3);
    topology.add_node(4);
    topology.add_node(5);

    topology.add_edge(1, 2);
    topology.add_edge(2, 3);
    topology.add_edge(3, 4);
    topology.add_edge(4, 5);
    topology
}

#[test]
fn test_route_exists() {
    let topology = setup_topology();
    let route = compute_route(&topology, 1, 5);
    assert_eq!(route, vec![1, 2, 3, 4, 5]);
}

#[test]
fn test_direct_connection() {
    let mut topology = Topology::new();
    topology.add_node(1);
    topology.add_node(2);
    topology.add_edge(1, 2);

    let route = compute_route(&topology, 1, 2);
    assert_eq!(route, vec![1, 2]);
}

#[test]
fn test_no_route() {
    let mut topology = Topology::new();
    topology.add_node(1);
    topology.add_node(2);
    topology.add_node(3);

    topology.add_edge(1, 2);

    let route = compute_route(&topology, 1, 3);
    assert!(route.is_empty());
}

#[test]
fn test_self_loop() {
    let mut topology = Topology::new();
    topology.add_node(1);
    topology.add_edge(1, 1);

    let route = compute_route(&topology, 1, 1);
    assert_eq!(route, vec![1]);
}

#[test]
fn test_disconnected_components() {
    let mut topology = Topology::new();
    topology.add_node(1);
    topology.add_node(2);
    topology.add_node(3);
    topology.add_node(4);

    topology.add_edge(1, 2);
    topology.add_edge(3, 4);

    let route = compute_route(&topology, 1, 4);
    assert!(route.is_empty());
}

#[test]
fn test_complex_topology() {
    let mut topology = Topology::new();
    topology.add_node(1);
    topology.add_node(2);
    topology.add_node(3);
    topology.add_node(4);
    topology.add_node(5);
    topology.add_node(6);
    topology.add_node(7);

    topology.add_edge(1, 2);
    topology.add_edge(1, 3);
    topology.add_edge(2, 4);
    topology.add_edge(3, 5);
    topology.add_edge(4, 6);
    topology.add_edge(5, 7);
    topology.add_edge(7, 6);

    let route = compute_route(&topology, 1, 6);
    assert_eq!(route, vec![1, 2, 4, 6]);
}

#[test]
fn compute_route_passes_through_no_client_or_server() {
    let mut topology = Topology::new();
    topology.add_node(1);
    topology.add_node(2);
    topology.add_node(3);
    topology.add_edge(1, 2);
    topology.add_edge(2, 3);
    topology.set_node_type(1, NodeType::Client);
    topology.set_node_type(3, NodeType::Server);
    assert_eq!(compute_route(&topology, 1, 3), vec![1, 2, 3]);
    topology.set_node_type(2, NodeType::Client);
    assert_eq!(compute_route(&topology, 1, 3), Vec::<u8>::new());
    topology.set_node_type(2, NodeType::Server);
    assert_eq!(compute_route(&topology, 1, 3), Vec::<u8>::new());
    // clients and servers are still the ends of routes
    assert_eq!(compute_route(&topology, 1, 2), vec![1, 2]);
    assert_eq!(compute_route(&topology, 2, 3), vec![2, 3]);
    // a longer way through a drone is taken
    topology.add_node(4);
    topology.add_node(5);
    topology.set_node_type(4, NodeType::Drone);
    topology.add_edge(1, 4);
    topology.add_edge(4, 5);
    topology.add_edge(5, 3);
    assert_eq!(compute_route(&topology, 1, 3), vec![1, 4, 5, 3]);
}

fn drones(topology: &mut Topology, ids: &[u8]) {
    for id in ids {
        topology.add_node(*id);
        topology.set_node_type(*id, NodeType::Drone);
    }
}

#[test]
fn shortest_route_passes_through_drones_only() {
    let mut topology = Topology::new();
    drones(&mut topology, &[2, 3]);
    topology.add_node(9);
    topology.set_node_type(9, NodeType::Server);
    // 1 - 9 - 21 is shorter, but 9 is a server
    topology.add_edge(1, 9);
    topology.add_edge(9, 21);
    topology.add_edge(1, 2);
    topology.add_edge(2, 3);
    topology.add_edge(3, 21);
    assert_eq!(topology.shortest_route(1, 21), vec![1, 2, 3, 21]);
    // a server may be the end of a route
    assert_eq!(topology.shortest_route(1, 9), vec![1, 9]);
    assert_eq!(topology.shortest_route(9, 1), vec![9, 1]);
}

#[test]
fn shortest_route_untyped_node_is_no_intermediate() {
    let mut topology = Topology::new();
    topology.add_node(2);
    topology.add_node(21);
    topology.add_edge(1, 2);
    topology.add_edge(2, 21);
    assert_eq!(topology.shortest_route(1, 21), Vec::<u8>::new());
    assert_eq!(compute_route(&topology, 1, 21), vec![1, 2, 21]);
    topology.set_node_type(2, NodeType::Drone);
    assert_eq!(topology.shortest_route(1, 21), vec![1, 2, 21]);
}

#[test]
fn shortest_route_ties_go_to_the_lower_id() {
    let mut topology = Topology::new();
    drones(&mut topology, &[7, 4, 5, 6]);
    topology.add_edge(1, 7);
    topology.add_edge(1, 4);
    topology.add_edge(7, 21);
    topology.add_edge(4, 21);
    assert_eq!(topology.shortest_route(1, 21), vec![1, 4, 21]);
    // two steps later the tie is broken again
    topology.remove_edges(7, 21);
    topology.remove_edges(4, 21);
    topology.add_edge(7, 5);
    topology.add_edge(4, 6);
    topology.add_edge(4, 5);
    topology.add_edge(5, 21);
    topology.add_edge(6, 21);
    assert_eq!(topology.shortest_route(1, 21), vec![1, 4, 5, 21]);
}

#[test]
fn shortest_route_avoids_a_drone_that_drops() {
    let mut topology = Topology::new();
    drones(&mut topology, &[2, 3, 4]);
    topology.add_edge(1, 2);
    topology.add_edge(2, 21);
    topology.add_edge(1, 3);
    topology.add_edge(3, 4);
    topology.add_edge(4, 21);
    assert_eq!(topology.shortest_route(1, 21), vec![1, 2, 21]);
    // drone 2 drops every second packet: toll 1 + 50 against 1 + 1
    for _ in 0..10 {
        topology.update_node_history(&vec![2], true);
        topology.update_node_history(&vec![2], false);
    }
    let history = topology.get_node_history(2);
    assert_eq!(history.forwarded, 20);
    assert_eq!(history.dropped, 10);
    assert_eq!(topology.shortest_route(1, 21), vec![1, 3, 4, 21]);
}

#[test]
fn shortest_route_to_itself_and_header() {
    let mut topology = Topology::new();
    drones(&mut topology, &[2]);
    topology.add_edge(1, 2);
    topology.add_edge(2, 21);
    assert_eq!(topology.shortest_route(1, 1), vec![1]);
    let header = topology.get_routing_header(1, 21);
    assert_eq!(header.hop_index, 1);
    assert_eq!(header.hops, vec![1, 2, 21]);
    assert_eq!(header.destination(), Some(21));
    assert_eq!(header.source(), Some(1));
    assert_eq!(header.next_hop(), Some(2));
    let back = header.get_reversed();
    assert_eq!(back.hops, vec![21, 2, 1]);
    assert_eq!(back.hop_index, 1);
    let none = topology.get_routing_header(1, 99);
    assert!(none.hops.is_empty());
    assert_eq!(none.next_hop(), None);
}

#[test]
fn topology_operations() {
    let mut topology = Topology::new();
    assert!(topology.is_blank());
    topology.add_node(3);
    topology.add_node(1);
    topology.add_node(3);
    assert_eq!(topology.nodes(), &vec![3, 1]);
    topology.add_edge(1, 3);
    topology.add_edge(1, 3);
    assert!(topology.has_edge(1, 3));
    assert!(topology.has_edge(3, 1));
    assert_eq!(topology.neighbors(1), vec![3]);
    topology.add_edge(1, 2);
    assert_eq!(topology.neighbors(1), vec![2, 3]);
    topology.remove_node(3);
    topology.remove_node(3);
    assert_eq!(topology.nodes(), &vec![1]);
    assert!(!topology.has_edge(1, 3));
    assert!(!topology.has_edge(3, 1));
    assert!(topology.has_edge(2, 1));
    topology.remove_node(77);
    assert_eq!(topology.nodes(), &vec![1]);
    topology.remove_edges(2, 1);
    assert!(!topology.has_edge(1, 2));
    assert_eq!(topology.get_node_type(1), None);
    topology.set_node_type(1, NodeType::Client);
    assert_eq!(topology.get_node_type(1), Some(NodeType::Client));
    let copy = topology.clone();
    assert_eq!(copy.nodes(), topology.nodes());
    topology.clear();
    assert!(topology.is_blank());
    assert!(!copy.is_blank());
}

#[test]
fn history_counts_drones_only() {
    let mut topology = Topology::new();
    drones(&mut topology, &[2]);
    topology.set_node_type(21, NodeType::Server);
    topology.update_node_history(&vec![1, 2, 21], false);
    topology.update_node_history(&vec![2], true);
    assert_eq!(topology.get_node_history(2).forwarded, 2);
    assert_eq!(topology.get_node_history(2).dropped, 1);
    assert_eq!(topology.get_node_history(21).forwarded, 0);
    assert_eq!(topology.get_node_history(1).forwarded, 0);
}
