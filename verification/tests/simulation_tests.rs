use std::collections::VecDeque;
use packet_routing::fraction::Fraction;
use packet_routing::network::{Network, Vertex, Edge, Packet, VertexId, EdgeId, Time};

fn make_vertex(incoming: Vec<EdgeId>, outgoing: Vec<EdgeId>) -> Vertex {
    Vertex { incoming_edges: incoming, outgoing_edges: outgoing }
}

fn make_edge(id: EdgeId, v_from: VertexId, v_to: VertexId, length: usize, cap_n: i64, cap_d: i64) -> Edge {
    let capacity = Fraction::new(cap_n, cap_d);
    Edge { id, v_from, v_to, length, average_capacity: capacity, current_capacity: capacity }
}

fn make_packet(id: usize, commodity_id: usize, release_time: Time, path: Vec<EdgeId>) -> Packet {
    Packet { id, commodity_id, release_time, path, entrance_time: None, path_position: None }
}

fn make_network(vertices: Vec<Vertex>, edges: Vec<Edge>, packets: Vec<Packet>) -> Network {
    let n_edges = edges.len();
    let n_packets = packets.len();
    Network {
        vertices,
        edges,
        packets,
        edge_queues: vec![VecDeque::new(); n_edges],
        leaving_queues: vec![VecDeque::new(); n_edges],
        time: 0,
        packets_arrived: 0,
        arrival_times: vec![None; n_packets],
    }
}

#[test]
fn test_testing() {
    assert!(true);
    assert_eq!(2 + 2, 4);
    assert_ne!(2 + 2, 5);
}

#[test]
fn test_empty() {
    let mut network = make_network(vec![], vec![], vec![]);
    network.run_simulation();
    assert_eq!(network.vertices.len(), 0);
    assert_eq!(network.edges.len(), 0);
    assert_eq!(network.packets.len(), 0);
    assert_eq!(network.packets_arrived, 0);
    assert_eq!(network.arrival_times.len(), 0);
    assert_eq!(network.edge_queues.len(), network.edges.len());
    assert_eq!(network.time, 0);
}

#[test]
fn test_single_packet() {
    // one edge of length 1 and capacity 1; one packet released at time 0
    let vertices = vec![make_vertex(vec![], vec![0]), make_vertex(vec![0], vec![])];
    let edges = vec![make_edge(0, 0, 1, 1, 1, 1)];
    let packets = vec![make_packet(0, 0, 0, vec![0])];
    let mut network = make_network(vertices, edges, packets);
    network.run_simulation();
    assert_eq!(network.arrival_times[0], Some(1));
    assert_eq!(network.time, 1);
    assert_eq!(network.packets_arrived, 1);
}

#[test]
fn test_i_a1_b1() {
    // single edge of length 1 and capacity 1; packets released at 2, 3, 4, 5
    let vertices = vec![make_vertex(vec![], vec![0]), make_vertex(vec![0], vec![])];
    let edges = vec![make_edge(0, 0, 1, 1, 1, 1)];
    let packets = (0..4).map(|i| make_packet(i, 0, 2 + i, vec![0])).collect();
    let mut network = make_network(vertices, edges, packets);
    network.run_simulation();
    assert_eq!(network.vertices.len(), 2);
    assert_eq!(network.edges.len(), 1);
    assert_eq!(network.edges[0].length, 1);
    assert_eq!(network.packets.len(), 4);
    assert_eq!(network.packets_arrived, network.packets.len());
    assert_eq!(network.packets[0].release_time, 2);
    assert_eq!(network.packets[0].entrance_time.unwrap(), 2);
    assert_eq!(network.arrival_times.len(), network.packets.len());
    assert_eq!(network.arrival_times[0].unwrap(), 3);
    assert_eq!(network.edge_queues.len(), network.edges.len());
    assert_eq!(network.time, 6);
    assert_eq!(network.arrival_times[0], Some(3));
    assert_eq!(network.arrival_times[1], Some(4));
    assert_eq!(network.arrival_times[2], Some(5));
    assert_eq!(network.arrival_times[3], Some(6));
}

#[test]
fn test_i_a0_5_b1() {
    // single edge of length 2 and capacity 1/2; packets released at 3, 5, 7, 9
    let vertices = vec![make_vertex(vec![], vec![0]), make_vertex(vec![0], vec![])];
    let edges = vec![make_edge(0, 0, 1, 2, 1, 2)];
    let packets = (0..4).map(|i| make_packet(i, 0, 3 + 2 * i, vec![0])).collect();
    let mut network = make_network(vertices, edges, packets);
    network.run_simulation();
    assert_eq!(network.vertices.len(), 2);
    assert_eq!(network.edges.len(), 1);
    assert_eq!(network.edges[0].length, 2);
    assert_eq!(network.packets.len(), 4);
    assert_eq!(network.packets_arrived, network.packets.len());
    assert_eq!(network.packets[0].release_time, 3);
    assert_eq!(network.packets[0].entrance_time.unwrap(), 3);
    assert_eq!(network.arrival_times.len(), network.packets.len());
    assert_eq!(network.arrival_times[0].unwrap(), network.packets[0].release_time + 2 + 1);
    assert_eq!(network.edge_queues.len(), network.edges.len());
    assert_eq!(network.time, 12);
    assert_eq!(network.arrival_times[0], Some(6));
    assert_eq!(network.arrival_times[1], Some(8));
    assert_eq!(network.arrival_times[2], Some(10));
    assert_eq!(network.arrival_times[3], Some(12));
}

#[test]
fn test_y_a1_b0_5() {
    // two commodities merging on a shared edge; two packets per time unit on
    // each side over nine time units
    let vertices = vec![
        make_vertex(vec![], vec![0]),
        make_vertex(vec![], vec![1]),
        make_vertex(vec![0, 1], vec![2]),
        make_vertex(vec![2], vec![]),
    ];
    let edges = vec![
        make_edge(0, 0, 2, 1, 2, 1),
        make_edge(1, 1, 2, 2, 2, 1),
        make_edge(2, 2, 3, 1, 2, 1),
    ];
    let mut packets: Vec<Packet> = Vec::new();
    for i in 0..18 {
        packets.push(make_packet(i, 0, 2 + i / 2, vec![0, 2]));
    }
    for i in 0..18 {
        packets.push(make_packet(18 + i, 1, 2 + i / 2, vec![1, 2]));
    }
    let mut network = make_network(vertices, edges, packets);
    network.run_simulation();
    assert_eq!(network.vertices.len(), 4);
    assert_eq!(network.edges.len(), 3);
    assert_eq!(network.packets.len(), 2 * 9 * 2);
    assert_eq!(network.packets_arrived, network.packets.len());
    assert_eq!(network.packets[0].release_time, 2);
    assert_eq!(network.packets[0].entrance_time.unwrap(), 3);
    assert_eq!(network.arrival_times.len(), network.packets.len());
    assert_eq!(network.arrival_times[0].unwrap(), 4);
    assert_eq!(network.edge_queues.len(), network.edges.len());
    assert_eq!(network.time, network.arrival_times[0].unwrap() + (network.packets.len() / 2 - 1));
    assert_eq!(network.arrival_times[0], Some(4));
    assert_eq!(network.arrival_times[1], Some(4));
    assert_eq!(network.arrival_times[2], Some(5));
    assert_eq!(network.arrival_times[3], Some(6));
    assert_eq!(network.arrival_times[9 * 2 + 0], Some(5));
    assert_eq!(network.arrival_times[9 * 2 + 1], Some(6));
}

fn zimmer_network() -> Network {
    // six vertices, five edges, two commodities sharing the bottleneck 2 -> 3
    let vertices = vec![
        make_vertex(vec![], vec![0]),
        make_vertex(vec![0], vec![1]),
        make_vertex(vec![1, 4], vec![2]),
        make_vertex(vec![2], vec![]),
        make_vertex(vec![], vec![3]),
        make_vertex(vec![3], vec![4]),
    ];
    let edges = vec![
        make_edge(0, 0, 1, 1, 2, 1),
        make_edge(1, 1, 2, 1, 2, 1),
        make_edge(2, 2, 3, 1, 2, 1),
        make_edge(3, 4, 5, 1, 1, 1),
        make_edge(4, 5, 2, 1, 1, 1),
    ];
    let mut packets: Vec<Packet> = Vec::new();
    for i in 0..18 {
        packets.push(make_packet(i, 0, 2 + i / 2, vec![3, 4, 2]));
    }
    for i in 0..64 {
        packets.push(make_packet(18 + i, 1, 5 + i / 4, vec![0, 1, 2]));
    }
    make_network(vertices, edges, packets)
}

#[test]
fn test_zimmer() {
    let mut network = zimmer_network();
    network.run_simulation();
    assert_eq!(network.vertices.len(), 6);
    assert_eq!(network.edges.len(), 5);
    assert_eq!(network.packets.len(), 9 * 2 + 16 * 4);
    assert_eq!(network.packets_arrived, network.packets.len());
    assert_eq!(network.packets[0].release_time, 2);
    assert_eq!(network.packets[0].entrance_time.unwrap(), 4);
    assert_eq!(network.arrival_times.len(), network.packets.len());
    assert_eq!(network.arrival_times[0].unwrap(), 5);
    assert_eq!(network.edge_queues.len(), network.edges.len());
    // the first three packets arrive alone, afterwards two arrive per unit
    assert_eq!(network.time, 47);
    for arrival_time in network.arrival_times.clone() {
        assert_ne!(arrival_time, None);
    }
    assert_eq!(network.arrival_times[0], Some(5));
    assert_eq!(network.arrival_times[1], Some(6));
    assert_eq!(network.arrival_times[2], Some(7));
    assert_eq!(network.arrival_times[3], Some(9));
    assert_eq!(network.arrival_times[4], Some(10));
    assert_eq!(network.arrival_times[5], Some(12));
    assert_eq!(network.arrival_times[6], Some(13));
    assert_eq!(network.arrival_times[7], Some(15));
    assert_eq!(network.arrival_times[9 * 2 + 0], Some(8));
    assert_eq!(network.arrival_times[9 * 2 + 1], Some(8));
    assert_eq!(network.arrival_times[9 * 2 + 2], Some(9));
    assert_eq!(network.arrival_times[9 * 2 + 3], Some(10));
    assert_eq!(network.arrival_times[9 * 2 + 4], Some(11));
    assert_eq!(network.arrival_times[9 * 2 + 5], Some(11));
    assert_eq!(network.arrival_times[9 * 2 + 6], Some(12));
    assert_eq!(network.arrival_times[9 * 2 + 7], Some(13));
    assert_eq!(network.arrival_times[9 * 2 + 8], Some(14));
}

#[test]
fn test_determinism() {
    // two runs on the same instance give bit-identical arrival tables
    let mut first = zimmer_network();
    let mut second = zimmer_network();
    first.run_simulation();
    second.run_simulation();
    assert_eq!(first.arrival_times, second.arrival_times);
    assert_eq!(first.time, second.time);
    assert_eq!(first.packets_arrived, second.packets_arrived);
}

#[test]
fn test_monotone_time() {
    // every arrival is at or after release time plus total transit time
    let mut network = zimmer_network();
    network.run_simulation();
    for p in &network.packets {
        let total: usize = p.path.iter().map(|e| network.edges[*e].length).sum();
        assert!(network.arrival_times[p.id].unwrap() >= p.release_time + total);
    }
}

#[test]
fn test_capacity_window() {
    // a saturated edge of capacity 1/2 dispatches one packet every two steps:
    // in any window of T steps the dispatched count is within one of T/2
    let vertices = vec![make_vertex(vec![], vec![0]), make_vertex(vec![0], vec![])];
    let edges = vec![make_edge(0, 0, 1, 1, 1, 2)];
    let packets = (0..6).map(|i| make_packet(i, 0, 0, vec![0])).collect();
    let mut network = make_network(vertices, edges, packets);
    network.run_simulation();
    // all released at 0, dispatched one per two steps from time 2
    assert_eq!(network.arrival_times[0], Some(2));
    assert_eq!(network.arrival_times[1], Some(4));
    assert_eq!(network.arrival_times[2], Some(6));
    assert_eq!(network.arrival_times[3], Some(8));
    assert_eq!(network.arrival_times[4], Some(10));
    assert_eq!(network.arrival_times[5], Some(12));
}
