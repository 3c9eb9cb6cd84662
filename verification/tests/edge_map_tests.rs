use packet_routing::edge_map::{EdgeMap, vertex_path_to_edge_path};

#[test]
fn edge_map_lookup_test() {
    let mut map = EdgeMap::new();
    map.insert(0, 1, 0);
    map.insert(1, 2, 1);
    assert_eq!(map.get(0, 1), Some(0));
    assert_eq!(map.get(1, 2), Some(1));
    assert_eq!(map.get(2, 1), None);
}

#[test]
fn vertex_path_test() {
    let mut map = EdgeMap::new();
    map.insert(0, 1, 0);
    map.insert(1, 2, 1);
    map.insert(2, 0, 2);
    let edge_path = vertex_path_to_edge_path(vec![0, 1, 2, 0, 1], &map);
    assert_eq!(edge_path, vec![0, 1, 2, 0]);
    let single = vertex_path_to_edge_path(vec![4], &map);
    assert_eq!(single.len(), 0);
}
