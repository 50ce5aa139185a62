use severance_graph::builder::{GraphError, OsmNode, OsmWay};
use severance_graph::classify::RoadKind;
use severance_graph::geometry::isqrt;
use severance_graph::graph::{Coord, Graph, NodeID, WayID};
use severance_graph::node_map::NodeMap;
use severance_graph::tags::Tags;
use severance_graph::IntersectionID;

fn tags_of(pairs: &[(&str, &str)]) -> Tags {
    let mut t = Tags::new();
    for (k, v) in pairs {
        t.push(k.to_string(), v.to_string());
    }
    t
}

fn node(id: i64, x: i64, y: i64) -> OsmNode {
    OsmNode { id: NodeID(id), pt: Coord { x, y } }
}

fn way(id: i64, nodes: &[i64], pairs: &[(&str, &str)]) -> OsmWay {
    OsmWay {
        id: WayID(id),
        node_ids: nodes.iter().map(|n| NodeID(*n)).collect(),
        tags: tags_of(pairs),
    }
}

#[test]
fn isqrt_exact_values() {
    assert_eq!(isqrt(0), 0);
    assert_eq!(isqrt(1), 1);
    assert_eq!(isqrt(3), 1);
    assert_eq!(isqrt(4), 2);
    assert_eq!(isqrt(99), 9);
    assert_eq!(isqrt(100), 10);
    assert_eq!(isqrt(8_000_000_000_000_000_000), 2_828_427_124);
}

#[test]
fn node_map_round_trip() {
    let mut nm = NodeMap::new();
    let a = nm.get_or_insert(IntersectionID(7));
    let b = nm.get_or_insert(IntersectionID(3));
    let a2 = nm.get_or_insert(IntersectionID(7));
    assert_eq!(a, 0);
    assert_eq!(b, 1);
    assert_eq!(a2, 0);
    assert_eq!(nm.get(IntersectionID(3)), Some(1));
    assert_eq!(nm.get(IntersectionID(9)), None);
    assert_eq!(nm.translate_id(0), IntersectionID(7));
    assert_eq!(nm.translate_id(1), IntersectionID(3));
}

#[test]
fn single_node_way_is_dropped_silently() {
    let nodes = vec![node(1, 0, 0)];
    let ways = vec![way(1, &[1], &[("highway", "footway")])];
    let g = Graph::new(&nodes, &ways, false).unwrap();
    assert_eq!(g.roads.len(), 0);
    assert_eq!(g.intersections.len(), 0);
}

#[test]
fn closed_loop_is_one_self_loop_road() {
    let nodes = vec![node(1, 0, 0), node(2, 100, 0), node(3, 100, 100)];
    let ways = vec![way(1, &[1, 2, 3, 1], &[("highway", "footway")])];
    let g = Graph::new(&nodes, &ways, false).unwrap();
    assert_eq!(g.roads.len(), 1);
    assert_eq!(g.roads[0].src_i, g.roads[0].dst_i);
    assert_eq!(g.roads[0].linestring.len(), 4);
}

#[test]
fn ways_split_at_shared_nodes() {
    // Two ways crossing at node 3 split into four roads.
    let nodes = vec![
        node(1, -100, 0),
        node(2, 100, 0),
        node(3, 0, 0),
        node(4, 0, -100),
        node(5, 0, 100),
    ];
    let ways = vec![
        way(1, &[1, 3, 2], &[("highway", "footway")]),
        way(2, &[4, 3, 5], &[("highway", "footway")]),
    ];
    let g = Graph::new(&nodes, &ways, false).unwrap();
    assert_eq!(g.roads.len(), 4);
    assert_eq!(g.intersections.len(), 5);
    // Dense ids and cross-links hold.
    for (j, r) in g.roads.iter().enumerate() {
        assert_eq!(r.id.0, j);
        assert!(g.intersections[r.src_i.0].roads.contains(&r.id));
        assert!(g.intersections[r.dst_i.0].roads.contains(&r.id));
        assert!(r.linestring.len() >= 2);
        assert_eq!(r.linestring[0], g.intersections[r.src_i.0].point);
        assert_eq!(*r.linestring.last().unwrap(), g.intersections[r.dst_i.0].point);
    }
    for (i, it) in g.intersections.iter().enumerate() {
        assert_eq!(it.id.0, i);
        for rid in &it.roads {
            let r = &g.roads[rid.0];
            assert!(r.src_i == it.id || r.dst_i == it.id);
        }
    }
}

#[test]
fn interior_nodes_stay_in_the_linestring() {
    let nodes = vec![node(1, 0, 0), node(2, 50, 0), node(3, 100, 0)];
    let ways = vec![way(1, &[1, 2, 3], &[("highway", "footway")])];
    let g = Graph::new(&nodes, &ways, false).unwrap();
    assert_eq!(g.roads.len(), 1);
    assert_eq!(g.roads[0].linestring.len(), 3);
    assert_eq!(g.roads[0].linestring[1], Coord { x: 50, y: 0 });
    assert_eq!(g.roads[0].data.kind, RoadKind::Footway);
}

#[test]
fn missing_node_is_fatal() {
    let nodes = vec![node(1, 0, 0)];
    let ways = vec![way(1, &[1, 99], &[("highway", "footway")])];
    match Graph::new(&nodes, &ways, false) {
        Err(e) => assert_eq!(e, GraphError::MissingNode),
        Ok(_) => panic!("a missing node must be fatal"),
    }
}

#[test]
fn excluded_way_with_missing_node_is_ignored() {
    let nodes = vec![node(1, 0, 0), node(2, 10, 0)];
    let ways = vec![
        way(1, &[1, 99], &[("highway", "proposed")]),
        way(2, &[1, 2], &[("highway", "footway")]),
    ];
    let g = Graph::new(&nodes, &ways, false).unwrap();
    assert_eq!(g.roads.len(), 1);
}

#[test]
fn find_edge_returns_lowest_connecting_road() {
    let nodes = vec![node(1, 0, 0), node(2, 100, 0)];
    let ways = vec![
        way(1, &[1, 2], &[("highway", "footway")]),
        way(2, &[1, 2], &[("highway", "footway")]),
    ];
    let g = Graph::new(&nodes, &ways, false).unwrap();
    assert_eq!(g.roads.len(), 2);
    let found = g.find_edge(IntersectionID(0), IntersectionID(1)).unwrap();
    assert_eq!(found.0, 0);
    assert_eq!(g.find_edge(IntersectionID(1), IntersectionID(0)).unwrap().0, 0);
}

#[test]
fn separate_sidewalk_roads_are_not_imported() {
    // The residential road with a separately mapped sidewalk disappears;
    // only the footway stays.
    let nodes = vec![node(1, 0, 0), node(2, 100, 0), node(3, 0, 10), node(4, 100, 10)];
    let ways = vec![
        way(1, &[1, 2], &[("highway", "residential"), ("sidewalk", "separate")]),
        way(2, &[3, 4], &[("highway", "footway")]),
    ];
    let g = Graph::new(&nodes, &ways, true).unwrap();
    assert_eq!(g.roads.len(), 1);
    assert_eq!(g.roads[0].data.kind, RoadKind::Footway);
}

#[test]
fn import_flag_controls_untagged_streets() {
    let nodes = vec![node(1, 0, 0), node(2, 100, 0)];
    let ways = vec![way(1, &[1, 2], &[("highway", "residential")])];
    let off = Graph::new(&nodes, &ways, false).unwrap();
    assert_eq!(off.roads.len(), 0);
    let on = Graph::new(&nodes, &ways, true).unwrap();
    assert_eq!(on.roads.len(), 1);
    assert_eq!(on.roads[0].data.kind, RoadKind::WithTraffic);
}

#[test]
fn road_kind_names() {
    assert_eq!(RoadKind::Footway.name(), "Footway");
    assert_eq!(RoadKind::Severance.name(), "Severance");
    assert_eq!(RoadKind::BridgeOrTunnel.name(), "BridgeOrTunnel");
}
