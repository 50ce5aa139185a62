use severance_graph::builder::{OsmNode, OsmWay};
use severance_graph::graph::{Coord, NodeID, WayID};
use severance_graph::model::MapModel;
use severance_graph::route::RouteError;
use severance_graph::tags::Tags;

fn tags_of(pairs: &[(&str, &str)]) -> Tags {
    let mut t = Tags::new();
    for (k, v) in pairs {
        t.push(k.to_string(), v.to_string());
    }
    t
}

fn node(id: i64, x: i64, y: i64) -> OsmNode {
    OsmNode { id: NodeID(id), pt: Coord { x, y } }
}

fn way(id: i64, nodes: &[i64], pairs: &[(&str, &str)]) -> OsmWay {
    OsmWay {
        id: WayID(id),
        node_ids: nodes.iter().map(|n| NodeID(*n)).collect(),
        tags: tags_of(pairs),
    }
}

fn pt(x: i64, y: i64) -> Coord {
    Coord { x, y }
}

/// A crossing joins a footway on the north side to a footway on the south
/// side across a primary road; the route has to use it.
#[test]
fn route_traverses_the_crossing() {
    let nodes = vec![
        node(1, -100, 40),
        node(2, 0, 40),
        node(3, 0, 0),
        node(4, 100, 0),
        node(5, -100, 0),
        node(6, 150, 0),
    ];
    let ways = vec![
        way(1, &[1, 2], &[("highway", "footway")]),
        way(2, &[2, 3], &[("highway", "footway"), ("footway", "crossing")]),
        way(3, &[3, 4], &[("highway", "footway")]),
        way(4, &[5, 3, 6], &[("highway", "primary")]),
    ];
    let mut m = MapModel::new(&nodes, &ways, false).unwrap();
    let route = m.compare_route(pt(-100, 40), pt(100, 0)).unwrap();
    assert_eq!(route.cost, 240);
    assert_eq!(route.intersections.len(), 4);
    assert_eq!(route.roads.len(), 3);
    // The crossing road is traversed.
    let kinds: Vec<String> =
        route.roads.iter().map(|r| m.graph().roads[r.0].data.kind.name()).collect();
    assert!(kinds.iter().any(|k| k == "Crossing"));
}

#[test]
fn route_cost_is_symmetric() {
    let nodes = vec![node(1, 0, 0), node(2, 300, 0), node(3, 300, 400)];
    let ways = vec![
        way(1, &[1, 2], &[("highway", "footway")]),
        way(2, &[2, 3], &[("highway", "footway")]),
    ];
    let mut m = MapModel::new(&nodes, &ways, false).unwrap();
    let there = m.compare_route(pt(0, 0), pt(300, 400)).unwrap();
    let back = m.compare_route(pt(300, 400), pt(0, 0)).unwrap();
    assert_eq!(there.cost, 700);
    assert_eq!(back.cost, there.cost);
}

#[test]
fn route_cost_matches_road_lengths() {
    let nodes = vec![node(1, 0, 0), node(2, 300, 0), node(3, 300, 400)];
    let ways = vec![
        way(1, &[1, 2], &[("highway", "footway")]),
        way(2, &[2, 3], &[("highway", "footway")]),
    ];
    let mut m = MapModel::new(&nodes, &ways, false).unwrap();
    let route = m.compare_route(pt(0, 0), pt(300, 400)).unwrap();
    // 300 + 400: the sum of the two traversed road lengths, exactly.
    assert_eq!(route.cost, 700);
    assert_eq!(route.roads.len(), 2);
}

#[test]
fn disconnected_components_have_no_route() {
    let nodes = vec![
        node(1, 0, 0),
        node(2, 100, 0),
        node(3, 100_000, 100_000),
        node(4, 100_100, 100_000),
    ];
    let ways = vec![
        way(1, &[1, 2], &[("highway", "footway")]),
        way(2, &[3, 4], &[("highway", "footway")]),
    ];
    let mut m = MapModel::new(&nodes, &ways, false).unwrap();
    match m.compare_route(pt(0, 0), pt(100_100, 100_000)) {
        Err(e) => assert_eq!(e, RouteError::NoRoute),
        Ok(_) => panic!("disconnected components must not route"),
    }
}

#[test]
fn empty_walkable_graph_cannot_snap() {
    let nodes = vec![node(1, 0, 0), node(2, 100, 0)];
    let ways = vec![way(1, &[1, 2], &[("highway", "primary")])];
    let mut m = MapModel::new(&nodes, &ways, false).unwrap();
    match m.compare_route(pt(0, 0), pt(100, 0)) {
        Err(e) => assert_eq!(e, RouteError::NoSnap),
        Ok(_) => panic!("there is nothing walkable to snap to"),
    }
    match m.isochrone(pt(0, 0)) {
        Err(e) => assert_eq!(e, RouteError::NoSnap),
        Ok(_) => panic!("there is nothing walkable to snap to"),
    }
}

#[test]
fn same_snap_is_an_empty_route() {
    let nodes = vec![node(1, 0, 0), node(2, 100, 0)];
    let ways = vec![way(1, &[1, 2], &[("highway", "footway")])];
    let mut m = MapModel::new(&nodes, &ways, false).unwrap();
    let route = m.compare_route(pt(1, 1), pt(-1, -1)).unwrap();
    assert_eq!(route.cost, 0);
    assert_eq!(route.roads.len(), 0);
}

/// A plus-shaped footway network: four arms of three 100-unit ways each.
#[test]
fn isochrone_covers_the_plus_shape() {
    let mut nodes = vec![node(1, 0, 0)];
    let mut ways = Vec::new();
    let dirs = [(1i64, 0i64), (-1, 0), (0, 1), (0, -1)];
    let mut next_node = 2i64;
    let mut next_way = 1i64;
    for (d, (dx, dy)) in dirs.iter().enumerate() {
        let mut prev = 1i64;
        for step in 1..=3i64 {
            let id = next_node;
            next_node += 1;
            nodes.push(node(id, dx * 100 * step, dy * 100 * step));
            ways.push(way(next_way, &[prev, id], &[("highway", "footway")]));
            next_way += 1;
            prev = id;
        }
        let _ = d;
    }
    let mut m = MapModel::new(&nodes, &ways, false).unwrap();
    let iso = m.isochrone(pt(0, 0)).unwrap();
    assert_eq!(iso.len(), 13);
    let max = iso.iter().map(|e| e.cost).max().unwrap();
    assert_eq!(max, 300);
    // Costs along each arm grow monotonically with the distance from the
    // centre.
    for e in &iso {
        let p = m.graph().intersections[e.intersection.0].point;
        let d = (p.x.abs() + p.y.abs()) as usize;
        assert_eq!(e.cost, d);
    }
}

/// A primary road crossed by footways at both ends: samples near a crossing
/// have a short detour, samples in the middle a longer one.
#[test]
fn heatmap_grows_away_from_crossings() {
    let nodes = vec![
        node(1, 0, 0),
        node(2, 100, 0),
        node(3, 0, 20),
        node(4, 0, -20),
        node(5, 100, 20),
        node(6, 100, -20),
    ];
    let ways = vec![
        way(1, &[1, 2], &[("highway", "primary")]),
        way(2, &[3, 1, 4], &[("highway", "footway"), ("footway", "crossing")]),
        way(3, &[5, 2, 6], &[("highway", "footway"), ("footway", "crossing")]),
    ];
    let mut m = MapModel::new(&nodes, &ways, false).unwrap();
    let samples = m.make_heatmap();
    // 100 units at 25 spacing: samples at 0, 25, 50, 75, 100.
    assert_eq!(samples.len(), 5);
    let at = |x: i64| samples.iter().find(|s| s.point.x == x).unwrap();
    // At the crossings both offsets snap to the poles right there: the walk
    // is exactly across, 40 units.
    assert_eq!(at(0).cost, Some(40));
    assert_eq!(at(100).cost, Some(40));
    // Mid-severance samples walk no less than the samples at the crossings.
    assert!(at(50).cost.unwrap() >= 40);
}

#[test]
fn heatmap_unreachable_sides_have_no_cost() {
    let nodes = vec![
        node(1, 0, 0),
        node(2, 100, 0),
        node(3, 0, 30),
        node(4, 10, 30),
        node(5, 0, -30),
        node(6, 10, -30),
    ];
    let ways = vec![
        way(1, &[1, 2], &[("highway", "primary")]),
        way(2, &[3, 4], &[("highway", "footway")]),
        way(3, &[5, 6], &[("highway", "footway")]),
    ];
    let mut m = MapModel::new(&nodes, &ways, false).unwrap();
    let samples = m.make_heatmap();
    assert!(samples.len() > 0);
    for s in &samples {
        assert_eq!(s.cost, None);
    }
}

#[test]
fn heatmap_includes_the_far_endpoint() {
    // 110 units is not a multiple of the 25-unit spacing: samples fall at
    // 0, 25, 50, 75, 100 and at the far endpoint 110.
    let nodes = vec![
        node(1, 0, 0),
        node(2, 110, 0),
        node(3, 0, 20),
        node(4, 0, -20),
    ];
    let ways = vec![
        way(1, &[1, 2], &[("highway", "primary")]),
        way(2, &[3, 1, 4], &[("highway", "footway"), ("footway", "crossing")]),
    ];
    let mut m = MapModel::new(&nodes, &ways, false).unwrap();
    let samples = m.make_heatmap();
    assert_eq!(samples.len(), 6);
    assert!(samples.iter().any(|s| s.point.x == 110));
}
