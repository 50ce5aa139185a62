use vstd::prelude::*;

use crate::classify::RoadKind;
use crate::tags::Tags;
use crate::{IntersectionID, RoadID};

verus! {

/// Coordinates are kept within this bound so that squared distances fit in i64.
pub const COORD_LIMIT: i64 = 1_000_000_000;

/// A point of the local planar frame, in integer planar units.
#[derive(Clone, Copy, Debug, PartialEq, Eq, Structural, Hash)]
pub struct Coord {
    pub x: i64,
    pub y: i64,
}

/// The identifier of an OSM node.
#[derive(Clone, Copy, Debug, PartialEq, Eq, Structural, Hash, PartialOrd, Ord)]
pub struct NodeID(pub i64);

/// The identifier of an OSM way.
#[derive(Clone, Copy, Debug, PartialEq, Eq, Structural, Hash, PartialOrd, Ord)]
pub struct WayID(pub i64);

pub open spec fn in_bounds(c: Coord) -> bool {
    -COORD_LIMIT <= c.x <= COORD_LIMIT && -COORD_LIMIT <= c.y <= COORD_LIMIT
}

/// What a road carries besides its geometry: the way's tags and its
/// walking classification.
pub struct RoadData {
    pub tags: Tags,
    pub kind: RoadKind,
}

/// One edge of the routed graph: the stretch of a way between two
/// consecutive intersections.
pub struct Road {
    pub id: RoadID,
    pub src_i: IntersectionID,
    pub dst_i: IntersectionID,
    pub way: WayID,
    pub node1: NodeID,
    pub node2: NodeID,
    pub linestring: Vec<Coord>,
    pub data: RoadData,
}

/// A vertex of the routed graph: a node shared by several kept ways, or a
/// way's endpoint.
pub struct Intersection {
    pub id: IntersectionID,
    pub roads: Vec<RoadID>,
    pub node: NodeID,
    pub point: Coord,
}

/// The routed graph: roads and intersections referring to each other by
/// dense indices.
pub struct Graph {
    pub roads: Vec<Road>,
    pub intersections: Vec<Intersection>,
}

/// Whether road `r` touches both `i1` and `i2`. For distinct `i1`, `i2`
/// this says exactly that they are the road's two endpoints.
pub open spec fn connects_pair(r: Road, i1: IntersectionID, i2: IntersectionID) -> bool {
    (r.src_i == i1 || r.dst_i == i1) && (r.src_i == i2 || r.dst_i == i2)
}

/// Road `j` is a dense index, its endpoints exist, each endpoint's road list
/// holds it, and its polyline starts and ends exactly at the endpoints'
/// points.
pub open spec fn road_ok_at(roads: Seq<Road>, inters: Seq<Intersection>, j: int) -> bool {
    let r = roads[j];
    &&& r.id.0 == j
    &&& r.src_i.0 < inters.len()
    &&& r.dst_i.0 < inters.len()
    &&& inters[r.src_i.0 as int].roads@.contains(r.id)
    &&& inters[r.dst_i.0 as int].roads@.contains(r.id)
    &&& r.node1 == inters[r.src_i.0 as int].node
    &&& r.node2 == inters[r.dst_i.0 as int].node
    &&& r.linestring@.len() >= 2
    &&& r.linestring@[0] == inters[r.src_i.0 as int].point
    &&& r.linestring@.last() == inters[r.dst_i.0 as int].point
    &&& forall|p: int| 0 <= p < r.linestring@.len() ==> in_bounds(#[trigger] r.linestring@[p])
}

/// Intersection `j` is a dense index and every road in its list is a road of
/// the graph that ends here; the list's ids never decrease (roads are
/// appended in creation order).
pub open spec fn intersection_ok_at(roads: Seq<Road>, inters: Seq<Intersection>, j: int) -> bool {
    let it = inters[j];
    &&& it.id.0 == j
    &&& in_bounds(it.point)
    &&& forall|m: int|
        0 <= m < it.roads@.len() ==> (#[trigger] it.roads@[m]).0 < roads.len()
            && (roads[it.roads@[m].0 as int].src_i == it.id || roads[it.roads@[m].0 as int].dst_i
            == it.id)
    &&& forall|m1: int, m2: int|
        0 <= m1 < m2 < it.roads@.len() ==> (#[trigger] it.roads@[m1]).0 <= (
        #[trigger] it.roads@[m2]).0
}

pub open spec fn wf_parts(roads: Seq<Road>, inters: Seq<Intersection>) -> bool {
    &&& forall|j: int| 0 <= j < roads.len() ==> #[trigger] road_ok_at(roads, inters, j)
    &&& forall|j: int| 0 <= j < inters.len() ==> #[trigger] intersection_ok_at(roads, inters, j)
}

/// The graph invariant: ids are dense indices, and roads and intersections
/// point at each other consistently.
pub open spec fn wf_graph(g: Graph) -> bool {
    wf_parts(g.roads@, g.intersections@)
}

impl Graph {
    /// Finds the lowest-id road joining `i1` and `i2`, scanning `i1`'s list.
    pub fn find_edge(&self, i1: IntersectionID, i2: IntersectionID) -> (r: Option<RoadID>)
        requires
            wf_graph(*self),
            i1.0 < self.intersections@.len(),
            i2.0 < self.intersections@.len(),
        ensures
            match r {
                Some(rid) => {
                    &&& rid.0 < self.roads@.len()
                    &&& connects_pair(self.roads@[rid.0 as int], i1, i2)
                    &&& forall|j: int|
                        0 <= j < self.roads@.len() && connects_pair(#[trigger] self.roads@[j], i1, i2)
                            ==> rid.0 <= j
                },
                None => forall|j: int|
                    0 <= j < self.roads@.len() ==> !connects_pair(#[trigger] self.roads@[j], i1, i2),
            },
    {
        let adj = &self.intersections[i1.0].roads;
        let ghost it = self.intersections@[i1.0 as int];
        proof {
            assert(intersection_ok_at(self.roads@, self.intersections@, i1.0 as int));
        }
        let n = adj.len();
        let mut m: usize = 0;
        while m < n
            invariant
                wf_graph(*self),
                i1.0 < self.intersections@.len(),
                i2.0 < self.intersections@.len(),
                it == self.intersections@[i1.0 as int],
                adj@ == it.roads@,
                n == adj@.len(),
                m <= n,
                forall|p: int|
                    0 <= p < m ==> !connects_pair(
                        self.roads@[#[trigger] adj@[p].0 as int],
                        i1,
                        i2,
                    ),
            decreases n - m,
        {
            proof {
                assert(intersection_ok_at(self.roads@, self.intersections@, i1.0 as int));
            }
            let rid = adj[m];
            let road = &self.roads[rid.0];
            if road.src_i.0 == i2.0 || road.dst_i.0 == i2.0 {
                proof {
                    assert(road.src_i == it.id || road.dst_i == it.id);
                    assert(it.id == i1);
                    assert(road.src_i == i2 || road.dst_i == i2);
                    assert(connects_pair(self.roads@[rid.0 as int], i1, i2));
                    // Minimality: any connecting road appears in i1's sorted list.
                    assert forall|j: int|
                        0 <= j < self.roads@.len() && connects_pair(
                            #[trigger] self.roads@[j],
                            i1,
                            i2,
                        ) implies rid.0 <= j by {
                        assert(road_ok_at(self.roads@, self.intersections@, j));
                        let other = self.roads@[j];
                        assert(other.src_i == i1 || other.dst_i == i1);
                        assert(it.roads@.contains(other.id));
                        let p = choose|p: int|
                            0 <= p < it.roads@.len() && it.roads@[p] == other.id;
                        assert(other.id.0 == j);
                        if p < m {
                            assert(!connects_pair(self.roads@[adj@[p].0 as int], i1, i2));
                            assert(false);
                        } else if p > m {
                            assert(it.roads@[m as int].0 <= it.roads@[p].0);
                        }
                    }
                }
                return Some(rid);
            }
            proof {
                assert(road_ok_at(self.roads@, self.intersections@, rid.0 as int));
                assert(road.id.0 == rid.0);
                assert(!connects_pair(self.roads@[adj@[m as int].0 as int], i1, i2));
            }
            m += 1;
        }
        proof {
            assert forall|j: int|
                0 <= j < self.roads@.len() && connects_pair(
                    #[trigger] self.roads@[j],
                    i1,
                    i2,
                ) implies false by {
                assert(road_ok_at(self.roads@, self.intersections@, j));
                let other = self.roads@[j];
                assert(other.src_i == i1 || other.dst_i == i1);
                assert(it.roads@.contains(other.id));
                let p = choose|p: int| 0 <= p < it.roads@.len() && it.roads@[p] == other.id;
                assert(!connects_pair(self.roads@[adj@[p].0 as int], i1, i2));
                assert(other.id.0 == j);
            }
        }
        None
    }
}

} // verus!
