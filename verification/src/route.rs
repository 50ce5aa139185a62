use vstd::prelude::*;

use crate::ch::{calc_path, ch_edges, ch_nodes, ch_num_nodes_exec};
use crate::graph::{connects_pair, in_bounds, wf_graph, Coord, Graph};
use crate::model::{edge_matches, MapModel};
use crate::paths::{chained, edges_along, edges_in, has_path, is_shortest, DirEdge};
use crate::{IntersectionID, RoadID};

verus! {

/// Why a query failed: nothing to snap to, or no path between the snapped
/// intersections.
#[derive(Clone, Copy, Debug, PartialEq, Eq, Structural)]
pub enum RouteError {
    NoSnap,
    NoRoute,
}

/// A found route: the intersections the path visits, one connecting road per
/// consecutive pair, and the total cost in planar units.
pub struct Route {
    pub intersections: Vec<IntersectionID>,
    pub roads: Vec<RoadID>,
    pub cost: usize,
}

/// The squared straight-line distance, exact in integers.
pub open spec fn dist2(a: Coord, b: Coord) -> int {
    (b.x - a.x) * (b.x - a.x) + (b.y - a.y) * (b.y - a.y)
}

/// `n` is the payload of the first entry at minimal squared distance.
pub open spec fn snaps_to(snaps: Seq<(Coord, usize)>, pt: Coord, n: usize) -> bool {
    exists|k: int| #[trigger] min_at(snaps, pt, k) && n == snaps[k].1
}

/// Entry `k` is the first entry at minimal squared distance from `pt`.
pub open spec fn min_at(snaps: Seq<(Coord, usize)>, pt: Coord, k: int) -> bool {
    &&& 0 <= k < snaps.len()
    &&& forall|k2: int|
        0 <= k2 < snaps.len() ==> dist2(snaps[k].0, pt) <= dist2((#[trigger] snaps[k2]).0, pt)
    &&& forall|k2: int| 0 <= k2 < k ==> dist2((#[trigger] snaps[k2]).0, pt) > dist2(snaps[k].0, pt)
}

fn dist2_exec(a: Coord, b: Coord) -> (r: u64)
    requires
        in_bounds(a),
        in_bounds(b),
    ensures
        r == dist2(a, b),
{
    let dx: i64 = b.x - a.x;
    let dy: i64 = b.y - a.y;
    proof {
        assert(dx * dx <= 4_000_000_000_000_000_000 && dx * dx >= 0) by (nonlinear_arith)
            requires
                -2_000_000_000 <= dx <= 2_000_000_000,
        ;
        assert(dy * dy <= 4_000_000_000_000_000_000 && dy * dy >= 0) by (nonlinear_arith)
            requires
                -2_000_000_000 <= dy <= 2_000_000_000,
        ;
    }
    (dx * dx + dy * dy) as u64
}

/// The first entry nearest to `pt`, or None on an empty table.
pub(crate) fn nearest(snaps: &Vec<(Coord, usize)>, pt: Coord) -> (r: Option<usize>)
    requires
        in_bounds(pt),
        forall|k: int| 0 <= k < snaps@.len() ==> in_bounds((#[trigger] snaps@[k]).0),
    ensures
        match r {
            Some(n) => exists|k: int| #[trigger] min_at(snaps@, pt, k) && n == snaps@[k].1,
            None => snaps@.len() == 0,
        },
{
    if snaps.len() == 0 {
        return None;
    }
    let mut best: usize = 0;
    let mut best_d = dist2_exec(snaps[0].0, pt);
    let mut k: usize = 1;
    while k < snaps.len()
        invariant
            in_bounds(pt),
            forall|k2: int| 0 <= k2 < snaps@.len() ==> in_bounds((#[trigger] snaps@[k2]).0),
            1 <= k <= snaps@.len(),
            best < k,
            best_d == dist2(snaps@[best as int].0, pt),
            forall|k2: int|
                0 <= k2 < k ==> dist2(snaps@[best as int].0, pt) <= dist2(
                    (#[trigger] snaps@[k2]).0,
                    pt,
                ),
            forall|k2: int|
                0 <= k2 < best ==> dist2((#[trigger] snaps@[k2]).0, pt) > dist2(
                    snaps@[best as int].0,
                    pt,
                ),
        decreases snaps@.len() - k,
    {
        let d = dist2_exec(snaps[k].0, pt);
        if d < best_d {
            best = k;
            best_d = d;
        }
        k += 1;
    }
    proof {
        assert(min_at(snaps@, pt, best as int));
    }
    Some(snaps[best].1)
}

/// Translates dense node ids back to intersection ids, one for one.
fn translate_all(nm: &crate::node_map::NodeMap, node_seq: &Vec<usize>) -> (ids: Vec<
    IntersectionID,
>)
    requires
        forall|m: int| 0 <= m < node_seq@.len() ==> (#[trigger] node_seq@[m]) < nm@.len(),
    ensures
        ids@.len() == node_seq@.len(),
        forall|m: int| 0 <= m < ids@.len() ==> #[trigger] ids@[m] == nm@[node_seq@[m] as int],
{
    let len = node_seq.len();
    let mut ids: Vec<IntersectionID> = Vec::new();
    let mut k: usize = 0;
    while k < len
        invariant
            len == node_seq@.len(),
            k <= len,
            forall|m: int| 0 <= m < node_seq@.len() ==> (#[trigger] node_seq@[m]) < nm@.len(),
            ids@.len() == k,
            forall|m: int| 0 <= m < k ==> #[trigger] ids@[m] == nm@[node_seq@[m] as int],
        decreases len - k,
    {
        let nid = node_seq[k];
        let i_id = nm.translate_id(nid);
        ids.push(i_id);
        k += 1;
    }
    ids
}

/// `rid` is the lowest-id road of the graph joining `i1` and `i2`.
pub open spec fn step_ok(rid: RoadID, i1: IntersectionID, i2: IntersectionID, g: Graph) -> bool {
    &&& rid.0 < g.roads@.len()
    &&& connects_pair(g.roads@[rid.0 as int], i1, i2)
    &&& forall|j2: int|
        0 <= j2 < g.roads@.len() && connects_pair(#[trigger] g.roads@[j2], i1, i2) ==> rid.0 <= j2
}

/// Each returned road is the lowest-id road of the graph joining its
/// consecutive pair of returned intersections.
pub open spec fn route_roads_connect(
    roads_r: Seq<RoadID>,
    ints: Seq<IntersectionID>,
    g: Graph,
) -> bool {
    forall|k: int| 0 <= k < roads_r.len() ==> #[trigger] step_ok(roads_r[k], ints[k], ints[k + 1], g)
}

impl MapModel {
    /// Routes between the walkable intersections nearest to `start` and
    /// `end`. Fails with NoSnap exactly when the walkable graph is empty and
    /// with NoRoute exactly when the snapped intersections are not connected;
    /// the returned cost is the cost of a cheapest walk, and the returned
    /// roads join the returned intersections pairwise.
    pub fn compare_route(&mut self, start: Coord, end: Coord) -> (r: Result<Route, RouteError>)
        requires
            old(self).wf(),
            in_bounds(start),
            in_bounds(end),
        ensures
            final(self).wf(),
            final(self).spec_graph() == old(self).spec_graph(),
            final(self).edges() == old(self).edges(),
            final(self).nodes() == old(self).nodes(),
            final(self).snaps() == old(self).snaps(),
            match r {
                Err(RouteError::NoSnap) => !old(self).snappable(),
                Err(RouteError::NoRoute) => old(self).snappable() && exists|s: usize, t: usize|
                    #[trigger] old(self).is_snap(start, s) && #[trigger] old(self).is_snap(end, t)
                        && s != t && !has_path(old(self).edges(), s, t),
                Ok(route) => old(self).snappable() && exists|s: usize, t: usize|
                    #[trigger] old(self).is_snap(start, s) && #[trigger] old(self).is_snap(end, t)
                        && {
                        if s == t {
                            route.roads@.len() == 0 && route.cost == 0 && route.intersections@
                                =~= seq![old(self).nodes()[s as int]]
                        } else {
                            &&& is_shortest(old(self).edges(), s, t, route.cost as int)
                            &&& route.intersections@.len() >= 2
                            &&& route.intersections@[0] == old(self).nodes()[s as int]
                            &&& route.intersections@.last() == old(self).nodes()[t as int]
                            &&& route.roads@.len() + 1 == route.intersections@.len()
                            &&& route_roads_connect(
                                route.roads@,
                                route.intersections@,
                                old(self).spec_graph(),
                            )
                        }
                    },
            },
    {
        let s = match nearest(&self.snap_points, start) {
            Some(n) => n,
            None => {
                return Err(RouteError::NoSnap);
            },
        };
        let t = match nearest(&self.snap_points, end) {
            Some(n) => n,
            None => {
                return Err(RouteError::NoSnap);
            },
        };
        proof {
            let ks = choose|k: int| #[trigger] min_at(self.snaps(), start, k) && s == self.snaps()[k].1;
            assert(self.snaps()[ks].1 == ks);
            assert(s < self.nodes().len());
            let kt = choose|k: int| #[trigger] min_at(self.snaps(), end, k) && t == self.snaps()[k].1;
            assert(self.snaps()[kt].1 == kt);
            assert(t < self.nodes().len());
            assert(self.is_snap(start, s));
            assert(self.is_snap(end, t));
        }
        if s == t {
            let i_id = self.node_map.translate_id(s);
            return Ok(Route { intersections: vec![i_id], roads: Vec::new(), cost: 0 });
        }
        let n = ch_num_nodes_exec(&self.ch);
        if s >= n || t >= n {
            proof {
                assert forall|p: Seq<DirEdge>|
                    !(#[trigger] chained(p, s, t) && edges_in(p, ch_edges(&self.ch))) by {
                    if chained(p, s, t) && edges_in(p, ch_edges(&self.ch)) {
                        assert(p.len() > 0);
                        assert(ch_edges(&self.ch).contains(p[0]));
                        assert(ch_edges(&self.ch).contains(p[p.len() - 1]));
                        assert(p[0].0 == s && p[0].0 < ch_nodes(&self.ch));
                        assert(p[p.len() - 1].1 == t && p[p.len() - 1].1 < ch_nodes(&self.ch));
                    }
                }
            }
            return Err(RouteError::NoRoute);
        }
        let res = calc_path(&mut self.path_calc, &self.ch, s, t);
        match res {
            None => Err(RouteError::NoRoute),
            Some((node_seq, cost)) => {
                let ghost q = choose|q: Seq<DirEdge>|
                    #[trigger] edges_along(q, node_seq@) && edges_in(q, ch_edges(&self.ch))
                        && crate::paths::cost_of(q) == cost;
                let len = node_seq.len();
                proof {
                    assert forall|m: int|
                        0 <= m < node_seq@.len() implies (#[trigger] node_seq@[m])
                        < self.node_map@.len() by {
                        if m < node_seq@.len() - 1 {
                            assert(q[m].0 == node_seq@[m]);
                            assert(ch_edges(&self.ch).contains(q[m]));
                            assert(edge_matches(q[m], self.graph, self.node_map@));
                        } else {
                            assert(q[m - 1].1 == node_seq@[m]);
                            assert(ch_edges(&self.ch).contains(q[m - 1]));
                            assert(edge_matches(q[m - 1], self.graph, self.node_map@));
                        }
                    }
                }
                let ids = translate_all(&self.node_map, &node_seq);
                let mut road_ids: Vec<RoadID> = Vec::new();
                let mut k2: usize = 0;
                while k2 + 1 < len
                    invariant
                        self.wf(),
                        2 <= len == node_seq@.len(),
                        k2 < len,
                        edges_along(q, node_seq@),
                        edges_in(q, ch_edges(&self.ch)),
                        ids@.len() == len,
                        forall|m: int|
                            0 <= m < node_seq@.len() ==> (#[trigger] node_seq@[m])
                                < self.node_map@.len(),
                        forall|m: int|
                            0 <= m < ids@.len() ==> #[trigger] ids@[m] == self.node_map@[node_seq@[m] as int],
                        road_ids@.len() == k2,
                        forall|m: int|
                            0 <= m < k2 ==> #[trigger] step_ok(
                                road_ids@[m],
                                ids@[m],
                                ids@[m + 1],
                                self.graph,
                            ),
                    decreases len - k2,
                {
                    proof {
                        assert(ch_edges(&self.ch).contains(q[k2 as int]));
                        assert(edge_matches(q[k2 as int], self.graph, self.node_map@));
                        assert(q[k2 as int].0 == node_seq@[k2 as int]);
                        assert(q[k2 as int].1 == node_seq@[k2 + 1]);
                    }
                    let i1 = ids[k2];
                    let i2 = ids[k2 + 1];
                    proof {
                        assert(i1.0 < self.graph.intersections@.len());
                        assert(i2.0 < self.graph.intersections@.len());
                    }
                    match self.graph.find_edge(i1, i2) {
                        Some(rid) => {
                            proof {
                                assert(step_ok(rid, i1, i2, self.graph));
                            }
                            road_ids.push(rid);
                        },
                        None => {
                            proof {
                                let ed = q[k2 as int];
                                let j = choose|j: int|
                                    0 <= j < self.graph.roads@.len() && crate::model::walkable(
                                        #[trigger] self.graph.roads@[j],
                                    ) && connects_pair(
                                        self.graph.roads@[j],
                                        self.node_map@[ed.0 as int],
                                        self.node_map@[ed.1 as int],
                                    ) && ed.2 == crate::model::spec_weight(
                                        self.graph.roads@[j].linestring@,
                                    );
                                assert(connects_pair(self.graph.roads@[j], i1, i2));
                                assert(false);
                            }
                            return Err(RouteError::NoRoute);
                        },
                    }
                    k2 += 1;
                }
                proof {
                    assert forall|k: int| 0 <= k < road_ids@.len() implies #[trigger] step_ok(
                        road_ids@[k],
                        ids@[k],
                        ids@[k + 1],
                        self.graph,
                    ) by {}
                    assert(route_roads_connect(road_ids@, ids@, self.graph));
                    assert(ids@[0] == self.node_map@[node_seq@[0] as int]);
                    assert(node_seq@[0] == s);
                    assert(ids@[len - 1] == self.node_map@[node_seq@[len - 1] as int]);
                    assert(node_seq@.last() == t);
                }
                Ok(Route { intersections: ids, roads: road_ids, cost })

            },
        }
    }
}

} // verus!
