use vstd::prelude::*;

use crate::ch::{calc_path, ch_nodes, ch_num_nodes_exec};
use crate::classify::RoadKind;
use crate::geometry::dist;
use crate::graph::{in_bounds, Coord, COORD_LIMIT};
use crate::geometry::spec_dist;
use crate::graph::{Graph, Road};
use crate::model::{walkable, MapModel};
use crate::paths::{chained, edges_in, has_path, is_shortest, DirEdge};
use crate::route::snaps_to;
use vstd::multiset::Multiset;

verus! {

/// The sample's cost is the walking distance between the intersections its
/// two offset points snap to: zero when both sides snap to one intersection,
/// the cheapest walk's cost when connected, nothing when not.
/// The sample was measured at some spacing step along some severance road's
/// segment: its point and side offsets are that segment's exact geometry.
pub open spec fn from_severance(s: HeatmapSample, g: Graph) -> bool {
    exists|j: int, p: int, step: u64|
        0 <= j < g.roads@.len() && !walkable(g.roads@[j]) && 0 <= p && p + 1
            < g.roads@[j].linestring@.len() && #[trigger] sample_geom(
            s,
            g.roads@[j].linestring@[p],
            g.roads@[j].linestring@[p + 1],
            step,
        )
}

/// Some pair of snapped intersections explains the sample.
pub open spec fn has_probe(snaps: Seq<(Coord, usize)>, e: Multiset<DirEdge>, s: HeatmapSample) -> bool {
    exists|a: usize, b: usize| #[trigger] sample_ok(snaps, e, s, a, b)
}

pub open spec fn sample_ok(
    snaps: Seq<(Coord, usize)>,
    e: Multiset<DirEdge>,
    s: HeatmapSample,
    a: usize,
    b: usize,
) -> bool {
    &&& snaps_to(snaps, s.side1, a)
    &&& snaps_to(snaps, s.side2, b)
    &&& if a == b {
        s.cost == Some(0usize)
    } else {
        match s.cost {
            Some(c) => is_shortest(e, a, b, c as int),
            None => !has_path(e, a, b),
        }
    }
}

/// How far the two sides of a severance are apart on foot at one sample
/// point: the walking distance between the walkable intersections nearest to
/// the two perpendicular offsets, or None when they are not connected.
pub struct HeatmapSample {
    pub point: Coord,
    pub side1: Coord,
    pub side2: Coord,
    pub cost: Option<usize>,
}

/// The spacing between samples along a severance, in planar units.
pub const SAMPLE_SPACING: u64 = 25;

/// The perpendicular offset probed on each side of a severance, in planar
/// units.
pub const SAMPLE_OFFSET: i64 = 20;

/// How many samples one segment yields: one per spacing step, the far
/// endpoint always included, none for a degenerate segment.
pub open spec fn seg_samples(a: Coord, b: Coord) -> int {
    let l = spec_dist(a, b) as int;
    if l == 0 {
        0
    } else if l % (SAMPLE_SPACING as int) == 0 {
        l / (SAMPLE_SPACING as int) + 1
    } else {
        l / (SAMPLE_SPACING as int) + 2
    }
}

/// The samples of a road's segments from vertex `p` on.
pub open spec fn road_samples(ls: Seq<Coord>, p: int) -> int
    decreases ls.len() - p,
{
    if p < 0 || p + 1 >= ls.len() {
        0
    } else {
        seg_samples(ls[p], ls[p + 1]) + road_samples(ls, p + 1)
    }
}

/// The samples of every severance road from index `j` on.
pub open spec fn total_samples(roads: Seq<Road>, j: int) -> int
    decreases roads.len() - j,
{
    if j < 0 || j >= roads.len() {
        0
    } else {
        (if !walkable(roads[j]) {
            road_samples(roads[j].linestring@, 0)
        } else {
            0
        }) + total_samples(roads, j + 1)
    }
}

/// Division truncating toward zero, as the machine division does.
pub open spec fn tdiv(a: int, b: int) -> int {
    if a >= 0 {
        a / b
    } else {
        -((-a) / b)
    }
}

/// A value forced into the coordinate range.
pub open spec fn clamp_val(v: int) -> int {
    if v < -COORD_LIMIT {
        -COORD_LIMIT as int
    } else if v > COORD_LIMIT {
        COORD_LIMIT as int
    } else {
        v
    }
}

/// The sample fields for `step` spacings along the segment `a..b`: the point
/// interpolated along the segment, the sides at the perpendicular offsets,
/// all clamped into the coordinate range.
pub open spec fn sample_geom(s: HeatmapSample, a: Coord, b: Coord, step: u64) -> bool {
    let l = spec_dist(a, b) as int;
    let along = if step * (SAMPLE_SPACING as int) > l {
        l
    } else {
        step * (SAMPLE_SPACING as int)
    };
    let px = a.x + tdiv((b.x - a.x) * along, l);
    let py = a.y + tdiv((b.y - a.y) * along, l);
    let nx = tdiv(-((b.y - a.y) * (SAMPLE_OFFSET as int)), l);
    let ny = tdiv((b.x - a.x) * (SAMPLE_OFFSET as int), l);
    &&& l > 0
    &&& s.point.x == clamp_val(px) && s.point.y == clamp_val(py)
    &&& s.side1.x == clamp_val(px + nx) && s.side1.y == clamp_val(py + ny)
    &&& s.side2.x == clamp_val(px - nx) && s.side2.y == clamp_val(py - ny)
}

fn clamp_unit(v: i64) -> (r: i64)
    ensures
        r == clamp_val(v as int),
{
    if v < -COORD_LIMIT {
        -COORD_LIMIT
    } else if v > COORD_LIMIT {
        COORD_LIMIT
    } else {
        v
    }
}

fn clamp_coord(x: i64, y: i64) -> (r: Coord)
    ensures
        in_bounds(r),
        r.x == clamp_val(x as int),
        r.y == clamp_val(y as int),
{
    Coord { x: clamp_unit(x), y: clamp_unit(y) }
}

impl MapModel {
    /// Samples every severance road at a fixed spacing and measures, for each
    /// sample, the walking distance between the walkable intersections
    /// nearest to the two perpendicular offsets of the sample point.
    pub fn make_heatmap(&mut self) -> (r: Vec<HeatmapSample>)
        requires
            old(self).wf(),
        ensures
            final(self).wf(),
            final(self).spec_graph() == old(self).spec_graph(),
            final(self).edges() == old(self).edges(),
            final(self).nodes() == old(self).nodes(),
            final(self).snaps() == old(self).snaps(),
            !old(self).snappable() ==> r@.len() == 0,
            old(self).snappable() ==> r@.len() == total_samples(old(self).spec_graph().roads@, 0),
            forall|m: int|
                0 <= m < r@.len() ==> #[trigger] from_severance(r@[m], old(self).spec_graph()),
            forall|m: int|
                0 <= m < r@.len() ==> #[trigger] has_probe(
                    old(self).snaps(),
                    old(self).edges(),
                    r@[m],
                ),
    {
        let mut out: Vec<HeatmapSample> = Vec::new();
        let ghost mut pair_of: Seq<(usize, usize)> = Seq::empty();
        if self.snap_points.len() == 0 {
            return out;
        }
        let ch_n = ch_num_nodes_exec(&self.ch);
        let n_roads = self.graph.roads.len();
        let mut j: usize = 0;
        while j < n_roads
            invariant
                self.wf(),
                self.graph == old(self).graph,
                self.node_map == old(self).node_map,
                self.ch == old(self).ch,
                self.snap_points == old(self).snap_points,
                self.snap_points@.len() > 0,
                n_roads == self.graph.roads@.len(),
                j <= n_roads,
                ch_n == ch_nodes(&self.ch),
                pair_of.len() == out@.len(),
                forall|m: int|
                    0 <= m < out@.len() ==> {
                        let (a, b) = #[trigger] pair_of[m];
                        sample_ok(old(self).snaps(), old(self).edges(), out@[m], a, b)
                    },
                forall|m: int|
                    0 <= m < out@.len() ==> #[trigger] from_severance(
                        out@[m],
                        old(self).spec_graph(),
                    ),
                out@.len() + total_samples(old(self).spec_graph().roads@, j as int)
                    == total_samples(old(self).spec_graph().roads@, 0),
            decreases n_roads - j,
        {
            let is_sev = {
                let road = &self.graph.roads[j];
                road.data.kind == RoadKind::Severance
            };
            if is_sev {
                proof {
                    assert(crate::graph::road_ok_at(
                        self.graph.roads@,
                        self.graph.intersections@,
                        j as int,
                    ));
                }
                let n_pts = self.graph.roads[j].linestring.len();
                let ghost road_base = out@.len() as int;
                let ghost ls = self.graph.roads@[j as int].linestring@;
                let mut p: usize = 0;
                while p + 1 < n_pts
                    invariant
                        self.wf(),
                        self.graph == old(self).graph,
                        self.node_map == old(self).node_map,
                        self.ch == old(self).ch,
                        self.snap_points == old(self).snap_points,
                        self.snap_points@.len() > 0,
                        j < self.graph.roads@.len(),
                        !walkable(self.graph.roads@[j as int]),
                        crate::graph::road_ok_at(
                            self.graph.roads@,
                            self.graph.intersections@,
                            j as int,
                        ),
                        n_pts == self.graph.roads@[j as int].linestring@.len(),
                        ls == self.graph.roads@[j as int].linestring@,
                        p < n_pts,
                        ch_n == ch_nodes(&self.ch),
                        out@.len() as int == road_base + road_samples(ls, 0) - road_samples(
                            ls,
                            p as int,
                        ),
                        pair_of.len() == out@.len(),
                        forall|m: int|
                            0 <= m < out@.len() ==> {
                                let (a, b) = #[trigger] pair_of[m];
                                &&& old(self).is_snap(out@[m].side1, a)
                                &&& old(self).is_snap(out@[m].side2, b)
                                &&& if a == b {
                                    out@[m].cost == Some(0usize)
                                } else {
                                    match out@[m].cost {
                                        Some(c) => is_shortest(old(self).edges(), a, b, c as int),
                                        None => !has_path(old(self).edges(), a, b),
                                    }
                                }
                            },
                        forall|m: int|
                            0 <= m < out@.len() ==> #[trigger] from_severance(
                                out@[m],
                                old(self).spec_graph(),
                            ),
                    decreases n_pts - p,
                {
                    let ghost seg_base = out@.len() as int;
                    let a_pt = self.graph.roads[j].linestring[p];
                    let b_pt = self.graph.roads[j].linestring[p + 1];
                    let seg_len = dist(a_pt, b_pt);
                    let steps: u64 = if seg_len % SAMPLE_SPACING == 0 {
                        seg_len / SAMPLE_SPACING
                    } else {
                        seg_len / SAMPLE_SPACING + 1
                    };
                    let mut step: u64 = 0;
                    while step <= steps
                        invariant
                            self.wf(),
                            self.graph == old(self).graph,
                            self.node_map == old(self).node_map,
                            self.ch == old(self).ch,
                            self.snap_points == old(self).snap_points,
                            self.snap_points@.len() > 0,
                            in_bounds(a_pt),
                            in_bounds(b_pt),
                            j < self.graph.roads@.len(),
                            !walkable(self.graph.roads@[j as int]),
                            p + 1 < self.graph.roads@[j as int].linestring@.len(),
                            a_pt == self.graph.roads@[j as int].linestring@[p as int],
                            b_pt == self.graph.roads@[j as int].linestring@[p as int + 1],
                            seg_len == crate::geometry::spec_dist(a_pt, b_pt),
                            seg_len <= 3_000_000_000,
                            steps as int == if seg_len % SAMPLE_SPACING == 0 {
                                (seg_len / SAMPLE_SPACING) as int
                            } else {
                                (seg_len / SAMPLE_SPACING) as int + 1
                            },
                            step <= steps + 1,
                            ch_n == ch_nodes(&self.ch),
                            seg_len == spec_dist(a_pt, b_pt),
                            out@.len() as int == seg_base + (if seg_len == 0 {
                                0int
                            } else {
                                step as int
                            }),
                            pair_of.len() == out@.len(),
                            forall|m: int|
                                0 <= m < out@.len() ==> {
                                    let (a, b) = #[trigger] pair_of[m];
                                    sample_ok(
                                        old(self).snaps(),
                                        old(self).edges(),
                                        out@[m],
                                        a,
                                        b,
                                    )
                                },
                            forall|m: int|
                                0 <= m < out@.len() ==> #[trigger] from_severance(
                                    out@[m],
                                    old(self).spec_graph(),
                                ),
                        decreases steps + 1 - step,
                    {
                        let sample = self.severance_sample(a_pt, b_pt, seg_len, step);
                        match sample {
                            Some(s) => {
                                proof {
                                    assert(a_pt == self.graph.roads@[j as int].linestring@[
                                        p as int
                                    ]);
                                    assert(b_pt == self.graph.roads@[j as int].linestring@[
                                        p as int + 1
                                    ]);
                                    assert(!walkable(self.graph.roads@[j as int]));
                                    assert(from_severance(s, old(self).spec_graph()));
                                    let (a, b) = choose|a: usize, b: usize|
                                        #[trigger] sample_ok(
                                            old(self).snaps(),
                                            old(self).edges(),
                                            s,
                                            a,
                                            b,
                                        );
                                    pair_of = pair_of.push((a, b));
                                }
                                out.push(s);
                            },
                            None => {},
                        }
                        step += 1;
                    }
                    proof {
                        assert(seg_samples(ls[p as int], ls[p as int + 1]) == (if seg_len == 0 {
                            0int
                        } else {
                            steps + 1
                        }));
                        assert(road_samples(ls, p as int) == seg_samples(ls[p as int], ls[p as int + 1])
                            + road_samples(ls, p as int + 1));
                    }
                    p += 1;
                }
            }
            j += 1;
        }
        proof {
            assert forall|m: int| 0 <= m < out@.len() implies #[trigger] has_probe(
                old(self).snaps(),
                old(self).edges(),
                out@[m],
            ) by {
                let (aw, bw) = pair_of[m];
                assert(sample_ok(old(self).snaps(), old(self).edges(), out@[m], aw, bw));
            }
        }
        out
    }

    /// Measures one sample: the point `step` spacings along the segment, its
    /// two perpendicular offsets, and the walking distance between the
    /// intersections those offsets snap to.
    fn severance_sample(&mut self, a_pt: Coord, b_pt: Coord, seg_len: u64, step: u64) -> (r:
        Option<HeatmapSample>)
        requires
            old(self).wf(),
            old(self).snappable(),
            in_bounds(a_pt),
            in_bounds(b_pt),
            seg_len == crate::geometry::spec_dist(a_pt, b_pt),
            seg_len <= 3_000_000_000,
            step * SAMPLE_SPACING <= seg_len + SAMPLE_SPACING,
        ensures
            final(self).wf(),
            final(self).graph == old(self).graph,
            final(self).node_map == old(self).node_map,
            final(self).ch == old(self).ch,
            final(self).snap_points == old(self).snap_points,
            r matches Some(_) <==> seg_len > 0,
            match r {
                Some(s) => has_probe(old(self).snaps(), old(self).edges(), s) && sample_geom(
                    s,
                    a_pt,
                    b_pt,
                    step,
                ),
                None => true,
            },
    {
        if seg_len == 0 {
            return None;
        }
        let along: i64 = if step * SAMPLE_SPACING > seg_len {
            seg_len as i64
        } else {
            (step * SAMPLE_SPACING) as i64
        };
        let dx: i64 = b_pt.x - a_pt.x;
        let dy: i64 = b_pt.y - a_pt.y;
        let len_i: i64 = seg_len as i64;
        proof {
            assert(dx * along <= 6_200_000_000_000_000_000 && dx * along
                >= -6_200_000_000_000_000_000) by (nonlinear_arith)
                requires
                    -2_000_000_000 <= dx <= 2_000_000_000,
                    0 <= along <= 3_000_000_000 + 25,
            ;
            assert(dy * along <= 6_200_000_000_000_000_000 && dy * along
                >= -6_200_000_000_000_000_000) by (nonlinear_arith)
                requires
                    -2_000_000_000 <= dy <= 2_000_000_000,
                    0 <= along <= 3_000_000_000 + 25,
            ;
            assert(dx * SAMPLE_OFFSET <= 4_000_000_000_000_000_000 && dx * SAMPLE_OFFSET
                >= -4_000_000_000_000_000_000) by (nonlinear_arith)
                requires
                    -2_000_000_000 <= dx <= 2_000_000_000,
                    SAMPLE_OFFSET == 20,
            ;
            assert(dy * SAMPLE_OFFSET <= 4_000_000_000_000_000_000 && dy * SAMPLE_OFFSET
                >= -4_000_000_000_000_000_000) by (nonlinear_arith)
                requires
                    -2_000_000_000 <= dy <= 2_000_000_000,
                    SAMPLE_OFFSET == 20,
            ;
        }
        let px: i64 = a_pt.x + (dx * along) / len_i;
        let py: i64 = a_pt.y + (dy * along) / len_i;
        let point = clamp_coord(px, py);
        let nx: i64 = -(dy * SAMPLE_OFFSET) / len_i;
        let ny: i64 = (dx * SAMPLE_OFFSET) / len_i;
        let side1 = clamp_coord(px + nx, py + ny);
        let side2 = clamp_coord(px - nx, py - ny);
        let a = match crate::route::nearest(&self.snap_points, side1) {
            Some(n) => n,
            None => {
                return None;
            },
        };
        let b = match crate::route::nearest(&self.snap_points, side2) {
            Some(n) => n,
            None => {
                return None;
            },
        };
        proof {
            let ks = choose|k: int|
                #[trigger] crate::route::min_at(self.snaps(), side1, k) && a == self.snaps()[k].1;
            assert(self.snaps()[ks].1 == ks);
            assert(a < self.nodes().len());
            let kt = choose|k: int|
                #[trigger] crate::route::min_at(self.snaps(), side2, k) && b == self.snaps()[k].1;
            assert(self.snaps()[kt].1 == kt);
            assert(b < self.nodes().len());
            assert(self.is_snap(side1, a));
            assert(self.is_snap(side2, b));
            assert(old(self).is_snap(side1, a));
            assert(old(self).is_snap(side2, b));
        }
        if a == b {
            let out_s = HeatmapSample { point, side1, side2, cost: Some(0) };
            proof {
                assert(sample_ok(old(self).snaps(), old(self).edges(), out_s, a, b));
            }
            return Some(out_s);
        }
        let ch_n = ch_num_nodes_exec(&self.ch);
        if a >= ch_n || b >= ch_n {
            proof {
                assert forall|p: Seq<DirEdge>|
                    !(#[trigger] chained(p, a, b) && edges_in(p, crate::ch::ch_edges(&self.ch))) by {
                    if chained(p, a, b) && edges_in(p, crate::ch::ch_edges(&self.ch)) {
                        assert(p.len() > 0);
                        assert(crate::ch::ch_edges(&self.ch).contains(p[0]));
                        assert(crate::ch::ch_edges(&self.ch).contains(p[p.len() - 1]));
                    }
                }
                assert(!has_path(crate::ch::ch_edges(&self.ch), a, b));
            }
            let out_s = HeatmapSample { point, side1, side2, cost: None };
            proof {
                assert(sample_ok(old(self).snaps(), old(self).edges(), out_s, a, b));
            }
            return Some(out_s);
        }
        let res = calc_path(&mut self.path_calc, &self.ch, a, b);
        match res {
            Some((_, cost)) => {
                let out_s = HeatmapSample { point, side1, side2, cost: Some(cost) };
                proof {
                    assert(sample_ok(old(self).snaps(), old(self).edges(), out_s, a, b));
                }
                Some(out_s)
            },
            None => {
                let out_s = HeatmapSample { point, side1, side2, cost: None };
                proof {
                    assert(sample_ok(old(self).snaps(), old(self).edges(), out_s, a, b));
                }
                Some(out_s)
            },
        }
    }
}

} // verus!
