use vstd::prelude::*;

use vstd::multiset::Multiset;

use crate::builder::{GraphError, OsmNode, OsmWay};
use crate::ch::{
    add_edge, calc_nodes, ch_edges, ch_nodes, freeze_input_graph, input_edges, input_frozen,
    input_nodes, new_calculator, new_input_graph, prepare_ch,
};
use crate::classify::{classify_spec, RoadKind};
use crate::geometry::{linestring_len, path_len};
use crate::graph::{connects_pair, in_bounds, road_ok_at, wf_graph, Coord, Graph, Road};
use crate::node_map::NodeMap;
use crate::paths::{is_shortest, lemma_shortest_symmetric, sym_dominated, DirEdge};
use crate::route::{dist2, min_at, snaps_to};
use crate::IntersectionID;

verus! {

broadcast use vstd::multiset::group_multiset_axioms;

/// Severance edges stay visible in the graph but are never routable.
pub open spec fn walkable(r: Road) -> bool {
    r.data.kind != RoadKind::Severance
}

/// A road's routing weight: its polyline length in planar units, clamped to
/// at least 1 and capped so that no sum of weights the routing engine can
/// form overflows its weight type.
pub open spec fn spec_weight(ls: Seq<Coord>) -> int {
    let l = path_len(ls) as int;
    if l < 1 {
        1
    } else if l > 0x10_0000 {
        0x10_0000
    } else {
        l
    }
}

/// A routing edge stands for a walkable road: its endpoints are the road's
/// two distinct intersections and its weight is the road's weight.
pub open spec fn edge_matches(e: DirEdge, g: Graph, nm: Seq<IntersectionID>) -> bool {
    &&& e.0 < nm.len()
    &&& e.1 < nm.len()
    &&& e.0 != e.1
    &&& e.2 >= 1
    &&& exists|j: int|
        0 <= j < g.roads@.len() && walkable(#[trigger] g.roads@[j]) && connects_pair(
            g.roads@[j],
            nm[e.0 as int],
            nm[e.1 as int],
        ) && e.2 == spec_weight(g.roads@[j].linestring@)
}

/// The routing index holds edges for road `r`: its endpoints have dense node
/// ids, and unless they coincide, both directions stand in the edge multiset
/// with a weight no more than the road's own (the freeze step may have kept a
/// cheaper parallel edge in its place).
pub open spec fn road_edge_present(e: Multiset<DirEdge>, nm: Seq<IntersectionID>, r: Road) -> bool {
    exists|a: usize, b: usize|
        a < nm.len() && b < nm.len() && (#[trigger] nm[a as int]) == r.src_i && (
        #[trigger] nm[b as int]) == r.dst_i && (a != b ==> {
            &&& exists|w1: usize|
                w1 <= spec_weight(r.linestring@) && #[trigger] e.contains((a, b, w1))
            &&& exists|w2: usize|
                w2 <= spec_weight(r.linestring@) && #[trigger] e.contains((b, a, w2))
        })
}

/// `x` is an endpoint of some walkable road of the graph.
pub open spec fn walkable_endpoint(g: Graph, x: IntersectionID) -> bool {
    exists|j: int|
        0 <= j < g.roads@.len() && walkable(#[trigger] g.roads@[j]) && (g.roads@[j].src_i == x
            || g.roads@[j].dst_i == x)
}

/// The node map holds nothing but endpoints of walkable roads: an
/// intersection touching only severances never gets a dense id and can
/// never be snapped to.
pub open spec fn nodes_are_walkable_endpoints(nm: Seq<IntersectionID>, g: Graph) -> bool {
    forall|i: int| 0 <= i < nm.len() ==> walkable_endpoint(g, #[trigger] nm[i])
}

/// Every walkable road is represented in the routing index: its endpoints
/// are mapped and its two directed edges are present.
pub open spec fn edges_complete(e: Multiset<DirEdge>, g: Graph, nm: Seq<IntersectionID>) -> bool {
    forall|j: int|
        0 <= j < g.roads@.len() && walkable(#[trigger] g.roads@[j]) ==> road_edge_present(
            e,
            nm,
            g.roads@[j],
        )
}

/// The frozen edge multiset keeps everything the caller needs: each kept
/// edge still matches a walkable road within the node range, symmetry up to
/// domination survives the dedup, and every walkable road stays represented.
proof fn lemma_prepared_ok(
    added: Multiset<DirEdge>,
    frozen: Multiset<DirEdge>,
    g: Graph,
    nm: Seq<IntersectionID>,
    n_bound: int,
)
    requires
        frozen.subset_of(added),
        forall|ed: DirEdge|
            added.contains(ed) ==> exists|w2: usize|
                w2 <= ed.2 && #[trigger] frozen.contains((ed.0, ed.1, w2)),
        forall|ed: DirEdge|
            #[trigger] added.contains(ed) ==> edge_matches(ed, g, nm) && ed.0 < n_bound && ed.1
                < n_bound,
        forall|ed: DirEdge| #[trigger] added.contains(ed) ==> added.contains((ed.1, ed.0, ed.2)),
        forall|j2: int|
            0 <= j2 < g.roads@.len() && walkable(#[trigger] g.roads@[j2]) ==> road_edge_present(
                added,
                nm,
                g.roads@[j2],
            ),
    ensures
        forall|ed: DirEdge|
            #[trigger] frozen.contains(ed) ==> edge_matches(ed, g, nm) && ed.0 < n_bound && ed.1
                < n_bound && ed.2 <= 0x10_0000,
        sym_dominated(frozen),
        edges_complete(frozen, g, nm),
{
    broadcast use vstd::multiset::group_multiset_axioms;

    assert forall|ed: DirEdge| #[trigger] frozen.contains(ed) implies edge_matches(ed, g, nm)
        && ed.0 < n_bound && ed.1 < n_bound && ed.2 <= 0x10_0000 by {
        assert(frozen.count(ed) <= added.count(ed));
        assert(added.contains(ed));
        assert(edge_matches(ed, g, nm));
    }
    assert(sym_dominated(frozen)) by {
        assert forall|ed: DirEdge| #[trigger] frozen.contains(ed) implies exists|w2: usize|
            w2 <= ed.2 && #[trigger] frozen.contains((ed.1, ed.0, w2)) by {
            assert(frozen.count(ed) <= added.count(ed));
            assert(added.contains(ed));
            let rev = (ed.1, ed.0, ed.2);
            assert(added.contains(rev));
            let w2 = choose|w2: usize| w2 <= rev.2 && #[trigger] frozen.contains((rev.0, rev.1, w2));
            assert(frozen.contains((ed.1, ed.0, w2)));
        }
    }
    assert forall|j2: int|
        0 <= j2 < g.roads@.len() && walkable(#[trigger] g.roads@[j2]) implies road_edge_present(
        frozen,
        nm,
        g.roads@[j2],
    ) by {
        let r2 = g.roads@[j2];
        assert(road_edge_present(added, nm, r2));
        let (a2, b2) = choose|a2: usize, b2: usize|
            a2 < nm.len() && b2 < nm.len() && (#[trigger] nm[a2 as int]) == r2.src_i && (
            #[trigger] nm[b2 as int]) == r2.dst_i && (a2 != b2 ==> {
                &&& exists|w1: usize|
                    w1 <= spec_weight(r2.linestring@) && #[trigger] added.contains((a2, b2, w1))
                &&& exists|w2: usize|
                    w2 <= spec_weight(r2.linestring@) && #[trigger] added.contains((b2, a2, w2))
            });
        if a2 != b2 {
            let w1 = choose|w1: usize|
                w1 <= spec_weight(r2.linestring@) && #[trigger] added.contains((a2, b2, w1));
            let w1f = choose|w1f: usize| w1f <= w1 && #[trigger] frozen.contains((a2, b2, w1f));
            assert(frozen.contains((a2, b2, w1f)));
            let w2 = choose|w2: usize|
                w2 <= spec_weight(r2.linestring@) && #[trigger] added.contains((b2, a2, w2));
            let w2f = choose|w2f: usize| w2f <= w2 && #[trigger] frozen.contains((b2, a2, w2f));
            assert(frozen.contains((b2, a2, w2f)));
        }
        assert(road_edge_present(frozen, nm, r2));
    }
    assert(edges_complete(frozen, g, nm));
}

proof fn lemma_subset_weight_bound(small: Multiset<DirEdge>, big: Multiset<DirEdge>)
    requires
        small.subset_of(big),
        forall|ed: DirEdge| #[trigger] big.contains(ed) ==> ed.2 <= 0x10_0000,
    ensures
        forall|ed: DirEdge| #[trigger] small.contains(ed) ==> ed.2 <= 0x10_0000,
{
    broadcast use vstd::multiset::group_multiset_axioms;

    assert forall|ed: DirEdge| #[trigger] small.contains(ed) implies ed.2 <= 0x10_0000 by {
        assert(small.count(ed) <= big.count(ed));
        assert(big.contains(ed));
    }
}

/// The built map: the graph, the walkable-intersection snap table, the
/// node-id mapping, and the prepared routing engine with its scratch space.
pub struct MapModel {
    pub graph: Graph,
    pub snap_points: Vec<(Coord, usize)>,
    pub node_map: NodeMap,
    pub ch: fast_paths::FastGraph,
    pub path_calc: fast_paths::PathCalculator,
}

impl MapModel {
    /// The graph the model was built over.
    pub open spec fn spec_graph(&self) -> Graph {
        self.graph
    }

    /// Shared access to the graph, for rendering and lookups.
    pub fn graph(&self) -> (g: &Graph)
        ensures
            *g == self.spec_graph(),
    {
        &self.graph
    }

    /// The routing edges the prepared hierarchy answers queries over.
    pub open spec fn edges(&self) -> Multiset<DirEdge> {
        ch_edges(&self.ch)
    }

    /// The dense node ids, in assignment order.
    pub open spec fn nodes(&self) -> Seq<IntersectionID> {
        self.node_map@
    }

    /// Whether any walkable intersection exists to snap to.
    pub open spec fn snappable(&self) -> bool {
        self.snap_points@.len() > 0
    }

    /// The snap table: one entry per dense node id.
    pub open spec fn snaps(&self) -> Seq<(Coord, usize)> {
        self.snap_points@
    }

    /// `n` is the dense node id of the walkable intersection nearest to
    /// `pt`, earliest id first on ties.
    pub open spec fn is_snap(&self, pt: Coord, n: usize) -> bool {
        snaps_to(self.snaps(), pt, n)
    }

    /// Snapping is a function: the nearest-intersection query has one answer.
    pub proof fn lemma_snap_unique(&self, pt: Coord, n1: usize, n2: usize)
        requires
            self.is_snap(pt, n1),
            self.is_snap(pt, n2),
        ensures
            n1 == n2,
    {
        let k1 = choose|k: int| #[trigger] min_at(self.snaps(), pt, k) && n1 == self.snaps()[k].1;
        let k2 = choose|k: int| #[trigger] min_at(self.snaps(), pt, k) && n2 == self.snaps()[k].1;
        if k1 < k2 {
            assert(dist2(self.snaps()[k1].0, pt) > dist2(self.snaps()[k2].0, pt));
            assert(dist2(self.snaps()[k2].0, pt) >= dist2(self.snaps()[k1].0, pt));
        } else if k2 < k1 {
            assert(dist2(self.snaps()[k2].0, pt) > dist2(self.snaps()[k1].0, pt));
            assert(dist2(self.snaps()[k1].0, pt) >= dist2(self.snaps()[k2].0, pt));
        }
    }

    /// The walking graph is symmetric, so the cheapest cost between two
    /// nodes is the same in both directions: a route costs the same as the
    /// route back.
    pub proof fn lemma_route_cost_symmetric(&self, s: usize, t: usize, c1: int, c2: int)
        requires
            self.wf(),
            is_shortest(self.edges(), s, t, c1),
            is_shortest(self.edges(), t, s, c2),
        ensures
            c1 == c2,
    {
        lemma_shortest_symmetric(ch_edges(&self.ch), s, t, c1, c2);
    }

    pub open spec fn wf(&self) -> bool {
        &&& wf_graph(self.graph)
        &&& self.node_map.wf()
        &&& forall|i: int|
            0 <= i < self.node_map@.len() ==> (#[trigger] self.node_map@[i]).0
                < self.graph.intersections@.len()
        &&& forall|i1: int, i2: int|
            0 <= i1 < i2 < self.node_map@.len() ==> (#[trigger] self.node_map@[i1]) != (
            #[trigger] self.node_map@[i2])
        &&& forall|ed: DirEdge|
            #[trigger] ch_edges(&self.ch).contains(ed) ==> edge_matches(
                ed,
                self.graph,
                self.node_map@,
            ) && ed.0 < ch_nodes(&self.ch) && ed.1 < ch_nodes(&self.ch)
        &&& nodes_are_walkable_endpoints(self.node_map@, self.graph)
        &&& forall|ed: DirEdge| #[trigger] ch_edges(&self.ch).contains(ed) ==> ed.2 <= 0x10_0000
        &&& ch_nodes(&self.ch) <= 0x800_0000_0000
        &&& sym_dominated(ch_edges(&self.ch))
        &&& calc_nodes(&self.path_calc) == ch_nodes(&self.ch)
        &&& self.snap_points@.len() == self.node_map@.len()
        &&& forall|k: int|
            0 <= k < self.snap_points@.len() ==> (#[trigger] self.snap_points@[k]).1 == k
                && self.snap_points@[k].0
                == self.graph.intersections@[self.node_map@[k].0 as int].point && in_bounds(
                self.snap_points@[k].0,
            )
    }

    /// Builds the model: the graph from the input elements, then the routing
    /// index over its walkable roads, with both directions of every road.
    #[verifier::rlimit(100)]
    pub fn new(
        nodes: &Vec<OsmNode>,
        ways: &Vec<OsmWay>,
        import_streets_without_sidewalk_tagging: bool,
    ) -> (res: Result<MapModel, GraphError>)
        requires
            forall|j: int| 0 <= j < nodes@.len() ==> in_bounds((#[trigger] nodes@[j]).pt),
            ways@.len() <= 0x20_0000,
            forall|w: int|
                0 <= w < ways@.len() ==> (#[trigger] ways@[w]).node_ids@.len() <= 0x20_0000,
        ensures
            res matches Ok(m) ==> m.wf(),
            res matches Ok(m) ==> forall|j: int|
                0 <= j < m.spec_graph().roads@.len() ==> crate::builder::road_from_kept_way(
                    #[trigger] m.spec_graph().roads@[j],
                    ways@,
                    import_streets_without_sidewalk_tagging,
                ),
            res matches Ok(m) ==> crate::builder::ways_covered(
                m.spec_graph().roads@,
                ways@,
                nodes@,
                import_streets_without_sidewalk_tagging,
            ),
            res matches Ok(m) ==> forall|w: int|
                0 <= w < ways@.len() && classify_spec(
                    (#[trigger] ways@[w]).tags@,
                    import_streets_without_sidewalk_tagging,
                ).is_some() ==> crate::builder::way_complete(nodes@, ways@[w]),
            res matches Ok(m) ==> forall|i1: int, i2: int|
                0 <= i1 < i2 < m.spec_graph().intersections@.len() ==> (
                #[trigger] m.spec_graph().intersections@[i1]).node != (
                #[trigger] m.spec_graph().intersections@[i2]).node,
            res matches Ok(m) ==> forall|i: int|
                0 <= i < m.spec_graph().intersections@.len() ==> (
                #[trigger] m.spec_graph().intersections@[i]).point == crate::builder::node_coord(
                    nodes@,
                    m.spec_graph().intersections@[i].node,
                ),
            res matches Ok(m) ==> edges_complete(m.edges(), m.spec_graph(), m.nodes()),
            res matches Err(e) ==> e == GraphError::MissingNode && exists|w: int|
                0 <= w < ways@.len() && classify_spec(
                    (#[trigger] ways@[w]).tags@,
                    import_streets_without_sidewalk_tagging,
                ).is_some() && !crate::builder::way_complete(nodes@, ways@[w]),
    {
        let graph = match Graph::new(nodes, ways, import_streets_without_sidewalk_tagging) {
            Ok(g) => g,
            Err(e) => {
                return Err(e);
            },
        };
        proof {
            assert(graph.roads@.len() <= 0x400_0000_0000);
        }
        let mut node_map = NodeMap::new();
        let mut ig = new_input_graph();
        let n_roads = graph.roads.len();
        let mut j: usize = 0;
        while j < n_roads
            invariant
                n_roads == graph.roads@.len(),
                n_roads <= 0x400_0000_0000,
                j <= n_roads,
                node_map@.len() <= 2 * j,
                nodes_are_walkable_endpoints(node_map@, graph),
                wf_graph(graph),
                node_map.wf(),
                forall|i: int|
                    0 <= i < node_map@.len() ==> (#[trigger] node_map@[i]).0
                        < graph.intersections@.len(),
                !input_frozen(&ig),
                input_nodes(&ig) <= node_map@.len(),
                forall|ed: DirEdge|
                    #[trigger] input_edges(&ig).contains(ed) ==> edge_matches(
                        ed,
                        graph,
                        node_map@,
                    ) && ed.0 < input_nodes(&ig) && ed.1 < input_nodes(&ig),
                forall|ed: DirEdge|
                    #[trigger] input_edges(&ig).contains(ed) ==> input_edges(&ig).contains(
                        (ed.1, ed.0, ed.2),
                    ),
                forall|j2: int|
                    0 <= j2 < j && walkable(#[trigger] graph.roads@[j2]) ==> road_edge_present(
                        input_edges(&ig),
                        node_map@,
                        graph.roads@[j2],
                    ),
            decreases n_roads - j,
        {
            let ghost nm_before = node_map@;
            let walk = {
                let road = &graph.roads[j];
                road.data.kind != RoadKind::Severance
            };
            if walk {
                proof {
                    assert(road_ok_at(graph.roads@, graph.intersections@, j as int));
                }
                let src_i = graph.roads[j].src_i;
                let dst_i = graph.roads[j].dst_i;
                let a = node_map.get_or_insert(src_i);
                let b = node_map.get_or_insert(dst_i);
                proof {
                    assert forall|i: int| 0 <= i < node_map@.len() implies walkable_endpoint(
                        graph,
                        #[trigger] node_map@[i],
                    ) by {
                        if i < nm_before.len() {
                            assert(node_map@[i] == nm_before[i]);
                            assert(walkable_endpoint(graph, nm_before[i]));
                        } else {
                            assert(node_map@[i] == src_i || node_map@[i] == dst_i);
                            assert(walkable(graph.roads@[j as int]));
                        }
                    }
                    assert forall|ed: DirEdge| #[trigger]
                        input_edges(&ig).contains(ed) implies edge_matches(
                        ed,
                        graph,
                        node_map@,
                    ) && ed.0 < input_nodes(&ig) && ed.1 < input_nodes(&ig) by {
                        assert(edge_matches(ed, graph, nm_before));
                        assert(node_map@[ed.0 as int] == nm_before[ed.0 as int]);
                        assert(node_map@[ed.1 as int] == nm_before[ed.1 as int]);
                    }
                    assert forall|j2: int|
                        0 <= j2 < j && walkable(#[trigger] graph.roads@[j2])
                        implies road_edge_present(
                        input_edges(&ig),
                        node_map@,
                        graph.roads@[j2],
                    ) by {
                        let r2 = graph.roads@[j2];
                        assert(road_edge_present(input_edges(&ig), nm_before, r2));
                        let (a2, b2) = choose|a2: usize, b2: usize|
                            a2 < nm_before.len() && b2 < nm_before.len() && (
                            #[trigger] nm_before[a2 as int]) == r2.src_i && (
                            #[trigger] nm_before[b2 as int]) == r2.dst_i && (a2 != b2 ==> {
                                &&& exists|w1: usize|
                                    w1 <= spec_weight(r2.linestring@) && #[trigger] input_edges(
                                        &ig,
                                    ).contains((a2, b2, w1))
                                &&& exists|w2: usize|
                                    w2 <= spec_weight(r2.linestring@) && #[trigger] input_edges(
                                        &ig,
                                    ).contains((b2, a2, w2))
                            });
                        assert(node_map@[a2 as int] == nm_before[a2 as int]);
                        assert(node_map@[b2 as int] == nm_before[b2 as int]);
                    }
                }
                if a != b {
                    let nm_len = node_map.len();
                    proof {
                        assert(a < nm_len && b < nm_len);
                    }
                    let total = linestring_len(&graph.roads[j].linestring);
                    let w: usize = if total == 0 {
                        1
                    } else if total > 0x10_0000 {
                        0x10_0000
                    } else {
                        total as usize
                    };
                    proof {
                        assert(w == spec_weight(graph.roads@[j as int].linestring@));
                        assert(connects_pair(
                            graph.roads@[j as int],
                            node_map@[a as int],
                            node_map@[b as int],
                        ));
                    }
                    let ghost e_before = input_edges(&ig);
                    add_edge(&mut ig, a, b, w);
                    add_edge(&mut ig, b, a, w);
                    proof {
                        let e1 = (a, b, w);
                        let e2 = (b, a, w);
                        assert(input_edges(&ig) == e_before.insert(e1).insert(e2));
                        assert(edge_matches(e1, graph, node_map@));
                        assert(edge_matches(e2, graph, node_map@));
                        assert forall|ed: DirEdge| #[trigger]
                            input_edges(&ig).contains(ed) implies edge_matches(
                            ed,
                            graph,
                            node_map@,
                        ) && ed.0 < input_nodes(&ig) && ed.1 < input_nodes(&ig) by {
                            if ed != e1 && ed != e2 {
                                assert(e_before.contains(ed));
                            }
                        }
                        assert forall|ed: DirEdge| #[trigger]
                            input_edges(&ig).contains(ed) implies input_edges(&ig).contains(
                            (ed.1, ed.0, ed.2),
                        ) by {
                            if ed != e1 && ed != e2 {
                                assert(e_before.contains(ed));
                                assert(e_before.contains((ed.1, ed.0, ed.2)));
                            }
                        }
                        assert forall|j2: int|
                            0 <= j2 < j + 1 && walkable(#[trigger] graph.roads@[j2])
                            implies road_edge_present(
                            input_edges(&ig),
                            node_map@,
                            graph.roads@[j2],
                        ) by {
                            let r2 = graph.roads@[j2];
                            if j2 < j {
                                assert(road_edge_present(e_before, node_map@, r2));
                                let (a2, b2) = choose|a2: usize, b2: usize|
                                    a2 < node_map@.len() && b2 < node_map@.len() && (
                                    #[trigger] node_map@[a2 as int]) == r2.src_i && (
                                    #[trigger] node_map@[b2 as int]) == r2.dst_i && (a2 != b2
                                        ==> {
                                        &&& exists|w1: usize|
                                            w1 <= spec_weight(r2.linestring@)
                                                && #[trigger] e_before.contains((a2, b2, w1))
                                        &&& exists|w2: usize|
                                            w2 <= spec_weight(r2.linestring@)
                                                && #[trigger] e_before.contains((b2, a2, w2))
                                    });
                                if a2 != b2 {
                                    let w1 = choose|w1: usize|
                                        w1 <= spec_weight(r2.linestring@)
                                            && #[trigger] e_before.contains((a2, b2, w1));
                                    assert(input_edges(&ig).contains((a2, b2, w1)));
                                    let w2 = choose|w2: usize|
                                        w2 <= spec_weight(r2.linestring@)
                                            && #[trigger] e_before.contains((b2, a2, w2));
                                    assert(input_edges(&ig).contains((b2, a2, w2)));
                                }
                            } else {
                                assert(node_map@[a as int] == r2.src_i);
                                assert(node_map@[b as int] == r2.dst_i);
                                assert(input_edges(&ig).contains(e1));
                                assert(input_edges(&ig).contains(e2));
                                assert(w <= spec_weight(r2.linestring@));
                            }
                        }
                    }
                } else {
                    proof {
                        assert forall|j2: int|
                            0 <= j2 < j + 1 && walkable(#[trigger] graph.roads@[j2])
                            implies road_edge_present(
                            input_edges(&ig),
                            node_map@,
                            graph.roads@[j2],
                        ) by {
                            if j2 == j {
                                let r2 = graph.roads@[j2];
                                assert(node_map@[a as int] == r2.src_i);
                                assert(node_map@[b as int] == r2.dst_i);
                            }
                        }
                    }
                }
            }
            j += 1;
        }

        let ghost added = input_edges(&ig);
        let ghost added_nodes = input_nodes(&ig);
        proof {
            assert forall|ed: DirEdge| #[trigger] added.contains(ed) implies ed.2 <= 0x10_0000 by {
                assert(edge_matches(ed, graph, node_map@));
            }
        }
        freeze_input_graph(&mut ig);
        proof {
            lemma_subset_weight_bound(input_edges(&ig), added);
        }
        let ch = prepare_ch(&ig);
        let path_calc = new_calculator(&ch);
        proof {
            assert(ch_edges(&ch) == input_edges(&ig));
            assert(ch_nodes(&ch) == added_nodes);
            lemma_prepared_ok(
                added,
                ch_edges(&ch),
                graph,
                node_map@,
                added_nodes,
            );
        }

        // One snap entry per dense node id, carrying its intersection point.
        let mut snap_points: Vec<(Coord, usize)> = Vec::new();
        let n_nodes = node_map.len();
        let mut id: usize = 0;
        while id < n_nodes
            invariant
                n_nodes == node_map@.len(),
                id <= n_nodes,
                wf_graph(graph),
                node_map.wf(),
                forall|i: int|
                    0 <= i < node_map@.len() ==> (#[trigger] node_map@[i]).0
                        < graph.intersections@.len(),
                snap_points@.len() == id,
                forall|k: int|
                    0 <= k < id ==> (#[trigger] snap_points@[k]).1 == k && snap_points@[k].0
                        == graph.intersections@[node_map@[k].0 as int].point && in_bounds(
                        snap_points@[k].0,
                    ),
            decreases n_nodes - id,
        {
            let i_id = node_map.translate_id(id);
            proof {
                assert(crate::graph::intersection_ok_at(
                    graph.roads@,
                    graph.intersections@,
                    i_id.0 as int,
                ));
            }
            let pt = graph.intersections[i_id.0].point;
            snap_points.push((pt, id));
            id += 1;
        }

        proof {
            node_map.lemma_view_distinct();
        }
        let m = MapModel { graph, snap_points, node_map, ch, path_calc };
        proof {
            assert(m.wf());
            assert(edges_complete(m.edges(), m.spec_graph(), m.nodes()));
            assert(crate::builder::ways_covered(
                m.spec_graph().roads@,
                ways@,
                nodes@,
                import_streets_without_sidewalk_tagging,
            ));
        }
        Ok(m)
    }
}

} // verus!
