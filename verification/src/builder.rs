use vstd::prelude::*;

use std::collections::HashMap;

use crate::classify::{classify, classify_spec, RoadKind};
use crate::graph::{
    in_bounds, intersection_ok_at, road_ok_at, wf_parts, Coord, Graph, Intersection, NodeID, Road,
    RoadData, WayID,
};
use crate::tags::Tags;
use crate::{IntersectionID, RoadID};

verus! {

broadcast use vstd::std_specs::hash::group_hash_axioms;

/// An OSM node: its id and its coordinate, already in integer planar units.
pub struct OsmNode {
    pub id: NodeID,
    pub pt: Coord,
}

/// An OSM way: its id, its ordered node references, and its tags.
pub struct OsmWay {
    pub id: WayID,
    pub node_ids: Vec<NodeID>,
    pub tags: Tags,
}

/// Why a graph could not be built.
#[derive(Clone, Copy, Debug, PartialEq, Eq, Structural)]
pub enum GraphError {
    /// A kept way references a node id that the input does not define.
    MissingNode,
}

/// The interim mapping from OSM node ids to created intersections agrees
/// with the intersections themselves and with the node coordinate table.
pub open spec fn wf_node_map(
    n2i: Map<i64, usize>,
    inters: Seq<Intersection>,
    node_pts: Map<i64, Coord>,
) -> bool {
    &&& forall|k: i64|
        n2i.contains_key(k) ==> #[trigger] n2i[k] < inters.len() && inters[n2i[k] as int].node.0
            == k
    &&& forall|j: int|
        0 <= j < inters.len() ==> {
            let it = #[trigger] inters[j];
            &&& n2i.contains_key(it.node.0)
            &&& n2i[it.node.0] == j
            &&& node_pts.contains_key(it.node.0)
            &&& it.point == node_pts[it.node.0]
        }
}

/// A way's node references resolved through the node coordinate table.
pub open spec fn way_polyline(node_ids: Seq<NodeID>, node_pts: Map<i64, Coord>) -> Seq<Coord> {
    node_ids.map_values(|n: NodeID| node_pts[n.0])
}

pub open spec fn nodes_present(node_ids: Seq<NodeID>, node_pts: Map<i64, Coord>) -> bool {
    forall|j: int| 0 <= j < node_ids.len() ==> node_pts.contains_key((#[trigger] node_ids[j]).0)
}

/// Glues split linestrings back together: consecutive pieces share their
/// boundary point, which is kept once.
pub open spec fn glued(lss: Seq<Seq<Coord>>) -> Seq<Coord>
    decreases lss.len(),
{
    if lss.len() == 0 {
        Seq::empty()
    } else if lss.len() == 1 {
        lss[0]
    } else {
        glued(lss.drop_last()) + lss.last().drop_first()
    }
}

proof fn lemma_roads_ok_prefix(roads: Seq<Road>, old_i: Seq<Intersection>, new_i: Seq<Intersection>)
    requires
        old_i.len() <= new_i.len(),
        forall|j: int| 0 <= j < old_i.len() ==> new_i[j] == old_i[j],
        forall|j: int| 0 <= j < roads.len() ==> #[trigger] road_ok_at(roads, old_i, j),
    ensures
        forall|j: int| 0 <= j < roads.len() ==> #[trigger] road_ok_at(roads, new_i, j),
{
    assert forall|j: int| 0 <= j < roads.len() implies #[trigger] road_ok_at(roads, new_i, j) by {
        assert(road_ok_at(roads, old_i, j));
        let r = roads[j];
        assert(new_i[r.src_i.0 as int] == old_i[r.src_i.0 as int]);
        assert(new_i[r.dst_i.0 as int] == old_i[r.dst_i.0 as int]);
    }
}

/// Returns the intersection for node `n`, creating it at point `pt` on first
/// sight. Existing intersections and their order are never disturbed.
fn ensure_intersection(
    roads: &Vec<Road>,
    inters: &mut Vec<Intersection>,
    n2i: &mut HashMap<i64, usize>,
    n: NodeID,
    pt: Coord,
    node_pts: Ghost<Map<i64, Coord>>,
) -> (i: usize)
    requires
        wf_node_map(old(n2i)@, old(inters)@, node_pts@),
        forall|j: int|
            0 <= j < old(inters)@.len() ==> #[trigger] intersection_ok_at(
                roads@,
                old(inters)@,
                j,
            ),
        node_pts@.contains_key(n.0),
        node_pts@[n.0] == pt,
        in_bounds(pt),
    ensures
        wf_node_map(final(n2i)@, final(inters)@, node_pts@),
        forall|j: int|
            0 <= j < final(inters)@.len() ==> #[trigger] intersection_ok_at(
                roads@,
                final(inters)@,
                j,
            ),
        i < final(inters)@.len(),
        final(inters)@[i as int].node == n,
        final(inters)@[i as int].point == pt,
        final(inters)@[i as int].id.0 == i,
        old(inters)@.len() <= final(inters)@.len() <= old(inters)@.len() + 1,
        forall|j: int| 0 <= j < old(inters)@.len() ==> final(inters)@[j] == old(inters)@[j],
{
    match n2i.get(&n.0) {
        Some(found) => {
            let i = *found;
            proof {
                assert(n2i@[n.0] == i);
                assert(inters@[i as int].node.0 == n.0);
                assert(inters@[i as int].node == n);
                assert(inters@[i as int].point == node_pts@[n.0]);
                assert(intersection_ok_at(roads@, inters@, i as int));
            }
            i
        },
        None => {
            let i = inters.len();
            let it = Intersection { id: IntersectionID(i), roads: Vec::new(), node: n, point: pt };
            proof {
                assert(it.roads@.len() == 0);
            }
            inters.push(it);
            n2i.insert(n.0, i);
            proof {
                assert forall|j: int|
                    0 <= j < inters@.len() implies #[trigger] intersection_ok_at(
                    roads@,
                    inters@,
                    j,
                ) by {
                    if j < i {
                        assert(intersection_ok_at(roads@, old(inters)@, j));
                        assert(inters@[j] == old(inters)@[j]);
                    } else {
                        assert(inters@[j] == it);
                    }
                }
            }
            i
        },
    }
}

/// Splits one kept way into roads, cutting at its first node, its last node,
/// and every node that other kept ways also reference. A way with fewer than
/// two nodes is dropped silently; gluing the produced linestrings back
/// together yields exactly the way's original polyline.
fn split_way(
    roads: &mut Vec<Road>,
    inters: &mut Vec<Intersection>,
    n2i: &mut HashMap<i64, usize>,
    node_pts: &HashMap<i64, Coord>,
    node_counter: &HashMap<i64, u64>,
    way: &OsmWay,
    kind: RoadKind,
) -> (res: Result<(), GraphError>)
    requires
        wf_parts(old(roads)@, old(inters)@),
        wf_node_map(old(n2i)@, old(inters)@, node_pts@),
        forall|k: i64| node_pts@.contains_key(k) ==> in_bounds(#[trigger] node_pts@[k]),
    ensures
        res matches Err(e) ==> e == GraphError::MissingNode && !nodes_present(
            way.node_ids@,
            node_pts@,
        ),
        res matches Ok(()) ==> {
            &&& wf_parts(final(roads)@, final(inters)@)
            &&& wf_node_map(final(n2i)@, final(inters)@, node_pts@)
            &&& nodes_present(way.node_ids@, node_pts@)
            &&& old(roads)@.len() <= final(roads)@.len()
            &&& final(roads)@.len() <= old(roads)@.len() + way.node_ids@.len()
            &&& forall|j: int| 0 <= j < old(roads)@.len() ==> final(roads)@[j] == old(roads)@[j]
            &&& forall|j: int|
                old(roads)@.len() <= j < final(roads)@.len() ==> {
                    let r = #[trigger] final(roads)@[j];
                    &&& r.way == way.id
                    &&& r.data.tags@ == way.tags@
                    &&& r.data.kind == kind
                }
            &&& if way.node_ids@.len() >= 2 {
                final(roads)@.len() > old(roads)@.len() && glued(
                    final(roads)@.subrange(
                        old(roads)@.len() as int,
                        final(roads)@.len() as int,
                    ).map_values(|r: Road| r.linestring@),
                ) == way_polyline(way.node_ids@, node_pts@)
            } else {
                final(roads)@ == old(roads)@ && final(inters)@ == old(inters)@
            }
        },
{
    let n_ids = way.node_ids.len();

    // Resolve every node reference to its coordinate.
    let mut pts: Vec<Coord> = Vec::new();
    let mut idx: usize = 0;
    while idx < n_ids
        invariant
            n_ids == way.node_ids@.len(),
            idx <= n_ids,
            pts@.len() == idx,
            forall|j: int|
                0 <= j < idx ==> node_pts@.contains_key((#[trigger] way.node_ids@[j]).0)
                    && pts@[j] == node_pts@[way.node_ids@[j].0],
        decreases n_ids - idx,
    {
        match node_pts.get(&way.node_ids[idx].0) {
            Some(pt) => { pts.push(*pt) },
            None => {
                return Err(GraphError::MissingNode);
            },
        }
        idx += 1;
    }
    assert(nodes_present(way.node_ids@, node_pts@));
    assert(pts@ =~= way_polyline(way.node_ids@, node_pts@));
    if n_ids < 2 {
        return Ok(());
    }

    // The cut positions: the first index, the last index, and every node
    // referenced by more than one kept way.
    let mut cuts: Vec<usize> = Vec::new();
    let mut i: usize = 0;
    while i < n_ids
        invariant
            2 <= n_ids == way.node_ids@.len(),
            i <= n_ids,
            cuts@.len() <= i,
            forall|m: int| 0 <= m < cuts@.len() ==> #[trigger] cuts@[m] < i,
            forall|m1: int, m2: int| 0 <= m1 < m2 < cuts@.len() ==> cuts@[m1] < cuts@[m2],
            i >= 1 ==> cuts@.len() >= 1 && cuts@[0] == 0,
            i == n_ids ==> cuts@.len() >= 2 && cuts@.last() == n_ids - 1,
        decreases n_ids - i,
    {
        let mut is_endpoint = i == 0 || i == n_ids - 1;
        if !is_endpoint {
            is_endpoint = match node_counter.get(&way.node_ids[i].0) {
                Some(c) => *c > 1,
                None => false,
            };
        }
        if is_endpoint {
            cuts.push(i);
        }
        i += 1;
    }

    // Emit one road per stretch between consecutive cuts.
    let ghost orig_roads = roads@;
    let ghost orig_len = roads@.len() as int;
    let n_cuts = cuts.len();
    let mut c: usize = 0;
    while c + 1 < n_cuts
        invariant
            2 <= n_ids == way.node_ids@.len(),
            pts@.len() == n_ids,
            forall|j: int|
                0 <= j < n_ids ==> node_pts@.contains_key((#[trigger] way.node_ids@[j]).0)
                    && pts@[j] == node_pts@[way.node_ids@[j].0],
            forall|k: i64| node_pts@.contains_key(k) ==> in_bounds(#[trigger] node_pts@[k]),
            n_cuts == cuts@.len(),
            n_cuts >= 2,
            forall|m: int| 0 <= m < n_cuts ==> #[trigger] cuts@[m] < n_ids,
            forall|m1: int, m2: int| 0 <= m1 < m2 < n_cuts ==> cuts@[m1] < cuts@[m2],
            cuts@[0] == 0,
            cuts@.last() == n_ids - 1,
            c < n_cuts,
            wf_parts(roads@, inters@),
            wf_node_map(n2i@, inters@, node_pts@),
            0 <= orig_len,
            roads@.len() == orig_len + c,
            forall|j: int| 0 <= j < orig_len ==> roads@[j] == orig_roads[j],
            forall|j: int|
                orig_len <= j < roads@.len() ==> {
                    let r = #[trigger] roads@[j];
                    &&& r.way == way.id
                    &&& r.data.tags@ == way.tags@
                    &&& r.data.kind == kind
                },
            c >= 1 ==> glued(
                roads@.subrange(orig_len, roads@.len() as int).map_values(
                    |r: Road| r.linestring@,
                ),
            ) == pts@.take(cuts@[c as int] + 1),
        decreases n_cuts - c,
    {
        let a = cuts[c];
        let b = cuts[c + 1];
        assert(a < b < n_ids);

        // The stretch of the polyline from `a` to `b`, both included.
        let mut ls: Vec<Coord> = Vec::new();
        let mut p: usize = a;
        while p <= b
            invariant
                a <= p <= b + 1,
                b < n_ids,
                n_ids == pts@.len(),
                ls@ == pts@.subrange(a as int, p as int),
            decreases b + 1 - p,
        {
            ls.push(pts[p]);
            proof {
                assert(pts@.subrange(a as int, p + 1 as int) =~= pts@.subrange(
                    a as int,
                    p as int,
                ).push(pts@[p as int]));
            }
            p += 1;
        }
        assert(ls@ == pts@.subrange(a as int, b + 1 as int));
        assert(ls@.len() >= 2);

        let ghost inters_v1 = inters@;
        let i1 = ensure_intersection(roads, inters, n2i, way.node_ids[a], pts[a], Ghost(node_pts@));
        proof {
            lemma_roads_ok_prefix(roads@, inters_v1, inters@);
        }
        let ghost inters_v2 = inters@;
        let i2 = ensure_intersection(roads, inters, n2i, way.node_ids[b], pts[b], Ghost(node_pts@));
        proof {
            lemma_roads_ok_prefix(roads@, inters_v2, inters@);
        }
        let ghost inters_v3 = inters@;
        let rid = roads.len();

        // Link the two endpoints to the road about to be created, then the
        // road itself; the invariant is whole again once all three are in.
        inters[i1].roads.push(RoadID(rid));
        let ghost inters_v4 = inters@;
        inters[i2].roads.push(RoadID(rid));
        let ghost inters_v5 = inters@;

        let road = Road {
            id: RoadID(rid),
            src_i: IntersectionID(i1),
            dst_i: IntersectionID(i2),
            way: way.id,
            node1: way.node_ids[a],
            node2: way.node_ids[b],
            linestring: ls,
            data: RoadData { tags: way.tags.clone(), kind },
        };
        let ghost roads_v = roads@;
        roads.push(road);

        proof {
            // The two adjacency pushes only lengthen the two lists.
            assert(inters_v4.len() == inters_v3.len());
            assert(inters_v4[i1 as int].roads@ == inters_v3[i1 as int].roads@.push(RoadID(rid)));
            assert(forall|j: int|
                0 <= j < inters_v3.len() && j != i1 ==> inters_v4[j] == inters_v3[j]);
            assert(inters_v5.len() == inters_v4.len());
            assert(inters_v5[i2 as int].roads@ == inters_v4[i2 as int].roads@.push(RoadID(rid)));
            assert(forall|j: int|
                0 <= j < inters_v4.len() && j != i2 ==> inters_v5[j] == inters_v4[j]);

            // Well-formedness of the node mapping: ids, nodes and points of
            // all intersections are untouched.
            assert forall|k: i64| n2i@.contains_key(k) implies #[trigger] n2i@[k]
                < inters@.len() && inters@[n2i@[k] as int].node.0 == k by {
                assert(n2i@[k] < inters_v3.len() && inters_v3[n2i@[k] as int].node.0 == k);
                assert(inters@[n2i@[k] as int].node == inters_v3[n2i@[k] as int].node);
            }
            assert forall|j: int| 0 <= j < inters@.len() implies {
                let it = #[trigger] inters@[j];
                &&& n2i@.contains_key(it.node.0)
                &&& n2i@[it.node.0] == j
                &&& node_pts@.contains_key(it.node.0)
                &&& it.point == node_pts@[it.node.0]
            } by {
                assert(inters@[j].node == inters_v3[j].node);
                assert(inters@[j].point == inters_v3[j].point);
            }
            assert(wf_node_map(n2i@, inters@, node_pts@));

            // Every intersection is still consistent: the two new adjacency
            // entries point at the new road, whose endpoints they are.
            assert(roads@[rid as int] == road);
            assert forall|j: int| 0 <= j < inters@.len() implies #[trigger] intersection_ok_at(
                roads@,
                inters@,
                j,
            ) by {
                assert(intersection_ok_at(roads_v, inters_v3, j));
                let it_old = inters_v3[j];
                let it = inters@[j];
                assert(it.id == it_old.id && it.node == it_old.node && it.point == it_old.point);
                assert forall|m: int| 0 <= m < it.roads@.len() implies (#[trigger] it.roads@[m]).0
                    < roads@.len() && (roads@[it.roads@[m].0 as int].src_i == it.id
                    || roads@[it.roads@[m].0 as int].dst_i == it.id) by {
                    if m < it_old.roads@.len() {
                        assert(it.roads@[m] == it_old.roads@[m]);
                        assert(it_old.roads@[m].0 < roads_v.len());
                        assert(roads@[it.roads@[m].0 as int] == roads_v[it.roads@[m].0 as int]);
                    } else {
                        assert(it.roads@[m] == RoadID(rid));
                        assert(j == i1 || j == i2);
                        assert(roads@[rid as int].src_i == it.id || roads@[rid as int].dst_i
                            == it.id);
                    }
                }
                assert forall|m1: int, m2: int| 0 <= m1 < m2 < it.roads@.len() implies (
                #[trigger] it.roads@[m1]).0 <= (#[trigger] it.roads@[m2]).0 by {
                    if m2 < it_old.roads@.len() {
                        assert(it.roads@[m1] == it_old.roads@[m1]);
                        assert(it.roads@[m2] == it_old.roads@[m2]);
                    } else {
                        assert(it.roads@[m2] == RoadID(rid));
                        if m1 < it_old.roads@.len() {
                            assert(it.roads@[m1] == it_old.roads@[m1]);
                            assert(it_old.roads@[m1].0 < roads_v.len());
                        } else {
                            assert(it.roads@[m1] == RoadID(rid));
                        }
                    }
                }
            }

            // Every road is still consistent; the new one starts and ends at
            // the intersections just linked.
            assert forall|j: int| 0 <= j < roads@.len() implies #[trigger] road_ok_at(
                roads@,
                inters@,
                j,
            ) by {
                if j < rid {
                    assert(road_ok_at(roads_v, inters_v3, j));
                    let r = roads_v[j];
                    assert(roads@[j] == r);
                    assert(inters@[r.src_i.0 as int].point == inters_v3[r.src_i.0 as int].point);
                    assert(inters@[r.dst_i.0 as int].point == inters_v3[r.dst_i.0 as int].point);
                    assert(inters_v3[r.src_i.0 as int].roads@.contains(r.id));
                    let w1 = choose|w: int|
                        0 <= w < inters_v3[r.src_i.0 as int].roads@.len() && inters_v3[r.src_i.0 as int].roads@[w]
                            == r.id;
                    assert(inters@[r.src_i.0 as int].roads@[w1] == r.id);
                    assert(inters@[r.src_i.0 as int].roads@.contains(r.id));
                    assert(inters_v3[r.dst_i.0 as int].roads@.contains(r.id));
                    let w2 = choose|w: int|
                        0 <= w < inters_v3[r.dst_i.0 as int].roads@.len() && inters_v3[r.dst_i.0 as int].roads@[w]
                            == r.id;
                    assert(inters@[r.dst_i.0 as int].roads@[w2] == r.id);
                    assert(inters@[r.dst_i.0 as int].roads@.contains(r.id));
                } else {
                    assert(roads@[j] == road);
                    assert(road.node1 == inters@[i1 as int].node);
                    assert(road.node2 == inters@[i2 as int].node);
                    assert(inters@[i1 as int].roads@.contains(RoadID(rid))) by {
                        if i1 != i2 {
                            assert(inters@[i1 as int].roads@ == inters_v3[i1 as int].roads@.push(
                                RoadID(rid),
                            ));
                            assert(inters@[i1 as int].roads@.last() == RoadID(rid));
                        } else {
                            assert(inters@[i1 as int].roads@.last() == RoadID(rid));
                        }
                    }
                    assert(inters@[i2 as int].roads@.last() == RoadID(rid));
                    assert(inters@[i2 as int].roads@.contains(RoadID(rid)));
                    assert(road.linestring@[0] == pts@[a as int]);
                    assert(inters@[i1 as int].point == inters_v3[i1 as int].point);
                    assert(inters@[i2 as int].point == inters_v3[i2 as int].point);
                    assert(road.linestring@.last() == pts@[b as int]);
                    assert forall|q: int| 0 <= q < road.linestring@.len() implies in_bounds(
                        #[trigger] road.linestring@[q],
                    ) by {
                        assert(road.linestring@[q] == pts@[a + q]);
                        assert(pts@[a + q] == node_pts@[way.node_ids@[a + q].0]);
                    }
                }
            }

            // The glued pieces now cover the polyline up to the new cut.
            let f = |r: Road| r.linestring@;
            assert(roads_v.len() == orig_len + c);
            assert(roads@.len() == orig_len + c + 1);
            let emitted_old = roads_v.subrange(orig_len, roads_v.len() as int).map_values(f);
            let emitted = roads@.subrange(orig_len, roads@.len() as int).map_values(f);
            assert(roads@.subrange(orig_len, roads@.len() as int).len() == c + 1);
            assert(emitted.len() == c + 1);
            assert(emitted_old.len() == c);
            assert forall|q: int| 0 <= q < c implies emitted[q] == emitted_old[q] by {
                assert(roads@[orig_len + q] == roads_v[orig_len + q]);
            }
            assert(emitted[c as int] == road.linestring@) by {
                assert(roads@[orig_len + c] == road);
            }
            assert(emitted =~= emitted_old.push(road.linestring@));

            assert forall|j: int| orig_len <= j < roads@.len() implies {
                let r = #[trigger] roads@[j];
                &&& r.way == way.id
                &&& r.data.tags@ == way.tags@
                &&& r.data.kind == kind
            } by {
                if j < orig_len + c {
                    assert(roads@[j] == roads_v[j]);
                } else {
                    assert(roads@[j] == road);
                }
            }
            if emitted_old.len() == 0 {
                assert(c == 0);
                assert(a == 0);
                assert(glued(emitted) == road.linestring@);
                assert(road.linestring@ =~= pts@.take(b + 1));
            } else {
                assert(glued(emitted) == glued(emitted.drop_last()) + emitted.last().drop_first());
                assert(emitted.drop_last() =~= emitted_old);
                assert(glued(emitted) == pts@.take(a + 1) + road.linestring@.drop_first());
                assert(pts@.take(a + 1) + road.linestring@.drop_first() =~= pts@.take(b + 1));
            }
            assert(cuts@[c + 1 as int] == b);
        }
        c += 1;
    }
    proof {
        assert(c == n_cuts - 1);
        assert(cuts@[c as int] == n_ids - 1);
        assert(pts@.take(cuts@[c as int] + 1) =~= pts@);
        assert(roads@.len() > orig_len);
    }
    Ok(())
}

/// Some input node defines this node id.
pub open spec fn has_node(nodes: Seq<OsmNode>, n: NodeID) -> bool {
    exists|i: int| 0 <= i < nodes.len() && (#[trigger] nodes[i]).id == n
}

/// Every node the way references is defined by the input.
pub open spec fn way_complete(nodes: Seq<OsmNode>, way: OsmWay) -> bool {
    forall|j: int| 0 <= j < way.node_ids@.len() ==> has_node(nodes, #[trigger] way.node_ids@[j])
}

/// The coordinate the node table resolves `nid` to: the last input node
/// with that id wins, as later inserts overwrite earlier ones.
pub open spec fn node_coord(nodes: Seq<OsmNode>, nid: NodeID) -> Coord
    decreases nodes.len(),
{
    if nodes.len() == 0 {
        Coord { x: 0, y: 0 }
    } else if nodes.last().id == nid {
        nodes.last().pt
    } else {
        node_coord(nodes.drop_last(), nid)
    }
}

/// The way's node references resolved to coordinates.
pub open spec fn resolved_polyline(nodes: Seq<OsmNode>, way: OsmWay) -> Seq<Coord> {
    way.node_ids@.map_values(|n: NodeID| node_coord(nodes, n))
}

/// Roads `lo..hi` are exactly the run cut from `way`: gluing their
/// linestrings back together gives the way's resolved polyline, and each
/// carries the way's id, tags and classification.
pub open spec fn roads_cover_way(
    roads: Seq<Road>,
    lo: int,
    hi: int,
    way: OsmWay,
    nodes: Seq<OsmNode>,
    flag: bool,
) -> bool {
    &&& 0 <= lo < hi <= roads.len()
    &&& glued(roads.subrange(lo, hi).map_values(|r: Road| r.linestring@)) == resolved_polyline(
        nodes,
        way,
    )
    &&& forall|j: int|
        lo <= j < hi ==> (#[trigger] roads[j]).way == way.id && roads[j].data.tags@ == way.tags@
            && Some(roads[j].data.kind) == classify_spec(way.tags@, flag)
}

proof fn lemma_present_complete(nodes: Seq<OsmNode>, way: OsmWay, node_pts: Map<i64, Coord>)
    requires
        nodes_present(way.node_ids@, node_pts),
        forall|k: i64|
            node_pts.contains_key(k) ==> exists|j: int|
                0 <= j < nodes.len() && (#[trigger] nodes[j]).id.0 == k,
    ensures
        way_complete(nodes, way),
{
    assert forall|j: int| 0 <= j < way.node_ids@.len() implies has_node(
        nodes,
        #[trigger] way.node_ids@[j],
    ) by {
        assert(node_pts.contains_key(way.node_ids@[j].0));
        let q2 = choose|q2: int|
            0 <= q2 < nodes.len() && (#[trigger] nodes[q2]).id.0 == way.node_ids@[j].0;
        assert(nodes[q2].id == way.node_ids@[j]);
    }
}

/// Every way the classifier keeps that has at least two node references is
/// covered by a run of roads cut from it.
pub open spec fn ways_covered(
    roads: Seq<Road>,
    ways: Seq<OsmWay>,
    nodes: Seq<OsmNode>,
    flag: bool,
) -> bool {
    forall|w: int|
        0 <= w < ways.len() && classify_spec((#[trigger] ways[w]).tags@, flag).is_some()
            && ways[w].node_ids@.len() >= 2 ==> exists|lo: int, hi: int|
            #[trigger] roads_cover_way(roads, lo, hi, ways[w], nodes, flag)
}

/// The road was cut from a way of the input that the classifier kept and
/// that has at least two node references, and carries that way's tags and
/// classification.
pub open spec fn road_from_kept_way(r: Road, ways: Seq<OsmWay>, flag: bool) -> bool {
    exists|w: int|
        0 <= w < ways.len() && r.way == (#[trigger] ways[w]).id && ways[w].node_ids@.len() >= 2
            && r.data.tags@ == ways[w].tags@ && Some(r.data.kind) == classify_spec(
            ways[w].tags@,
            flag,
        )
}

impl Graph {
    /// Builds the routed graph: keeps the ways the classifier accepts, splits
    /// each at shared or endpoint nodes, and materialises the intersections.
    /// Fails exactly when a kept way references an undefined node.
    #[verifier::rlimit(100)]
    pub fn new(
        nodes: &Vec<OsmNode>,
        ways: &Vec<OsmWay>,
        import_streets_without_sidewalk_tagging: bool,
    ) -> (res: Result<Graph, GraphError>)
        requires
            forall|j: int| 0 <= j < nodes@.len() ==> in_bounds((#[trigger] nodes@[j]).pt),
        ensures
            res matches Ok(g) ==> wf_parts(g.roads@, g.intersections@),
            res matches Ok(g) ==> forall|j: int|
                0 <= j < g.roads@.len() ==> road_from_kept_way(
                    #[trigger] g.roads@[j],
                    ways@,
                    import_streets_without_sidewalk_tagging,
                ),
            res matches Ok(g) ==> forall|w: int|
                0 <= w < ways@.len() && classify_spec(
                    (#[trigger] ways@[w]).tags@,
                    import_streets_without_sidewalk_tagging,
                ).is_some() ==> way_complete(nodes@, ways@[w]),
            res matches Ok(g) ==> ways_covered(
                g.roads@,
                ways@,
                nodes@,
                import_streets_without_sidewalk_tagging,
            ),
            res matches Ok(g) ==> forall|i1: int, i2: int|
                0 <= i1 < i2 < g.intersections@.len() ==> (#[trigger] g.intersections@[i1]).node
                    != (#[trigger] g.intersections@[i2]).node,
            res matches Ok(g) ==> forall|i: int|
                0 <= i < g.intersections@.len() ==> (#[trigger] g.intersections@[i]).point
                    == node_coord(nodes@, g.intersections@[i].node),
            res matches Ok(g) ==> g.roads@.len() == 0 ==> g.intersections@.len() == 0,
            res matches Ok(g) ==> (ways@.len() <= 0x20_0000 && (forall|w: int|
                0 <= w < ways@.len() ==> (#[trigger] ways@[w]).node_ids@.len() <= 0x20_0000))
                ==> g.roads@.len() <= 0x400_0000_0000,
            res matches Err(e) ==> e == GraphError::MissingNode && exists|w: int|
                0 <= w < ways@.len() && classify_spec(
                    (#[trigger] ways@[w]).tags@,
                    import_streets_without_sidewalk_tagging,
                ).is_some() && !way_complete(nodes@, ways@[w]),
    {
        // The coordinate of every input node.
        let mut node_pts: HashMap<i64, Coord> = HashMap::new();
        let n_nodes = nodes.len();
        let mut i: usize = 0;
        while i < n_nodes
            invariant
                n_nodes == nodes@.len(),
                i <= n_nodes,
                forall|j: int| 0 <= j < nodes@.len() ==> in_bounds((#[trigger] nodes@[j]).pt),
                forall|k: i64|
                    node_pts@.contains_key(k) ==> in_bounds(#[trigger] node_pts@[k]),
                forall|k: i64|
                    node_pts@.contains_key(k) ==> exists|j: int|
                        0 <= j < i && (#[trigger] nodes@[j]).id.0 == k,
                forall|j: int|
                    0 <= j < i ==> node_pts@.contains_key((#[trigger] nodes@[j]).id.0),
                forall|k: i64|
                    node_pts@.contains_key(k) ==> #[trigger] node_pts@[k] == node_coord(
                        nodes@.take(i as int),
                        NodeID(k),
                    ),
            decreases n_nodes - i,
        {
            let ghost pre = node_pts@;
            node_pts.insert(nodes[i].id.0, nodes[i].pt);
            proof {
                assert(nodes@.take(i as int + 1).drop_last() =~= nodes@.take(i as int));
                assert(nodes@.take(i as int + 1).last() == nodes@[i as int]);
                assert forall|k: i64| node_pts@.contains_key(k) implies #[trigger] node_pts@[k]
                    == node_coord(nodes@.take(i as int + 1), NodeID(k)) by {
                    if k == nodes@[i as int].id.0 {
                        assert(NodeID(k) == nodes@[i as int].id);
                        assert(node_pts@[k] == nodes@[i as int].pt);
                    } else {
                        assert(pre.contains_key(k));
                        assert(node_pts@[k] == pre[k]);
                    }
                }
            }
            i += 1;
        }
        proof {
            assert(nodes@.take(n_nodes as int) =~= nodes@);
        }

        // The ways the classifier keeps, by index.
        let mut kept: Vec<usize> = Vec::new();
        let n_ways = ways.len();
        let mut w: usize = 0;
        while w < n_ways
            invariant
                n_ways == ways@.len(),
                w <= n_ways,
                kept@.len() <= w,
                forall|m: int|
                    0 <= m < kept@.len() ==> (#[trigger] kept@[m]) < ways@.len() && classify_spec(
                        ways@[kept@[m] as int].tags@,
                        import_streets_without_sidewalk_tagging,
                    ).is_some(),
                forall|v: int|
                    0 <= v < w && classify_spec(
                        (#[trigger] ways@[v]).tags@,
                        import_streets_without_sidewalk_tagging,
                    ).is_some() ==> kept@.contains(v as usize),
            decreases n_ways - w,
        {
            let ghost kept_before = kept@;
            if classify(&ways[w].tags, import_streets_without_sidewalk_tagging).is_some() {
                kept.push(w);
                proof {
                    assert forall|v: int|
                        0 <= v < w + 1 && classify_spec(
                            (#[trigger] ways@[v]).tags@,
                            import_streets_without_sidewalk_tagging,
                        ).is_some() implies kept@.contains(v as usize) by {
                        if v < w {
                            assert(kept_before.contains(v as usize));
                            let m = choose|m: int|
                                0 <= m < kept_before.len() && kept_before[m] == v as usize;
                            assert(kept@[m] == v as usize);
                        } else {
                            assert(kept@[kept@.len() - 1] == v as usize);
                        }
                    }
                }
            }
            w += 1;
        }

        // How many kept ways reference each node: nodes shared by two or more
        // become cut points.
        let mut node_counter: HashMap<i64, u64> = HashMap::new();
        let n_kept = kept.len();
        let mut m: usize = 0;
        while m < n_kept
            invariant
                n_kept == kept@.len(),
                m <= n_kept,
                forall|q: int| 0 <= q < kept@.len() ==> (#[trigger] kept@[q]) < ways@.len(),
            decreases n_kept - m,
        {
            let way = &ways[kept[m]];
            let n_ids = way.node_ids.len();
            let mut j: usize = 0;
            while j < n_ids
                invariant
                    n_ids == way.node_ids@.len(),
                    j <= n_ids,
                decreases n_ids - j,
            {
                let prev: u64 = match node_counter.get(&way.node_ids[j].0) {
                    Some(c) => *c,
                    None => 0,
                };
                let next: u64 = if prev < 0xffff_ffff_ffff_ffff {
                    prev + 1
                } else {
                    prev
                };
                node_counter.insert(way.node_ids[j].0, next);
                j += 1;
            }
            m += 1;
        }

        // Split every kept way into roads.
        let mut roads: Vec<Road> = Vec::new();
        let mut inters: Vec<Intersection> = Vec::new();
        let mut n2i: HashMap<i64, usize> = HashMap::new();
        let mut m2: usize = 0;
        while m2 < n_kept
            invariant
                n_kept == kept@.len(),
                m2 <= n_kept,
                n_ways == ways@.len(),
                forall|q: int|
                    0 <= q < kept@.len() ==> (#[trigger] kept@[q]) < ways@.len() && classify_spec(
                        ways@[kept@[q] as int].tags@,
                        import_streets_without_sidewalk_tagging,
                    ).is_some(),
                forall|v: int|
                    0 <= v < ways@.len() && classify_spec(
                        (#[trigger] ways@[v]).tags@,
                        import_streets_without_sidewalk_tagging,
                    ).is_some() ==> kept@.contains(v as usize),
                forall|k: i64|
                    node_pts@.contains_key(k) ==> in_bounds(#[trigger] node_pts@[k]),
                forall|k: i64|
                    node_pts@.contains_key(k) ==> exists|j: int|
                        0 <= j < nodes@.len() && (#[trigger] nodes@[j]).id.0 == k,
                forall|j: int|
                    0 <= j < nodes@.len() ==> node_pts@.contains_key((#[trigger] nodes@[j]).id.0),
                wf_parts(roads@, inters@),
                wf_node_map(n2i@, inters@, node_pts@),
                forall|j: int|
                    0 <= j < roads@.len() ==> road_from_kept_way(
                        #[trigger] roads@[j],
                        ways@,
                        import_streets_without_sidewalk_tagging,
                    ),
                forall|q: int|
                    0 <= q < m2 ==> nodes_present(
                        ways@[(#[trigger] kept@[q]) as int].node_ids@,
                        node_pts@,
                    ),
                forall|k: i64|
                    node_pts@.contains_key(k) ==> #[trigger] node_pts@[k] == node_coord(
                        nodes@,
                        NodeID(k),
                    ),
                forall|q: int|
                    0 <= q < m2 && ways@[(#[trigger] kept@[q]) as int].node_ids@.len() >= 2
                        ==> exists|lo: int, hi: int|
                        #[trigger] roads_cover_way(
                            roads@,
                            lo,
                            hi,
                            ways@[kept@[q] as int],
                            nodes@,
                            import_streets_without_sidewalk_tagging,
                        ),
                roads@.len() == 0 ==> inters@.len() == 0,
                n_kept <= ways@.len(),
                (ways@.len() <= 0x20_0000 && (forall|w2: int|
                    0 <= w2 < ways@.len() ==> (#[trigger] ways@[w2]).node_ids@.len()
                        <= 0x20_0000)) ==> roads@.len() <= m2 * 0x20_0000,
            decreases n_kept - m2,
        {
            let way = &ways[kept[m2]];
            let kind = match classify(&way.tags, import_streets_without_sidewalk_tagging) {
                Some(kind) => kind,
                None => {
                    proof {
                        assert(false);
                    }
                    RoadKind::Severance
                },
            };
            let ghost roads_before = roads@;
            match split_way(&mut roads, &mut inters, &mut n2i, &node_pts, &node_counter, way, kind) {
                Ok(()) => {},
                Err(e) => {
                    proof {
                        assert(!way_complete(nodes@, ways@[kept@[m2 as int] as int])) by {
                            let j = choose|j: int|
                                0 <= j < way.node_ids@.len() && !node_pts@.contains_key(
                                    (#[trigger] way.node_ids@[j]).0,
                                );
                            if has_node(nodes@, way.node_ids@[j]) {
                                let q = choose|q: int|
                                    0 <= q < nodes@.len() && (#[trigger] nodes@[q]).id
                                        == way.node_ids@[j];
                                assert(node_pts@.contains_key(nodes@[q].id.0));
                                assert(false);
                            }
                        }
                    }
                    return Err(e);
                },
            }
            proof {
                assert forall|j: int| 0 <= j < roads@.len() implies road_from_kept_way(
                    #[trigger] roads@[j],
                    ways@,
                    import_streets_without_sidewalk_tagging,
                ) by {
                    if j < roads_before.len() {
                        assert(roads@[j] == roads_before[j]);
                        assert(road_from_kept_way(
                            roads_before[j],
                            ways@,
                            import_streets_without_sidewalk_tagging,
                        ));
                    } else {
                        let wx = kept@[m2 as int] as int;
                        assert(roads@[j].way == ways@[wx].id && roads@[j].data.tags@
                            == ways@[wx].tags@ && Some(roads@[j].data.kind) == classify_spec(
                            ways@[wx].tags@,
                            import_streets_without_sidewalk_tagging,
                        ));
                    }
                }
                let wx = kept@[m2 as int] as int;
                if ways@.len() <= 0x20_0000 && (forall|w2: int|
                    0 <= w2 < ways@.len() ==> (#[trigger] ways@[w2]).node_ids@.len()
                        <= 0x20_0000) {
                    assert(way.node_ids@.len() <= 0x20_0000);
                    assert(roads@.len() <= roads_before.len() + way.node_ids@.len());
                    assert(roads@.len() <= (m2 + 1) * 0x20_0000);
                }
                if way.node_ids@.len() >= 2 {
                    let lo = roads_before.len() as int;
                    let hi = roads@.len() as int;
                    assert forall|jj: int| 0 <= jj < way.node_ids@.len() implies way_polyline(
                        way.node_ids@,
                        node_pts@,
                    )[jj] == resolved_polyline(nodes@, ways@[wx])[jj] by {
                        assert(node_pts@.contains_key((#[trigger] way.node_ids@[jj]).0));
                        assert(NodeID(way.node_ids@[jj].0) == way.node_ids@[jj]);
                        assert(node_pts@[way.node_ids@[jj].0] == node_coord(
                            nodes@,
                            way.node_ids@[jj],
                        ));
                    }
                    assert(way_polyline(way.node_ids@, node_pts@) =~= resolved_polyline(
                        nodes@,
                        ways@[wx],
                    ));
                    assert(roads_cover_way(
                        roads@,
                        lo,
                        hi,
                        ways@[wx],
                        nodes@,
                        import_streets_without_sidewalk_tagging,
                    ));
                }
                assert forall|q: int|
                    0 <= q < m2 + 1 && ways@[(#[trigger] kept@[q]) as int].node_ids@.len() >= 2
                    implies exists|lo2: int, hi2: int|
                    #[trigger] roads_cover_way(
                        roads@,
                        lo2,
                        hi2,
                        ways@[kept@[q] as int],
                        nodes@,
                        import_streets_without_sidewalk_tagging,
                    ) by {
                    if q < m2 {
                        let (lo2, hi2) = choose|lo2: int, hi2: int|
                            #[trigger] roads_cover_way(
                                roads_before,
                                lo2,
                                hi2,
                                ways@[kept@[q] as int],
                                nodes@,
                                import_streets_without_sidewalk_tagging,
                            );
                        assert forall|ii: int| 0 <= ii < hi2 - lo2 implies roads@.subrange(
                            lo2,
                            hi2,
                        )[ii] == roads_before.subrange(lo2, hi2)[ii] by {
                            assert(roads@[lo2 + ii] == roads_before[lo2 + ii]);
                        }
                        assert(roads@.subrange(lo2, hi2) =~= roads_before.subrange(lo2, hi2));
                        assert forall|j2: int| lo2 <= j2 < hi2 implies (#[trigger] roads@[j2]).way
                            == ways@[kept@[q] as int].id && roads@[j2].data.tags@
                            == ways@[kept@[q] as int].tags@ && Some(roads@[j2].data.kind)
                            == classify_spec(
                            ways@[kept@[q] as int].tags@,
                            import_streets_without_sidewalk_tagging,
                        ) by {
                            assert(roads@[j2] == roads_before[j2]);
                        }
                        assert(roads_cover_way(
                            roads@,
                            lo2,
                            hi2,
                            ways@[kept@[q] as int],
                            nodes@,
                            import_streets_without_sidewalk_tagging,
                        ));
                    }
                }
            }
            m2 += 1;
        }

        let ghost roads_final = roads@;
        let g = Graph { roads, intersections: inters };
        proof {
            assert(g.roads@ == roads_final);
            assert forall|v: int|
                0 <= v < ways@.len() && classify_spec(
                    (#[trigger] ways@[v]).tags@,
                    import_streets_without_sidewalk_tagging,
                ).is_some() implies way_complete(nodes@, ways@[v]) by {
                assert(kept@.contains(v as usize));
                let q = choose|q: int| 0 <= q < kept@.len() && kept@[q] == v as usize;
                assert(nodes_present(ways@[v].node_ids@, node_pts@));
                lemma_present_complete(nodes@, ways@[v], node_pts@);
            }
            assert forall|v: int|
                0 <= v < ways@.len() && classify_spec(
                    (#[trigger] ways@[v]).tags@,
                    import_streets_without_sidewalk_tagging,
                ).is_some() && ways@[v].node_ids@.len() >= 2 implies exists|lo: int, hi: int|
                #[trigger] roads_cover_way(
                    g.roads@,
                    lo,
                    hi,
                    ways@[v],
                    nodes@,
                    import_streets_without_sidewalk_tagging,
                ) by {
                assert(kept@.contains(v as usize));
                let q = choose|q: int| 0 <= q < kept@.len() && kept@[q] == v as usize;
                let (lo, hi) = choose|lo: int, hi: int|
                    #[trigger] roads_cover_way(
                        roads_final,
                        lo,
                        hi,
                        ways@[kept@[q] as int],
                        nodes@,
                        import_streets_without_sidewalk_tagging,
                    );
                assert(roads_cover_way(
                    g.roads@,
                    lo,
                    hi,
                    ways@[v],
                    nodes@,
                    import_streets_without_sidewalk_tagging,
                ));
            }
            assert(ways_covered(g.roads@, ways@, nodes@, import_streets_without_sidewalk_tagging));
            assert forall|i1: int, i2: int|
                0 <= i1 < i2 < g.intersections@.len() implies (
            #[trigger] g.intersections@[i1]).node != (#[trigger] g.intersections@[i2]).node by {
                if g.intersections@[i1].node == g.intersections@[i2].node {
                    assert(n2i@[g.intersections@[i1].node.0] == i1);
                    assert(n2i@[g.intersections@[i2].node.0] == i2);
                }
            }
            assert forall|i: int| 0 <= i < g.intersections@.len() implies (
            #[trigger] g.intersections@[i]).point == node_coord(
                nodes@,
                g.intersections@[i].node,
            ) by {
                assert(node_pts@.contains_key(g.intersections@[i].node.0));
                assert(NodeID(g.intersections@[i].node.0) == g.intersections@[i].node);
            }
        }
        Ok(g)
    }
}

} // verus!
