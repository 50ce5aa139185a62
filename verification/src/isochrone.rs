use vstd::prelude::*;

use crate::ch::{calc_path, ch_nodes, ch_num_nodes_exec};
use crate::graph::{in_bounds, Coord};
use crate::model::MapModel;
use crate::ch::ch_edges;
use crate::paths::{chained, edges_in, has_path, is_shortest, DirEdge};
use crate::route::RouteError;
use crate::IntersectionID;

verus! {

/// Node id `n2` was recorded in the entry log.
pub open spec fn recorded(log: Seq<usize>, n2: usize) -> bool {
    exists|ix: int| 0 <= ix < log.len() && #[trigger] log[ix] == n2
}

/// Every node id below `n` that is the start or reachable from it has been
/// recorded in the entry log.
pub open spec fn covered_upto(
    log: Seq<usize>,
    e: vstd::multiset::Multiset<crate::paths::DirEdge>,
    s: usize,
    n: int,
) -> bool {
    &&& s < n ==> recorded(log, s)
    &&& forall|n2: usize| n2 < n && #[trigger] has_path(e, s, n2) ==> recorded(log, n2)
}

proof fn lemma_covered_get(
    log: Seq<usize>,
    e: vstd::multiset::Multiset<crate::paths::DirEdge>,
    s: usize,
    n: int,
    n2: usize,
)
    requires
        covered_upto(log, e, s, n),
        n2 < n,
        n2 == s || has_path(e, s, n2),
    ensures
        recorded(log, n2),
{
}

/// One reachable intersection and its shortest walking distance from the
/// start, in planar units.
pub struct IsochroneEntry {
    pub intersection: IntersectionID,
    pub cost: usize,
}

/// Every intersection that is the snapped start or reachable from it
/// appears among the entries.
pub open spec fn iso_complete(
    v: Seq<IsochroneEntry>,
    nodes: Seq<IntersectionID>,
    e: vstd::multiset::Multiset<crate::paths::DirEdge>,
    s: usize,
) -> bool {
    forall|n: usize|
        n < nodes.len() && (n == s || #[trigger] has_path(e, s, n)) ==> exists|m: int|
            0 <= m < v.len() && (#[trigger] v[m]).intersection == nodes[n as int]
}

impl MapModel {
    /// The shortest walking distance from the snapped start to every
    /// reachable walkable intersection, each exactly once; unreachable ones
    /// are left out. The start's own intersection is reported with distance
    /// 0.
    #[verifier::loop_isolation(false)]
    pub fn isochrone(&mut self, start: Coord) -> (r: Result<Vec<IsochroneEntry>, RouteError>)
        requires
            old(self).wf(),
            in_bounds(start),
        ensures
            final(self).wf(),
            final(self).spec_graph() == old(self).spec_graph(),
            final(self).edges() == old(self).edges(),
            final(self).nodes() == old(self).nodes(),
            final(self).snaps() == old(self).snaps(),
            r matches Err(e) ==> e == RouteError::NoSnap && !old(self).snappable(),
            r matches Ok(v) ==> old(self).snappable() && exists|s: usize|
                #[trigger] old(self).is_snap(start, s),
            r matches Ok(v) ==> exists|s: usize|
                #[trigger] old(self).is_snap(start, s) && s < old(self).nodes().len() && forall|
                    m: int,
                |
                    0 <= m < v@.len() ==> exists|n: usize|
                        n < old(self).nodes().len() && (#[trigger] v@[m]).intersection == old(
                            self,
                        ).nodes()[n as int] && ((n == s && v@[m].cost == 0) || is_shortest(
                            old(self).edges(),
                            s,
                            n,
                            v@[m].cost as int,
                        )),
            r matches Ok(v) ==> exists|s: usize|
                #[trigger] old(self).is_snap(start, s) && s < old(self).nodes().len()
                    && iso_complete(v@, old(self).nodes(), old(self).edges(), s),
            r matches Ok(v) ==> forall|m1: int, m2: int|
                0 <= m1 < m2 < v@.len() ==> (#[trigger] v@[m1]).intersection != (
                #[trigger] v@[m2]).intersection,
    {
        let s = match crate::route::nearest(&self.snap_points, start) {
            Some(n) => n,
            None => {
                return Err(RouteError::NoSnap);
            },
        };
        proof {
            let ks = choose|k: int|
                #[trigger] crate::route::min_at(self.snaps(), start, k) && s == self.snaps()[k].1;
            assert(self.snaps()[ks].1 == ks);
            assert(s < self.nodes().len());
            assert(self.is_snap(start, s));
        }
        let ch_n = ch_num_nodes_exec(&self.ch);
        let total = self.node_map.len();
        let mut out: Vec<IsochroneEntry> = Vec::new();
        let mut entry_nodes: Vec<usize> = Vec::new();
        let mut n: usize = 0;
        while n < total
            invariant
                self.wf(),
                self.graph == old(self).graph,
                self.node_map == old(self).node_map,
                self.ch == old(self).ch,
                self.snap_points == old(self).snap_points,
                total == old(self).nodes().len(),
                n <= total,
                s < total,
                ch_n == ch_nodes(&self.ch),
                entry_nodes@.len() == out@.len(),
                forall|m: int|
                    0 <= m < out@.len() ==> (#[trigger] entry_nodes@[m]) < total
                        && out@[m].intersection == old(self).nodes()[entry_nodes@[m] as int] && ((
                    entry_nodes@[m] == s && out@[m].cost == 0) || is_shortest(
                        old(self).edges(),
                        s,
                        entry_nodes@[m] as usize,
                        out@[m].cost as int,
                    )),
                forall|m: int| 0 <= m < entry_nodes@.len() ==> (#[trigger] entry_nodes@[m]) < n,
                forall|m1: int, m2: int|
                    0 <= m1 < m2 < entry_nodes@.len() ==> (#[trigger] entry_nodes@[m1]) < (
                    #[trigger] entry_nodes@[m2]),
                s < n ==> recorded(entry_nodes@, s),
                forall|n2: usize|
                    n2 < n && #[trigger] has_path(old(self).edges(), s, n2) ==> recorded(
                        entry_nodes@,
                        n2,
                    ),
            decreases total - n,
        {
            let ghost log_before = entry_nodes@;
            if n == s {
                let i_id = self.node_map.translate_id(s);
                out.push(IsochroneEntry { intersection: i_id, cost: 0 });
                entry_nodes.push(s);
                proof {
                    assert(entry_nodes@[entry_nodes@.len() - 1] == s);
                    assert(recorded(entry_nodes@, s));
                    assert forall|n2: usize|
                        n2 < n + 1 && (n2 == s || #[trigger] has_path(old(self).edges(), s, n2))
                        implies recorded(entry_nodes@, n2) by {
                        if n2 < n {
                            assert(recorded(log_before, n2));
                            let ix = choose|ix: int|
                                0 <= ix < log_before.len() && #[trigger] log_before[ix] == n2;
                            assert(entry_nodes@[ix] == n2);
                            assert(recorded(entry_nodes@, n2));
                        } else {
                            assert(n2 == n);
                        }
                    }
                    assert(forall|n2: usize|
                        n2 < n + 1 && #[trigger] has_path(old(self).edges(), s, n2)
                            ==> recorded(entry_nodes@, n2));
                }
            } else if s < ch_n && n < ch_n {
                let res = calc_path(&mut self.path_calc, &self.ch, s, n);
                match res {
                    Some((_, cost)) => {
                        let i_id = self.node_map.translate_id(n);
                        out.push(IsochroneEntry { intersection: i_id, cost });
                        entry_nodes.push(n);
                        proof {
                            assert(entry_nodes@[entry_nodes@.len() - 1] == n);
                            assert(recorded(entry_nodes@, n));
                            assert forall|n2: usize|
                            n2 < n + 1 && (n2 == s || #[trigger] has_path(old(self).edges(), s, n2))
                            implies recorded(entry_nodes@, n2) by {
                            if n2 < n {
                                assert(recorded(log_before, n2));
                                let ix = choose|ix: int|
                                    0 <= ix < log_before.len() && #[trigger] log_before[ix] == n2;
                                assert(entry_nodes@[ix] == n2);
                                assert(recorded(entry_nodes@, n2));
                            } else {
                                assert(n2 == n);
                            }
                        }
                        assert(forall|n2: usize|
                        n2 < n + 1 && #[trigger] has_path(old(self).edges(), s, n2)
                            ==> recorded(entry_nodes@, n2));
                        }
                    },
                    None => {
                        proof {
                            assert(!has_path(old(self).edges(), s, n as usize));
                                    assert forall|n2: usize|
                                n2 < n + 1 && (n2 == s || #[trigger] has_path(old(self).edges(), s, n2))
                                implies recorded(entry_nodes@, n2) by {
                                if n2 < n {
                                    assert(recorded(log_before, n2));
                                    let ix = choose|ix: int|
                                        0 <= ix < log_before.len() && #[trigger] log_before[ix] == n2;
                                    assert(entry_nodes@[ix] == n2);
                                    assert(recorded(entry_nodes@, n2));
                                } else {
                                    assert(n2 == n);
                                }
                            }
                            assert(forall|n2: usize|
                        n2 < n + 1 && #[trigger] has_path(old(self).edges(), s, n2)
                            ==> recorded(entry_nodes@, n2));
                        }
                    },
                }
            } else {
                // A node the hierarchy does not know has no incident edges,
                // so nothing but the start itself can reach it.
                proof {
                    assert forall|p: Seq<DirEdge>|
                        !(#[trigger] chained(p, s, n as usize) && edges_in(
                            p,
                            ch_edges(&self.ch),
                        )) by {
                        if chained(p, s, n as usize) && edges_in(p, ch_edges(&self.ch)) {
                            assert(p.len() > 0);
                            assert(ch_edges(&self.ch).contains(p[0]));
                            assert(ch_edges(&self.ch).contains(p[p.len() - 1]));
                        }
                    }
                    assert(!has_path(old(self).edges(), s, n as usize));
                    assert forall|n2: usize|
                        n2 < n + 1 && (n2 == s || #[trigger] has_path(old(self).edges(), s, n2))
                        implies recorded(entry_nodes@, n2) by {
                        if n2 < n {
                            assert(recorded(log_before, n2));
                            let ix = choose|ix: int|
                                0 <= ix < log_before.len() && #[trigger] log_before[ix] == n2;
                            assert(entry_nodes@[ix] == n2);
                            assert(recorded(entry_nodes@, n2));
                        } else {
                            assert(n2 == n);
                        }
                    }
                    assert(forall|n2: usize|
                        n2 < n + 1 && #[trigger] has_path(old(self).edges(), s, n2)
                            ==> recorded(entry_nodes@, n2));
                }
            }
            proof {
                if s < n {
                    let ix = choose|ix: int|
                        0 <= ix < log_before.len() && #[trigger] log_before[ix] == s;
                    assert(entry_nodes@[ix] == s);
                    assert(recorded(entry_nodes@, s));
                }
            }
            n += 1;
        }
        proof {
            assert forall|s2: usize| old(self).is_snap(start, s2) implies s2 == s by {
                old(self).lemma_snap_unique(start, s2, s);
            }

            assert forall|m: int| 0 <= m < out@.len() implies exists|n2: usize|
                n2 < old(self).nodes().len() && (#[trigger] out@[m]).intersection == old(
                    self,
                ).nodes()[n2 as int] && ((n2 == s && out@[m].cost == 0) || is_shortest(
                    old(self).edges(),
                    s,
                    n2,
                    out@[m].cost as int,
                )) by {
                let n2w = entry_nodes@[m] as usize;
                assert(n2w < old(self).nodes().len() && out@[m].intersection == old(
                    self,
                ).nodes()[n2w as int] && ((n2w == s && out@[m].cost == 0) || is_shortest(
                    old(self).edges(),
                    s,
                    n2w,
                    out@[m].cost as int,
                )));
            }
            assert forall|n2: usize|
                n2 < old(self).nodes().len() && (n2 == s || #[trigger] has_path(
                    old(self).edges(),
                    s,
                    n2,
                )) implies exists|m: int|
                0 <= m < out@.len() && (#[trigger] out@[m]).intersection == old(
                    self,
                ).nodes()[n2 as int] by {
                if n2 == s {
                    assert(s < n);
                    assert(recorded(entry_nodes@, s));
                }
                assert(recorded(entry_nodes@, n2));
                let ix = choose|ix: int|
                    0 <= ix < entry_nodes@.len() && #[trigger] entry_nodes@[ix] == n2;
                assert(out@[ix].intersection == old(self).nodes()[n2 as int]);
            }
            assert forall|s2: usize| old(self).is_snap(start, s2) implies forall|n2: usize|
                n2 < old(self).nodes().len() && (n2 == s2 || #[trigger] has_path(
                    old(self).edges(),
                    s2,
                    n2,
                )) ==> exists|m: int|
                    0 <= m < out@.len() && (#[trigger] out@[m]).intersection == old(
                        self,
                    ).nodes()[n2 as int] by {
                assert(s2 == s);
                assert forall|n2: usize|
                    n2 < old(self).nodes().len() && (n2 == s2 || #[trigger] has_path(
                        old(self).edges(),
                        s2,
                        n2,
                    )) implies exists|m: int|
                    0 <= m < out@.len() && (#[trigger] out@[m]).intersection == old(
                        self,
                    ).nodes()[n2 as int] by {
                    if n2 == s {
                        assert(s < n);
                        assert(recorded(entry_nodes@, s));
                    } else {
                        assert(has_path(old(self).edges(), s, n2));
                        assert(recorded(entry_nodes@, n2));
                    }
                    let ix = choose|ix: int|
                        0 <= ix < entry_nodes@.len() && #[trigger] entry_nodes@[ix] == n2;
                    assert(out@[ix].intersection == old(self).nodes()[n2 as int]);
                }
            }
            assert(iso_complete(out@, old(self).nodes(), old(self).edges(), s));
            assert forall|m1: int, m2: int|
                0 <= m1 < m2 < out@.len() implies (#[trigger] out@[m1]).intersection != (
            #[trigger] out@[m2]).intersection by {
                assert(entry_nodes@[m1] < entry_nodes@[m2]);
                let nm1 = entry_nodes@[m1] as int;
                let nm2 = entry_nodes@[m2] as int;
                assert(old(self).nodes()[nm1] != old(self).nodes()[nm2]);
            }
        }
        Ok(out)
    }
}

} // verus!
