use vstd::prelude::*;

use vstd::multiset::Multiset;

verus! {

broadcast use vstd::multiset::group_multiset_axioms;

/// A directed weighted edge of the routing graph, as `(from, to, weight)`
/// over dense node ids.
pub type DirEdge = (usize, usize, usize);

/// The node sequence induced by `p` runs from `s` to `t`; the empty path
/// stands at a single node.
pub open spec fn chained(p: Seq<DirEdge>, s: usize, t: usize) -> bool {
    if p.len() == 0 {
        s == t
    } else {
        &&& p[0].0 == s
        &&& p[p.len() - 1].1 == t
        &&& forall|i: int| 0 <= i < p.len() - 1 ==> (#[trigger] p[i]).1 == p[i + 1].0
    }
}

/// Every edge of the path is an edge of the graph.
pub open spec fn edges_in(p: Seq<DirEdge>, e: Multiset<DirEdge>) -> bool {
    forall|i: int| 0 <= i < p.len() ==> e.contains(#[trigger] p[i])
}

/// The total weight of a path.
pub open spec fn cost_of(p: Seq<DirEdge>) -> int
    decreases p.len(),
{
    if p.len() == 0 {
        0
    } else {
        p[0].2 + cost_of(p.drop_first())
    }
}

/// Some walk through `e` leads from `s` to `t`.
pub open spec fn has_path(e: Multiset<DirEdge>, s: usize, t: usize) -> bool {
    exists|p: Seq<DirEdge>| #[trigger] chained(p, s, t) && edges_in(p, e)
}

/// `c` is the cost of a cheapest walk from `s` to `t` through `e`.
pub open spec fn is_shortest(e: Multiset<DirEdge>, s: usize, t: usize, c: int) -> bool {
    &&& exists|p: Seq<DirEdge>| #[trigger] chained(p, s, t) && edges_in(p, e) && cost_of(p) == c
    &&& forall|p: Seq<DirEdge>|
        #[trigger] chained(p, s, t) && edges_in(p, e) ==> cost_of(p) >= c
}

/// The edge sequence `q` runs along the node sequence `nodes`.
pub open spec fn edges_along(q: Seq<DirEdge>, nodes: Seq<usize>) -> bool {
    &&& q.len() + 1 == nodes.len()
    &&& forall|i: int|
        0 <= i < q.len() ==> (#[trigger] q[i]).0 == nodes[i] && q[i].1 == nodes[i + 1]
}

/// For every edge there is a reverse edge that is no more expensive.
pub open spec fn sym_dominated(e: Multiset<DirEdge>) -> bool {
    forall|ed: DirEdge|
        #[trigger] e.contains(ed) ==> exists|w2: usize|
            w2 <= ed.2 && #[trigger] e.contains((ed.1, ed.0, w2))
}

/// For every edge of `big` there is an edge of `small` over the same node
/// pair that is no more expensive.
pub open spec fn dominated_by(big: Multiset<DirEdge>, small: Multiset<DirEdge>) -> bool {
    forall|ed: DirEdge|
        #[trigger] big.contains(ed) ==> exists|w2: usize|
            w2 <= ed.2 && #[trigger] small.contains((ed.0, ed.1, w2))
}

pub proof fn lemma_cost_nonneg(p: Seq<DirEdge>)
    ensures
        cost_of(p) >= 0,
    decreases p.len(),
{
    if p.len() > 0 {
        lemma_cost_nonneg(p.drop_first());
    }
}

pub proof fn lemma_cost_push(p: Seq<DirEdge>, ed: DirEdge)
    ensures
        cost_of(p.push(ed)) == cost_of(p) + ed.2,
    decreases p.len(),
{
    if p.len() == 0 {
        assert(p.push(ed).len() == 1);
        assert(p.push(ed)[0] == ed);
        assert(p.push(ed).drop_first() =~= Seq::<DirEdge>::empty());
        assert(cost_of(p.push(ed)) == ed.2 + cost_of(Seq::<DirEdge>::empty()));
    } else {
        assert(p.push(ed).drop_first() =~= p.drop_first().push(ed));
        lemma_cost_push(p.drop_first(), ed);
        assert(p.push(ed)[0] == p[0]);
        assert(cost_of(p.push(ed)) == p[0].2 + cost_of(p.drop_first().push(ed)));
        assert(cost_of(p) == p[0].2 + cost_of(p.drop_first()));
    }
}

/// In a symmetric-enough graph, every walk has a reverse walk that costs no
/// more.
#[verifier::rlimit(50)]
pub proof fn lemma_reverse_path(e: Multiset<DirEdge>, p: Seq<DirEdge>, s: usize, t: usize)
    requires
        sym_dominated(e),
        chained(p, s, t),
        edges_in(p, e),
    ensures
        exists|q: Seq<DirEdge>|
            #[trigger] chained(q, t, s) && edges_in(q, e) && cost_of(q) <= cost_of(p),
    decreases p.len(),
{
    if p.len() == 0 {
        let q = Seq::<DirEdge>::empty();
        assert(chained(q, t, s) && edges_in(q, e) && cost_of(q) <= cost_of(p));
    } else {
        let first = p[0];
        let rest = p.drop_first();
        let mid = first.1;
        assert(chained(rest, mid, t)) by {
            if rest.len() > 0 {
                assert(rest[0] == p[1]);
                assert(p[0].1 == p[1].0);
                assert forall|i: int| 0 <= i < rest.len() - 1 implies (#[trigger] rest[i]).1
                    == rest[i + 1].0 by {
                    assert(rest[i] == p[i + 1]);
                    assert(rest[i + 1] == p[i + 2]);
                    assert(p[i + 1].1 == p[i + 2].0);
                }
            }
        }
        assert(edges_in(rest, e)) by {
            assert forall|i: int| 0 <= i < rest.len() implies e.contains(#[trigger] rest[i]) by {
                assert(rest[i] == p[i + 1]);
            }
        }
        lemma_reverse_path(e, rest, mid, t);
        let q0 = choose|q: Seq<DirEdge>|
            #[trigger] chained(q, t, mid) && edges_in(q, e) && cost_of(q) <= cost_of(rest);
        assert(e.contains(first));
        let w2 = choose|w2: usize| w2 <= first.2 && #[trigger] e.contains((first.1, first.0, w2));
        let rev = (first.1, first.0, w2);
        let q = q0.push(rev);
        assert(chained(q, t, s)) by {
            assert(q[q.len() - 1] == rev);
            if q0.len() == 0 {
                assert(t == mid);
                assert(q[0] == rev);
            } else {
                assert(q[0] == q0[0]);
                assert forall|i: int| 0 <= i < q.len() - 1 implies (#[trigger] q[i]).1 == q[i
                    + 1].0 by {
                    if i < q0.len() - 1 {
                        assert(q[i] == q0[i]);
                        assert(q[i + 1] == q0[i + 1]);
                    } else {
                        assert(q[i] == q0[q0.len() - 1]);
                        assert(q[i + 1] == rev);
                        assert(q0[q0.len() - 1].1 == mid);
                    }
                }
            }
        }
        assert(edges_in(q, e)) by {
            assert forall|i: int| 0 <= i < q.len() implies e.contains(#[trigger] q[i]) by {
                if i < q0.len() {
                    assert(q[i] == q0[i]);
                } else {
                    assert(q[i] == rev);
                }
            }
        }
        lemma_cost_push(q0, rev);
    }
}

/// The cheapest cost between two nodes is the same in both directions when
/// every edge has a no-more-expensive reverse: the routing graph is built
/// with both directions of every road, so route costs are symmetric.
pub proof fn lemma_shortest_symmetric(
    e: Multiset<DirEdge>,
    s: usize,
    t: usize,
    c1: int,
    c2: int,
)
    requires
        sym_dominated(e),
        is_shortest(e, s, t, c1),
        is_shortest(e, t, s, c2),
    ensures
        c1 == c2,
{
    let p1 = choose|p: Seq<DirEdge>|
        #[trigger] chained(p, s, t) && edges_in(p, e) && cost_of(p) == c1;
    lemma_reverse_path(e, p1, s, t);
    let q1 = choose|q: Seq<DirEdge>|
        #[trigger] chained(q, t, s) && edges_in(q, e) && cost_of(q) <= cost_of(p1);
    assert(c2 <= c1);
    let p2 = choose|p: Seq<DirEdge>|
        #[trigger] chained(p, t, s) && edges_in(p, e) && cost_of(p) == c2;
    lemma_reverse_path(e, p2, t, s);
    let q2 = choose|q: Seq<DirEdge>|
        #[trigger] chained(q, s, t) && edges_in(q, e) && cost_of(q) <= cost_of(p2);
    assert(c1 <= c2);
}

/// A dominated sub-multiset keeps every connection and every cheapest cost:
/// dropping duplicate parallel edges in favour of cheaper ones changes no
/// shortest path.
pub proof fn lemma_dominated_same_shortest(
    big: Multiset<DirEdge>,
    small: Multiset<DirEdge>,
    s: usize,
    t: usize,
    c: int,
)
    requires
        small.subset_of(big),
        dominated_by(big, small),
        is_shortest(small, s, t, c),
    ensures
        is_shortest(big, s, t, c),
{
    // The cheapest walk through `small` also runs through `big`.
    let p = choose|p: Seq<DirEdge>|
        #[trigger] chained(p, s, t) && edges_in(p, small) && cost_of(p) == c;
    assert(edges_in(p, big)) by {
        assert forall|i: int| 0 <= i < p.len() implies big.contains(#[trigger] p[i]) by {
            assert(small.contains(p[i]));
            assert(small.count(p[i]) <= big.count(p[i]));
        }
    }
    // Any walk through `big` has a pointwise replacement in `small` that
    // costs no more.
    assert forall|pb: Seq<DirEdge>|
        #[trigger] chained(pb, s, t) && edges_in(pb, big) implies cost_of(pb) >= c by {
        let q = Seq::new(
            pb.len(),
            |i: int|
                (
                    pb[i].0,
                    pb[i].1,
                    choose|w2: usize|
                        w2 <= pb[i].2 && #[trigger] small.contains((pb[i].0, pb[i].1, w2)),
                ),
        );
        assert forall|i: int| 0 <= i < q.len() implies small.contains(#[trigger] q[i]) && q[i].2
            <= pb[i].2 && q[i].0 == pb[i].0 && q[i].1 == pb[i].1 by {
            assert(big.contains(pb[i]));
        }
        assert(chained(q, s, t)) by {
            if q.len() > 0 {
                assert(q[0].0 == pb[0].0);
                assert(q[q.len() - 1].1 == pb[pb.len() - 1].1);
                assert forall|i: int| 0 <= i < q.len() - 1 implies (#[trigger] q[i]).1 == q[i
                    + 1].0 by {
                    assert((pb[i]).1 == pb[i + 1].0);
                }
            }
        }
        assert(edges_in(q, small));
        lemma_cost_pointwise(pb, q);
        assert(cost_of(q) >= c);
    }
}

proof fn lemma_cost_pointwise(p: Seq<DirEdge>, q: Seq<DirEdge>)
    requires
        q.len() == p.len(),
        forall|i: int| 0 <= i < q.len() ==> (#[trigger] q[i]).2 <= p[i].2,
    ensures
        cost_of(q) <= cost_of(p),
    decreases p.len(),
{
    if p.len() > 0 {
        assert forall|i: int| 0 <= i < q.drop_first().len() implies (#[trigger] q.drop_first()[i]).2
            <= p.drop_first()[i].2 by {
            assert(q.drop_first()[i] == q[i + 1]);
            assert(p.drop_first()[i] == p[i + 1]);
        }
        lemma_cost_pointwise(p.drop_first(), q.drop_first());
        assert(q[0].2 <= p[0].2);
    }
}

} // verus!
