use vstd::prelude::*;

use vstd::multiset::Multiset;

use crate::paths::{chained, cost_of, edges_along, edges_in, has_path, is_shortest, DirEdge};

verus! {

#[verifier::external_type_specification]
#[verifier::external_body]
pub struct ExInputGraph(fast_paths::InputGraph);

#[verifier::external_type_specification]
#[verifier::external_body]
pub struct ExFastGraph(fast_paths::FastGraph);

#[verifier::external_type_specification]
#[verifier::external_body]
pub struct ExPathCalculator(fast_paths::PathCalculator);

/// The directed weighted edges an input graph holds.
pub uninterp spec fn input_edges(g: &fast_paths::InputGraph) -> Multiset<DirEdge>;

/// One more than the largest node id an edge of the input graph names.
pub uninterp spec fn input_nodes(g: &fast_paths::InputGraph) -> int;

/// Whether the input graph has been frozen for preparation.
pub uninterp spec fn input_frozen(g: &fast_paths::InputGraph) -> bool;

/// The directed weighted edges a prepared hierarchy answers queries over.
pub uninterp spec fn ch_edges(g: &fast_paths::FastGraph) -> Multiset<DirEdge>;

/// The node count of a prepared hierarchy.
pub uninterp spec fn ch_nodes(g: &fast_paths::FastGraph) -> int;

/// The node count a path calculator's buffers were sized for.
pub uninterp spec fn calc_nodes(c: &fast_paths::PathCalculator) -> int;

/// Relies on fast_paths::InputGraph::new: an empty, unfrozen input graph.
#[verifier::external_body]
pub(crate) fn new_input_graph() -> (g: fast_paths::InputGraph)
    ensures
        input_edges(&g) =~= Multiset::<DirEdge>::empty(),
        input_nodes(&g) == 0,
        !input_frozen(&g),
{
    fast_paths::InputGraph::new()
}

/// Relies on fast_paths::InputGraph::add_edge: records one directed edge and
/// widens the node range to cover its endpoints. Loop edges and zero weights
/// would be dropped, so they are excluded here; the engine sums weights
/// unchecked during preparation and queries, so each weight is kept small
/// enough that no sum it can form overflows.
#[verifier::external_body]
pub(crate) fn add_edge(g: &mut fast_paths::InputGraph, from: usize, to: usize, weight: usize)
    requires
        !input_frozen(old(g)),
        from != to,
        1 <= weight <= 0x10_0000,
        from < usize::MAX,
        to < usize::MAX,
    ensures
        !input_frozen(final(g)),
        input_edges(final(g)) == input_edges(old(g)).insert((from, to, weight)),
        input_nodes(final(g)) >= input_nodes(old(g)),
        input_nodes(final(g)) > from,
        input_nodes(final(g)) > to,
        input_nodes(final(g)) <= if input_nodes(old(g)) > from + 1 && input_nodes(old(g)) > to
            + 1 {
            input_nodes(old(g))
        } else if from > to {
            from + 1
        } else {
            to + 1
        },
{
    g.add_edge(from, to, weight);
}

/// Relies on fast_paths::InputGraph::freeze: sorts the edges and keeps, of
/// parallel edges over one node pair, only one with the lowest weight.
#[verifier::external_body]
pub(crate) fn freeze_input_graph(g: &mut fast_paths::InputGraph)
    requires
        !input_frozen(old(g)),
    ensures
        input_frozen(final(g)),
        input_nodes(final(g)) == input_nodes(old(g)),
        input_edges(final(g)).subset_of(input_edges(old(g))),
        forall|ed: DirEdge|
            input_edges(old(g)).contains(ed) ==> exists|w2: usize|
                w2 <= ed.2 && #[trigger] input_edges(final(g)).contains((ed.0, ed.1, w2)),
{
    g.freeze();
}

/// Relies on fast_paths::prepare: builds the contraction hierarchy answering
/// shortest-path queries over exactly the frozen input edges. Bounded node
/// count and weights keep every shortcut weight the builder sums within
/// usize.
#[verifier::external_body]
pub(crate) fn prepare_ch(g: &fast_paths::InputGraph) -> (ch: fast_paths::FastGraph)
    requires
        input_frozen(g),
        input_nodes(g) <= 0x800_0000_0000,
        forall|ed: DirEdge| #[trigger] input_edges(g).contains(ed) ==> ed.2 <= 0x10_0000,
    ensures
        ch_edges(&ch) == input_edges(g),
        ch_nodes(&ch) == input_nodes(g),
{
    fast_paths::prepare(g)
}

/// Relies on fast_paths::create_calculator: reusable query scratch space
/// sized to the hierarchy's node count.
#[verifier::external_body]
pub(crate) fn new_calculator(ch: &fast_paths::FastGraph) -> (c: fast_paths::PathCalculator)
    ensures
        calc_nodes(&c) == ch_nodes(ch),
{
    fast_paths::create_calculator(ch)
}

/// Relies on fast_paths::FastGraph::get_num_nodes: the node count the
/// hierarchy was prepared with.
#[verifier::external_body]
pub(crate) fn ch_num_nodes_exec(g: &fast_paths::FastGraph) -> (n: usize)
    ensures
        n == ch_nodes(g),
{
    g.get_num_nodes()
}

/// Relies on fast_paths::PathCalculator::calc_path: a bidirectional search
/// over the hierarchy that returns a cheapest path and its total weight, and
/// None exactly when the target cannot be reached. Bounded node count and
/// weights keep every path sum the search forms within usize.
#[verifier::external_body]
pub(crate) fn calc_path(
    calc: &mut fast_paths::PathCalculator,
    ch: &fast_paths::FastGraph,
    source: usize,
    target: usize,
) -> (r: Option<(Vec<usize>, usize)>)
    requires
        calc_nodes(old(calc)) == ch_nodes(ch),
        ch_nodes(ch) <= 0x800_0000_0000,
        forall|ed: DirEdge| #[trigger] ch_edges(ch).contains(ed) ==> ed.2 <= 0x10_0000,
        source < ch_nodes(ch),
        target < ch_nodes(ch),
        source != target,
    ensures
        calc_nodes(final(calc)) == calc_nodes(old(calc)),
        match r {
            Some(p) => {
                &&& p.0@.len() >= 2
                &&& p.0@[0] == source
                &&& p.0@.last() == target
                &&& exists|q: Seq<DirEdge>|
                    #[trigger] edges_along(q, p.0@) && edges_in(q, ch_edges(ch)) && cost_of(q)
                        == p.1
                &&& is_shortest(ch_edges(ch), source, target, p.1 as int)
            },
            None => !has_path(ch_edges(ch), source, target),
        },
{
    match calc.calc_path(ch, source, target) {
        Some(sp) => {
            let weight = sp.get_weight();
            let nodes = sp.get_nodes().clone();
            Some((nodes, weight))
        },
        None => None,
    }
}

} // verus!
