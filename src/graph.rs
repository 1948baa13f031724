//! The directed graph that holds the debts: petgraph's `StableGraph`, seen
//! through the slots it keeps for nodes and for edges.
//!
//! A node slot holds a participant or is vacant; an edge slot holds
//! `(source, target, amount)` or is vacant. Indices of other slots stay valid
//! when an edge is removed.

use vstd::prelude::*;

use petgraph::stable_graph::{EdgeIndex, NodeIndex, StableGraph};
use petgraph::visit::EdgeRef;
use petgraph::{Directed, Incoming};

use crate::ledger::{amount_of, ends, with_amount};
use crate::money::Money;
use crate::person::Person;

verus! {

/// petgraph's `StableGraph`, held opaque: what it holds is seen through
/// `node_slots` and `edge_slots`.
#[verifier::external_type_specification]
#[verifier::external_body]
#[verifier::reject_recursive_types(N)]
#[verifier::reject_recursive_types(E)]
#[verifier::reject_recursive_types(Ty)]
#[verifier::reject_recursive_types(Ix)]
pub struct ExStableGraph<N, E, Ty, Ix>(StableGraph<N, E, Ty, Ix>);

/// petgraph's marker for directed edges.
#[verifier::external_type_specification]
#[verifier::external_body]
pub struct ExDirected(Directed);

/// The graph of debts: participants on the nodes, amounts on the edges.
pub type DebtGraph = StableGraph<Person, Money, Directed, u32>;

/// The node slots of a graph, by index.
pub uninterp spec fn node_slots(g: DebtGraph) -> Seq<Option<Person>>;

/// The edge slots of a graph, by index: `(source, target, amount)`.
pub uninterp spec fn edge_slots(g: DebtGraph) -> Seq<Option<(nat, nat, Money)>>;

/// Relies on `StableGraph::new`: a graph without nodes or edges.
#[verifier::external_body]
pub(crate) fn graph_new() -> (g: DebtGraph)
    ensures
        node_slots(g) == Seq::<Option<Person>>::empty(),
        edge_slots(g) == Seq::<Option<(nat, nat, Money)>>::empty(),
{
    StableGraph::new()
}

/// Relies on `StableGraph::add_node`: the node takes a vacant slot, or a new
/// one at the end; the index `u32::MAX` is never handed out.
#[verifier::external_body]
pub(crate) fn graph_add_node(g: &mut DebtGraph, p: Person) -> (r: usize)
    requires
        node_slots(*old(g)).len() < u32::MAX,
    ensures
        edge_slots(*final(g)) == edge_slots(*old(g)),
        (r < node_slots(*old(g)).len() && node_slots(*old(g))[r as int] is None
            && node_slots(*final(g)) == node_slots(*old(g)).update(r as int, Some(p))) || (r
            == node_slots(*old(g)).len() && node_slots(*final(g)) == node_slots(*old(g)).push(
            Some(p),
        )),
{
    g.add_node(p).index()
}

/// Relies on `StableGraph::add_edge`: both nodes must be present; the edge
/// takes a vacant slot (every vacant slot is on the graph's free list), or a
/// new one at the end when no slot is vacant.
#[verifier::external_body]
pub(crate) fn graph_add_edge(g: &mut DebtGraph, a: usize, b: usize, w: Money) -> (r: usize)
    requires
        a < node_slots(*old(g)).len(),
        b < node_slots(*old(g)).len(),
        node_slots(*old(g))[a as int] is Some,
        node_slots(*old(g))[b as int] is Some,
        node_slots(*old(g)).len() < u32::MAX,
        edge_slots(*old(g)).len() < u32::MAX,
    ensures
        node_slots(*final(g)) == node_slots(*old(g)),
        (r < edge_slots(*old(g)).len() && edge_slots(*old(g))[r as int] is None
            && edge_slots(*final(g)) == edge_slots(*old(g)).update(
            r as int,
            Some((a as nat, b as nat, w)),
        )) || (r == edge_slots(*old(g)).len() && edge_slots(*final(g)) == edge_slots(
            *old(g),
        ).push(Some((a as nat, b as nat, w))) && forall|i: int|
            0 <= i < edge_slots(*old(g)).len() ==> #[trigger] edge_slots(*old(g))[i] is Some),
{
    g.add_edge(NodeIndex::new(a), NodeIndex::new(b), w).index()
}

/// Relies on `StableGraph::find_edge`: an edge from `a` to `b`, if there is one.
#[verifier::external_body]
pub(crate) fn graph_find_edge(g: &DebtGraph, a: usize, b: usize) -> (r: Option<usize>)
    requires
        a < u32::MAX,
        b < u32::MAX,
    ensures
        r matches Some(e) ==> e < edge_slots(*g).len() && exists|w: Money|
            edge_slots(*g)[e as int] == Some((a as nat, b as nat, w)),
        r is None ==> forall|i: int, w: Money|
            0 <= i < edge_slots(*g).len() ==> edge_slots(*g)[i] != Some((a as nat, b as nat, w)),
{
    match g.find_edge(NodeIndex::new(a), NodeIndex::new(b)) {
        Some(e) => Some(e.index()),
        None => None,
    }
}

/// Relies on `StableGraph::edge_endpoints`: source and target of a present edge.
#[verifier::external_body]
pub(crate) fn graph_edge_endpoints(g: &DebtGraph, e: usize) -> (r: Option<(usize, usize)>)
    requires
        e < u32::MAX,
    ensures
        r matches Some(p) ==> e < edge_slots(*g).len() && exists|w: Money|
            edge_slots(*g)[e as int] == Some((p.0 as nat, p.1 as nat, w)),
        r is None ==> e >= edge_slots(*g).len() || edge_slots(*g)[e as int] is None,
{
    match g.edge_endpoints(EdgeIndex::new(e)) {
        Some((a, b)) => Some((a.index(), b.index())),
        None => None,
    }
}

/// Relies on `StableGraph::edge_weight`: the amount on a present edge.
#[verifier::external_body]
pub(crate) fn graph_edge_weight(g: &DebtGraph, e: usize) -> (r: Option<Money>)
    requires
        e < u32::MAX,
    ensures
        r is Some ==> e < edge_slots(*g).len() && r == amount_of(edge_slots(*g)[e as int]),
        r is None ==> e >= edge_slots(*g).len() || edge_slots(*g)[e as int] is None,
{
    g.edge_weight(EdgeIndex::new(e)).copied()
}

/// Relies on `IndexMut` of `StableGraph`, which panics on a vacant edge: sets
/// the amount on a present edge.
#[verifier::external_body]
pub(crate) fn graph_set_edge_weight(g: &mut DebtGraph, e: usize, w: Money)
    requires
        e < edge_slots(*old(g)).len(),
        edge_slots(*old(g))[e as int] is Some,
        e < u32::MAX,
    ensures
        node_slots(*final(g)) == node_slots(*old(g)),
        edge_slots(*final(g)) == edge_slots(*old(g)).update(
            e as int,
            with_amount(edge_slots(*old(g))[e as int], w),
        ),
{
    g[EdgeIndex::new(e)] = w;
}

/// Relies on `StableGraph::remove_edge`: a present edge leaves its slot vacant
/// and its amount is returned; otherwise nothing changes.
#[verifier::external_body]
pub(crate) fn graph_remove_edge(g: &mut DebtGraph, e: usize) -> (r: Option<Money>)
    requires
        e < u32::MAX,
    ensures
        node_slots(*final(g)) == node_slots(*old(g)),
        e < edge_slots(*old(g)).len() && edge_slots(*old(g))[e as int] is Some ==> edge_slots(
            *final(g),
        ) == edge_slots(*old(g)).update(e as int, None) && r == amount_of(
            edge_slots(*old(g))[e as int],
        ),
        !(e < edge_slots(*old(g)).len() && edge_slots(*old(g))[e as int] is Some) ==> edge_slots(
            *final(g),
        ) == edge_slots(*old(g)) && r is None,
{
    g.remove_edge(EdgeIndex::new(e))
}

/// Relies on `StableGraph::edge_indices`: the indices of the present edges, in
/// increasing order.
#[verifier::external_body]
pub(crate) fn graph_edge_indices(g: &DebtGraph) -> (r: Vec<usize>)
    ensures
        forall|k: int| 0 <= k < r@.len() ==> r@[k] < edge_slots(*g).len() && edge_slots(
            *g,
        )[r@[k] as int] is Some,
        forall|k1: int, k2: int| 0 <= k1 < k2 < r@.len() ==> r@[k1] < r@[k2],
        forall|i: int|
            0 <= i < edge_slots(*g).len() && edge_slots(*g)[i] is Some ==> exists|k: int|
                0 <= k < r@.len() && r@[k] == i,
{
    g.edge_indices().map(|e| e.index()).collect()
}

/// Relies on `StableGraph::node_weight`: the participant in a present node.
#[verifier::external_body]
pub(crate) fn graph_node_weight(g: &DebtGraph, i: usize) -> (r: Option<&Person>)
    requires
        i < u32::MAX,
    ensures
        r matches Some(p) ==> i < node_slots(*g).len() && node_slots(*g)[i as int] == Some(*p),
        r is None ==> i >= node_slots(*g).len() || node_slots(*g)[i as int] is None,
{
    g.node_weight(NodeIndex::new(i))
}

/// Relies on `StableGraph::edges_directed` with `Incoming`: each edge into
/// `b` once, as `(source, edge index)`, in the order of the graph's list.
#[verifier::external_body]
pub(crate) fn graph_incoming(g: &DebtGraph, b: usize) -> (r: Vec<(usize, usize)>)
    requires
        b < u32::MAX,
    ensures
        forall|k: int|
            0 <= k < r@.len() ==> r@[k].1 < edge_slots(*g).len() && #[trigger] edge_slots(
                *g,
            )[r@[k].1 as int] is Some && ends(edge_slots(*g)[r@[k].1 as int]) == (
                r@[k].0 as nat,
                b as nat,
            ),
        forall|i: int|
            0 <= i < edge_slots(*g).len() && edge_slots(*g)[i] is Some && ends(edge_slots(*g)[i]).1
                == b ==> exists|k: int| 0 <= k < r@.len() && #[trigger] r@[k].1 == i,
{
    g.edges_directed(NodeIndex::new(b), Incoming).map(|e| (e.source().index(), e.id().index())).collect()
}

/// The number of present slots.
pub open spec fn count_present<T>(s: Seq<Option<T>>) -> nat
    decreases s.len(),
{
    if s.len() == 0 {
        0
    } else {
        count_present(s.drop_last()) + if s.last() is Some {
            1nat
        } else {
            0nat
        }
    }
}

pub proof fn lemma_count_all_present<T>(s: Seq<Option<T>>)
    requires
        forall|i: int| 0 <= i < s.len() ==> #[trigger] s[i] is Some,
    ensures
        count_present(s) == s.len(),
    decreases s.len(),
{
    if s.len() > 0 {
        lemma_count_all_present(s.drop_last());
    }
}

/// Relies on `StableGraph::node_count`: the number of present nodes.
#[verifier::external_body]
pub(crate) fn graph_node_count(g: &DebtGraph) -> (r: usize)
    ensures
        r == count_present(node_slots(*g)),
{
    g.node_count()
}

} // verus!
