//! The graph of payments between participants, and the passes that reduce it.

use vstd::prelude::*;

use crate::graph::{
    graph_edge_endpoints, graph_edge_indices, graph_edge_weight, graph_find_edge,
    graph_remove_edge, graph_set_edge_weight, node_slots, edge_slots, DebtGraph, graph_add_edge,
    graph_incoming,
};
use crate::ledger::{
    ends, amt, owed, simple, with_amount, Slot, lemma_owed_edge, lemma_owed_none,
    lemma_owed_update, lemma_simple_remove, lemma_simple_reweigh, lemma_slot_sum_witness,
    between, weight_total, net, no_chain, lemma_flows_update, lemma_simple_add,
    lemma_slot_sum_ge, amount_fn, connected, within_paths, lemma_within_paths_refl,
    lemma_within_paths_step,
};
use crate::fair::{
    all_wf, heads_total, heads_upto, initial_balance, initial_owed, share, share_total,
    share_upto, spent_total, spent_upto, lemma_heads_upto_mono, lemma_share_bound,
    lemma_spent_upto_mono, lemma_heads_upto_one, within_tolerance,
    fair_share, final_share, TOLERANCE_PER_HEAD, lemma_initial_balanced,
};
use crate::graph::{graph_add_node, graph_new, graph_node_count, graph_node_weight, lemma_count_all_present};
use crate::ledger::{
    settled, no_mutual, lemma_settled_of_netted, lemma_flows_outside,
    inflow, outflow, lemma_flows_push, into, out_of, slot_sum, lemma_take_step, lemma_take_vacant,
    lemma_take_le, lemma_flows_le_total,
};
use crate::money::{round_div, Money};
use crate::person::Person;
use crate::settle::{
    settle_balances, Transfer, is_greedy_settlement, settles_well, transfers_total, paid, received,
    lemma_greedy_unique, lemma_push_transfer, lemma_transfers_total_prefix,
};

verus! {

/// One transfer: `from` pays `value` to `to`.
#[derive(Debug)]
pub struct Payment {
    pub from: Person,
    pub to: Person,
    pub value: Money,
}

impl Payment {
    /// A transfer of `value` from `from` to `to`.
    pub fn new(from: &Person, to: &Person, value: Money) -> (r: Payment)
        ensures
            r.from == *from,
            r.to == *to,
            r.value == value,
    {
        Payment { from: from.duplicate(), to: to.duplicate(), value }
    }
}

impl PartialEq for Payment {
    fn eq(&self, other: &Payment) -> (r: bool) {
        self.from.same_as(&other.from) && self.to.same_as(&other.to) && self.value.0 == other.value.0
    }
}

impl vstd::std_specs::cmp::PartialEqSpecImpl for Payment {
    open spec fn obeys_eq_spec() -> bool {
        true
    }

    open spec fn eq_spec(&self, other: &Payment) -> bool {
        self.from.id() == other.from.id() && self.to.id() == other.to.id() && self.value == other.value
    }
}

impl Eq for Payment {
}

/// What is left of a debt of `a` once a debt of `b` the other way is set
/// against it.
pub open spec fn net_of_pair(a: nat, b: nat) -> nat {
    if a > b {
        (a - b) as nat
    } else {
        0
    }
}

/// What has flowed into `v` once the debts owed to the first `j` creditors,
/// and those of the first `i` debtors to creditor `j`, are in place.
pub open spec fn in_part(ps: Seq<Person>, j: int, i: int, v: int) -> int {
    if v < j {
        share(ps, v) * (heads_total(ps) - ps[v].heads())
    } else if v == j {
        share(ps, j) * (heads_upto(ps, i) - if j < i {
            ps[j].heads()
        } else {
            0
        })
    } else {
        0
    }
}

/// The per-head parts that `v` owes at the same point.
pub open spec fn out_factor(ps: Seq<Person>, j: int, i: int, v: int) -> int {
    share_upto(ps, j) - (if v < j {
        share(ps, v)
    } else {
        0
    }) + (if v < i && v != j {
        share(ps, j)
    } else {
        0
    })
}

/// Whether the debt of `s` to `t` is in place at that point.
pub open spec fn placed(j: int, i: int, s: nat, t: nat) -> bool {
    t < j || (t == j && s < i)
}

/// The state of the edge slots while the initial debts are put in place.
pub open spec fn built(ps: Seq<Person>, es: Seq<Slot>, j: int, i: int) -> bool {
    &&& simple(es, ps.len())
    &&& forall|k: int| 0 <= k < es.len() ==> #[trigger] es[k] is Some
    &&& forall|k: int| 0 <= k < es.len() ==> placed(j, i, ends(#[trigger] es[k]).0, ends(es[k]).1)
    &&& forall|s: nat, t: nat| #[trigger]
        owed(es, s, t) == if placed(j, i, s, t) {
            initial_owed(ps, s, t)
        } else {
            0
        }
    &&& forall|v: nat| #[trigger]
        inflow(es, v) == if v < ps.len() {
            in_part(ps, j, i, v as int)
        } else {
            0
        }
    &&& forall|v: nat| #[trigger]
        outflow(es, v) == if v < ps.len() {
            ps[v as int].heads() * out_factor(ps, j, i, v as int)
        } else {
            0
        }
    &&& es.len() <= j * ps.len() + i
    &&& weight_total(es) <= spent_upto(ps, j) + j * heads_total(ps) + share(ps, j) * heads_upto(ps, i)
}

/// The net positions of a graph, by node index.
pub open spec fn positions(g: Payments) -> Seq<i128> {
    Seq::new(g.nodes().len(), |v: int| g.balance(v as nat) as i128)
}

/// Whether the transfers for positions `b` can be held in a graph: every
/// position is within `u64::MAX - 5` thousandths of zero, and the transfers
/// add up to at most `u64::MAX`.
pub open spec fn greedy_fits(b: Seq<i128>, ts: Seq<Transfer>) -> bool {
    &&& forall|v: int| 0 <= v < b.len() ==> -(u64::MAX - 5) <= #[trigger] b[v] <= u64::MAX - 5
    &&& transfers_total(ts) <= u64::MAX
}

/// Whether every participant would end within the tolerance of the fair
/// share if the transfers were all its debts.
pub open spec fn transfers_balanced(people: Seq<Person>, ts: Seq<Transfer>) -> bool {
    forall|v: nat|
        v < people.len() ==> #[trigger] within_tolerance(
            people,
            v as int,
            received(ts, v as int) - paid(ts, v as int),
        )
}

/// The participant in a node slot.
pub open spec fn person_in(o: Option<Person>) -> Person {
    match o {
        Some(p) => p,
        None => arbitrary(),
    }
}

/// Setting mutual debts against each other a second time changes nothing:
/// what is left of the two debts is already one-sided.
pub proof fn lemma_cancellation_idempotent(a: nat, b: nat)
    ensures
        net_of_pair(net_of_pair(a, b), net_of_pair(b, a)) == net_of_pair(a, b),
        net_of_pair(a, b) == 0 || net_of_pair(b, a) == 0,
{
}

/// The graph of who owes whom how much.
pub struct Payments {
    graph: DebtGraph,
}

impl Payments {
    /// The node slots: participants by index.
    pub closed spec fn nodes(&self) -> Seq<Option<Person>> {
        node_slots(self.graph)
    }

    /// The edge slots: debts by index.
    pub closed spec fn edges(&self) -> Seq<Slot> {
        edge_slots(self.graph)
    }

    /// What participant `s` owes participant `t`.
    pub open spec fn owes(&self, s: nat, t: nat) -> nat {
        owed(self.edges(), s, t)
    }

    /// Every node holds a participant of at least one head; edges join
    /// distinct participants, carry a positive amount, and at most one goes
    /// from one participant to another.
    pub open spec fn wf(&self) -> bool {
        &&& self.nodes().len() < u32::MAX
        &&& self.edges().len() < u32::MAX
        &&& forall|i: int|
            0 <= i < self.nodes().len() ==> #[trigger] self.nodes()[i] is Some
                && self.nodes()[i]->0.wf()
        &&& simple(self.edges(), self.nodes().len())
        &&& weight_total(self.edges()) <= u64::MAX
    }

    /// The participants, by node index.
    pub open spec fn people(&self) -> Seq<Person> {
        self.nodes().map_values(|o: Option<Person>| person_in(o))
    }

    /// Every participant's final share is within the tolerance of the fair
    /// share.
    pub open spec fn balanced(&self) -> bool {
        forall|v: nat|
            v < self.nodes().len() ==> #[trigger] within_tolerance(
                self.people(),
                v as int,
                self.balance(v),
            )
    }

    /// The net position of participant `v`: what it is owed less what it owes.
    pub open spec fn balance(&self, v: nat) -> int {
        net(self.edges(), v)
    }

    /// Sets mutual debts against each other: where A owes B and B owes A, only
    /// the difference is kept, owed by the one who owed more; where both owed
    /// the same, neither edge is kept.
    pub fn simplify_bidirectional_edges(&mut self)
        requires
            old(self).wf(),
        ensures
            final(self).wf(),
            final(self).nodes() == old(self).nodes(),
            forall|s: nat, t: nat| #[trigger]
                final(self).owes(s, t) == net_of_pair(old(self).owes(s, t), old(self).owes(t, s)),
            forall|v: nat| #[trigger] final(self).balance(v) == old(self).balance(v),
    {
        let ghost o = self.edges();
        let ghost n = self.nodes().len();
        let idx = graph_edge_indices(&self.graph);
        let mut k: usize = 0;
        while k < idx.len()
            invariant
                self.wf(),
                self.nodes() == old(self).nodes(),
                o == old(self).edges(),
                n == self.nodes().len(),
                self.edges().len() == o.len(),
                forall|v: nat| #[trigger] self.balance(v) == old(self).balance(v),
                k <= idx@.len(),
                forall|j: int| 0 <= j < idx@.len() ==> idx@[j] < o.len() && o[idx@[j] as int] is Some,
                forall|i: int|
                    0 <= i < o.len() && o[i] is Some ==> exists|j: int|
                        0 <= j < idx@.len() && idx@[j] == i,
                forall|i: int|
                    0 <= i < o.len() && #[trigger] self.edges()[i] is Some ==> o[i] is Some && ends(
                        self.edges()[i],
                    ) == ends(o[i]),
                forall|s: nat, t: nat|
                    (#[trigger] owed(self.edges(), s, t) == owed(o, s, t) && owed(self.edges(), t, s)
                        == owed(o, t, s)) || (owed(self.edges(), s, t) == net_of_pair(
                        owed(o, s, t),
                        owed(o, t, s),
                    ) && owed(self.edges(), t, s) == net_of_pair(owed(o, t, s), owed(o, s, t))),
                forall|i: int|
                    0 <= i < o.len() && o[i] is Some && #[trigger] self.edges()[i] is None ==> owed(
                        self.edges(),
                        ends(o[i]).0,
                        ends(o[i]).1,
                    ) == net_of_pair(owed(o, ends(o[i]).0, ends(o[i]).1), owed(o, ends(o[i]).1, ends(o[i]).0))
                        && owed(self.edges(), ends(o[i]).1, ends(o[i]).0) == net_of_pair(
                        owed(o, ends(o[i]).1, ends(o[i]).0),
                        owed(o, ends(o[i]).0, ends(o[i]).1),
                    ),
                forall|j: int|
                    0 <= j < k ==> owed(
                        self.edges(),
                        ends(#[trigger] o[idx@[j] as int]).0,
                        ends(o[idx@[j] as int]).1,
                    ) == net_of_pair(
                        owed(o, ends(o[idx@[j] as int]).0, ends(o[idx@[j] as int]).1),
                        owed(o, ends(o[idx@[j] as int]).1, ends(o[idx@[j] as int]).0),
                    ) && owed(self.edges(), ends(o[idx@[j] as int]).1, ends(o[idx@[j] as int]).0)
                        == net_of_pair(
                        owed(o, ends(o[idx@[j] as int]).1, ends(o[idx@[j] as int]).0),
                        owed(o, ends(o[idx@[j] as int]).0, ends(o[idx@[j] as int]).1),
                    ),
            decreases idx@.len() - k,
        {
            let e = idx[k];
            self.cancel_pair_at(e, Ghost(o));
            k = k + 1;
        }
        proof {
            let c = self.edges();
            assert forall|s: nat, t: nat| #[trigger]
                owed(c, s, t) == net_of_pair(owed(o, s, t), owed(o, t, s)) by {
                if owed(o, s, t) > 0 {
                    let i = lemma_slot_sum_witness(o, between(s, t));
                    let j = choose|j: int| 0 <= j < idx@.len() && idx@[j] == i;
                    assert(ends(o[idx@[j] as int]) == (s, t));
                } else if owed(o, t, s) > 0 {
                    let i = lemma_slot_sum_witness(o, between(t, s));
                    let j = choose|j: int| 0 <= j < idx@.len() && idx@[j] == i;
                    assert(ends(o[idx@[j] as int]) == (t, s));
                }
            }
        }
    }

    /// Settles the pair that edge `e` joins against the edge back, if both are
    /// there.
    fn cancel_pair_at(&mut self, e: usize, Ghost(o): Ghost<Seq<Slot>>)
        requires
            old(self).wf(),
            e < o.len(),
            o[e as int] is Some,
            old(self).edges().len() == o.len(),
            forall|i: int|
                0 <= i < o.len() && #[trigger] old(self).edges()[i] is Some ==> o[i] is Some
                    && ends(old(self).edges()[i]) == ends(o[i]),
            forall|s: nat, t: nat|
                (#[trigger] owed(old(self).edges(), s, t) == owed(o, s, t) && owed(
                    old(self).edges(),
                    t,
                    s,
                ) == owed(o, t, s)) || (owed(old(self).edges(), s, t) == net_of_pair(
                    owed(o, s, t),
                    owed(o, t, s),
                ) && owed(old(self).edges(), t, s) == net_of_pair(owed(o, t, s), owed(o, s, t))),
            forall|i: int|
                0 <= i < o.len() && o[i] is Some && #[trigger] old(self).edges()[i] is None ==> owed(
                    old(self).edges(),
                    ends(o[i]).0,
                    ends(o[i]).1,
                ) == net_of_pair(owed(o, ends(o[i]).0, ends(o[i]).1), owed(o, ends(o[i]).1, ends(o[i]).0))
                    && owed(old(self).edges(), ends(o[i]).1, ends(o[i]).0) == net_of_pair(
                    owed(o, ends(o[i]).1, ends(o[i]).0),
                    owed(o, ends(o[i]).0, ends(o[i]).1),
                ),
        ensures
            final(self).wf(),
            final(self).nodes() == old(self).nodes(),
            final(self).edges().len() == o.len(),
            forall|v: nat| #[trigger] final(self).balance(v) == old(self).balance(v),
            forall|i: int|
                0 <= i < o.len() && #[trigger] final(self).edges()[i] is Some ==> o[i] is Some
                    && ends(final(self).edges()[i]) == ends(o[i]),
            forall|s: nat, t: nat|
                (#[trigger] owed(final(self).edges(), s, t) == owed(o, s, t) && owed(
                    final(self).edges(),
                    t,
                    s,
                ) == owed(o, t, s)) || (owed(final(self).edges(), s, t) == net_of_pair(
                    owed(o, s, t),
                    owed(o, t, s),
                ) && owed(final(self).edges(), t, s) == net_of_pair(owed(o, t, s), owed(o, s, t))),
            forall|i: int|
                0 <= i < o.len() && o[i] is Some && #[trigger] final(self).edges()[i] is None ==> owed(
                    final(self).edges(),
                    ends(o[i]).0,
                    ends(o[i]).1,
                ) == net_of_pair(owed(o, ends(o[i]).0, ends(o[i]).1), owed(o, ends(o[i]).1, ends(o[i]).0))
                    && owed(final(self).edges(), ends(o[i]).1, ends(o[i]).0) == net_of_pair(
                    owed(o, ends(o[i]).1, ends(o[i]).0),
                    owed(o, ends(o[i]).0, ends(o[i]).1),
                ),
            forall|i: int|
                0 <= i < o.len() && #[trigger] old(self).edges()[i] is None ==> final(self).edges()[i] is None,
            ({
                let (s, t) = ends(o[e as int]);
                owed(final(self).edges(), s, t) == net_of_pair(owed(o, s, t), owed(o, t, s))
                    && owed(final(self).edges(), t, s) == net_of_pair(owed(o, t, s), owed(o, s, t))
            }),
            forall|s: nat, t: nat|
                owed(old(self).edges(), s, t) == net_of_pair(owed(o, s, t), owed(o, t, s)) && owed(
                    old(self).edges(),
                    t,
                    s,
                ) == net_of_pair(owed(o, t, s), owed(o, s, t)) ==> #[trigger] owed(
                    final(self).edges(),
                    s,
                    t,
                ) == owed(old(self).edges(), s, t) && owed(final(self).edges(), t, s) == owed(
                    old(self).edges(),
                    t,
                    s,
                ),
    {
        let ghost c0 = self.edges();
        let ghost n = self.nodes().len();
        match graph_edge_endpoints(&self.graph, e) {
            None => {
            },
            Some((s, t)) => {
                proof {
                    lemma_owed_edge(c0, n, e as int);
                }
                match graph_find_edge(&self.graph, t, s) {
                    None => {
                        proof {
                            lemma_owed_none(c0, t as nat, s as nat);
                        }
                    },
                    Some(e2) => {
                        proof {
                            lemma_owed_edge(c0, n, e2 as int);
                        }
                        let w1 = graph_edge_weight(&self.graph, e).unwrap();
                        let w2 = graph_edge_weight(&self.graph, e2).unwrap();
                        if w1.0 < w2.0 {
                            let d = w2.sub(w1);
                            proof {
                                lemma_simple_reweigh(c0, n, e2 as int, d);
                                lemma_owed_update(c0, e2 as int, with_amount(c0[e2 as int], d));
                                lemma_flows_update(c0, e2 as int, with_amount(c0[e2 as int], d));
                            }
                            graph_set_edge_weight(&mut self.graph, e2, d);
                            let ghost c1 = self.edges();
                            proof {
                                lemma_simple_remove(c1, n, e as int);
                                lemma_owed_update(c1, e as int, None);
                                lemma_flows_update(c1, e as int, None);
                            }
                            graph_remove_edge(&mut self.graph, e);
                        } else if w1.0 > w2.0 {
                            let d = w1.sub(w2);
                            proof {
                                lemma_simple_reweigh(c0, n, e as int, d);
                                lemma_owed_update(c0, e as int, with_amount(c0[e as int], d));
                                lemma_flows_update(c0, e as int, with_amount(c0[e as int], d));
                            }
                            graph_set_edge_weight(&mut self.graph, e, d);
                            let ghost c1 = self.edges();
                            proof {
                                lemma_simple_remove(c1, n, e2 as int);
                                lemma_owed_update(c1, e2 as int, None);
                                lemma_flows_update(c1, e2 as int, None);
                            }
                            graph_remove_edge(&mut self.graph, e2);
                        } else {
                            proof {
                                lemma_simple_remove(c0, n, e as int);
                                lemma_owed_update(c0, e as int, None);
                                lemma_flows_update(c0, e as int, None);
                            }
                            graph_remove_edge(&mut self.graph, e);
                            let ghost c1 = self.edges();
                            proof {
                                lemma_simple_remove(c1, n, e2 as int);
                                lemma_owed_update(c1, e2 as int, None);
                                lemma_flows_update(c1, e2 as int, None);
                            }
                            graph_remove_edge(&mut self.graph, e2);
                        }
                    },
                }
            },
        }
    }

    /// Shortens chains of debts: where A owes B and B owes C (A and C
    /// distinct), the smaller of the two amounts is moved onto a debt from A
    /// straight to C, and debts that reach zero are removed. This is repeated
    /// until no such chain is left. Every participant keeps its net position;
    /// a graph without chains is left as it is, and otherwise the sum of all
    /// debts drops; every debt left joins two participants that a path of
    /// debts joined before.
    pub fn simplify_transitive_edges(&mut self)
        requires
            old(self).wf(),
        ensures
            final(self).wf(),
            final(self).nodes() == old(self).nodes(),
            forall|v: nat| #[trigger] final(self).balance(v) == old(self).balance(v),
            no_chain(final(self).edges()),
            weight_total(final(self).edges()) <= weight_total(old(self).edges()),
            no_chain(old(self).edges()) ==> final(self).edges() == old(self).edges(),
            !no_chain(old(self).edges()) ==> weight_total(final(self).edges()) < weight_total(
                old(self).edges(),
            ),
            forall|a: nat, c: nat|
                #[trigger] final(self).owes(a, c) > 0 ==> connected(old(self).edges(), a, c),
    {
        let ghost o = self.edges();
        proof {
            lemma_within_paths_refl(o);
        }
        let mut done = false;
        while !done
            invariant
                self.wf(),
                self.nodes() == old(self).nodes(),
                o == old(self).edges(),
                forall|v: nat| #[trigger] self.balance(v) == old(self).balance(v),
                weight_total(self.edges()) <= weight_total(old(self).edges()),
                done ==> no_chain(self.edges()),
                no_chain(o) ==> self.edges() == o,
                self.edges() == o || weight_total(self.edges()) < weight_total(o),
                within_paths(self.edges(), o),
            decreases
                if done {
                    0
                } else {
                    weight_total(self.edges()) + 1
                },
        {
            let changed = self.transitive_pass(Ghost(o));
            if !changed {
                done = true;
            }
        }
        proof {
            assert forall|a: nat, c: nat| #[trigger] self.owes(a, c) > 0 implies connected(o, a, c) by {
                assert(owed(self.edges(), a, c) > 0);
            }
        }
    }

    /// One pass over the edges present at its start, collapsing chains that
    /// end in each; reports whether anything changed.
    fn transitive_pass(&mut self, Ghost(start): Ghost<Seq<Slot>>) -> (changed: bool)
        requires
            old(self).wf(),
            within_paths(old(self).edges(), start),
        ensures
            within_paths(final(self).edges(), start),
            changed ==> !no_chain(old(self).edges()),
            final(self).wf(),
            final(self).nodes() == old(self).nodes(),
            forall|v: nat| #[trigger] final(self).balance(v) == old(self).balance(v),
            changed ==> weight_total(final(self).edges()) < weight_total(old(self).edges()),
            !changed ==> final(self).edges() == old(self).edges() && no_chain(old(self).edges()),
    {
        let ghost o = self.edges();
        let idx = graph_edge_indices(&self.graph);
        let mut changed = false;
        let mut k: usize = 0;
        while k < idx.len()
            invariant
                self.wf(),
                self.nodes() == old(self).nodes(),
                o == old(self).edges(),
                self.edges().len() == o.len(),
                k <= idx@.len(),
                forall|j: int| 0 <= j < idx@.len() ==> idx@[j] < o.len() && o[idx@[j] as int] is Some,
                forall|i: int|
                    0 <= i < o.len() && o[i] is Some ==> exists|j: int|
                        0 <= j < idx@.len() && idx@[j] == i,
                forall|v: nat| #[trigger] self.balance(v) == old(self).balance(v),
                changed ==> weight_total(self.edges()) < weight_total(o),
                !changed ==> self.edges() == o,
                changed ==> !no_chain(o),
                within_paths(self.edges(), start),
                !changed ==> forall|j: int, a: nat|
                    0 <= j < k && a != ends(o[idx@[j] as int]).1 ==> #[trigger] owed(
                        o,
                        a,
                        ends(o[idx@[j] as int]).0,
                    ) == 0,
            decreases idx@.len() - k,
        {
            let c = self.collapse_into(idx[k], Ghost(start));
            if c {
                changed = true;
            }
            k = k + 1;
        }
        proof {
            if !changed {
                assert forall|a: nat, b: nat, cc: nat|
                    a != cc && #[trigger] owed(o, a, b) > 0 implies #[trigger] owed(o, b, cc) == 0 by {
                    if owed(o, b, cc) > 0 {
                        let i = lemma_slot_sum_witness(o, between(b, cc));
                        let j = choose|j: int| 0 <= j < idx@.len() && idx@[j] == i;
                        assert(ends(o[idx@[j] as int]) == (b, cc));
                    }
                }
            }
        }
        changed
    }

    /// Collapses the chains `a -> b -> c` that end in the edge `e_bc`, one
    /// incoming edge of `b` after another; reports whether anything changed.
    fn collapse_into(&mut self, e_bc: usize, Ghost(start): Ghost<Seq<Slot>>) -> (changed: bool)
        requires
            old(self).wf(),
            e_bc < old(self).edges().len(),
            within_paths(old(self).edges(), start),
        ensures
            within_paths(final(self).edges(), start),
            changed ==> !no_chain(old(self).edges()),
            final(self).wf(),
            final(self).nodes() == old(self).nodes(),
            forall|v: nat| #[trigger] final(self).balance(v) == old(self).balance(v),
            changed ==> weight_total(final(self).edges()) < weight_total(old(self).edges()),
            !changed ==> final(self).edges() == old(self).edges(),
            final(self).edges().len() == old(self).edges().len(),
            !changed && old(self).edges()[e_bc as int] is Some ==> forall|a: nat|
                a != ends(old(self).edges()[e_bc as int]).1 ==> #[trigger] owed(
                    old(self).edges(),
                    a,
                    ends(old(self).edges()[e_bc as int]).0,
                ) == 0,
    {
        let ghost o = self.edges();
        match graph_edge_endpoints(&self.graph, e_bc) {
            None => false,
            Some((b, c)) => {
                let incoming = graph_incoming(&self.graph, b);
                let mut changed = false;
                let mut k: usize = 0;
                while k < incoming.len()
                    invariant
                        self.wf(),
                        self.nodes() == old(self).nodes(),
                        o == old(self).edges(),
                        self.edges().len() == o.len(),
                        e_bc < o.len(),
                        o[e_bc as int] is Some,
                        ends(o[e_bc as int]) == (b as nat, c as nat),
                        k <= incoming@.len(),
                        forall|j: int|
                            0 <= j < incoming@.len() ==> incoming@[j].1 < o.len() && #[trigger] o[incoming@[j].1 as int] is Some
                                && ends(o[incoming@[j].1 as int]) == (incoming@[j].0 as nat, b as nat),
                        forall|i: int|
                            0 <= i < o.len() && o[i] is Some && ends(o[i]).1 == b ==> exists|j: int|
                                0 <= j < incoming@.len() && #[trigger] incoming@[j].1 == i,
                        forall|v: nat| #[trigger] self.balance(v) == old(self).balance(v),
                        changed ==> weight_total(self.edges()) < weight_total(o),
                        !changed ==> self.edges() == o,
                        changed ==> !no_chain(o),
                        within_paths(self.edges(), start),
                        !changed ==> forall|j: int| 0 <= j < k ==> #[trigger] incoming@[j].0 == c,
                    decreases incoming@.len() - k,
                {
                    let (a, e_ab) = incoming[k];
                    proof {
                        assert(o[incoming@[k as int].1 as int] is Some);
                    }
                    if a != c {
                        let ends_ab = graph_edge_endpoints(&self.graph, e_ab);
                        let ends_bc = graph_edge_endpoints(&self.graph, e_bc);
                        match (ends_ab, ends_bc) {
                            (Some((a1, b1)), Some((b2, c2))) => {
                                if a1 == a && b1 == b && b2 == b && c2 == c {
                                    proof {
                                        if !changed {
                                            let n = self.nodes().len();
                                            lemma_owed_edge(o, n, e_ab as int);
                                            lemma_owed_edge(o, n, e_bc as int);
                                            assert(!no_chain(o)) by {
                                                if no_chain(o) {
                                                    assert(owed(o, a as nat, b as nat) > 0);
                                                    assert(owed(o, b as nat, c as nat) == 0);
                                                }
                                            }
                                        }
                                    }
                                    let ghost before = self.edges();
                                    self.collapse_chain(a, b, c, e_ab, e_bc);
                                    proof {
                                        lemma_within_paths_step(
                                            before,
                                            self.edges(),
                                            start,
                                            a as nat,
                                            b as nat,
                                            c as nat,
                                        );
                                    }
                                    changed = true;
                                }
                            },
                            _ => {},
                        }
                    }
                    k = k + 1;
                }
                proof {
                    if !changed {
                        assert forall|a: nat| a != c implies #[trigger] owed(o, a, b as nat) == 0 by {
                            if owed(o, a, b as nat) > 0 {
                                let i = lemma_slot_sum_witness(o, between(a, b as nat));
                                let j = choose|j: int| 0 <= j < incoming@.len() && #[trigger] incoming@[j].1 == i;
                                assert(incoming@[j].0 == c);
                            }
                        }
                    }
                }
                changed
            },
        }
    }

    /// Moves the smaller of the debts `a -> b` and `b -> c` onto `a -> c`.
    fn collapse_chain(&mut self, a: usize, b: usize, c: usize, e_ab: usize, e_bc: usize)
        requires
            old(self).wf(),
            e_ab < old(self).edges().len(),
            e_bc < old(self).edges().len(),
            old(self).edges()[e_ab as int] is Some,
            old(self).edges()[e_bc as int] is Some,
            ends(old(self).edges()[e_ab as int]) == (a as nat, b as nat),
            ends(old(self).edges()[e_bc as int]) == (b as nat, c as nat),
            a != c,
        ensures
            final(self).wf(),
            final(self).nodes() == old(self).nodes(),
            forall|v: nat| #[trigger] final(self).balance(v) == old(self).balance(v),
            weight_total(final(self).edges()) < weight_total(old(self).edges()),
            final(self).edges().len() == old(self).edges().len(),
            owed(old(self).edges(), a as nat, b as nat) > 0,
            owed(old(self).edges(), b as nat, c as nat) > 0,
            forall|x: nat, y: nat|
                #[trigger] owed(final(self).edges(), x, y) > 0 ==> owed(old(self).edges(), x, y) > 0
                    || (x == a && y == c),
    {
        let ghost e0 = self.edges();
        let ghost n = self.nodes().len();
        proof {
            lemma_owed_edge(e0, n, e_ab as int);
            lemma_owed_edge(e0, n, e_bc as int);
        }
        let w_ab = graph_edge_weight(&self.graph, e_ab).unwrap();
        let w_bc = graph_edge_weight(&self.graph, e_bc).unwrap();
        let t = if w_ab.0 <= w_bc.0 {
            w_ab
        } else {
            w_bc
        };
        if w_ab.0 == t.0 {
            proof {
                lemma_simple_remove(e0, n, e_ab as int);
                lemma_flows_update(e0, e_ab as int, None);
                lemma_owed_update(e0, e_ab as int, None);
            }
            graph_remove_edge(&mut self.graph, e_ab);
        } else {
            let d = w_ab.sub(t);
            proof {
                lemma_simple_reweigh(e0, n, e_ab as int, d);
                lemma_flows_update(e0, e_ab as int, with_amount(e0[e_ab as int], d));
                lemma_owed_update(e0, e_ab as int, with_amount(e0[e_ab as int], d));
            }
            graph_set_edge_weight(&mut self.graph, e_ab, d);
        }
        let ghost e1 = self.edges();
        if w_bc.0 == t.0 {
            proof {
                lemma_simple_remove(e1, n, e_bc as int);
                lemma_flows_update(e1, e_bc as int, None);
                lemma_owed_update(e1, e_bc as int, None);
            }
            graph_remove_edge(&mut self.graph, e_bc);
        } else {
            let d = w_bc.sub(t);
            proof {
                lemma_simple_reweigh(e1, n, e_bc as int, d);
                lemma_flows_update(e1, e_bc as int, with_amount(e1[e_bc as int], d));
                lemma_owed_update(e1, e_bc as int, with_amount(e1[e_bc as int], d));
            }
            graph_set_edge_weight(&mut self.graph, e_bc, d);
        }
        let ghost e2 = self.edges();
        assert(e2[e_ab as int] is None || e2[e_bc as int] is None);
        assert forall|x: nat, y: nat| #[trigger] owed(e2, x, y) <= owed(e0, x, y) by {
            assert(owed(e1, x, y) <= owed(e0, x, y));
        }
        match graph_find_edge(&self.graph, a, c) {
            Some(e_ac) => {
                let w_ac = graph_edge_weight(&self.graph, e_ac).unwrap();
                proof {
                    lemma_slot_sum_ge(e2, e_ac as int, amount_fn());
                }
                let d = w_ac.add(t);
                proof {
                    lemma_simple_reweigh(e2, n, e_ac as int, d);
                    lemma_flows_update(e2, e_ac as int, with_amount(e2[e_ac as int], d));
                    lemma_owed_update(e2, e_ac as int, with_amount(e2[e_ac as int], d));
                }
                graph_set_edge_weight(&mut self.graph, e_ac, d);
            },
            None => {
                let r = graph_add_edge(&mut self.graph, a, c, t);
                proof {
                    lemma_simple_add(e2, n, r as int, a as nat, c as nat, t);
                    lemma_flows_update(e2, r as int, Some((a as nat, c as nat, t)));
                    lemma_owed_update(e2, r as int, Some((a as nat, c as nat, t)));
                }
            },
        }
    }

    /// The unreduced graph of a group: every participant owes every other one
    /// that spent something that one's per-head part, once per head of its own.
    /// Debts that round to nothing are left out.
    pub fn from_persons(persons: &[Person]) -> (r: Payments)
        requires
            all_wf(persons@),
            persons@.len() < 65536,
            spent_total(persons@) + persons@.len() * heads_total(persons@) <= u64::MAX,
        ensures
            r.wf(),
            r.nodes() == persons@.map_values(|p: Person| Some(p)),
            forall|s: nat, t: nat| #[trigger] r.owes(s, t) == initial_owed(persons@, s, t),
            forall|v: nat|
                v < persons@.len() ==> #[trigger] r.balance(v) == initial_balance(persons@, v as int),
            r.people() == persons@,
            r.balanced(),
    {
        let ghost ps = persons@;
        let n = persons.len();
        let mut h: u64 = 0;
        let mut i: usize = 0;
        while i < n
            invariant
                n == ps.len(),
                ps == persons@,
                all_wf(ps),
                i <= n,
                h == heads_upto(ps, i as int),
                spent_total(ps) + ps.len() * heads_total(ps) <= u64::MAX,
            decreases n - i,
        {
            proof {
                lemma_heads_upto_mono(ps, i as int + 1, n as int);
                if n > 0 {
                    assert(heads_total(ps) <= ps.len() * heads_total(ps)) by (nonlinear_arith)
                        requires ps.len() > 0;
                }
            }
            h = h + persons[i].size() as u64;
            i = i + 1;
        }
        let mut g = graph_new();
        let mut i: usize = 0;
        while i < n
            invariant
                n == ps.len(),
                ps == persons@,
                i <= n,
                n < 65536,
                node_slots(g) == ps.take(i as int).map_values(|p: Person| Some(p)),
                edge_slots(g) == Seq::<Slot>::empty(),
            decreases n - i,
        {
            let ghost before = node_slots(g);
            let r = graph_add_node(&mut g, persons[i].duplicate());
            proof {
                assert forall|k: int| 0 <= k < before.len() implies before[k] is Some by {}
                assert(ps.take(i as int + 1).map_values(|p: Person| Some(p)) =~= before.push(
                    Some(ps[i as int]),
                ));
            }
            i = i + 1;
        }
        assert(ps.take(n as int) =~= ps);
        proof {
            lemma_built_start(ps, edge_slots(g));
        }
        let mut j: usize = 0;
        while j < n
            invariant
                n == ps.len(),
                ps == persons@,
                all_wf(ps),
                j <= n,
                n < 65536,
                h == heads_total(ps),
                spent_total(ps) + ps.len() * heads_total(ps) <= u64::MAX,
                node_slots(g) == ps.map_values(|p: Person| Some(p)),
                built(ps, edge_slots(g), j as int, 0),
            decreases n - j,
        {
            add_row(&mut g, persons, j, h);
            proof {
                assert(built(ps, edge_slots(g), j as int + 1, 0)) by {
                    lemma_row_done(ps, edge_slots(g), j as int);
                }
            }
            j = j + 1;
        }
        let r = Payments { graph: g };
        proof {
            let es = edge_slots(g);
            assert forall|v: nat| v < ps.len() implies #[trigger] r.balance(v) == initial_balance(ps, v as int) by {
                assert(inflow(es, v) == in_part(ps, n as int, 0, v as int));
                assert(outflow(es, v) == ps[v as int].heads() * out_factor(ps, n as int, 0, v as int));
            }
            assert forall|i: int| 0 <= i < r.nodes().len() implies #[trigger] r.nodes()[i] is Some
                && r.nodes()[i]->0.wf() by {
                assert(ps[i].wf());
            }
            assert(weight_total(es) <= spent_total(ps) + n * heads_total(ps) + share(ps, n as int) * heads_upto(ps, 0));
            assert(es.len() <= n * n);
            assert(n * n < u32::MAX) by (nonlinear_arith)
                requires n < 65536;
            assert(r.people() =~= ps);
            lemma_initial_balanced(ps);
            assert forall|v: nat| v < r.nodes().len() implies #[trigger] within_tolerance(
                r.people(),
                v as int,
                r.balance(v),
            ) by {
                assert(within_tolerance(ps, v as int, initial_balance(ps, v as int)));
            }
        }
        r
    }
}

proof fn lemma_round_div_le(x: int, d: int)
    requires
        x >= 0,
        d >= 1,
    ensures
        0 <= round_div(x, d) <= x + 1,
{
    let q = round_div(x, d);
    vstd::arithmetic::div_mod::lemma_fundamental_div_mod(2 * x + d, 2 * d);
    let r = (2 * x + d) % (2 * d);
    assert(0 <= r < 2 * d);
    assert(2 * x + d == 2 * d * q + r);
    assert(0 <= q <= x + 1) by (nonlinear_arith)
        requires
            2 * x + d == 2 * d * q + r,
            0 <= r < 2 * d,
            d >= 1,
            x >= 0,
    ;
}

/// After the last debtor of creditor `j`, the state is that before creditor `j + 1`.
proof fn lemma_row_done(ps: Seq<Person>, es: Seq<Slot>, j: int)
    requires
        0 <= j < ps.len(),
        built(ps, es, j, ps.len() as int),
        all_wf(ps),
    ensures
        built(ps, es, j + 1, 0),
{
    let n = ps.len() as int;
    lemma_heads_upto_mono(ps, 0, n);
    assert forall|v: nat| #[trigger] inflow(es, v) == if v < ps.len() {
        in_part(ps, j + 1, 0, v as int)
    } else {
        0
    } by {
        if v == j {
            assert(in_part(ps, j, n, v as int) == share(ps, j) * (heads_total(ps) - ps[j].heads()));
        }
    }
    assert forall|v: nat| #[trigger] outflow(es, v) == if v < ps.len() {
        ps[v as int].heads() * out_factor(ps, j + 1, 0, v as int)
    } else {
        0
    } by {
        if v < ps.len() {
            assert(out_factor(ps, j + 1, 0, v as int) == out_factor(ps, j, n, v as int));
        }
    }
    assert forall|s: nat, t: nat| placed(j, n, s, t) && s < ps.len() <==> placed(j + 1, 0, s, t) && s < ps.len() by {}
    assert forall|s: nat, t: nat| #[trigger]
        owed(es, s, t) == if placed(j + 1, 0, s, t) {
            initial_owed(ps, s, t)
        } else {
            0
        } by {
        if placed(j + 1, 0, s, t) && !placed(j, n, s, t) {
            assert(s >= n);
        }
    }
    assert forall|k: int| 0 <= k < es.len() implies placed(j + 1, 0, ends(#[trigger] es[k]).0, ends(es[k]).1) by {}
    lemma_share_bound(ps, j);
    lemma_spent_upto_mono(ps, j + 1, n);
    assert(share(ps, j) * heads_upto(ps, n) <= ps[j].spent() + heads_total(ps));
    assert(j * n + n == (j + 1) * n) by (nonlinear_arith);
    assert(j * heads_total(ps) + heads_total(ps) == (j + 1) * heads_total(ps)) by (nonlinear_arith);
}

proof fn lemma_built_start(ps: Seq<Person>, es: Seq<Slot>)
    requires
        es.len() == 0,
    ensures
        built(ps, es, 0, 0),
{
    assert forall|v: nat| #[trigger] inflow(es, v) == if v < ps.len() {
        in_part(ps, 0, 0, v as int)
    } else {
        0
    } by {
        if v == 0 {
            assert(share(ps, 0) * 0 == 0);
        }
    }
    assert forall|v: nat| #[trigger] outflow(es, v) == if v < ps.len() {
        ps[v as int].heads() * out_factor(ps, 0, 0, v as int)
    } else {
        0
    } by {
        if v < ps.len() {
            assert(out_factor(ps, 0, 0, v as int) == 0);
            assert(ps[v as int].heads() * 0 == 0);
        }
    }
    assert(share(ps, 0) * heads_upto(ps, 0) == 0);
}

/// Puts in place the debts of every other participant to creditor `j`.
fn add_row(g: &mut DebtGraph, persons: &[Person], j: usize, h: u64)
    requires
        all_wf(persons@),
        j < persons@.len(),
        persons@.len() < 65536,
        h == heads_total(persons@),
        spent_total(persons@) + persons@.len() * heads_total(persons@) <= u64::MAX,
        node_slots(*old(g)) == persons@.map_values(|p: Person| Some(p)),
        built(persons@, edge_slots(*old(g)), j as int, 0),
    ensures
        node_slots(*final(g)) == node_slots(*old(g)),
        built(persons@, edge_slots(*final(g)), j as int, persons@.len() as int),
{
    let ghost ps = persons@;
    let n = persons.len();
    proof {
        lemma_heads_upto_mono(ps, 0, n as int);
        lemma_share_bound(ps, j as int);
        lemma_spent_upto_mono(ps, j as int + 1, n as int);
        assert(heads_total(ps) <= n * heads_total(ps)) by (nonlinear_arith)
            requires n > 0;
    }
    assert(spent_upto(ps, j as int + 1) == spent_upto(ps, j as int) + ps[j as int].spent());
    let each = Money(persons[j].money_spent().0).div(h);
    assert(each.0 == share(ps, j as int));
    let mut i: usize = 0;
    while i < n
        invariant
            ps == persons@,
            n == ps.len(),
            all_wf(ps),
            j < n,
            n < 65536,
            i <= n,
            h == heads_total(ps),
            h > 0,
            each.0 == share(ps, j as int),
            each.0 * h <= ps[j as int].spent() + h,
            ps[j as int].spent() + h <= u64::MAX,
            spent_total(ps) + n * heads_total(ps) <= u64::MAX,
            spent_upto(ps, j as int + 1) <= spent_total(ps),
            node_slots(*g) == ps.map_values(|p: Person| Some(p)),
            built(ps, edge_slots(*g), j as int, i as int),
        decreases n - i,
    {
        proof {
            lemma_heads_upto_one(ps, n as int, i as int);
            assert(heads_upto(ps, i as int + 1) == heads_upto(ps, i as int) + ps[i as int].heads());
            assert(each.0 * ps[i as int].heads() <= each.0 * h) by (nonlinear_arith)
                requires ps[i as int].heads() <= h;
        }
        let amount = each.mul(persons[i].size() as u64);
        let ghost es = edge_slots(*g);
        if i != j && amount.0 > 0 {
            proof {
                assert(j * n + i < u32::MAX) by (nonlinear_arith)
                    requires j < n, i < n, n < 65536;
                assert forall|k: int| 0 <= k < es.len() && es[k] is Some implies ends(es[k]) != (i as nat, j as nat) by {
                    assert(placed(j as int, i as int, ends(es[k]).0, ends(es[k]).1));
                }
            }
            let r = graph_add_edge(g, i, j, amount);
            proof {
                let x: Slot = Some((i as nat, j as nat, amount));
                assert(edge_slots(*g) == es.push(x));
                lemma_flows_push(es, x);
                lemma_row_step(ps, es, j as int, i as int, x);
            }
        } else {
            proof {
                lemma_row_skip(ps, es, j as int, i as int);
            }
        }
        i = i + 1;
    }
}

proof fn lemma_row_step(ps: Seq<Person>, es: Seq<Slot>, j: int, i: int, x: Slot)
    requires
        all_wf(ps),
        0 <= j < ps.len(),
        0 <= i < ps.len(),
        i != j,
        x == Some((i as nat, j as nat, Money((share(ps, j) * ps[i].heads()) as u64))),
        share(ps, j) * ps[i].heads() > 0,
        share(ps, j) * ps[i].heads() <= u64::MAX,
        built(ps, es, j, i),
        forall|k: int| 0 <= k < es.len() && es[k] is Some ==> ends(es[k]) != (i as nat, j as nat),
        forall|v: nat| #[trigger] inflow(es.push(x), v) == inflow(es, v) + into(v)(x),
        forall|v: nat| #[trigger] outflow(es.push(x), v) == outflow(es, v) + out_of(v)(x),
        forall|a: nat, b: nat| #[trigger] owed(es.push(x), a, b) == owed(es, a, b) + between(a, b)(x),
        weight_total(es.push(x)) == weight_total(es) + amt(x),
        heads_upto(ps, i + 1) == heads_upto(ps, i) + ps[i].heads(),
    ensures
        built(ps, es.push(x), j, i + 1),
{
    let u = es.push(x);
    let a = share(ps, j) * ps[i].heads();
    assert forall|v: nat| #[trigger] inflow(u, v) == if v < ps.len() {
        in_part(ps, j, i + 1, v as int)
    } else {
        0
    } by {
        if v == j {
            assert(share(ps, j) * (heads_upto(ps, i + 1) - if j < i + 1 { ps[j].heads() } else { 0 })
                == share(ps, j) * (heads_upto(ps, i) - if j < i { ps[j].heads() } else { 0 }) + a) by (nonlinear_arith)
                requires
                    heads_upto(ps, i + 1) == heads_upto(ps, i) + ps[i].heads(),
                    a == share(ps, j) * ps[i].heads(),
                    i != j,
            ;
        }
    }
    assert forall|v: nat| #[trigger] outflow(u, v) == if v < ps.len() {
        ps[v as int].heads() * out_factor(ps, j, i + 1, v as int)
    } else {
        0
    } by {
        if v < ps.len() {
            if v == i {
                assert(out_factor(ps, j, i + 1, v as int) == out_factor(ps, j, i, v as int) + share(ps, j));
                assert(ps[v as int].heads() * out_factor(ps, j, i + 1, v as int) == ps[v as int].heads()
                    * out_factor(ps, j, i, v as int) + a) by (nonlinear_arith)
                    requires
                        out_factor(ps, j, i + 1, v as int) == out_factor(ps, j, i, v as int) + share(ps, j),
                        a == share(ps, j) * ps[i].heads(),
                        v == i,
                ;
            } else {
                assert(out_factor(ps, j, i + 1, v as int) == out_factor(ps, j, i, v as int));
            }
        }
    }
    assert forall|k: int| 0 <= k < u.len() implies placed(j, i + 1, ends(#[trigger] u[k]).0, ends(u[k]).1) by {
        if k < es.len() {
            assert(placed(j, i, ends(es[k]).0, ends(es[k]).1));
        }
    }
    assert forall|k: int| 0 <= k < u.len() implies #[trigger] u[k] is Some by {
        if k < es.len() {
            assert(es[k] is Some);
        }
    }
    assert(share(ps, j) * heads_upto(ps, i + 1) == share(ps, j) * heads_upto(ps, i) + a) by (nonlinear_arith)
        requires
            heads_upto(ps, i + 1) == heads_upto(ps, i) + ps[i].heads(),
            a == share(ps, j) * ps[i].heads(),
    ;
    assert(simple(u, ps.len())) by {
        assert forall|k: int| 0 <= k < es.len() implies u[k] == es[k] by {}
    }
}

proof fn lemma_row_skip(ps: Seq<Person>, es: Seq<Slot>, j: int, i: int)
    requires
        all_wf(ps),
        0 <= j < ps.len(),
        0 <= i < ps.len(),
        i == j || share(ps, j) * ps[i].heads() == 0,
        built(ps, es, j, i),
        heads_upto(ps, i + 1) == heads_upto(ps, i) + ps[i].heads(),
    ensures
        built(ps, es, j, i + 1),
{
    assert(ps[i].wf());
    if i != j {
        assert(share(ps, j) == 0) by (nonlinear_arith)
            requires share(ps, j) * ps[i].heads() == 0, ps[i].heads() >= 1;
    }
    assert forall|v: nat| #[trigger] inflow(es, v) == if v < ps.len() {
        in_part(ps, j, i + 1, v as int)
    } else {
        0
    } by {
        if v == j && i != j {
            assert(share(ps, j) * (heads_upto(ps, i + 1) - if j < i + 1 { ps[j].heads() } else { 0 }) == 0);
            assert(share(ps, j) * (heads_upto(ps, i) - if j < i { ps[j].heads() } else { 0 }) == 0);
        }
    }
    assert forall|v: nat| #[trigger] outflow(es, v) == if v < ps.len() {
        ps[v as int].heads() * out_factor(ps, j, i + 1, v as int)
    } else {
        0
    } by {
        if v < ps.len() {
            assert(out_factor(ps, j, i + 1, v as int) == out_factor(ps, j, i, v as int));
        }
    }
    assert forall|k: int| 0 <= k < es.len() implies placed(j, i + 1, ends(#[trigger] es[k]).0, ends(es[k]).1) by {
        assert(placed(j, i, ends(es[k]).0, ends(es[k]).1));
    }
    assert forall|s: nat, t: nat| #[trigger]
        owed(es, s, t) == if placed(j, i + 1, s, t) {
            initial_owed(ps, s, t)
        } else {
            0
        } by {
        if (s, t) == (i as nat, j as nat) {
            if i != j {
                assert(initial_owed(ps, s, t) == 0);
            }
        }
    }
    if i != j {
        assert(share(ps, j) * heads_upto(ps, i + 1) == 0);
    } else {
        assert(share(ps, j) * heads_upto(ps, i + 1) >= share(ps, j) * heads_upto(ps, i)) by (nonlinear_arith)
            requires heads_upto(ps, i + 1) >= heads_upto(ps, i);
    }
}

impl Payments {
    /// For each participant, in the order of its node: what it is owed in all
    /// (first vector) and what it owes in all (second vector), in thousandths.
    pub fn flows(&self) -> (r: (Vec<u64>, Vec<u64>))
        requires
            self.wf(),
        ensures
            r.0@.len() == self.nodes().len(),
            r.1@.len() == self.nodes().len(),
            forall|v: int| 0 <= v < self.nodes().len() ==> #[trigger] r.0@[v] == inflow(self.edges(), v as nat),
            forall|v: int| 0 <= v < self.nodes().len() ==> #[trigger] r.1@[v] == outflow(self.edges(), v as nat),
    {
        let ghost es = self.edges();
        proof {
            lemma_count_all_present(self.nodes());
        }
        let n = graph_node_count(&self.graph);
        let mut ins: Vec<u64> = Vec::new();
        let mut outs: Vec<u64> = Vec::new();
        let mut i: usize = 0;
        while i < n
            invariant
                i <= n,
                ins@.len() == i,
                outs@.len() == i,
                forall|v: int| 0 <= v < i ==> ins@[v] == 0 && outs@[v] == 0,
            decreases n - i,
        {
            ins.push(0);
            outs.push(0);
            i = i + 1;
        }
        let idx = graph_edge_indices(&self.graph);
        let mut k: usize = 0;
        let ghost mut p: int = 0;
        proof {
            assert forall|v: int| 0 <= v < n implies ins@[v] == slot_sum(es.take(0), into(v as nat))
                && outs@[v] == slot_sum(es.take(0), out_of(v as nat)) by {
                assert(es.take(0).len() == 0);
            }
        }
        while k < idx.len()
            invariant
                self.wf(),
                es == self.edges(),
                n == self.nodes().len(),
                ins@.len() == n,
                outs@.len() == n,
                k <= idx@.len(),
                0 <= p <= es.len(),
                k == 0 ==> p == 0,
                k > 0 ==> p == idx@[k - 1] + 1,
                forall|j: int| 0 <= j < idx@.len() ==> idx@[j] < es.len() && es[idx@[j] as int] is Some,
                forall|j1: int, j2: int| 0 <= j1 < j2 < idx@.len() ==> idx@[j1] < idx@[j2],
                forall|i: int|
                    0 <= i < es.len() && es[i] is Some ==> exists|j: int| 0 <= j < idx@.len() && idx@[j] == i,
                forall|v: int| 0 <= v < n ==> #[trigger] ins@[v] == slot_sum(es.take(p), into(v as nat)),
                forall|v: int| 0 <= v < n ==> #[trigger] outs@[v] == slot_sum(es.take(p), out_of(v as nat)),
            decreases idx@.len() - k,
        {
            let e = idx[k];
            proof {
                assert forall|i: int| p <= i < e implies es[i] is None by {
                    if es[i] is Some {
                        let m = choose|m: int| 0 <= m < idx@.len() && idx@[m] == i;
                        if m < k {
                            if m < k - 1 {
                                assert(idx@[m] < idx@[k - 1]);
                            }
                        } else if m > k {
                            assert(idx@[k as int] < idx@[m]);
                        }
                    }
                }
                assert forall|v: int| 0 <= v < n implies #[trigger] slot_sum(es.take(e as int + 1), into(v as nat))
                    == ins@[v] + into(v as nat)(es[e as int]) by {
                    lemma_take_vacant(es, p, e as int, into(v as nat));
                    lemma_take_step(es, e as int, into(v as nat));
                }
                assert forall|v: int| 0 <= v < n implies #[trigger] slot_sum(es.take(e as int + 1), out_of(v as nat))
                    == outs@[v] + out_of(v as nat)(es[e as int]) by {
                    lemma_take_vacant(es, p, e as int, out_of(v as nat));
                    lemma_take_step(es, e as int, out_of(v as nat));
                }
            }
            let (s, t) = graph_edge_endpoints(&self.graph, e).unwrap();
            let w = graph_edge_weight(&self.graph, e).unwrap();
            proof {
                lemma_take_le(es, e as int + 1, into(t as nat));
                lemma_take_le(es, e as int + 1, out_of(s as nat));
                lemma_flows_le_total(es, t as nat);
                lemma_flows_le_total(es, s as nat);
            }
            let ghost ins0 = ins@;
            let ghost outs0 = outs@;
            let vi = ins[t] + w.0;
            ins.set(t, vi);
            let vo = outs[s] + w.0;
            outs.set(s, vo);
            proof {
                p = e as int + 1;
                assert forall|v: int| 0 <= v < n implies #[trigger] ins@[v] == slot_sum(es.take(p), into(v as nat)) by {
                    assert(slot_sum(es.take(p), into(v as nat)) == ins0[v] + into(v as nat)(es[e as int]));
                }
                assert forall|v: int| 0 <= v < n implies #[trigger] outs@[v] == slot_sum(es.take(p), out_of(v as nat)) by {
                    assert(slot_sum(es.take(p), out_of(v as nat)) == outs0[v] + out_of(v as nat)(es[e as int]));
                }
            }
            k = k + 1;
        }
        proof {
            assert forall|i: int| p <= i < es.len() implies es[i] is None by {
                if es[i] is Some {
                    let m = choose|m: int| 0 <= m < idx@.len() && idx@[m] == i;
                    if m < k - 1 {
                        assert(idx@[m] < idx@[k - 1]);
                    }
                }
            }
            assert(es.take(es.len() as int) =~= es);
            assert forall|v: int| 0 <= v < n implies #[trigger] ins@[v] == inflow(es, v as nat) by {
                lemma_take_vacant(es, p, es.len() as int, into(v as nat));
            }
            assert forall|v: int| 0 <= v < n implies #[trigger] outs@[v] == outflow(es, v as nat) by {
                lemma_take_vacant(es, p, es.len() as int, out_of(v as nat));
            }
        }
        (ins, outs)
    }

    /// Whether every participant ends within the tolerance of the fair share:
    /// for each, what it spent plus what it owes less what it is owed, over its
    /// heads, may differ from all spending over all heads by at most half a
    /// cent times the number of heads in the group.
    pub fn validate(&self) -> (r: bool)
        requires
            self.wf(),
        ensures
            r == self.balanced(),
    {
        let ghost ps = self.people();
        proof {
            lemma_count_all_present(self.nodes());
        }
        let n = graph_node_count(&self.graph);
        let mut total: u128 = 0;
        let mut heads: u128 = 0;
        let mut i: usize = 0;
        while i < n
            invariant
                self.wf(),
                ps == self.people(),
                n == ps.len(),
                i <= n,
                total == spent_upto(ps, i as int),
                heads == heads_upto(ps, i as int),
                total <= i * 0x1_0000_0000_0000_0000,
                heads <= i * 0x1_0000_0000,
            decreases n - i,
        {
            let p = graph_node_weight(&self.graph, i).unwrap();
            assert(ps[i as int] == *p);
            total = total + p.money_spent().0 as u128;
            heads = heads + p.size() as u128;
            i = i + 1;
        }
        if heads == 0 {
            proof {
                if n > 0 {
                    lemma_heads_upto_mono(ps, 0, n as int);
                    assert(ps[0].wf());
                    assert(all_wf(ps));
                }
            }
            return true;
        }
        let fair: i128 = ((2 * total + heads) / (2 * heads)) as i128;
        let (ins, outs) = self.flows();
        let tol: i128 = TOLERANCE_PER_HEAD as i128 * heads as i128;
        let mut v: usize = 0;
        while v < n
            invariant
                self.wf(),
                ps == self.people(),
                n == ps.len(),
                v <= n,
                heads == heads_total(ps),
                heads > 0,
                heads <= n * 0x1_0000_0000,
                fair == fair_share(ps),
                total == spent_total(ps),
                total <= n * 0x1_0000_0000_0000_0000,
                n < u32::MAX,
                tol == 5 * heads_total(ps),
                ins@.len() == n,
                outs@.len() == n,
                forall|u: int| 0 <= u < n ==> #[trigger] ins@[u] == inflow(self.edges(), u as nat),
                forall|u: int| 0 <= u < n ==> #[trigger] outs@[u] == outflow(self.edges(), u as nat),
                forall|u: nat| u < v ==> #[trigger] within_tolerance(ps, u as int, self.balance(u)),
            decreases n - v,
        {
            let p = graph_node_weight(&self.graph, v).unwrap();
            assert(ps[v as int] == *p);
            let x: i128 = p.money_spent().0 as i128 + outs[v] as i128 - ins[v] as i128;
            assert(-0x2_0000_0000_0000_0000 <= x <= 0x2_0000_0000_0000_0000);
            let hv: i128 = p.size() as i128;
            assert(hv >= 1) by {
                assert(self.nodes()[v as int] is Some && self.nodes()[v as int]->0.wf());
            }
            let fin: i128 = if x >= 0 {
                (2 * x + hv) / (2 * hv)
            } else {
                let nx: i128 = -x;
                -((2 * nx + hv) / (2 * hv))
            };
            assert(fin == final_share(ps, v as int, self.balance(v as nat)));
            proof {
                if x >= 0 {
                    lemma_round_div_le(x as int, hv as int);
                } else {
                    lemma_round_div_le(-x as int, hv as int);
                }
                lemma_round_div_le(total as int, heads as int);
            }
            let d = fair - fin;
            if d > tol || d < -tol {
                assert(!within_tolerance(ps, v as int, self.balance(v as nat)));
                return false;
            }
            v = v + 1;
        }
        true
    }
}

impl Payments {
    /// Nets debts without changing anybody's net position: mutual debts are
    /// set against each other, chains are collapsed, and mutual debts that the
    /// collapsing made are set against each other again.
    pub fn net_out(&mut self)
        requires
            old(self).wf(),
        ensures
            final(self).wf(),
            final(self).nodes() == old(self).nodes(),
            forall|v: nat| #[trigger] final(self).balance(v) == old(self).balance(v),
            settled(final(self).edges()),
            no_chain(final(self).edges()),
            no_mutual(final(self).edges()),
            no_chain(old(self).edges()) && no_mutual(old(self).edges()) ==> forall|s: nat, t: nat|
                #[trigger] final(self).owes(s, t) == old(self).owes(s, t),
    {
        let ghost o = self.edges();
        self.simplify_bidirectional_edges();
        let ghost first = self.edges();
        proof {
            if no_chain(o) && no_mutual(o) {
                assert forall|s: nat, t: nat| #[trigger] owed(first, s, t) == owed(o, s, t) by {
                    assert(self.owes(s, t) == net_of_pair(owed(o, s, t), owed(o, t, s)));
                    if owed(o, s, t) > 0 {
                        assert(owed(o, t, s) == 0);
                    }
                }
                assert(no_chain(first)) by {
                    assert forall|a: nat, b: nat, c: nat|
                        a != c && #[trigger] owed(first, a, b) > 0 implies #[trigger] owed(first, b, c) == 0 by {
                        assert(owed(first, a, b) == owed(o, a, b));
                        assert(owed(first, b, c) == owed(o, b, c));
                    }
                }
            }
        }
        self.simplify_transitive_edges();
        let ghost mid = self.edges();
        self.simplify_bidirectional_edges();
        proof {
            let es = self.edges();
            if no_chain(o) && no_mutual(o) {
                assert(mid == first);
                assert forall|s: nat, t: nat| #[trigger] self.owes(s, t) == owed(o, s, t) by {
                    assert(self.owes(s, t) == net_of_pair(owed(mid, s, t), owed(mid, t, s)));
                    assert(owed(mid, s, t) == owed(o, s, t));
                    assert(owed(mid, t, s) == owed(o, t, s));
                    if owed(o, s, t) > 0 {
                        assert(owed(o, t, s) == 0);
                    }
                }
            }
            assert forall|a: nat, b: nat, c: nat|
                a != c && #[trigger] owed(es, a, b) > 0 implies #[trigger] owed(es, b, c) == 0 by {
                assert(self.owes(a, b) == net_of_pair(owed(mid, a, b), owed(mid, b, a)));
                assert(self.owes(b, c) == net_of_pair(owed(mid, b, c), owed(mid, c, b)));
            }
            assert forall|a: nat, b: nat| #[trigger] owed(es, a, b) > 0 implies owed(es, b, a) == 0 by {
                assert(self.owes(a, b) == net_of_pair(owed(mid, a, b), owed(mid, b, a)));
                assert(self.owes(b, a) == net_of_pair(owed(mid, b, a), owed(mid, a, b)));
            }
            assert(no_mutual(es));
            lemma_settled_of_netted(es, self.nodes().len());
        }
    }

    /// The greedy settlement of everybody's net position, as a graph over the
    /// same participants; nothing when an amount would not fit.
    fn settlement(&self) -> (r: Option<Payments>)
        requires
            self.wf(),
        ensures
            r matches Some(p) ==> (p.wf() && p.nodes() == self.nodes() && settled(p.edges())
                && exists|ts: Seq<Transfer>|
                #![trigger holds_transfers(p, ts)]
                {
                    &&& holds_transfers(p, ts)
                    &&& is_greedy_settlement(positions(*self), ts)
                    &&& settles_well(positions(*self), ts)
                    &&& greedy_fits(positions(*self), ts)
                    &&& (p.balanced() <==> transfers_balanced(self.people(), ts))
                }),
            r is None ==> forall|ts: Seq<Transfer>|
                #[trigger] is_greedy_settlement(positions(*self), ts) ==> !greedy_fits(
                    positions(*self),
                    ts,
                ),
    {
        let ghost pos = positions(*self);
        let (ins, outs) = self.flows();
        let n = ins.len();
        let mut bal: Vec<i128> = Vec::new();
        let mut v: usize = 0;
        while v < n
            invariant
                n == ins@.len(),
                n == outs@.len(),
                v <= n,
                bal@.len() == v,
                forall|u: int| 0 <= u < v ==> #[trigger] bal@[u] == ins@[u] - outs@[u],
                forall|u: int| 0 <= u < v ==> -(u64::MAX - 5) <= #[trigger] bal@[u] <= u64::MAX - 5,
                self.wf(),
                pos == positions(*self),
                n == self.nodes().len(),
                forall|u: int| 0 <= u < n ==> #[trigger] ins@[u] == inflow(self.edges(), u as nat),
                forall|u: int| 0 <= u < n ==> #[trigger] outs@[u] == outflow(self.edges(), u as nat),
                forall|u: int| 0 <= u < v ==> #[trigger] bal@[u] == pos[u],
            decreases n - v,
        {
            let b: i128 = ins[v] as i128 - outs[v] as i128;
            assert(b == pos[v as int]);
            if b > (u64::MAX - 5) as i128 || b < -((u64::MAX - 5) as i128) {
                assert(forall|ts: Seq<Transfer>| #[trigger] is_greedy_settlement(pos, ts) ==> !greedy_fits(pos, ts));
                return None;
            }
            bal.push(b);
            v = v + 1;
        }
        assert(bal@ =~= pos);
        let ts = settle_balances(&bal);
        proof {
            crate::settle::lemma_unsettled_le_nonzero(bal@);
            lemma_count_unsettled_le_len(bal@);
        }
        let mut g = graph_new();
        let mut i: usize = 0;
        while i < n
            invariant
                self.wf(),
                n == self.nodes().len(),
                i <= n,
                node_slots(g) == self.nodes().take(i as int),
                edge_slots(g) == Seq::<Slot>::empty(),
                pos == positions(*self),
            decreases n - i,
        {
            let p = graph_node_weight(&self.graph, i).unwrap();
            let ghost before = node_slots(g);
            graph_add_node(&mut g, p.duplicate());
            proof {
                assert forall|k: int| 0 <= k < before.len() implies before[k] is Some by {
                    assert(self.nodes()[k] is Some);
                }
                assert(self.nodes().take(i as int + 1) =~= before.push(Some(*p)));
            }
            i = i + 1;
        }
        assert(self.nodes().take(n as int) =~= self.nodes());
        let mut acc: u128 = 0;
        let mut k: usize = 0;
        while k < ts.len()
            invariant
                self.wf(),
                n == self.nodes().len(),
                n == bal@.len(),
                node_slots(g) == self.nodes(),
                k <= ts@.len(),
                ts@.len() < n || ts@.len() == 0,
                forall|j: int|
                    0 <= j < ts@.len() ==> {
                        let t = #[trigger] ts@[j];
                        &&& t.0 < n
                        &&& t.1 < n
                        &&& bal@[t.0 as int] < -10
                        &&& bal@[t.1 as int] > 10
                        &&& t.2 >= 10
                    },
                forall|j1: int, j2: int|
                    0 <= j1 < ts@.len() && 0 <= j2 < ts@.len() && j1 != j2 ==> (ts@[j1].0, ts@[j1].1) != (
                        ts@[j2].0,
                        ts@[j2].1,
                    ),
                edge_slots(g).len() == k,
                forall|j: int|
                    0 <= j < k ==> #[trigger] edge_slots(g)[j] == Some(
                        (ts@[j].0 as nat, ts@[j].1 as nat, Money(ts@[j].2)),
                    ),
                simple(edge_slots(g), n as nat),
                acc == weight_total(edge_slots(g)),
                acc <= u64::MAX,
                acc == transfers_total(ts@.take(k as int)),
                bal@ == pos,
                is_greedy_settlement(pos, ts@),
                pos == positions(*self),
                forall|u: nat| #[trigger] inflow(edge_slots(g), u) == received(ts@.take(k as int), u as int),
                forall|u: nat| #[trigger] outflow(edge_slots(g), u) == paid(ts@.take(k as int), u as int),
                forall|u: nat| #[trigger] inflow(edge_slots(g), u) > 0 ==> u < n && bal@[u as int] > 10,
                forall|u: nat| #[trigger] outflow(edge_slots(g), u) > 0 ==> u < n && bal@[u as int] < -10,
            decreases ts@.len() - k,
        {
            let t = ts[k];
            proof {
                assert(ts@.take(k as int + 1) =~= ts@.take(k as int).push(t));
                assert(ts@.take(k as int + 1).drop_last() =~= ts@.take(k as int));
            }
            if acc + t.2 as u128 > u64::MAX as u128 {
                proof {
                    lemma_transfers_total_prefix(ts@, k as int + 1);
                    assert(transfers_total(ts@.take(k as int + 1)) == acc + t.2);
                    assert(transfers_total(ts@) > u64::MAX);
                    assert forall|ts2: Seq<Transfer>| #[trigger] is_greedy_settlement(pos, ts2) implies !greedy_fits(pos, ts2) by {
                        lemma_greedy_unique(pos, ts2, ts@);
                    }
                    assert(pos == positions(*self));
                }
                return None;
            }
            let ghost es = edge_slots(g);
            let ghost x: Slot = Some((t.0 as nat, t.1 as nat, Money(t.2)));
            proof {
                assert forall|j: int| 0 <= j < es.len() implies #[trigger] es[j] is Some by {}
                assert forall|j: int, w: Money| 0 <= j < es.len() implies es[j] != Some((t.0 as nat, t.1 as nat, w)) by {
                    assert((ts@[j].0, ts@[j].1) != (ts@[k as int].0, ts@[k as int].1));
                }
            }
            graph_add_edge(&mut g, t.0, t.1, Money(t.2));
            proof {
                lemma_flows_push(es, x);
                lemma_push_transfer(ts@.take(k as int), t);
                assert(edge_slots(g) == es.push(x));
                assert(simple(edge_slots(g), n as nat)) by {
                    let u = edge_slots(g);
                    assert forall|j1: int, j2: int|
                        0 <= j1 < u.len() && 0 <= j2 < u.len() && j1 != j2 && u[j1] is Some && u[j2] is Some
                            implies ends(u[j1]) != ends(u[j2]) by {
                        assert(u[j1] == Some((ts@[j1].0 as nat, ts@[j1].1 as nat, Money(ts@[j1].2))));
                        assert(u[j2] == Some((ts@[j2].0 as nat, ts@[j2].1 as nat, Money(ts@[j2].2))));
                    }
                }
            }
            acc = acc + t.2 as u128;
            k = k + 1;
        }
        let p = Payments { graph: g };
        proof {
            let tsv = ts@;
            assert(tsv.take(k as int) =~= tsv);
            assert(holds_transfers(p, tsv));
            assert(p.people() == self.people());
            assert(p.balanced() <==> transfers_balanced(self.people(), tsv)) by {
                if p.balanced() {
                    assert forall|v: nat| v < self.people().len() implies #[trigger] within_tolerance(
                        self.people(),
                        v as int,
                        received(tsv, v as int) - paid(tsv, v as int),
                    ) by {
                        assert(within_tolerance(p.people(), v as int, p.balance(v)));
                    }
                }
                if transfers_balanced(self.people(), tsv) {
                    assert forall|v: nat| v < p.nodes().len() implies #[trigger] within_tolerance(
                        p.people(),
                        v as int,
                        p.balance(v),
                    ) by {
                        assert(within_tolerance(self.people(), v as int, received(tsv, v as int) - paid(tsv, v as int)));
                    }
                }
            }
            assert forall|u: nat| #[trigger] inflow(p.edges(), u) == 0 || outflow(p.edges(), u) == 0 by {}
            assert forall|i: int| 0 <= i < p.nodes().len() implies #[trigger] p.nodes()[i] is Some
                && p.nodes()[i]->0.wf() by {
                assert(self.nodes()[i] is Some);
            }
        }
        Some(p)
    }

    /// Reduces the graph to few transfers while every participant stays
    /// within the tolerance of the fair share. The greedy settlement of the
    /// net positions (`settle_balances`, which has one result) replaces all
    /// debts whenever its amounts fit and it passes `validate`; otherwise
    /// debts are netted, which keeps every net position exactly. Either way
    /// nobody both owes and is owed afterwards. A graph already at rest (see
    /// `at_rest`) keeps every debt, and a result that kept every net position
    /// is at rest, so a second pass then changes no debt.
    pub fn optimize(&mut self)
        requires
            old(self).wf(),
        ensures
            final(self).wf(),
            final(self).nodes() == old(self).nodes(),
            settled(final(self).edges()),
            old(self).balanced() ==> final(self).balanced(),
            forall|ts: Seq<Transfer>|
                #[trigger] is_greedy_settlement(positions(*old(self)), ts) && greedy_fits(
                    positions(*old(self)),
                    ts,
                ) && transfers_balanced(old(self).people(), ts) ==> holds_transfers(*final(self), ts),
            (exists|ts: Seq<Transfer>|
                #![trigger holds_transfers(*final(self), ts)]
                {
                    &&& holds_transfers(*final(self), ts)
                    &&& is_greedy_settlement(positions(*old(self)), ts)
                    &&& settles_well(positions(*old(self)), ts)
                    &&& final(self).balanced()
                }) || ((forall|v: nat| #[trigger] final(self).balance(v) == old(self).balance(v))
                && no_chain(final(self).edges()) && no_mutual(final(self).edges())),
            at_rest(*old(self)) ==> forall|s: nat, t: nat|
                #[trigger] final(self).owes(s, t) == old(self).owes(s, t),
            (forall|v: nat| #[trigger] final(self).balance(v) == old(self).balance(v)) ==> at_rest(
                *final(self),
            ),
    {
        let ghost pos = positions(*self);
        let ghost people = self.people();
        match self.settlement() {
            Some(p) => {
                let ghost ts0 = choose|ts: Seq<Transfer>|
                    #![trigger holds_transfers(p, ts)]
                    {
                        &&& holds_transfers(p, ts)
                        &&& is_greedy_settlement(pos, ts)
                        &&& settles_well(pos, ts)
                        &&& greedy_fits(pos, ts)
                        &&& (p.balanced() <==> transfers_balanced(self.people(), ts))
                    };
                proof {
                    assert forall|ts: Seq<Transfer>| #[trigger] is_greedy_settlement(pos, ts) implies ts == ts0 by {
                        lemma_greedy_unique(pos, ts, ts0);
                    }
                }
                if p.validate() {
                    proof {
                        assert(p.people() == self.people());
                        if at_rest(*self) {
                            if !(no_chain(self.edges()) && no_mutual(self.edges()) && forall|ts: Seq<Transfer>|
                                #[trigger] is_greedy_settlement(pos, ts) ==> !(greedy_fits(pos, ts)
                                    && transfers_balanced(people, ts))) {
                                let ts1 = choose|ts: Seq<Transfer>|
                                    #[trigger] is_greedy_settlement(pos, ts) && greedy_fits(pos, ts)
                                        && transfers_balanced(people, ts) && holds_transfers(*self, ts);
                                assert(ts1 == ts0);
                                assert(p.edges() =~= self.edges());
                            } else {
                                assert(!transfers_balanced(people, ts0));
                            }
                        }
                        if forall|v: nat| #[trigger] p.balance(v) == self.balance(v) {
                            assert(positions(p) =~= pos);
                            assert(holds_transfers(p, ts0));
                        }
                    }
                    *self = p;
                    return;
                }
                proof {
                    assert(!transfers_balanced(people, ts0));
                    assert forall|ts: Seq<Transfer>| #[trigger] is_greedy_settlement(pos, ts) implies !(
                        greedy_fits(pos, ts) && transfers_balanced(people, ts)) by {}
                }
            },
            None => {},
        }
        assert(forall|ts: Seq<Transfer>| #[trigger] is_greedy_settlement(pos, ts) ==> !(
            greedy_fits(pos, ts) && transfers_balanced(people, ts)));
        let ghost before = *self;
        self.net_out();
        proof {
            assert(self.people() == old(self).people());
            if at_rest(before) {
                if !(no_chain(before.edges()) && no_mutual(before.edges())) {
                    let ts1 = choose|ts: Seq<Transfer>|
                        #[trigger] is_greedy_settlement(pos, ts) && greedy_fits(pos, ts)
                            && transfers_balanced(people, ts) && holds_transfers(before, ts);
                    assert(false);
                }
            }
            assert(positions(*self) =~= pos);
        }
    }
}

proof fn lemma_count_unsettled_le_len(s: Seq<i128>)
    ensures
        crate::settle::count_unsettled(s) <= s.len(),
    decreases s.len(),
{
    if s.len() > 0 {
        lemma_count_unsettled_le_len(s.drop_last());
    }
}

/// A graph at rest: either it holds exactly the greedy settlement of its own
/// net positions, and that settlement fits and keeps everyone within the
/// tolerance; or no such settlement exists and its debts have neither
/// chains nor mutual debts.
pub open spec fn at_rest(g: Payments) -> bool {
    (exists|ts: Seq<Transfer>|
        #[trigger] is_greedy_settlement(positions(g), ts) && greedy_fits(positions(g), ts)
            && transfers_balanced(g.people(), ts) && holds_transfers(g, ts)) || (no_chain(g.edges())
        && no_mutual(g.edges()) && forall|ts: Seq<Transfer>|
        #[trigger] is_greedy_settlement(positions(g), ts) ==> !(greedy_fits(positions(g), ts)
            && transfers_balanced(g.people(), ts)))
}

/// The debts of `p` are exactly the transfers, one edge slot each, in order.
pub open spec fn holds_transfers(p: Payments, ts: Seq<Transfer>) -> bool {
    &&& p.edges().len() == ts.len()
    &&& forall|j: int|
        0 <= j < ts.len() ==> #[trigger] p.edges()[j] == Some(
            (ts[j].0 as nat, ts[j].1 as nat, Money(ts[j].2)),
        )
}

/// Whether a transfer stands for the edge in slot `i`.
pub open spec fn stands_for(p: Payment, people: Seq<Person>, es: Seq<Slot>, i: int) -> bool {
    &&& 0 <= i < es.len()
    &&& es[i] is Some
    &&& ends(es[i]).0 < people.len()
    &&& ends(es[i]).1 < people.len()
    &&& p.from == people[ends(es[i]).0 as int]
    &&& p.to == people[ends(es[i]).1 as int]
    &&& p.value.0 == amt(es[i])
}

/// Whether the transfers stand for the edges in slots `ix`, which run
/// upwards and take in every present edge.
pub open spec fn lists_edges(ix: Seq<usize>, r: Seq<Payment>, people: Seq<Person>, es: Seq<Slot>) -> bool {
    &&& ix.len() == r.len()
    &&& forall|k1: int, k2: int| 0 <= k1 < k2 < ix.len() ==> ix[k1] < ix[k2]
    &&& forall|k: int| 0 <= k < r.len() ==> stands_for(#[trigger] r[k], people, es, ix[k] as int)
    &&& forall|i: int|
        0 <= i < es.len() && es[i] is Some ==> exists|k: int| 0 <= k < ix.len() && ix[k] == i
}

impl Payments {
    /// All participants, in the order of their nodes.
    pub fn get_persons(&self) -> (r: Vec<Person>)
        requires
            self.wf(),
        ensures
            r@ == self.people(),
    {
        proof {
            lemma_count_all_present(self.nodes());
        }
        let n = graph_node_count(&self.graph);
        let mut r: Vec<Person> = Vec::new();
        let mut i: usize = 0;
        while i < n
            invariant
                self.wf(),
                n == self.nodes().len(),
                i <= n,
                r@ == self.people().take(i as int),
            decreases n - i,
        {
            let p = graph_node_weight(&self.graph, i).unwrap();
            r.push(p.duplicate());
            proof {
                assert(self.people().take(i as int + 1) =~= self.people().take(i as int).push(*p));
            }
            i = i + 1;
        }
        assert(self.people().take(n as int) =~= self.people());
        r
    }

    /// Every debt as a transfer, in the order of the edge indices: each
    /// present edge once.
    pub fn to_vec(&self) -> (r: Vec<Payment>)
        requires
            self.wf(),
        ensures
            exists|ix: Seq<usize>| #[trigger] lists_edges(ix, r@, self.people(), self.edges()),
    {
        let idx = graph_edge_indices(&self.graph);
        let mut r: Vec<Payment> = Vec::new();
        let mut k: usize = 0;
        while k < idx.len()
            invariant
                self.wf(),
                k <= idx@.len(),
                r@.len() == k,
                forall|j: int| 0 <= j < idx@.len() ==> idx@[j] < self.edges().len() && self.edges()[idx@[j] as int] is Some,
                forall|j: int| 0 <= j < k ==> stands_for(#[trigger] r@[j], self.people(), self.edges(), idx@[j] as int),
            decreases idx@.len() - k,
        {
            let e = idx[k];
            let (s, t) = graph_edge_endpoints(&self.graph, e).unwrap();
            let w = graph_edge_weight(&self.graph, e).unwrap();
            let from = graph_node_weight(&self.graph, s).unwrap();
            let to = graph_node_weight(&self.graph, t).unwrap();
            let pay = Payment::new(from, to, w);
            r.push(pay);
            k = k + 1;
        }
        assert(lists_edges(idx@, r@, self.people(), self.edges()));
        r
    }
}

/// Whether some participant in `ps` has identity `id`.
pub open spec fn has_id(ps: Seq<Person>, id: Option<Seq<char>>) -> bool {
    exists|i: int| 0 <= i < ps.len() && #[trigger] ps[i].id() == id
}

/// `ps`, with `p` added at the end unless someone with its identity is there.
pub open spec fn with_person(ps: Seq<Person>, p: Person) -> Seq<Person> {
    if has_id(ps, p.id()) {
        ps
    } else {
        ps.push(p)
    }
}

/// The distinct participants of the transfers, in order of first appearance
/// (payer before payee).
pub open spec fn people_of(pays: Seq<Payment>) -> Seq<Person>
    decreases pays.len(),
{
    if pays.len() == 0 {
        Seq::empty()
    } else {
        with_person(with_person(people_of(pays.drop_last()), pays.last().from), pays.last().to)
    }
}

/// What the transfers move from identity `x` to a distinct identity `y`.
pub open spec fn paid_between(pays: Seq<Payment>, x: Option<Seq<char>>, y: Option<Seq<char>>) -> nat
    decreases pays.len(),
{
    if pays.len() == 0 {
        0
    } else {
        paid_between(pays.drop_last(), x, y) + if pays.last().from.id() == x && pays.last().to.id()
            == y && x != y {
            pays.last().value.0 as nat
        } else {
            0
        }
    }
}

/// The sum of the amounts of the transfers.
pub open spec fn value_total(pays: Seq<Payment>) -> nat
    decreases pays.len(),
{
    if pays.len() == 0 {
        0
    } else {
        value_total(pays.drop_last()) + pays.last().value.0 as nat
    }
}

/// No two participants share an identity.
pub open spec fn distinct_ids(ps: Seq<Person>) -> bool {
    forall|i: int, j: int| 0 <= i < ps.len() && 0 <= j < ps.len() && i != j ==> ps[i].id() != ps[j].id()
}

proof fn lemma_people_of_cover(pays: Seq<Payment>, j: int)
    requires
        0 <= j < pays.len(),
    ensures
        has_id(people_of(pays), pays[j].from.id()),
        has_id(people_of(pays), pays[j].to.id()),
    decreases pays.len(),
{
    let prev = people_of(pays.drop_last());
    let m = with_person(prev, pays.last().from);
    let r = with_person(m, pays.last().to);
    assert forall|id: Option<Seq<char>>| has_id(prev, id) implies has_id(r, id) by {
        let i = choose|i: int| 0 <= i < prev.len() && #[trigger] prev[i].id() == id;
        assert(m[i] == prev[i]);
        assert(r[i] == m[i]);
    }
    if j < pays.len() - 1 {
        lemma_people_of_cover(pays.drop_last(), j);
    } else {
        if !has_id(prev, pays.last().from.id()) {
            assert(m[prev.len() as int].id() == pays.last().from.id());
            assert(r[prev.len() as int] == m[prev.len() as int]);
        }
        assert(has_id(m, pays.last().from.id()));
        let i = choose|i: int| 0 <= i < m.len() && #[trigger] m[i].id() == pays.last().from.id();
        assert(r[i] == m[i]);
        if !has_id(m, pays.last().to.id()) {
            assert(r[m.len() as int].id() == pays.last().to.id());
        }
    }
}

proof fn lemma_paid_between_absent(pays: Seq<Payment>, x: Option<Seq<char>>, y: Option<Seq<char>>)
    requires
        !has_id(people_of(pays), x) || !has_id(people_of(pays), y),
    ensures
        paid_between(pays, x, y) == 0,
    decreases pays.len(),
{
    if pays.len() > 0 {
        let j = pays.len() - 1;
        lemma_people_of_cover(pays, j);
        let prev = people_of(pays.drop_last());
        assert forall|id: Option<Seq<char>>| has_id(prev, id) implies has_id(people_of(pays), id) by {
            let m = with_person(prev, pays.last().from);
            let i = choose|i: int| 0 <= i < prev.len() && #[trigger] prev[i].id() == id;
            assert(m[i] == prev[i]);
            assert(with_person(m, pays.last().to)[i] == m[i]);
        }
        lemma_paid_between_absent(pays.drop_last(), x, y);
    }
}

/// Finds the node of participant `p`, adding one when nobody with its
/// identity is there yet.
fn node_for(g: &mut DebtGraph, people: &mut Vec<Person>, p: &Person) -> (r: usize)
    requires
        node_slots(*old(g)) == old(people)@.map_values(|q: Person| Some(q)),
        old(people)@.len() + 1 < u32::MAX,
        distinct_ids(old(people)@),
    ensures
        final(people)@ == with_person(old(people)@, *p),
        node_slots(*final(g)) == final(people)@.map_values(|q: Person| Some(q)),
        edge_slots(*final(g)) == edge_slots(*old(g)),
        r < final(people)@.len(),
        final(people)@[r as int].id() == p.id(),
        distinct_ids(final(people)@),
{
    let mut i: usize = 0;
    let mut found: usize = people.len();
    while i < people.len() && found == people.len()
        invariant
            people@ == old(people)@,
            i <= people@.len(),
            found == people@.len() || (found < people@.len() && people@[found as int].id() == p.id()),
            found == people@.len() ==> forall|k: int| 0 <= k < i ==> #[trigger] people@[k].id() != p.id(),
        decreases people@.len() - i,
    {
        if people[i].same_as(p) {
            found = i;
        }
        i = i + 1;
    }
    if found < people.len() {
        assert(has_id(people@, p.id()));
        return found;
    }
    assert(!has_id(people@, p.id()));
    let ghost before = node_slots(*g);
    let in_graph = p.duplicate();
    let in_list = p.duplicate();
    proof {
        assert forall|k: int| 0 <= k < before.len() implies before[k] is Some by {
            assert(before[k] == Some(old(people)@[k]));
        }
    }
    let r = graph_add_node(g, in_graph);
    people.push(in_list);
    proof {
        assert(r == before.len());
        assert(node_slots(*g) == before.push(Some(*p)));
        assert(node_slots(*g) =~= people@.map_values(|q: Person| Some(q)));
        assert forall|i: int, j: int|
            0 <= i < people@.len() && 0 <= j < people@.len() && i != j implies people@[i].id() != people@[j].id() by {
            if i < old(people)@.len() && j < old(people)@.len() {
                assert(people@[i] == old(people)@[i] && people@[j] == old(people)@[j]);
            } else if i < old(people)@.len() {
                assert(people@[i] == old(people)@[i]);
            } else {
                assert(people@[j] == old(people)@[j]);
            }
        }
    }
    r
}

impl Payments {
    /// The graph of a list of transfers: one node per distinct participant
    /// (by identity, in order of first appearance), and from each participant
    /// to each other one a single edge carrying the sum of the transfers
    /// between them. Transfers of nothing, and from a participant to itself,
    /// add no edge.
    pub fn new(payments: &[Payment]) -> (r: Payments)
        requires
            forall|k: int|
                0 <= k < payments@.len() ==> (#[trigger] payments@[k]).from.wf()
                    && payments@[k].to.wf(),
            payments@.len() < 0x7fff_ffff,
            value_total(payments@) <= u64::MAX,
        ensures
            r.wf(),
            r.people() == people_of(payments@),
            forall|s: nat, t: nat|
                s < r.people().len() && t < r.people().len() ==> #[trigger] r.owes(s, t)
                    == paid_between(payments@, r.people()[s as int].id(), r.people()[t as int].id()),
    {
        let ghost pays = payments@;
        let mut g = graph_new();
        let mut people: Vec<Person> = Vec::new();
        let mut k: usize = 0;
        proof {
            assert(people@.map_values(|q: Person| Some(q)) =~= Seq::<Option<Person>>::empty());
        }
        while k < payments.len()
            invariant
                pays == payments@,
                k <= pays.len(),
                pays.len() < 0x7fff_ffff,
                value_total(pays) <= u64::MAX,
                forall|j: int| 0 <= j < pays.len() ==> (#[trigger] pays[j]).from.wf() && pays[j].to.wf(),
                people@ == people_of(pays.take(k as int)),
                people@.len() <= 2 * k,
                distinct_ids(people@),
                forall|i: int| 0 <= i < people@.len() ==> #[trigger] people@[i].wf(),
                node_slots(g) == people@.map_values(|q: Person| Some(q)),
                simple(edge_slots(g), people@.len()),
                forall|i: int| 0 <= i < edge_slots(g).len() ==> #[trigger] edge_slots(g)[i] is Some,
                edge_slots(g).len() <= k,
                weight_total(edge_slots(g)) <= value_total(pays.take(k as int)),
                forall|s: nat, t: nat|
                    s < people@.len() && t < people@.len() ==> #[trigger] owed(edge_slots(g), s, t)
                        == paid_between(pays.take(k as int), people@[s as int].id(), people@[t as int].id()),
            decreases pays.len() - k,
        {
            let ghost pre = pays.take(k as int);
            let ghost post = pays.take(k as int + 1);
            let ghost people0 = people@;
            proof {
                assert(post.drop_last() =~= pre);
                assert(post.last() == pays[k as int]);
                lemma_value_total_prefix(pays, k as int + 1);
            }
            let pay = &payments[k];
            let a = node_for(&mut g, &mut people, &pay.from);
            let ghost people1 = people@;
            let b = node_for(&mut g, &mut people, &pay.to);
            let ghost es = edge_slots(g);
            let ghost n1 = people@.len();
            proof {
                assert(people@ == people_of(post));
                assert(people1.len() >= people0.len());
                assert forall|i: int| 0 <= i < people0.len() implies people@[i] == people0[i] by {
                    assert(people1[i] == people0[i]);
                }
                assert(people@[a as int] == people1[a as int]);
                assert forall|i: int| 0 <= i < people@.len() implies #[trigger] people@[i].wf() by {
                    if i >= people0.len() {
                        if i == people0.len() && people1.len() > people0.len() {
                            assert(people@[i] == people1[i]);
                        }
                    }
                }
                // old edges stay simple over the larger node count, and pairs
                // with a new node owe nothing on either side
                assert forall|s: nat, t: nat|
                    s < n1 && t < n1 && (s >= people0.len() || t >= people0.len()) implies owed(es, s, t) == 0
                        && paid_between(pre, people@[s as int].id(), people@[t as int].id()) == 0 by {
                    lemma_owed_none(es, s, t);
                    if s >= people0.len() {
                        assert(!has_id(people_of(pre), people@[s as int].id())) by {
                            if has_id(people0, people@[s as int].id()) {
                                let i = choose|i: int| 0 <= i < people0.len() && #[trigger] people0[i].id() == people@[s as int].id();
                                assert(people@[i] == people0[i]);
                            }
                        }
                    } else {
                        assert(!has_id(people_of(pre), people@[t as int].id())) by {
                            if has_id(people0, people@[t as int].id()) {
                                let i = choose|i: int| 0 <= i < people0.len() && #[trigger] people0[i].id() == people@[t as int].id();
                                assert(people@[i] == people0[i]);
                            }
                        }
                    }
                    lemma_paid_between_absent(pre, people@[s as int].id(), people@[t as int].id());
                }
                assert forall|s: nat, t: nat|
                    s < n1 && t < n1 implies #[trigger] owed(es, s, t) == paid_between(
                        pre,
                        people@[s as int].id(),
                        people@[t as int].id(),
                    ) by {
                    if s < people0.len() && t < people0.len() {
                        assert(people@[s as int] == people0[s as int]);
                        assert(people@[t as int] == people0[t as int]);
                    }
                }
                lemma_flows_le_total(es, 0);
            }
            if a != b && pay.value.0 > 0 {
                match graph_find_edge(&g, a, b) {
                    Some(e) => {
                        let w = graph_edge_weight(&g, e).unwrap();
                        proof {
                            lemma_slot_sum_ge(es, e as int, amount_fn());
                            lemma_owed_edge(es, n1, e as int);
                        }
                        let nw = w.add(pay.value);
                        proof {
                            lemma_simple_reweigh(es, n1, e as int, nw);
                            lemma_flows_update(es, e as int, with_amount(es[e as int], nw));
                            lemma_owed_update(es, e as int, with_amount(es[e as int], nw));
                        }
                        graph_set_edge_weight(&mut g, e, nw);
                    },
                    None => {
                        proof {
                            assert forall|j: int| 0 <= j < es.len() implies #[trigger] es[j] is Some by {}
                        }
                        graph_add_edge(&mut g, a, b, pay.value);
                        proof {
                            let x: Slot = Some((a as nat, b as nat, pay.value));
                            lemma_flows_push(es, x);
                            assert(edge_slots(g) == es.push(x));
                            assert(simple(edge_slots(g), n1)) by {
                                let u = edge_slots(g);
                                assert forall|j: int| 0 <= j < es.len() implies u[j] == es[j] by {}
                                assert forall|j: int| 0 <= j < es.len() && es[j] is Some implies ends(es[j]) != (a as nat, b as nat) by {
                                    if let Some(q) = es[j] {
                                        if ends(es[j]) == (a as nat, b as nat) {
                                            assert(es[j] == Some((a as nat, b as nat, q.2)));
                                        }
                                    }
                                }
                            }
                        }
                    },
                }
            }
            proof {
                let es2 = edge_slots(g);
                assert forall|s: nat, t: nat|
                    s < n1 && t < n1 implies #[trigger] owed(es2, s, t) == paid_between(
                        post,
                        people@[s as int].id(),
                        people@[t as int].id(),
                    ) by {
                    if (s, t) != (a as nat, b as nat) {
                        if people@[s as int].id() == pay.from.id() && people@[t as int].id() == pay.to.id() {
                            assert(s == a as nat);
                            assert(t == b as nat);
                        }
                    }
                }
                assert forall|i: int| 0 <= i < es2.len() implies #[trigger] es2[i] is Some by {
                    if i < es.len() {
                        assert(es[i] is Some);
                    }
                }
            }
            k = k + 1;
        }
        proof {
            assert(pays.take(k as int) =~= pays);
        }
        let r = Payments { graph: g };
        proof {
            assert(r.people() =~= people@);
            assert forall|i: int| 0 <= i < r.nodes().len() implies #[trigger] r.nodes()[i] is Some
                && r.nodes()[i]->0.wf() by {
                assert(people@[i].wf());
            }
        }
        r
    }
}

proof fn lemma_value_total_prefix(pays: Seq<Payment>, k: int)
    requires
        0 <= k <= pays.len(),
    ensures
        value_total(pays.take(k)) <= value_total(pays),
    decreases pays.len() - k,
{
    if k < pays.len() {
        lemma_value_total_prefix(pays, k + 1);
        assert(pays.take(k + 1).drop_last() =~= pays.take(k));
    } else {
        assert(pays.take(k) =~= pays);
    }
}

} // verus!
