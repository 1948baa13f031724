//! Sums over the edge slots of a debt graph: what one participant owes
//! another, and what flows into and out of each participant.

use vstd::prelude::*;

use crate::money::Money;

verus! {

/// An edge slot: `(debtor, creditor, amount)`, or vacant.
pub type Slot = Option<(nat, nat, Money)>;

/// The endpoints of an edge slot (`(0, 0)` when vacant).
pub open spec fn ends(x: Slot) -> (nat, nat) {
    match x {
        Some(e) => (e.0, e.1),
        None => (0, 0),
    }
}

/// The amount of an edge slot in thousandths (nothing when vacant).
pub open spec fn amt(x: Slot) -> nat {
    match x {
        Some(e) => e.2.0 as nat,
        None => 0,
    }
}

/// An edge slot with its amount replaced by `w`.
pub open spec fn with_amount(s: Slot, w: Money) -> Slot {
    match s {
        Some(t) => Some((t.0, t.1, w)),
        None => None,
    }
}

/// The amount held in an edge slot.
pub open spec fn amount_of(s: Slot) -> Option<Money> {
    match s {
        Some(t) => Some(t.2),
        None => None,
    }
}

/// The sum of `f` over the slots.
pub open spec fn slot_sum(es: Seq<Slot>, f: spec_fn(Slot) -> nat) -> nat
    decreases es.len(),
{
    if es.len() == 0 {
        0
    } else {
        slot_sum(es.drop_last(), f) + f(es.last())
    }
}

/// The amount of a slot if it goes from `s` to `t`.
pub open spec fn between(s: nat, t: nat) -> spec_fn(Slot) -> nat {
    |x: Slot|
        if x is Some && ends(x) == (s, t) {
            amt(x)
        } else {
            0
        }
}

/// The amount of a slot if it goes into `v`.
pub open spec fn into(v: nat) -> spec_fn(Slot) -> nat {
    |x: Slot|
        if x is Some && ends(x).1 == v {
            amt(x)
        } else {
            0
        }
}

/// The amount of a slot if it goes out of `v`.
pub open spec fn out_of(v: nat) -> spec_fn(Slot) -> nat {
    |x: Slot|
        if x is Some && ends(x).0 == v {
            amt(x)
        } else {
            0
        }
}

/// The amount of any slot.
pub open spec fn amount_fn() -> spec_fn(Slot) -> nat {
    |x: Slot| amt(x)
}

/// The sum of all amounts owed.
pub open spec fn weight_total(es: Seq<Slot>) -> nat {
    slot_sum(es, amount_fn())
}

/// What `s` owes `t`.
pub open spec fn owed(es: Seq<Slot>, s: nat, t: nat) -> nat {
    slot_sum(es, between(s, t))
}

/// What `v` is owed, over all its incoming edges.
pub open spec fn inflow(es: Seq<Slot>, v: nat) -> nat {
    slot_sum(es, into(v))
}

/// What `v` owes, over all its outgoing edges.
pub open spec fn outflow(es: Seq<Slot>, v: nat) -> nat {
    slot_sum(es, out_of(v))
}

/// The net position of `v`: what it is owed less what it owes.
pub open spec fn net(es: Seq<Slot>, v: nat) -> int {
    inflow(es, v) - outflow(es, v)
}

/// No chain of two debts `a -> b -> c` with `a != c` is left: whoever is
/// owed something owes nothing to a third party.
pub open spec fn no_chain(es: Seq<Slot>) -> bool {
    forall|a: nat, b: nat, c: nat|
        a != c && #[trigger] owed(es, a, b) > 0 ==> #[trigger] owed(es, b, c) == 0
}

/// A path of debts: each participant in `p` owes something to the next.
pub open spec fn is_debt_path(es: Seq<Slot>, p: Seq<nat>) -> bool {
    &&& p.len() >= 2
    &&& forall|i: int| 0 <= i < p.len() - 1 ==> #[trigger] owed(es, p[i], p[i + 1]) > 0
}

/// Whether a path of debts leads from `a` to `c`.
pub open spec fn connected(es: Seq<Slot>, a: nat, c: nat) -> bool {
    exists|p: Seq<nat>| #[trigger] is_debt_path(es, p) && p[0] == a && p.last() == c
}

/// Every debt in `cur` joins a pair that a path of debts joins in `o`.
pub open spec fn within_paths(cur: Seq<Slot>, o: Seq<Slot>) -> bool {
    forall|x: nat, y: nat| #[trigger] owed(cur, x, y) > 0 ==> connected(o, x, y)
}

/// No participant both owes and is owed.
pub open spec fn settled(es: Seq<Slot>) -> bool {
    forall|v: nat| #[trigger] inflow(es, v) == 0 || outflow(es, v) == 0
}

/// No two participants owe each other.
pub open spec fn no_mutual(es: Seq<Slot>) -> bool {
    forall|a: nat, b: nat| #[trigger] owed(es, a, b) > 0 ==> owed(es, b, a) == 0
}

/// Edges join distinct nodes below `n`, carry a positive amount, and no two
/// present edges join the same ordered pair.
pub open spec fn simple(es: Seq<Slot>, n: nat) -> bool {
    &&& forall|i: int|
        0 <= i < es.len() && es[i] is Some ==> ends(es[i]).0 < n && ends(es[i]).1 < n && ends(
            es[i],
        ).0 != ends(es[i]).1 && amt(es[i]) > 0
    &&& forall|i: int, j: int|
        0 <= i < es.len() && 0 <= j < es.len() && i != j && es[i] is Some && es[j] is Some
            ==> ends(es[i]) != ends(es[j])
}

pub proof fn lemma_connected_edge(es: Seq<Slot>, a: nat, c: nat)
    requires
        owed(es, a, c) > 0,
    ensures
        connected(es, a, c),
{
    let p = seq![a, c];
    assert(owed(es, p[0], p[1]) > 0);
    assert(is_debt_path(es, p));
}

pub proof fn lemma_connected_trans(es: Seq<Slot>, a: nat, b: nat, c: nat)
    requires
        connected(es, a, b),
        connected(es, b, c),
    ensures
        connected(es, a, c),
{
    let p1 = choose|p: Seq<nat>| #[trigger] is_debt_path(es, p) && p[0] == a && p.last() == b;
    let p2 = choose|p: Seq<nat>| #[trigger] is_debt_path(es, p) && p[0] == b && p.last() == c;
    let q = p1 + p2.drop_first();
    assert forall|i: int| 0 <= i < q.len() - 1 implies #[trigger] owed(es, q[i], q[i + 1]) > 0 by {
        if i < p1.len() - 1 {
            assert(q[i] == p1[i] && q[i + 1] == p1[i + 1]);
        } else if i == p1.len() - 1 {
            assert(q[i] == p2[0] && q[i + 1] == p2[1]);
        } else {
            let j = i - p1.len() + 1;
            assert(q[i] == p2[j] && q[i + 1] == p2[j + 1]);
        }
    }
    assert(is_debt_path(es, q));
    assert(q.last() == p2.last());
}

/// Debts that only shrink, or a new debt from `a` to `c` where `a` owed `b`
/// and `b` owed `c`, keep every debt within the paths of `o`.
pub proof fn lemma_within_paths_step(old: Seq<Slot>, new: Seq<Slot>, o: Seq<Slot>, a: nat, b: nat, c: nat)
    requires
        within_paths(old, o),
        owed(old, a, b) > 0,
        owed(old, b, c) > 0,
        forall|x: nat, y: nat| #[trigger] owed(new, x, y) > 0 ==> owed(old, x, y) > 0 || (x == a && y == c),
    ensures
        within_paths(new, o),
{
    assert forall|x: nat, y: nat| #[trigger] owed(new, x, y) > 0 implies connected(o, x, y) by {
        if owed(old, x, y) > 0 {
        } else {
            assert(connected(o, a, b));
            assert(connected(o, b, c));
            lemma_connected_trans(o, a, b, c);
        }
    }
}

pub proof fn lemma_within_paths_refl(es: Seq<Slot>)
    ensures
        within_paths(es, es),
{
    assert forall|x: nat, y: nat| #[trigger] owed(es, x, y) > 0 implies connected(es, x, y) by {
        lemma_connected_edge(es, x, y);
    }
}

pub proof fn lemma_slot_sum_update(es: Seq<Slot>, i: int, x: Slot, f: spec_fn(Slot) -> nat)
    requires
        0 <= i < es.len(),
    ensures
        slot_sum(es.update(i, x), f) == slot_sum(es, f) - f(es[i]) + f(x),
    decreases es.len(),
{
    let u = es.update(i, x);
    if i == es.len() - 1 {
        assert(u.drop_last() =~= es.drop_last());
    } else {
        assert(u.drop_last() =~= es.drop_last().update(i, x));
        lemma_slot_sum_update(es.drop_last(), i, x, f);
    }
}

/// A sum in which only slot `i` may count is the count of slot `i`.
pub proof fn lemma_slot_sum_single(es: Seq<Slot>, i: int, f: spec_fn(Slot) -> nat)
    requires
        0 <= i < es.len(),
        forall|j: int| 0 <= j < es.len() && j != i ==> f(es[j]) == 0,
    ensures
        slot_sum(es, f) == f(es[i]),
    decreases es.len(),
{
    if i == es.len() - 1 {
        lemma_slot_sum_zero(es.drop_last(), f);
    } else {
        lemma_slot_sum_single(es.drop_last(), i, f);
    }
}

/// A sum in which no slot counts is nothing.
pub proof fn lemma_slot_sum_zero(es: Seq<Slot>, f: spec_fn(Slot) -> nat)
    requires
        forall|j: int| 0 <= j < es.len() ==> f(es[j]) == 0,
    ensures
        slot_sum(es, f) == 0,
    decreases es.len(),
{
    if es.len() > 0 {
        lemma_slot_sum_zero(es.drop_last(), f);
    }
}

/// In a simple graph, what `s` owes `t` is the amount on the edge from `s`
/// to `t`, or nothing when there is none.
pub proof fn lemma_owed_edge(es: Seq<Slot>, n: nat, i: int)
    requires
        simple(es, n),
        0 <= i < es.len(),
        es[i] is Some,
    ensures
        owed(es, ends(es[i]).0, ends(es[i]).1) == amt(es[i]),
{
    let f = between(ends(es[i]).0, ends(es[i]).1);
    assert forall|j: int| 0 <= j < es.len() && j != i implies f(es[j]) == 0 by {
        if es[j] is Some {
            assert(ends(es[i]) != ends(es[j]));
        }
    }
    lemma_slot_sum_single(es, i, f);
}

pub proof fn lemma_owed_none(es: Seq<Slot>, s: nat, t: nat)
    requires
        forall|j: int| 0 <= j < es.len() && es[j] is Some ==> ends(es[j]) != (s, t),
    ensures
        owed(es, s, t) == 0,
{
    let f = between(s, t);
    assert forall|j: int| 0 <= j < es.len() implies f(es[j]) == 0 by {}
    lemma_slot_sum_zero(es, f);
}

pub proof fn lemma_owed_update(es: Seq<Slot>, i: int, x: Slot)
    requires
        0 <= i < es.len(),
    ensures
        forall|a: nat, b: nat| #[trigger]
            owed(es.update(i, x), a, b) == owed(es, a, b) - between(a, b)(es[i]) + between(a, b)(
                x,
            ),
{
    assert forall|a: nat, b: nat| #[trigger]
        owed(es.update(i, x), a, b) == owed(es, a, b) - between(a, b)(es[i]) + between(a, b)(
            x,
        ) by {
        lemma_slot_sum_update(es, i, x, between(a, b));
    }
}

/// A positive sum has a slot that counts.
pub proof fn lemma_slot_sum_witness(es: Seq<Slot>, f: spec_fn(Slot) -> nat) -> (j: int)
    requires
        slot_sum(es, f) > 0,
    ensures
        0 <= j < es.len(),
        f(es[j]) > 0,
{
    if forall|j: int| 0 <= j < es.len() ==> f(es[j]) == 0 {
        lemma_slot_sum_zero(es, f);
        0
    } else {
        choose|j: int| 0 <= j < es.len() && f(es[j]) != 0
    }
}

pub proof fn lemma_simple_reweigh(es: Seq<Slot>, n: nat, i: int, w: Money)
    requires
        simple(es, n),
        0 <= i < es.len(),
        es[i] is Some,
        w.0 > 0,
    ensures
        simple(es.update(i, with_amount(es[i], w)), n),
{
    let u = es.update(i, with_amount(es[i], w));
    assert forall|j: int| 0 <= j < u.len() && u[j] is Some implies ends(u[j]) == ends(es[j]) && es[j] is Some by {}
}

pub proof fn lemma_simple_remove(es: Seq<Slot>, n: nat, i: int)
    requires
        simple(es, n),
        0 <= i < es.len(),
    ensures
        simple(es.update(i, None), n),
{
    let u = es.update(i, None);
    assert forall|j: int| 0 <= j < u.len() && u[j] is Some implies ends(u[j]) == ends(es[j]) && es[j] is Some && amt(u[j]) == amt(es[j]) by {}
}

pub proof fn lemma_slot_sum_ge(es: Seq<Slot>, i: int, f: spec_fn(Slot) -> nat)
    requires
        0 <= i < es.len(),
    ensures
        slot_sum(es, f) >= f(es[i]),
    decreases es.len(),
{
    if i < es.len() - 1 {
        lemma_slot_sum_ge(es.drop_last(), i, f);
    }
}

pub proof fn lemma_flows_update(es: Seq<Slot>, i: int, x: Slot)
    requires
        0 <= i < es.len(),
    ensures
        forall|v: nat| #[trigger]
            inflow(es.update(i, x), v) == inflow(es, v) - into(v)(es[i]) + into(v)(x),
        forall|v: nat| #[trigger]
            outflow(es.update(i, x), v) == outflow(es, v) - out_of(v)(es[i]) + out_of(v)(x),
        weight_total(es.update(i, x)) == weight_total(es) - amt(es[i]) + amt(x),
{
    assert forall|v: nat| #[trigger]
        inflow(es.update(i, x), v) == inflow(es, v) - into(v)(es[i]) + into(v)(x) by {
        lemma_slot_sum_update(es, i, x, into(v));
    }
    assert forall|v: nat| #[trigger]
        outflow(es.update(i, x), v) == outflow(es, v) - out_of(v)(es[i]) + out_of(v)(x) by {
        lemma_slot_sum_update(es, i, x, out_of(v));
    }
    lemma_slot_sum_update(es, i, x, amount_fn());
}

pub proof fn lemma_flows_push(es: Seq<Slot>, x: Slot)
    ensures
        forall|v: nat| #[trigger] inflow(es.push(x), v) == inflow(es, v) + into(v)(x),
        forall|v: nat| #[trigger] outflow(es.push(x), v) == outflow(es, v) + out_of(v)(x),
        forall|a: nat, b: nat| #[trigger] owed(es.push(x), a, b) == owed(es, a, b) + between(a, b)(x),
        weight_total(es.push(x)) == weight_total(es) + amt(x),
{
    assert(es.push(x).drop_last() =~= es);
}

pub proof fn lemma_simple_add(es: Seq<Slot>, n: nat, i: int, a: nat, c: nat, t: Money)
    requires
        simple(es, n),
        0 <= i < es.len(),
        es[i] is None,
        a < n,
        c < n,
        a != c,
        t.0 > 0,
        forall|j: int, w: Money| 0 <= j < es.len() ==> es[j] != Some((a, c, w)),
    ensures
        simple(es.update(i, Some((a, c, t))), n),
{
    let u = es.update(i, Some((a, c, t)));
    assert forall|j: int| 0 <= j < es.len() && j != i && es[j] is Some implies ends(es[j]) != (a, c) by {
        if let Some(e) = es[j] {
            if ends(es[j]) == (a, c) {
                assert(es[j] == Some((a, c, e.2)));
            }
        }
    }
    assert forall|j: int| 0 <= j < u.len() && j != i implies u[j] == es[j] by {}
}

pub proof fn lemma_take_step(es: Seq<Slot>, i: int, f: spec_fn(Slot) -> nat)
    requires
        0 <= i < es.len(),
    ensures
        slot_sum(es.take(i + 1), f) == slot_sum(es.take(i), f) + f(es[i]),
{
    assert(es.take(i + 1).drop_last() =~= es.take(i));
}

pub proof fn lemma_take_vacant(es: Seq<Slot>, p: int, q: int, f: spec_fn(Slot) -> nat)
    requires
        0 <= p <= q <= es.len(),
        forall|i: int| p <= i < q ==> es[i] is None,
        f(None) == 0,
    ensures
        slot_sum(es.take(q), f) == slot_sum(es.take(p), f),
    decreases q - p,
{
    if p < q {
        lemma_take_vacant(es, p, q - 1, f);
        lemma_take_step(es, q - 1, f);
    }
}

pub proof fn lemma_take_le(es: Seq<Slot>, p: int, f: spec_fn(Slot) -> nat)
    requires
        0 <= p <= es.len(),
    ensures
        slot_sum(es.take(p), f) <= slot_sum(es, f),
    decreases es.len() - p,
{
    if p < es.len() {
        lemma_take_le(es, p + 1, f);
        lemma_take_step(es, p, f);
    } else {
        assert(es.take(p) =~= es);
    }
}

pub proof fn lemma_slot_sum_mono(es: Seq<Slot>, f: spec_fn(Slot) -> nat, g: spec_fn(Slot) -> nat)
    requires
        forall|x: Slot| #[trigger] f(x) <= g(x),
    ensures
        slot_sum(es, f) <= slot_sum(es, g),
    decreases es.len(),
{
    if es.len() > 0 {
        lemma_slot_sum_mono(es.drop_last(), f, g);
    }
}

/// What flows into or out of a participant is at most the sum of all debts.
pub proof fn lemma_flows_le_total(es: Seq<Slot>, v: nat)
    ensures
        inflow(es, v) <= weight_total(es),
        outflow(es, v) <= weight_total(es),
{
    lemma_slot_sum_mono(es, into(v), amount_fn());
    lemma_slot_sum_mono(es, out_of(v), amount_fn());
}

/// Without chains and without mutual debts, nobody both owes and is owed.
pub proof fn lemma_settled_of_netted(es: Seq<Slot>, n: nat)
    requires
        simple(es, n),
        no_chain(es),
        no_mutual(es),
    ensures
        settled(es),
{
    assert forall|v: nat| #[trigger] inflow(es, v) == 0 || outflow(es, v) == 0 by {
        if inflow(es, v) > 0 && outflow(es, v) > 0 {
            let j1 = lemma_slot_sum_witness(es, into(v));
            let j2 = lemma_slot_sum_witness(es, out_of(v));
            let a = ends(es[j1]).0;
            let c = ends(es[j2]).1;
            lemma_slot_sum_ge(es, j1, between(a, v));
            lemma_slot_sum_ge(es, j2, between(v, c));
            assert(owed(es, a, v) > 0);
            assert(owed(es, v, c) > 0);
            if a != c {
                assert(owed(es, v, c) == 0);
            } else {
                assert(owed(es, v, a) == 0);
            }
        }
    }
}

/// Nothing flows into or out of a node that no edge touches.
pub proof fn lemma_flows_outside(es: Seq<Slot>, n: nat, v: nat)
    requires
        simple(es, n),
        v >= n,
    ensures
        inflow(es, v) == 0,
        outflow(es, v) == 0,
{
    assert forall|j: int| 0 <= j < es.len() implies into(v)(es[j]) == 0 && out_of(v)(es[j]) == 0 by {}
    lemma_slot_sum_zero(es, into(v));
    lemma_slot_sum_zero(es, out_of(v));
}

} // verus!
