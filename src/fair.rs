//! Fair shares of a group of participants: head counts, spending, and the
//! part of each spender's outlay that falls on every head.

use vstd::prelude::*;

use crate::money::{round_div, round_div_signed};
use crate::person::Person;

verus! {

/// Heads among the first `i` participants.
pub open spec fn heads_upto(ps: Seq<Person>, i: int) -> nat
    decreases i,
{
    if i <= 0 || i > ps.len() {
        0
    } else {
        heads_upto(ps, i - 1) + ps[i - 1].heads()
    }
}

/// Heads among all participants.
pub open spec fn heads_total(ps: Seq<Person>) -> nat {
    heads_upto(ps, ps.len() as int)
}

/// What the first `i` participants spent.
pub open spec fn spent_upto(ps: Seq<Person>, i: int) -> nat
    decreases i,
{
    if i <= 0 || i > ps.len() {
        0
    } else {
        spent_upto(ps, i - 1) + ps[i - 1].spent()
    }
}

/// What all participants spent.
pub open spec fn spent_total(ps: Seq<Person>) -> nat {
    spent_upto(ps, ps.len() as int)
}

/// The part of participant `t`'s spending that falls on each head, rounded
/// to the nearest thousandth.
pub open spec fn share(ps: Seq<Person>, t: int) -> nat {
    round_div(ps[t].spent() as int, heads_total(ps) as int) as nat
}

/// The per-head parts of the first `j` participants' spending.
pub open spec fn share_upto(ps: Seq<Person>, j: int) -> nat
    decreases j,
{
    if j <= 0 || j > ps.len() {
        0
    } else {
        share_upto(ps, j - 1) + share(ps, j - 1)
    }
}

/// The per-head parts of everybody's spending.
pub open spec fn share_total(ps: Seq<Person>) -> nat {
    share_upto(ps, ps.len() as int)
}

/// What participant `s` owes participant `t` before any reduction: `t`'s
/// per-head part once for each of `s`'s heads.
pub open spec fn initial_owed(ps: Seq<Person>, s: nat, t: nat) -> nat {
    if s != t && s < ps.len() && t < ps.len() {
        share(ps, t as int) * ps[s as int].heads()
    } else {
        0
    }
}

/// Net position of participant `v` before any reduction: what the others
/// owe it, less what it owes the others.
pub open spec fn initial_balance(ps: Seq<Person>, v: int) -> int {
    share(ps, v) * (heads_total(ps) - ps[v].heads()) - ps[v].heads() * (share_total(ps) - share(
        ps,
        v,
    ))
}

/// Thousandths of leeway per head of the group when final positions are
/// compared with the fair share: half a cent.
pub const TOLERANCE_PER_HEAD: u64 = 5;

/// What each head should bear: all spending over all heads, rounded to the
/// nearest thousandth.
pub open spec fn fair_share(ps: Seq<Person>) -> int {
    round_div(spent_total(ps) as int, heads_total(ps) as int)
}

/// What each head of participant `v` bears in the end, when `v`'s net
/// position (owed less owing) is `bal`: its spending less that position, over
/// its heads, rounded to the nearest thousandth.
pub open spec fn final_share(ps: Seq<Person>, v: int, bal: int) -> int {
    round_div_signed(ps[v].spent() - bal, ps[v].heads() as int)
}

/// Whether that final share is within the tolerance of the fair share.
pub open spec fn within_tolerance(ps: Seq<Person>, v: int, bal: int) -> bool {
    let d = fair_share(ps) - final_share(ps, v, bal);
    -(5 * heads_total(ps)) <= d <= 5 * heads_total(ps)
}

/// Participants that each stand for at least one head.
pub open spec fn all_wf(ps: Seq<Person>) -> bool {
    forall|i: int| 0 <= i < ps.len() ==> #[trigger] ps[i].wf()
}

pub proof fn lemma_heads_upto_mono(ps: Seq<Person>, i: int, j: int)
    requires
        0 <= i <= j <= ps.len(),
    ensures
        heads_upto(ps, i) <= heads_upto(ps, j),
        all_wf(ps) ==> heads_upto(ps, j) >= j,
    decreases j,
{
    if j > 0 {
        if i < j {
            lemma_heads_upto_mono(ps, i, j - 1);
        } else {
            lemma_heads_upto_mono(ps, i - 1, j - 1);
        }
        if all_wf(ps) {
            assert(ps[j - 1].wf());
        }
    }
}

pub proof fn lemma_heads_upto_one(ps: Seq<Person>, i: int, v: int)
    requires
        0 <= v < i <= ps.len(),
    ensures
        heads_upto(ps, i) >= heads_upto(ps, v + 1),
        heads_upto(ps, v + 1) >= ps[v].heads(),
{
    lemma_heads_upto_mono(ps, v + 1, i);
}

pub proof fn lemma_spent_upto_mono(ps: Seq<Person>, i: int, j: int)
    requires
        0 <= i <= j <= ps.len(),
    ensures
        spent_upto(ps, i) <= spent_upto(ps, j),
    decreases j,
{
    if i < j {
        lemma_spent_upto_mono(ps, i, j - 1);
    }
}

/// A share times the head count is at most the spending plus the head count.
pub proof fn lemma_share_bound(ps: Seq<Person>, t: int)
    requires
        0 <= t < ps.len(),
        heads_total(ps) > 0,
    ensures
        share(ps, t) * heads_total(ps) <= ps[t].spent() + heads_total(ps),
{
    let h = heads_total(ps) as int;
    let x = ps[t].spent() as int;
    let q = share(ps, t) as int;
    assert(q == (2 * x + h) / (2 * h));
    assert(q * (2 * h) <= 2 * x + h) by (nonlinear_arith)
        requires
            q == (2 * x + h) / (2 * h),
            h > 0,
            x >= 0,
    ;
    assert(q * h <= x + h) by (nonlinear_arith)
        requires
            q * (2 * h) <= 2 * x + h,
            h > 0,
    ;
}

/// A rounded quotient is within half the divisor: `|2n - 2dq| <= d`.
pub proof fn lemma_round_div_signed_close(n: int, d: int)
    requires
        d >= 1,
    ensures
        -d <= 2 * n - 2 * d * round_div_signed(n, d) <= d,
{
    let m = if n >= 0 {
        n
    } else {
        -n
    };
    let q = round_div(m, d);
    vstd::arithmetic::div_mod::lemma_fundamental_div_mod(2 * m + d, 2 * d);
    vstd::arithmetic::div_mod::lemma_mod_pos_bound(2 * m + d, 2 * d);
    let r = (2 * m + d) % (2 * d);
    assert(q == (2 * m + d) / (2 * d));
    assert(2 * m + d == (2 * d) * q + r);
    assert(-d <= 2 * m - 2 * d * q <= d) by (nonlinear_arith)
        requires
            2 * m + d == (2 * d) * q + r,
            0 <= r < 2 * d,
    ;
    if n < 0 {
        assert(round_div_signed(n, d) == -q);
        assert(2 * n - 2 * d * (-q) == -(2 * m - 2 * d * q)) by (nonlinear_arith)
            requires
                m == -n,
        ;
    }
}

/// Each spender's per-head part, times the heads of the group, is within half
/// the heads of what it spent.
pub proof fn lemma_share_close(ps: Seq<Person>, t: int)
    requires
        0 <= t < ps.len(),
        heads_total(ps) >= 1,
    ensures
        -(heads_total(ps) as int) <= 2 * ps[t].spent() - 2 * heads_total(ps) * share(ps, t) <= heads_total(ps),
{
    lemma_round_div_signed_close(ps[t].spent() as int, heads_total(ps) as int);
}

/// Over the first `j` participants, the per-head parts times the heads of the
/// group stray from the spending by at most `j` halves of the heads.
pub proof fn lemma_shares_close(ps: Seq<Person>, j: int)
    requires
        0 <= j <= ps.len(),
        heads_total(ps) >= 1,
    ensures
        -(j * heads_total(ps)) <= 2 * spent_upto(ps, j) - 2 * heads_total(ps) * share_upto(ps, j)
            <= j * heads_total(ps),
    decreases j,
{
    if j > 0 {
        lemma_shares_close(ps, j - 1);
        lemma_share_close(ps, j - 1);
        let h = heads_total(ps) as int;
        assert(2 * h * share_upto(ps, j) == 2 * h * share_upto(ps, j - 1) + 2 * h * share(ps, j - 1))
            by (nonlinear_arith)
            requires
                share_upto(ps, j) == share_upto(ps, j - 1) + share(ps, j - 1),
        ;
        assert(j * h == (j - 1) * h + h) by (nonlinear_arith);
    }
}

/// Conservation: in the unreduced graph of a group, every participant's final
/// share (what it spent, plus what it owes, less what it is owed, over its
/// heads) is within the tolerance of the fair share.
pub proof fn lemma_initial_balanced(ps: Seq<Person>)
    requires
        all_wf(ps),
    ensures
        forall|v: int|
            0 <= v < ps.len() ==> #[trigger] within_tolerance(ps, v, initial_balance(ps, v)),
{
    let n = ps.len() as int;
    lemma_heads_upto_mono(ps, 0, n);
    assert forall|v: int| 0 <= v < ps.len() implies #[trigger] within_tolerance(
        ps,
        v,
        initial_balance(ps, v),
    ) by {
        let h = heads_total(ps) as int;
        assert(ps[v].wf());
        let hv = ps[v].heads() as int;
        lemma_heads_upto_one(ps, n, v);
        let t = spent_total(ps) as int;
        let sv = ps[v].spent() as int;
        let rv = share(ps, v) as int;
        let st = share_total(ps) as int;
        let b = initial_balance(ps, v);
        assert(b == rv * h - hv * st) by (nonlinear_arith)
            requires
                b == rv * (h - hv) - hv * (st - rv),
        ;
        let x = sv - b;
        let f = final_share(ps, v, b);
        let fair = fair_share(ps);
        lemma_round_div_signed_close(x, hv);
        lemma_round_div_signed_close(t, h);
        assert(fair == round_div_signed(t, h));
        lemma_share_close(ps, v);
        lemma_shares_close(ps, n);
        assert(n <= h);
        // |2h(rv h - sv)| <= h*h and |2 hv (t - h st)| <= hv n h <= hv h h.
        let d = hv * (2 * h * fair) - h * (2 * hv * f);
        assert(-(2 * h * hv) + (2 * hv * t - 2 * h * x) <= d <= 2 * h * hv + (2 * hv * t - 2 * h * x))
            by (nonlinear_arith)
            requires
                -h <= 2 * t - 2 * h * fair <= h,
                -hv <= 2 * x - 2 * hv * f <= hv,
                d == hv * (2 * h * fair) - h * (2 * hv * f),
                h >= 1,
                hv >= 1,
        ;
        let pa = rv * h;
        let pb = hv * st;
        assert(h * x == h * sv - h * pa + h * pb) by (nonlinear_arith)
            requires
                x == sv - pa + pb,
        ;
        assert(h * (2 * rv * h - 2 * sv) == 2 * (h * pa) - 2 * (h * sv)) by (nonlinear_arith)
            requires
                pa == rv * h,
        ;
        assert(hv * (2 * t - 2 * h * st) == 2 * (hv * t) - 2 * (h * pb)) by (nonlinear_arith)
            requires
                pb == hv * st,
        ;
        assert(2 * hv * t == 2 * (hv * t)) by (nonlinear_arith);
        assert(2 * h * x == 2 * (h * x)) by (nonlinear_arith);
        assert(2 * hv * t - 2 * h * x == h * (2 * rv * h - 2 * sv) + hv * (2 * t - 2 * h * st));
        assert(-(h * h) <= h * (2 * rv * h - 2 * sv) <= h * h) by (nonlinear_arith)
            requires
                -h <= 2 * sv - 2 * h * rv <= h,
                h >= 1,
        ;
        assert(-(hv * (h * h)) <= hv * (2 * t - 2 * h * st) <= hv * (h * h)) by (nonlinear_arith)
            requires
                -(n * h) <= 2 * t - 2 * h * st <= n * h,
                n <= h,
                hv >= 1,
                h >= 1,
        ;
        assert(-(10 * h * h * hv) <= d <= 10 * h * h * hv) by (nonlinear_arith)
            requires
                -(2 * h * hv) + (2 * hv * t - 2 * h * x) <= d <= 2 * h * hv + (2 * hv * t - 2 * h * x),
                2 * hv * t - 2 * h * x == h * (2 * rv * h - 2 * sv) + hv * (2 * t - 2 * h * st),
                -(h * h) <= h * (2 * rv * h - 2 * sv) <= h * h,
                -(hv * (h * h)) <= hv * (2 * t - 2 * h * st) <= hv * (h * h),
                hv <= h,
                h >= 1,
                hv >= 1,
        ;
        assert(d == 2 * h * hv * (fair - f)) by (nonlinear_arith)
            requires
                d == hv * (2 * h * fair) - h * (2 * hv * f),
        ;
        assert(-(5 * h) <= fair - f <= 5 * h) by (nonlinear_arith)
            requires
                d == 2 * h * hv * (fair - f),
                -(10 * h * h * hv) <= d <= 10 * h * h * hv,
                h >= 1,
                hv >= 1,
        ;
    }
}

} // verus!
