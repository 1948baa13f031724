//! Greedy settlement: from each participant's net position to a short list of
//! transfers, each from a debtor to a creditor.

use vstd::prelude::*;

use crate::money::round_div;

verus! {

/// Thousandths below which a remainder counts as settled: one cent.
pub const DUST: i128 = 10;

/// A transfer: debtor index, creditor index, amount in thousandths.
pub type Transfer = (usize, usize, u64);

/// Whether a position is more than one cent away from zero.
pub open spec fn unsettled(x: int) -> bool {
    x < -10 || x > 10
}

/// How many positions are more than one cent away from zero.
pub open spec fn count_unsettled(s: Seq<i128>) -> nat
    decreases s.len(),
{
    if s.len() == 0 {
        0
    } else {
        count_unsettled(s.drop_last()) + if unsettled(s.last() as int) {
            1nat
        } else {
            0nat
        }
    }
}

/// How many positions are not zero.
pub open spec fn count_nonzero(s: Seq<i128>) -> nat
    decreases s.len(),
{
    if s.len() == 0 {
        0
    } else {
        count_nonzero(s.drop_last()) + if s.last() != 0 {
            1nat
        } else {
            0nat
        }
    }
}

/// The sum of the amounts of the transfers.
pub open spec fn transfers_total(ts: Seq<Transfer>) -> nat
    decreases ts.len(),
{
    if ts.len() == 0 {
        0
    } else {
        transfers_total(ts.drop_last()) + ts.last().2 as nat
    }
}

pub proof fn lemma_transfers_total_prefix(ts: Seq<Transfer>, k: int)
    requires
        0 <= k <= ts.len(),
    ensures
        transfers_total(ts.take(k)) <= transfers_total(ts),
    decreases ts.len() - k,
{
    if k < ts.len() {
        lemma_transfers_total_prefix(ts, k + 1);
        assert(ts.take(k + 1).drop_last() =~= ts.take(k));
    } else {
        assert(ts.take(k) =~= ts);
    }
}

/// What participant `i` pays over the transfers.
pub open spec fn paid(ts: Seq<Transfer>, i: int) -> int
    decreases ts.len(),
{
    if ts.len() == 0 {
        0
    } else {
        paid(ts.drop_last(), i) + if ts.last().0 == i {
            ts.last().2 as int
        } else {
            0
        }
    }
}

/// What participant `i` receives over the transfers.
pub open spec fn received(ts: Seq<Transfer>, i: int) -> int
    decreases ts.len(),
{
    if ts.len() == 0 {
        0
    } else {
        received(ts.drop_last(), i) + if ts.last().1 == i {
            ts.last().2 as int
        } else {
            0
        }
    }
}

/// What is left of participant `i`'s position once the transfers are made:
/// a debtor's position rises by what it pays, a creditor's falls by what it
/// receives.
pub open spec fn remainder(b: Seq<i128>, ts: Seq<Transfer>, i: int) -> int {
    b[i] + paid(ts, i) - received(ts, i)
}

/// Transfer `k` is the greedy choice over the positions that the transfers
/// before it leave: the participant who owes most pays the one who is owed
/// most (each more than a cent), the smaller of the two amounts rounded to
/// whole cents, halves up.
pub open spec fn greedy_step(b: Seq<i128>, ts: Seq<Transfer>, k: int) -> bool {
    let pre = ts.take(k);
    let t = ts[k];
    let rd = remainder(b, pre, t.0 as int);
    let rc = remainder(b, pre, t.1 as int);
    &&& rd < -10
    &&& rc > 10
    &&& forall|i: int|
        0 <= i < b.len() && #[trigger] remainder(b, pre, i) < -10 ==> rd <= remainder(b, pre, i)
    &&& forall|i: int|
        0 <= i < b.len() && #[trigger] remainder(b, pre, i) > 10 ==> rc >= remainder(b, pre, i)
    &&& forall|i: int|
        0 <= i < t.0 ==> #[trigger] remainder(b, pre, i) >= -10 || remainder(b, pre, i) > rd
    &&& forall|i: int|
        0 <= i < t.1 ==> #[trigger] remainder(b, pre, i) <= 10 || remainder(b, pre, i) < rc
    &&& t.0 < b.len()
    &&& t.1 < b.len()
    &&& t.2 == round_div(if -rd <= rc {
        -rd
    } else {
        rc
    }, 10) * 10
}

/// `ts` is the greedy settlement of the positions `b`: every transfer is the
/// greedy choice, and after the last one no debtor and creditor both remain
/// more than a cent from zero.
pub open spec fn is_greedy_settlement(b: Seq<i128>, ts: Seq<Transfer>) -> bool {
    &&& forall|k: int| 0 <= k < ts.len() ==> #[trigger] greedy_step(b, ts, k)
    &&& !((exists|i: int| 0 <= i < b.len() && remainder(b, ts, i) < -10) && (exists|j: int|
        0 <= j < b.len() && remainder(b, ts, j) > 10))
}

/// Two greedy settlements agree on their first `k` transfers.
proof fn lemma_greedy_prefix(b: Seq<i128>, t1: Seq<Transfer>, t2: Seq<Transfer>, k: int)
    requires
        is_greedy_settlement(b, t1),
        is_greedy_settlement(b, t2),
        0 <= k <= t1.len(),
        k <= t2.len(),
    ensures
        t1.take(k) == t2.take(k),
    decreases k,
{
    if k == 0 {
        assert(t1.take(0) =~= t2.take(0));
    } else {
        let j = k - 1;
        lemma_greedy_prefix(b, t1, t2, j);
        assert(greedy_step(b, t1, j));
        assert(greedy_step(b, t2, j));
        let pre = t1.take(j);
        assert(t2.take(j) == pre);
        let x = t1[j];
        let y = t2[j];
        if x.0 != y.0 {
            if x.0 < y.0 {
                assert(remainder(b, pre, x.0 as int) >= -10 || remainder(b, pre, x.0 as int) > remainder(b, pre, y.0 as int));
            } else {
                assert(remainder(b, pre, y.0 as int) >= -10 || remainder(b, pre, y.0 as int) > remainder(b, pre, x.0 as int));
            }
        }
        if x.1 != y.1 {
            if x.1 < y.1 {
                assert(remainder(b, pre, x.1 as int) <= 10 || remainder(b, pre, x.1 as int) < remainder(b, pre, y.1 as int));
            } else {
                assert(remainder(b, pre, y.1 as int) <= 10 || remainder(b, pre, y.1 as int) < remainder(b, pre, x.1 as int));
            }
        }
        assert(x == y);
        assert(t1.take(k) =~= t1.take(j).push(x));
        assert(t2.take(k) =~= t2.take(j).push(y));
    }
}

/// The greedy settlement of a list of positions is unique.
pub proof fn lemma_greedy_unique(b: Seq<i128>, t1: Seq<Transfer>, t2: Seq<Transfer>)
    requires
        is_greedy_settlement(b, t1),
        is_greedy_settlement(b, t2),
    ensures
        t1 == t2,
{
    let m = if t1.len() <= t2.len() {
        t1.len() as int
    } else {
        t2.len() as int
    };
    lemma_greedy_prefix(b, t1, t2, m);
    if t1.len() != t2.len() {
        if t1.len() < t2.len() {
            assert(t1.take(m) =~= t1);
            assert(greedy_step(b, t2, m));
            let y = t2[m];
            assert(remainder(b, t1, y.0 as int) < -10);
            assert(remainder(b, t1, y.1 as int) > 10);
        } else {
            assert(t2.take(m) =~= t2);
            assert(greedy_step(b, t1, m));
            let x = t1[m];
            assert(remainder(b, t2, x.0 as int) < -10);
            assert(remainder(b, t2, x.1 as int) > 10);
        }
    }
    assert(t1.take(m) =~= t1);
    assert(t2.take(m) =~= t2);
}

proof fn lemma_round_tens(t: int)
    requires
        t >= 0,
    ensures
        (t + 5) / 10 == round_div(t, 10),
{
    vstd::arithmetic::div_mod::lemma_fundamental_div_mod(t + 5, 10);
    vstd::arithmetic::div_mod::lemma_mod_pos_bound(t + 5, 10);
    vstd::arithmetic::div_mod::lemma_fundamental_div_mod_converse_div(
        2 * t + 10,
        20,
        (t + 5) / 10,
        2 * ((t + 5) % 10),
    );
}

proof fn lemma_count_update(s: Seq<i128>, i: int, x: i128)
    requires
        0 <= i < s.len(),
    ensures
        count_unsettled(s.update(i, x)) == count_unsettled(s) - (if unsettled(s[i] as int) {
            1int
        } else {
            0int
        }) + (if unsettled(x as int) {
            1int
        } else {
            0int
        }),
    decreases s.len(),
{
    let u = s.update(i, x);
    if i == s.len() - 1 {
        assert(u.drop_last() =~= s.drop_last());
    } else {
        assert(u.drop_last() =~= s.drop_last().update(i, x));
        lemma_count_update(s.drop_last(), i, x);
    }
}

proof fn lemma_count_unsettled_pos(s: Seq<i128>, i: int)
    requires
        0 <= i < s.len(),
        unsettled(s[i] as int),
    ensures
        count_unsettled(s) >= 1,
    decreases s.len(),
{
    if i < s.len() - 1 {
        lemma_count_unsettled_pos(s.drop_last(), i);
    }
}

/// Positions more than a cent away from zero are not zero.
pub proof fn lemma_unsettled_le_nonzero(s: Seq<i128>)
    ensures
        count_unsettled(s) <= count_nonzero(s),
    decreases s.len(),
{
    if s.len() > 0 {
        lemma_unsettled_le_nonzero(s.drop_last());
    }
}

proof fn lemma_push_other(ts: Seq<Transfer>, x: Transfer, i: int)
    requires
        x.0 != i,
        x.1 != i,
    ensures
        paid(ts.push(x), i) == paid(ts, i),
        received(ts.push(x), i) == received(ts, i),
{
    assert(ts.push(x).drop_last() =~= ts);
}

pub proof fn lemma_push_transfer(ts: Seq<Transfer>, x: Transfer)
    ensures
        forall|i: int| #[trigger] paid(ts.push(x), i) == paid(ts, i) + if x.0 == i {
            x.2 as int
        } else {
            0
        },
        forall|i: int| #[trigger] received(ts.push(x), i) == received(ts, i) + if x.1 == i {
            x.2 as int
        } else {
            0
        },
{
    assert(ts.push(x).drop_last() =~= ts);
}

/// What the greedy settlement `r` of positions `b` guarantees. Every
/// transfer goes from a debtor to a creditor, is at least a cent and a whole
/// number of cents, and no pair of participants is used twice. Nobody pays
/// or receives more than half a cent beyond its position, and positions
/// within a cent of zero take no part. In the end no debtor and creditor
/// both remain unsettled. There are fewer transfers than unsettled
/// participants, and so fewer than participants with a position other than
/// zero.
pub open spec fn settles_well(b: Seq<i128>, r: Seq<Transfer>) -> bool {
    &&& forall|k: int|
        0 <= k < r.len() ==> {
            let t = #[trigger] r[k];
            &&& t.0 < b.len()
            &&& t.1 < b.len()
            &&& b[t.0 as int] < -10
            &&& b[t.1 as int] > 10
            &&& t.2 >= 10
            &&& t.2 % 10 == 0
        }
    &&& forall|k1: int, k2: int|
        0 <= k1 < r.len() && 0 <= k2 < r.len() && k1 != k2 ==> (r[k1].0, r[k1].1) != (r[k2].0, r[k2].1)
    &&& forall|i: int|
        0 <= i < b.len() && b[i] < -10 ==> received(r, i) == 0 && remainder(b, r, i) <= 5
    &&& forall|i: int|
        0 <= i < b.len() && b[i] > 10 ==> paid(r, i) == 0 && remainder(b, r, i) >= -5
    &&& forall|i: int|
        0 <= i < b.len() && !unsettled(b[i] as int) ==> paid(r, i) == 0 && received(r, i) == 0
    &&& !((exists|i: int| 0 <= i < b.len() && remainder(b, r, i) < -10) && (exists|j: int|
        0 <= j < b.len() && remainder(b, r, j) > 10))
    &&& r.len() == 0 || r.len() + 1 <= count_unsettled(b)
    &&& r.len() == 0 || r.len() + 1 <= count_nonzero(b)
}

/// Settles net positions greedily. While some participant owes more than a
/// cent and another is owed more than a cent, the one who owes most pays the
/// one who is owed most the smaller of the two amounts, rounded to whole
/// cents (halves up); a position left within a cent of zero counts as
/// settled. Among equal positions the lowest index is taken. What the result
/// guarantees is `settles_well`; `is_greedy_settlement` pins it down.
#[verifier::rlimit(60)]
pub fn settle_balances(balances: &[i128]) -> (r: Vec<Transfer>)
    requires
        forall|i: int|
            0 <= i < balances@.len() ==> -(u64::MAX - 5) <= #[trigger] balances@[i] <= u64::MAX - 5,
    ensures
        settles_well(balances@, r@),
        is_greedy_settlement(balances@, r@),
{
    let ghost b = balances@;
    let n = balances.len();
    let mut rem: Vec<i128> = Vec::new();
    let mut i: usize = 0;
    while i < n
        invariant
            n == b.len(),
            b == balances@,
            i <= n,
            rem@ == b.take(i as int),
        decreases n - i,
    {
        rem.push(balances[i]);
        proof {
            assert(b.take(i as int + 1) =~= b.take(i as int).push(b[i as int]));
        }
        i = i + 1;
    }
    assert(b.take(n as int) =~= b);
    let mut ts: Vec<Transfer> = Vec::new();
    let mut done = false;
    proof {
        assert forall|i: int| 0 <= i < n implies #[trigger] rem@[i] == remainder(b, ts@, i) by {}
    }
    while !done
        invariant
            n == b.len(),
            b == balances@,
            forall|i: int| 0 <= i < n ==> -(u64::MAX - 5) <= #[trigger] b[i] <= u64::MAX - 5,
            rem@.len() == n,
            forall|i: int| 0 <= i < n ==> #[trigger] rem@[i] == remainder(b, ts@, i),
            forall|i: int| 0 <= i < n ==> -(u64::MAX - 5) <= #[trigger] rem@[i] <= u64::MAX - 5,
            forall|i: int|
                0 <= i < n && b[i] < -10 ==> #[trigger] received(ts@, i) == 0 && rem@[i] <= 5
                    && rem@[i] >= b[i],
            forall|i: int|
                0 <= i < n && b[i] > 10 ==> #[trigger] paid(ts@, i) == 0 && rem@[i] >= -5
                    && rem@[i] <= b[i],
            forall|i: int| 0 <= i < n && !unsettled(b[i] as int) ==> #[trigger] paid(ts@, i) == 0,
            forall|i: int| 0 <= i < n && !unsettled(b[i] as int) ==> #[trigger] received(ts@, i) == 0,
            forall|k: int|
                0 <= k < ts@.len() ==> {
                    let t = #[trigger] ts@[k];
                    &&& t.0 < n
                    &&& t.1 < n
                    &&& b[t.0 as int] < -10
                    &&& b[t.1 as int] > 10
                    &&& t.2 >= 10
                    &&& t.2 % 10 == 0
                    &&& !(unsettled(rem@[t.0 as int] as int) && unsettled(rem@[t.1 as int] as int))
                },
            forall|k1: int, k2: int|
                0 <= k1 < ts@.len() && 0 <= k2 < ts@.len() && k1 != k2 ==> (ts@[k1].0, ts@[k1].1)
                    != (ts@[k2].0, ts@[k2].1),
            ts@.len() + count_unsettled(rem@) <= count_unsettled(b),
            forall|k: int| 0 <= k < ts@.len() ==> #[trigger] greedy_step(b, ts@, k),
            ts@.len() > 0 && count_unsettled(rem@) == 0 ==> ts@.len() + 1 <= count_unsettled(b),
            done ==> !((exists|i: int| 0 <= i < n && rem@[i] < -10) && (exists|j: int|
                0 <= j < n && rem@[j] > 10)),
        decreases
                if done {
                    0
                } else {
                    count_unsettled(rem@) + 1
                },
    {
        let mut d: usize = n;
        let mut c: usize = n;
        let mut i: usize = 0;
        while i < n
            invariant
                n == rem@.len(),
                i <= n,
                d <= n,
                c <= n,
                d < n ==> d < i && rem@[d as int] < -10,
                c < n ==> c < i && rem@[c as int] > 10,
                d == n ==> forall|k: int| 0 <= k < i ==> rem@[k] >= -10,
                c == n ==> forall|k: int| 0 <= k < i ==> rem@[k] <= 10,
                d < n ==> forall|k: int| 0 <= k < i && rem@[k] < -10 ==> rem@[d as int] <= rem@[k],
                c < n ==> forall|k: int| 0 <= k < i && rem@[k] > 10 ==> rem@[c as int] >= rem@[k],
                d < n ==> forall|k: int| 0 <= k < d ==> rem@[k] >= -10 || rem@[k] > rem@[d as int],
                c < n ==> forall|k: int| 0 <= k < c ==> rem@[k] <= 10 || rem@[k] < rem@[c as int],
            decreases n - i,
        {
            if rem[i] < -DUST && (d == n || rem[i] < rem[d]) {
                d = i;
            }
            if rem[i] > DUST && (c == n || rem[i] > rem[c]) {
                c = i;
            }
            i = i + 1;
        }
        if d == n || c == n {
            done = true;
        } else {
            let debt: i128 = -rem[d];
            let credit: i128 = rem[c];
            let t: i128 = if debt <= credit {
                debt
            } else {
                credit
            };
            let tr: i128 = (t + 5) / 10 * 10;
            assert(tr >= 10 && tr % 10 == 0 && t - 5 <= tr <= t + 5) by {
                vstd::arithmetic::div_mod::lemma_fundamental_div_mod(t + 5, 10);
            }
            let ghost rem0 = rem@;
            let ghost ts0 = ts@;
            proof {
                lemma_round_tens(t as int);
            }
            proof {
                assert(b[d as int] < -10);
                assert(b[c as int] > 10);
                lemma_count_unsettled_pos(rem0, d as int);
                lemma_count_update(rem0, d as int, 0);
                lemma_count_unsettled_pos(rem0.update(d as int, 0), c as int);
            }
            let x: Transfer = (d, c, tr as u64);
            ts.push(x);
            let nd = rem[d] + tr;
            rem.set(d, nd);
            let nc = rem[c] - tr;
            rem.set(c, nc);
            proof {
                lemma_push_transfer(ts0, x);
                assert(ts@ == ts0.push(x));
                assert forall|i: int| 0 <= i < n && !unsettled(b[i] as int) implies #[trigger] paid(ts@, i) == 0 by {
                    lemma_push_other(ts0, x, i);
                    assert(paid(ts0, i) == 0);
                }
                assert forall|i: int| 0 <= i < n && !unsettled(b[i] as int) implies #[trigger] received(ts@, i) == 0 by {
                    lemma_push_other(ts0, x, i);
                    assert(received(ts0, i) == 0);
                }
                lemma_count_update(rem0, d as int, nd);
                lemma_count_update(rem0.update(d as int, nd), c as int, nc);
                assert(rem@ == rem0.update(d as int, nd).update(c as int, nc));
                assert(!unsettled(nd as int) || !unsettled(nc as int));
                assert forall|i: int| 0 <= i < n implies #[trigger] rem@[i] == remainder(b, ts@, i) by {
                    assert(rem0[i] == remainder(b, ts0, i));
                }
                assert forall|k: int| 0 <= k < ts@.len() implies #[trigger] greedy_step(b, ts@, k) by {
                    assert(ts@.take(k) =~= ts0.take(k) || k == ts0.len());
                    if k < ts0.len() {
                        assert(ts@.take(k) =~= ts0.take(k));
                        assert(ts@[k] == ts0[k]);
                        assert(greedy_step(b, ts0, k));
                    } else {
                        assert(ts@.take(k) =~= ts0);
                        assert(ts0.take(ts0.len() as int) =~= ts0);
                        assert forall|i: int| 0 <= i < n implies #[trigger] remainder(b, ts0, i) == rem0[i] by {}
                    }
                }
                assert forall|k: int| 0 <= k < ts@.len() implies {
                    let t = #[trigger] ts@[k];
                    &&& t.0 < n
                    &&& t.1 < n
                    &&& b[t.0 as int] < -10
                    &&& b[t.1 as int] > 10
                    &&& t.2 >= 10
                    &&& t.2 % 10 == 0
                    &&& !(unsettled(rem@[t.0 as int] as int) && unsettled(rem@[t.1 as int] as int))
                } by {
                    if k < ts0.len() {
                        let t = ts0[k];
                        assert(ts@[k] == t);
                        assert(!(unsettled(rem0[t.0 as int] as int) && unsettled(rem0[t.1 as int] as int)));
                    }
                }
                assert forall|k1: int, k2: int|
                    0 <= k1 < ts@.len() && 0 <= k2 < ts@.len() && k1 != k2 implies (ts@[k1].0, ts@[k1].1)
                        != (ts@[k2].0, ts@[k2].1) by {
                    if k1 < ts0.len() && k2 < ts0.len() {
                    } else if k1 < ts0.len() {
                        let t = ts0[k1];
                        assert(!(unsettled(rem0[t.0 as int] as int) && unsettled(rem0[t.1 as int] as int)));
                    } else {
                        let t = ts0[k2];
                        assert(!(unsettled(rem0[t.0 as int] as int) && unsettled(rem0[t.1 as int] as int)));
                    }
                }
            }
        }
    }
    proof {
        assert forall|i: int| 0 <= i < n implies #[trigger] rem@[i] == remainder(b, ts@, i) by {}
        lemma_unsettled_le_nonzero(b);
    }
    ts
}

} // verus!
