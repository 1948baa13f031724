//! The unreduced graph of a group.

use vstd::prelude::*;

use crate::fair::{all_wf, heads_total, heads_upto, initial_owed, spent_total, spent_upto};
use crate::payment::Payments;
use crate::person::Person;

verus! {

/// Builds the graph of who owes whom before any reduction: each participant
/// owes every other participant that spent something that one's spending
/// over the heads of the group, once per head of its own. Every participant
/// then ends within the tolerance of the fair share.
pub fn gen_payments(persons: &[Person]) -> (r: Payments)
    requires
        all_wf(persons@),
        persons@.len() < 65536,
        spent_total(persons@) + persons@.len() * heads_total(persons@) <= u64::MAX,
    ensures
        r.wf(),
        r.people() == persons@,
        forall|s: nat, t: nat| #[trigger] r.owes(s, t) == initial_owed(persons@, s, t),
        r.balanced(),
{
    Payments::from_persons(persons)
}

/// Whether `gen_payments` can take the group: everyone stands for at least
/// one head, there are fewer than 65536 participants, and all spending plus
/// the heads counted once per participant fits in 64 bits of thousandths.
pub fn within_limits(persons: &[Person]) -> (r: bool)
    ensures
        r == (all_wf(persons@) && persons@.len() < 65536 && spent_total(persons@) + persons@.len()
            * heads_total(persons@) <= u64::MAX),
{
    let ghost ps = persons@;
    let n = persons.len();
    if n >= 65536 {
        return false;
    }
    let mut spent: u128 = 0;
    let mut heads: u128 = 0;
    let mut i: usize = 0;
    while i < n
        invariant
            ps == persons@,
            n == ps.len(),
            n < 65536,
            i <= n,
            spent == spent_upto(ps, i as int),
            heads == heads_upto(ps, i as int),
            spent <= i * 0x1_0000_0000_0000_0000,
            heads <= i * 0x1_0000_0000,
            forall|j: int| 0 <= j < i ==> #[trigger] ps[j].wf(),
        decreases n - i,
    {
        if persons[i].size() == 0 {
            assert(!ps[i as int].wf());
            return false;
        }
        spent = spent + persons[i].money_spent().0 as u128;
        heads = heads + persons[i].size() as u128;
        i = i + 1;
    }
    proof {
        assert(n * heads <= 65536 * (65536 * 0x1_0000_0000)) by (nonlinear_arith)
            requires heads <= n * 0x1_0000_0000, n < 65536;
    }
    let prod: u128 = n as u128 * heads;
    assert(spent == spent_total(ps) && heads == heads_total(ps));
    spent + prod <= u64::MAX as u128
}

} // verus!
