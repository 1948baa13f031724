//! Reading contributions: `NAME=AMOUNT` arguments, and the group they make.

use vstd::prelude::*;
use vstd::string::StrSliceExecFns;

use crate::money::{cents_half_even, parse_spec, Money};
use crate::person::Person;

verus! {

/// The characters before the first `=` (all of them when there is none).
pub open spec fn key_part(s: Seq<char>) -> Seq<char>
    decreases s.len(),
{
    if s.len() == 0 {
        s
    } else if s[0] == '=' {
        Seq::empty()
    } else {
        seq![s[0]] + key_part(s.drop_first())
    }
}

/// The characters after the first `=`.
pub open spec fn value_part(s: Seq<char>) -> Seq<char> {
    s.skip(key_part(s).len() as int + 1)
}

/// Before the first `=` at index `i` come exactly the characters before it.
proof fn lemma_key_part_at(s: Seq<char>, i: int)
    requires
        0 <= i < s.len(),
        s[i] == '=',
        forall|k: int| 0 <= k < i ==> s[k] != '=',
    ensures
        key_part(s) == s.subrange(0, i),
    decreases i,
{
    if i > 0 {
        let t = s.drop_first();
        lemma_key_part_at(t, i - 1);
        assert(seq![s[0]] + t.subrange(0, i - 1) =~= s.subrange(0, i));
    } else {
        assert(s.subrange(0, 0) =~= Seq::<char>::empty());
    }
}

/// The text before and after the first `=`, or nothing when there is no `=`.
fn split_at_equals(s: &str) -> (r: Option<(&str, &str)>)
    ensures
        r is None <==> !s@.contains('='),
        r matches Some(p) ==> p.0@ == key_part(s@) && p.1@ == value_part(s@),
{
    let n = s.unicode_len();
    let mut i: usize = 0;
    while i < n
        invariant
            n == s@.len(),
            i <= n,
            forall|k: int| 0 <= k < i ==> s@[k] != '=',
        decreases n - i,
    {
        if s.get_char(i) == '=' {
            proof {
                lemma_key_part_at(s@, i as int);
                assert(s@.contains('='));
                assert(s@.skip(i as int + 1) =~= s@.subrange(i as int + 1, n as int));
            }
            return Some((s.substring_char(0, i), s.substring_char(i + 1, n)));
        }
        i = i + 1;
    }
    None
}

/// Why a `NAME=AMOUNT` argument was refused.
#[derive(Debug, PartialEq, Eq)]
pub enum ParseError {
    /// There is no `=`.
    MissingSeparator,
    /// The text after the first `=` is no amount of money.
    InvalidNumber(String),
}

/// Reads a contribution written `NAME=AMOUNT`: the name is what comes before
/// the first `=`, the amount what comes after it.
pub fn parse_key_val(s: &str) -> (r: Result<(String, Money), ParseError>)
    ensures
        !s@.contains('=') ==> r == Err::<(String, Money), ParseError>(ParseError::MissingSeparator),
        s@.contains('=') && parse_spec(value_part(s@)) is Some ==> (r matches Ok(p) && p.0@
            == key_part(s@) && Some(p.1) == parse_spec(value_part(s@))),
        s@.contains('=') && parse_spec(value_part(s@)) is None ==> (r matches Err(
            ParseError::InvalidNumber(v),
        ) && v@ == value_part(s@)),
{
    match split_at_equals(s) {
        None => Err(ParseError::MissingSeparator),
        Some((k, v)) => match Money::parse(v) {
            Some(m) => Ok((k.to_owned(), m)),
            None => Err(ParseError::InvalidNumber(v.to_owned())),
        },
    }
}

/// Why a list of contributions makes no group to settle.
#[derive(Debug, PartialEq, Eq)]
pub enum InputError {
    /// More distinct names paid than there are people in all.
    TooManyNamed { named: usize, total: usize },
    /// Fewer than two people in all.
    TooFewPeople,
    /// What one name paid in all is too large to hold.
    AmountTooLarge,
    /// The people who paid nothing are too many to count in one bloc.
    GroupTooLarge,
}

/// Largest amount, in thousandths, that one name may have paid in all.
pub const MAX_PAID: u64 = 0xffff_ffff_ffff_fff0;

/// The distinct names among the contributions, in order of first appearance.
pub open spec fn distinct_names(cs: Seq<(String, Money)>) -> Seq<Seq<char>>
    decreases cs.len(),
{
    if cs.len() == 0 {
        Seq::empty()
    } else {
        let prev = distinct_names(cs.drop_last());
        if prev.contains(cs.last().0@) {
            prev
        } else {
            prev.push(cs.last().0@)
        }
    }
}

/// What a name paid over all its contributions, in thousandths.
pub open spec fn total_for(cs: Seq<(String, Money)>, name: Seq<char>) -> nat
    decreases cs.len(),
{
    if cs.len() == 0 {
        0
    } else {
        total_for(cs.drop_last(), name) + if cs.last().0@ == name {
            cs.last().1.0 as nat
        } else {
            0
        }
    }
}

/// Whether a name's total is too large to hold.
pub open spec fn some_total_too_large(cs: Seq<(String, Money)>) -> bool {
    exists|k: int| 0 <= k < cs.len() && #[trigger] total_for(cs, cs[k].0@) > MAX_PAID
}

proof fn lemma_total_for_prefix(cs: Seq<(String, Money)>, i: int, name: Seq<char>)
    requires
        0 <= i <= cs.len(),
    ensures
        total_for(cs.take(i), name) <= total_for(cs, name),
    decreases cs.len() - i,
{
    if i < cs.len() {
        lemma_total_for_prefix(cs, i + 1, name);
        assert(cs.take(i + 1).drop_last() =~= cs.take(i));
    } else {
        assert(cs.take(i) =~= cs);
    }
}

proof fn lemma_name_listed(cs: Seq<(String, Money)>, k: int)
    requires
        0 <= k < cs.len(),
    ensures
        distinct_names(cs).contains(cs[k].0@),
    decreases cs.len(),
{
    let prev = distinct_names(cs.drop_last());
    if k < cs.len() - 1 {
        lemma_name_listed(cs.drop_last(), k);
        if !prev.contains(cs.last().0@) {
            let j = choose|j: int| 0 <= j < prev.len() && prev[j] == cs[k].0@;
            assert(prev.push(cs.last().0@)[j] == cs[k].0@);
        }
    } else if !prev.contains(cs.last().0@) {
        assert(prev.push(cs.last().0@)[prev.len() as int] == cs[k].0@);
    }
}

/// Sums the contributions of each name, in order of first appearance; `None`
/// when a name's total is too large to hold.
fn totals_by_name(cs: &Vec<(String, Money)>) -> (r: Option<(Vec<String>, Vec<u64>)>)
    ensures
        r is None <==> some_total_too_large(cs@),
        r matches Some(p) ==> {
            &&& p.0@.len() == p.1@.len()
            &&& p.0@.map_values(|s: String| s@) == distinct_names(cs@)
            &&& forall|j: int|
                0 <= j < p.1@.len() ==> #[trigger] p.1@[j] == total_for(cs@, p.0@[j]@) && p.1@[j]
                    <= MAX_PAID
        },
{
    let mut names: Vec<String> = Vec::new();
    let mut sums: Vec<u64> = Vec::new();
    let mut i: usize = 0;
    while i < cs.len()
        invariant
            i <= cs@.len(),
            names@.len() == sums@.len(),
            names@.map_values(|s: String| s@) == distinct_names(cs@.take(i as int)),
            forall|j: int|
                0 <= j < sums@.len() ==> #[trigger] sums@[j] == total_for(cs@.take(i as int), names@[j]@)
                    && sums@[j] <= MAX_PAID,
        decreases cs@.len() - i,
    {
        let ghost pre = cs@.take(i as int);
        let ghost post = cs@.take(i as int + 1);
        proof {
            assert(post.drop_last() =~= pre);
        }
        let name = &cs[i].0;
        let amount = cs[i].1;
        let mut j: usize = 0;
        let mut found: usize = names.len();
        while j < names.len() && found == names.len()
            invariant
                j <= names@.len(),
                found == names@.len() || (found < names@.len() && names@[found as int]@ == name@),
                found == names@.len() ==> forall|k: int| 0 <= k < j ==> names@[k]@ != name@,
            decreases names@.len() - j,
        {
            if names[j].eq(name) {
                found = j;
            }
            j = j + 1;
        }
        if found < names.len() {
            assert(names@[found as int]@ == name@);
            if amount.0 > MAX_PAID || sums[found] > MAX_PAID - amount.0 {
                proof {
                    lemma_total_for_prefix(cs@, i as int + 1, name@);
                    assert(total_for(cs@, cs@[i as int].0@) > MAX_PAID);
                }
                return None;
            }
            let v = sums[found] + amount.0;
            sums.set(found, v);
            proof {
                assert(distinct_names(pre).contains(name@)) by {
                    assert(names@.map_values(|s: String| s@)[found as int] == name@);
                }
                lemma_distinct_names_unique(pre);
                assert(post.last() == cs@[i as int]);
                assert forall|k: int| 0 <= k < sums@.len() implies #[trigger] sums@[k] == total_for(post, names@[k]@)
                    && sums@[k] <= MAX_PAID by {
                    if k != found {
                        assert(distinct_names(pre)[k] != distinct_names(pre)[found as int]);
                        assert(names@.map_values(|s: String| s@)[k] == names@[k]@);
                        assert(names@.map_values(|s: String| s@)[found as int] == names@[found as int]@);
                    }
                }
            }
        } else {
            if amount.0 > MAX_PAID {
                proof {
                    lemma_total_for_prefix(cs@, i as int + 1, name@);
                }
                return None;
            }
            proof {
                assert(!distinct_names(pre).contains(name@)) by {
                    if distinct_names(pre).contains(name@) {
                        let k = choose|k: int| 0 <= k < distinct_names(pre).len() && distinct_names(pre)[k] == name@;
                        assert(names@.map_values(|s: String| s@)[k] == names@[k]@);
                    }
                }
                lemma_total_for_zero(pre, name@);
            }
            names.push(name.clone());
            sums.push(amount.0);
            proof {
                assert(names@.map_values(|s: String| s@) =~= distinct_names(pre).push(name@));
                assert forall|k: int| 0 <= k < sums@.len() implies #[trigger] sums@[k] == total_for(post, names@[k]@)
                    && sums@[k] <= MAX_PAID by {
                    if k < sums@.len() - 1 {
                        assert(names@.map_values(|s: String| s@)[k] == names@[k]@);
                        assert(names@[k]@ != name@);
                    }
                }
            }
        }
        i = i + 1;
    }
    proof {
        assert(cs@.take(cs@.len() as int) =~= cs@);
        assert forall|k: int| 0 <= k < cs@.len() implies #[trigger] total_for(cs@, cs@[k].0@) <= MAX_PAID by {
            lemma_name_listed(cs@, k);
            let j = choose|j: int| 0 <= j < distinct_names(cs@).len() && distinct_names(cs@)[j] == cs@[k].0@;
            assert(names@.map_values(|s: String| s@)[j] == names@[j]@);
            assert(sums@[j] == total_for(cs@.take(i as int), names@[j]@));
        }
    }
    Some((names, sums))
}

proof fn lemma_distinct_names_unique(cs: Seq<(String, Money)>)
    ensures
        forall|a: int, b: int|
            0 <= a < b < distinct_names(cs).len() ==> distinct_names(cs)[a] != distinct_names(cs)[b],
    decreases cs.len(),
{
    if cs.len() > 0 {
        lemma_distinct_names_unique(cs.drop_last());
        let prev = distinct_names(cs.drop_last());
        let x = cs.last().0@;
        if !prev.contains(x) {
            let d = prev.push(x);
            assert forall|a: int, b: int| 0 <= a < b < d.len() implies d[a] != d[b] by {
                if b == prev.len() {
                    assert(d[a] == prev[a]);
                    if prev[a] == x {
                        assert(prev.contains(x));
                    }
                } else {
                    assert(d[a] == prev[a] && d[b] == prev[b]);
                }
            }
        }
    }
}

proof fn lemma_total_for_zero(cs: Seq<(String, Money)>, name: Seq<char>)
    requires
        !distinct_names(cs).contains(name),
    ensures
        total_for(cs, name) == 0,
    decreases cs.len(),
{
    if cs.len() > 0 {
        let prev = distinct_names(cs.drop_last());
        if prev.contains(name) {
            let j = choose|j: int| 0 <= j < prev.len() && prev[j] == name;
            if !prev.contains(cs.last().0@) {
                assert(prev.push(cs.last().0@)[j] == name);
            }
        }
        lemma_total_for_zero(cs.drop_last(), name);
        if cs.last().0@ == name {
            assert(distinct_names(cs).contains(name)) by {
                if prev.contains(cs.last().0@) {
                } else {
                    assert(prev.push(cs.last().0@)[prev.len() as int] == name);
                }
            }
        }
    }
}

/// What a name paid in all, rounded to whole cents (halves to the even cent)
/// as a participant holds it.
pub open spec fn paid_in_cents(cs: Seq<(String, Money)>, name: Seq<char>) -> Money {
    Money(cents_half_even(total_for(cs, name) as int) as u64)
}

/// The group to settle: one named participant per distinct name, in order of
/// first appearance, holding what that name paid in all (rounded to whole
/// cents); and, when `total_persons` counts more people than there are names,
/// one bloc for the rest. Without `total_persons`, everyone counted is a
/// contributor.
pub fn build_persons(contributions: &Vec<(String, Money)>, total_persons: Option<usize>) -> (r:
    Result<Vec<Person>, InputError>)
    ensures
        ({
            let cs = contributions@;
            let total: int = match total_persons {
                Some(t) => t as int,
                None => cs.len() as int,
            };
            let names = distinct_names(cs);
            &&& some_total_too_large(cs) ==> r == Err::<Vec<Person>, InputError>(
                InputError::AmountTooLarge,
            )
            &&& !some_total_too_large(cs) && names.len() > total ==> r == Err::<Vec<Person>, InputError>(
                InputError::TooManyNamed { named: names.len() as usize, total: total as usize },
            )
            &&& !some_total_too_large(cs) && names.len() <= total && total <= 1 ==> r == Err::<
                Vec<Person>,
                InputError,
            >(InputError::TooFewPeople)
            &&& !some_total_too_large(cs) && names.len() <= total && total >= 2 && total - names.len()
                > u32::MAX ==> r == Err::<Vec<Person>, InputError>(InputError::GroupTooLarge)
            &&& !some_total_too_large(cs) && names.len() <= total && total >= 2 && total - names.len()
                <= u32::MAX ==> (r matches Ok(ps) && {
                &&& ps@.len() == names.len() + if total > names.len() {
                    1int
                } else {
                    0int
                }
                &&& forall|i: int|
                    0 <= i < names.len() ==> (#[trigger] ps@[i] is Named && ps@[i]->name@ == names[i]
                        && ps@[i]->money_spent == paid_in_cents(cs, names[i]))
                &&& total > names.len() ==> ps@[names.len() as int] == (Person::Unnamed {
                    size: (total - names.len()) as u32,
                })
                &&& forall|i: int| 0 <= i < ps@.len() ==> #[trigger] ps@[i].wf()
            })
        }),
{
    let total: usize = match total_persons {
        Some(t) => t,
        None => contributions.len(),
    };
    let (names, sums) = match totals_by_name(contributions) {
        None => {
            return Err(InputError::AmountTooLarge);
        },
        Some(p) => p,
    };
    proof {
        assert(names@.len() == names@.map_values(|s: String| s@).len());
    }
    if names.len() > total {
        return Err(InputError::TooManyNamed { named: names.len(), total });
    }
    if total <= 1 {
        return Err(InputError::TooFewPeople);
    }
    let remaining: usize = total - names.len();
    if remaining > u32::MAX as usize {
        return Err(InputError::GroupTooLarge);
    }
    let mut persons: Vec<Person> = Vec::new();
    let mut i: usize = 0;
    while i < names.len()
        invariant
            i <= names@.len(),
            names@.len() == sums@.len(),
            names@.map_values(|s: String| s@) == distinct_names(contributions@),
            forall|j: int|
                0 <= j < sums@.len() ==> #[trigger] sums@[j] == total_for(contributions@, names@[j]@)
                    && sums@[j] <= MAX_PAID,
            persons@.len() == i,
            forall|j: int|
                0 <= j < i ==> (#[trigger] persons@[j] is Named && persons@[j]->name@
                    == distinct_names(contributions@)[j] && persons@[j]->money_spent == paid_in_cents(
                    contributions@,
                    distinct_names(contributions@)[j],
                )),
            forall|j: int| 0 <= j < i ==> #[trigger] persons@[j].wf(),
        decreases names@.len() - i,
    {
        assert(names@.map_values(|s: String| s@)[i as int] == names@[i as int]@);
        let p = Person::named(names[i].as_str(), Money(sums[i]));
        persons.push(p);
        i = i + 1;
    }
    if remaining > 0 {
        persons.push(Person::unnamed(remaining as u32));
    }
    Ok(persons)
}

} // verus!
