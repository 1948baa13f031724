//! Participants of a settlement: a named person, or a group of people who paid
//! nothing and are counted together.

use vstd::prelude::*;
use vstd::string::StringExecFns;

use crate::money::{cents_half_even, Money};

verus! {

/// A participant in the division of a bill.
#[derive(Debug)]
pub enum Person {
    /// A person known by name, who spent `money_spent`.
    Named { name: String, money_spent: Money },
    /// `size` people who paid nothing, settled as one bloc.
    Unnamed { size: u32 },
}

/// The characters of `d`, a decimal digit.
pub open spec fn digit_char(d: nat) -> char {
    seq!['0', '1', '2', '3', '4', '5', '6', '7', '8', '9'][d as int]
}

/// `n` written in decimal, without leading zeros.
pub open spec fn decimal_digits(n: nat) -> Seq<char>
    decreases n,
{
    if n < 10 {
        seq![digit_char(n)]
    } else {
        decimal_digits(n / 10).push(digit_char(n % 10))
    }
}

/// The decimal digit `d` as text.
fn digit_text(d: u32) -> (r: &'static str)
    requires
        d < 10,
    ensures
        r@ == seq![digit_char(d as nat)],
{
    match d {
        0 => {
            proof {
                reveal_strlit("0");
            }
            "0"
        },
        1 => {
            proof {
                reveal_strlit("1");
            }
            "1"
        },
        2 => {
            proof {
                reveal_strlit("2");
            }
            "2"
        },
        3 => {
            proof {
                reveal_strlit("3");
            }
            "3"
        },
        4 => {
            proof {
                reveal_strlit("4");
            }
            "4"
        },
        5 => {
            proof {
                reveal_strlit("5");
            }
            "5"
        },
        6 => {
            proof {
                reveal_strlit("6");
            }
            "6"
        },
        7 => {
            proof {
                reveal_strlit("7");
            }
            "7"
        },
        8 => {
            proof {
                reveal_strlit("8");
            }
            "8"
        },
        _ => {
            proof {
                reveal_strlit("9");
            }
            "9"
        },
    }
}

/// `n` written in decimal.
fn decimal_text(n: u32) -> (r: String)
    ensures
        r@ == decimal_digits(n as nat),
    decreases n,
{
    let mut s = if n >= 10 {
        decimal_text(n / 10)
    } else {
        String::new()
    };
    s.append(digit_text(n % 10));
    proof {
        if n < 10 {
            assert(s@ =~= decimal_digits(n as nat));
        } else {
            assert(s@ =~= decimal_digits(n as nat));
        }
    }
    s
}

impl Person {
    /// The identity of a participant: the name of a named person, and nothing
    /// for the bloc of unnamed people. Two participants are the same entity
    /// exactly when their identities are equal.
    pub open spec fn id(&self) -> Option<Seq<char>> {
        match self {
            Person::Named { name, .. } => Some(name@),
            Person::Unnamed { .. } => None,
        }
    }

    /// What the participant spent, in thousandths.
    pub open spec fn spent(&self) -> nat {
        match self {
            Person::Named { money_spent, .. } => money_spent.0 as nat,
            Person::Unnamed { .. } => 0,
        }
    }

    /// How many people the participant stands for.
    pub open spec fn heads(&self) -> nat {
        match self {
            Person::Named { .. } => 1,
            Person::Unnamed { size } => *size as nat,
        }
    }

    /// A participant stands for at least one person.
    pub open spec fn wf(&self) -> bool {
        self.heads() >= 1
    }

    /// A named person who spent `money_spent`, rounded to whole cents
    /// (halves to the even cent).
    pub fn named(name: &str, money_spent: Money) -> (r: Person)
        requires
            money_spent.0 <= u64::MAX - 10,
        ensures
            r == (Person::Named {
                name: r->name,
                money_spent: Money(cents_half_even(money_spent.0 as int) as u64),
            }),
            r->name@ == name@,
            r.wf(),
    {
        Person::Named { name: name.to_owned(), money_spent: money_spent.round_to_cents() }
    }

    /// A bloc of `size` people who paid nothing.
    pub fn unnamed(size: u32) -> (r: Person)
        requires
            size >= 1,
        ensures
            r == (Person::Unnamed { size }),
            r.wf(),
    {
        Person::Unnamed { size }
    }

    /// The name shown for the participant: the name of a named person, and
    /// "Outras N pessoas" ("N other people") for a bloc of N.
    pub fn identifier(&self) -> (r: String)
        ensures
            r@ == match self {
                Person::Named { name, .. } => name@,
                Person::Unnamed { size } => "Outras "@ + decimal_digits(*size as nat) + " pessoas"@,
            },
    {
        match self {
            Person::Named { name, .. } => name.clone(),
            Person::Unnamed { size } => {
                let mut s = String::from_str("Outras ");
                let digits = decimal_text(*size);
                s.append(digits.as_str());
                s.append(" pessoas");
                s
            },
        }
    }

    /// What the participant spent; nothing for a bloc of unnamed people.
    pub fn money_spent(&self) -> (r: Money)
        ensures
            r.0 == self.spent(),
    {
        match self {
            Person::Named { money_spent, .. } => *money_spent,
            Person::Unnamed { .. } => Money(0),
        }
    }

    /// How many people the participant stands for.
    pub fn size(&self) -> (r: u32)
        ensures
            r == self.heads(),
    {
        match self {
            Person::Named { .. } => 1,
            Person::Unnamed { size } => *size,
        }
    }

    /// Whether both stand for the same entity.
    pub fn same_as(&self, other: &Person) -> (r: bool)
        ensures
            r == (self.id() == other.id()),
    {
        match (self, other) {
            (Person::Named { name: a, .. }, Person::Named { name: b, .. }) => a.eq(b),
            (Person::Unnamed { .. }, Person::Unnamed { .. }) => true,
            _ => false,
        }
    }

    /// A copy of the participant.
    pub fn duplicate(&self) -> (r: Person)
        ensures
            r == *self,
    {
        match self {
            Person::Named { name, money_spent } => Person::Named {
                name: name.clone(),
                money_spent: *money_spent,
            },
            Person::Unnamed { size } => Person::Unnamed { size: *size },
        }
    }
}

impl Clone for Person {
    fn clone(&self) -> (r: Person)
        ensures
            r == *self,
    {
        self.duplicate()
    }
}

impl PartialEq for Person {
    fn eq(&self, other: &Person) -> (r: bool) {
        self.same_as(other)
    }
}

impl vstd::std_specs::cmp::PartialEqSpecImpl for Person {
    open spec fn obeys_eq_spec() -> bool {
        true
    }

    open spec fn eq_spec(&self, other: &Person) -> bool {
        self.id() == other.id()
    }
}

impl Eq for Person {
}

} // verus!
