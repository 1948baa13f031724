//! Amounts of money as whole numbers of thousandths of the currency unit.

use vstd::prelude::*;

verus! {

/// Thousandths in one unit of currency.
pub const THOUSANDTHS_PER_UNIT: u64 = 1000;

/// Thousandths in one cent.
pub const THOUSANDTHS_PER_CENT: u64 = 10;

/// `n / d` rounded to the nearest integer, halves rounded up
/// (away from zero, as both are non-negative).
pub open spec fn round_div(n: int, d: int) -> int {
    (2 * n + d) / (2 * d)
}

/// `n / d` rounded to the nearest integer, halves rounded away from zero.
pub open spec fn round_div_signed(n: int, d: int) -> int {
    if n >= 0 {
        round_div(n, d)
    } else {
        -round_div(-n, d)
    }
}

/// `x` thousandths rounded to whole cents (in thousandths), halves to the
/// even cent.
pub open spec fn cents_half_even(x: int) -> int {
    let q = x / 10;
    let rest = x % 10;
    10 * if rest > 5 || (rest == 5 && q % 2 == 1) {
        q + 1
    } else {
        q
    }
}

/// Ten to the power `e`.
pub open spec fn pow10(e: nat) -> nat
    decreases e,
{
    if e == 0 {
        1
    } else {
        10 * pow10((e - 1) as nat)
    }
}

/// The number of thousandths nearest to `m / 10^e` units.
pub open spec fn thousandths_of(m: int, e: nat) -> int {
    round_div(m * 1000, pow10(e) as int)
}

/// What a decimal number in text reads as: its mantissa and its scale
/// (the value is `mantissa / 10^scale`), or nothing when the text is no number.
pub uninterp spec fn decimal_parts(s: Seq<char>) -> Option<(i128, u32)>;

/// Relies on rust_decimal: `Decimal::from_str` reads the text, and the
/// `mantissa` (96 bits and a sign) and `scale` (at most 28) of the number read
/// are handed back as they are.
#[verifier::external_body]
fn read_decimal(s: &str) -> (r: Option<(i128, u32)>)
    ensures
        r == decimal_parts(s@),
        r matches Some(p) ==> p.1 <= 28 && -0x1_0000_0000_0000_0000_0000_0000 < p.0
            < 0x1_0000_0000_0000_0000_0000_0000,
{
    match <rust_decimal::Decimal as core::str::FromStr>::from_str(s) {
        Ok(d) => Some((d.mantissa(), d.scale())),
        Err(_) => None,
    }
}

/// The amount `m / 10^e` rounded to thousandths, when it is not negative
/// and fits.
pub open spec fn from_parts_spec(m: i128, e: u32) -> Option<Money> {
    let t = thousandths_of(m as int, e as nat);
    if m >= 0 && t <= u64::MAX {
        Some(Money(t as u64))
    } else {
        None
    }
}

/// What `Money::parse` gives for a text.
pub open spec fn parse_spec(s: Seq<char>) -> Option<Money> {
    match decimal_parts(s) {
        Some((m, e)) => from_parts_spec(m, e),
        None => None,
    }
}

/// A non-negative sum of money, counted in thousandths of the currency unit.
#[derive(Debug, Clone, Copy, PartialEq, Eq, Structural, PartialOrd, Ord, Hash)]
pub struct Money(pub u64);

/// The sum of a sequence of amounts, in thousandths.
pub open spec fn sum_spec(s: Seq<Money>) -> int
    decreases s.len(),
{
    if s.len() == 0 {
        0
    } else {
        sum_spec(s.drop_last()) + s.last().0
    }
}

fn pow10_exec(e: u32) -> (r: u128)
    requires
        e <= 28,
    ensures
        r == pow10(e as nat),
        1 <= r <= 10_000_000_000_000_000_000_000_000_000u128,
{
    let mut r: u128 = 1;
    let mut i: u32 = 0;
    while i < e
        invariant
            i <= e <= 28,
            r == pow10(i as nat),
        decreases e - i,
    {
        proof {
            lemma_pow10_bound(i as nat);
        }
        r = r * 10;
        i = i + 1;
    }
    proof {
        lemma_pow10_bound(e as nat);
    }
    r
}

proof fn lemma_pow10_bound(e: nat)
    requires
        e <= 28,
    ensures
        1 <= pow10(e) <= pow10(28),
        pow10(28) == 10_000_000_000_000_000_000_000_000_000,
    decreases e,
{
    reveal_with_fuel(pow10, 29);
    if e < 28 {
        lemma_pow10_mono(e, 28);
    }
}

proof fn lemma_pow10_mono(a: nat, b: nat)
    requires
        a <= b,
    ensures
        1 <= pow10(a) <= pow10(b),
    decreases b,
{
    if a < b {
        lemma_pow10_mono(a, (b - 1) as nat);
    } else if a > 0 {
        lemma_pow10_mono((a - 1) as nat, (a - 1) as nat);
    }
}

impl From<u32> for Money {
    /// So many whole units of currency.
    fn from(units: u32) -> (r: Money)
        ensures
            r.0 == units * 1000,
    {
        Money(units as u64 * THOUSANDTHS_PER_UNIT)
    }
}

impl vstd::std_specs::convert::FromSpecImpl<u32> for Money {
    open spec fn obeys_from_spec() -> bool {
        true
    }

    open spec fn from_spec(units: u32) -> Money {
        Money((units * 1000) as u64)
    }
}

impl Money {
    /// No money at all.
    pub fn zero() -> (r: Money)
        ensures
            r.0 == 0,
    {
        Money(0)
    }

    /// The amount as a count of thousandths.
    pub fn thousandths(&self) -> (r: u64)
        ensures
            r == self.0,
    {
        self.0
    }

    /// Reads an amount written as a decimal number ("19.952", "20"), rounded to
    /// the nearest thousandth, halves away from zero. Text that is no number, a
    /// negative number, or one too large gives `None`.
    pub fn parse(s: &str) -> (r: Option<Money>)
        ensures
            r == parse_spec(s@),
    {
        match read_decimal(s) {
            None => None,
            Some((m, e)) => Money::from_decimal_parts(m, e),
        }
    }

    /// The amount `m / 10^e` (a decimal's mantissa and scale), rounded to the
    /// nearest thousandth, halves away from zero; `None` when it is negative
    /// or too large.
    pub fn from_decimal_parts(m: i128, e: u32) -> (r: Option<Money>)
        requires
            e <= 28,
            -0x1_0000_0000_0000_0000_0000_0000 < m < 0x1_0000_0000_0000_0000_0000_0000,
        ensures
            r == from_parts_spec(m, e),
    {
        if m < 0 {
            return None;
        }
        let p = pow10_exec(e);
        let num: u128 = 2 * (m as u128) * 1000 + p;
        let t: u128 = num / (2 * p);
        if t > u64::MAX as u128 {
            None
        } else {
            Some(Money(t as u64))
        }
    }

    /// The sum of two amounts.
    pub fn add(self, rhs: Money) -> (r: Money)
        requires
            self.0 + rhs.0 <= u64::MAX,
        ensures
            r.0 == self.0 + rhs.0,
    {
        Money(self.0 + rhs.0)
    }

    /// Adds `rhs` to this amount.
    pub fn add_assign(&mut self, rhs: Money)
        requires
            old(self).0 + rhs.0 <= u64::MAX,
        ensures
            final(self).0 == old(self).0 + rhs.0,
    {
        self.0 = self.0 + rhs.0;
    }

    /// The difference of two amounts; `rhs` may not exceed this one.
    pub fn sub(self, rhs: Money) -> (r: Money)
        requires
            rhs.0 <= self.0,
        ensures
            r.0 == self.0 - rhs.0,
    {
        Money(self.0 - rhs.0)
    }

    /// This amount times a whole number.
    pub fn mul(self, k: u64) -> (r: Money)
        requires
            self.0 * k <= u64::MAX,
        ensures
            r.0 == self.0 * k,
    {
        Money(self.0 * k)
    }

    /// This amount divided by a whole number, rounded to the nearest thousandth
    /// (halves up).
    pub fn div(self, k: u64) -> (r: Money)
        requires
            k > 0,
        ensures
            r.0 == round_div(self.0 as int, k as int),
    {
        let num: u128 = 2 * (self.0 as u128) + k as u128;
        let q: u128 = num / (2 * k as u128);
        proof {
            assert(q <= self.0) by (nonlinear_arith)
                requires
                    q == (2 * self.0 + k) / (2 * k),
                    k > 0,
            ;
        }
        Money(q as u64)
    }

    /// Divides this amount by a whole number, rounded as `div` does.
    pub fn div_assign(&mut self, k: u64)
        requires
            k > 0,
        ensures
            final(self).0 == round_div(old(self).0 as int, k as int),
    {
        *self = self.div(k);
    }

    /// This amount times `num / den`, rounded to the nearest thousandth
    /// (halves up): multiplying by 1.5 is `scale(3, 2)`.
    pub fn scale(self, num: u64, den: u64) -> (r: Money)
        requires
            den > 0,
            round_div(self.0 * num, den as int) <= u64::MAX,
        ensures
            r.0 == round_div(self.0 * num, den as int),
    {
        proof {
            assert(self.0 * num <= u64::MAX * u64::MAX) by (nonlinear_arith)
                requires
                    self.0 <= u64::MAX,
                    num <= u64::MAX,
            ;
        }
        let prod: u128 = self.0 as u128 * num as u128;
        let q0: u128 = prod / den as u128;
        let rem: u128 = prod % den as u128;
        let q: u128 = if 2 * rem >= den as u128 {
            q0 + 1
        } else {
            q0
        };
        proof {
            lemma_round_div_by_parts(prod as int, den as int, q0 as int, rem as int);
        }
        Money(q as u64)
    }

    /// This amount rounded to whole cents, halves to the even cent.
    pub fn round_to_cents(self) -> (r: Money)
        requires
            self.0 <= u64::MAX - 10,
        ensures
            r.0 == cents_half_even(self.0 as int),
            r.0 % 10 == 0,
    {
        let q: u64 = self.0 / 10;
        let rest: u64 = self.0 % 10;
        let up = rest > 5 || (rest == 5 && q % 2 == 1);
        if up {
            Money((q + 1) * 10)
        } else {
            Money(q * 10)
        }
    }

    /// The sum of all the amounts.
    pub fn sum(items: &[Money]) -> (r: Money)
        requires
            sum_spec(items@) <= u64::MAX,
        ensures
            r.0 == sum_spec(items@),
    {
        let mut acc: u64 = 0;
        let mut i: usize = 0;
        while i < items.len()
            invariant
                i <= items@.len(),
                sum_spec(items@) <= u64::MAX,
                acc == sum_spec(items@.subrange(0, i as int)),
            decreases items@.len() - i,
        {
            proof {
                lemma_sum_prefix_le(items@, i as int + 1);
                assert(items@.subrange(0, i as int + 1).drop_last() =~= items@.subrange(0, i as int));
            }
            acc = acc + items[i].0;
            i = i + 1;
        }
        assert(items@.subrange(0, i as int) =~= items@);
        Money(acc)
    }
}

proof fn lemma_round_div_by_parts(n: int, d: int, q0: int, rem: int)
    requires
        d > 0,
        n >= 0,
        q0 == n / d,
        rem == n % d,
    ensures
        round_div(n, d) == if 2 * rem >= d {
            q0 + 1
        } else {
            q0
        },
{
    vstd::arithmetic::div_mod::lemma_fundamental_div_mod(n, d);
    assert(0 <= rem < d);
    let k: int = if 2 * rem >= d {
        1
    } else {
        0
    };
    assert(2 * n + d == (q0 + k) * (2 * d) + (2 * rem + d - 2 * d * k)) by (nonlinear_arith)
        requires
            n == d * q0 + rem,
    ;
    assert(0 <= 2 * rem + d - 2 * d * k < 2 * d);
    vstd::arithmetic::div_mod::lemma_fundamental_div_mod_converse_div(
        2 * n + d,
        2 * d,
        q0 + k,
        2 * rem + d - 2 * d * k,
    );
}

proof fn lemma_sum_prefix_le(s: Seq<Money>, k: int)
    requires
        0 <= k <= s.len(),
    ensures
        0 <= sum_spec(s.subrange(0, k)) <= sum_spec(s),
    decreases s.len(),
{
    if s.len() > 0 {
        if k == s.len() {
            assert(s.subrange(0, k) =~= s);
            lemma_sum_prefix_le(s.drop_last(), s.len() - 1);
        } else {
            lemma_sum_prefix_le(s.drop_last(), k);
            assert(s.drop_last().subrange(0, k) =~= s.subrange(0, k));
        }
    }
}

} // verus!
