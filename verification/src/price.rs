//! Fixed-precision prices: an unsigned integer scaled by `10^PLACES`.
use vstd::prelude::*;
use vstd::std_specs::convert::FromSpec;

verus! {

/// `10^n` as a mathematical integer.
pub open spec fn pow10_spec(n: nat) -> nat
    decreases n,
{
    if n == 0 {
        1
    } else {
        10 * pow10_spec((n - 1) as nat)
    }
}

/// Compute `10^places`.
pub fn pow10(places: u32) -> (result: u64)
    requires
        places <= 19,
    ensures
        result == pow10_spec(places as nat),
{
    let mut result: u64 = 1;
    let mut i: u32 = 0;
    while i < places
        invariant
            i <= places <= 19,
            result == pow10_spec(i as nat),
        decreases places - i,
    {
        proof {
            lemma_pow10_monotone(i as nat + 1, 19);
        }
        result = result * 10;
        i = i + 1;
    }
    result
}

/// `10^a <= 10^b` whenever `a <= b`; every power is positive and `10^19` fits in a `u64`.
pub proof fn lemma_pow10_monotone(a: nat, b: nat)
    requires
        a <= b,
    ensures
        1 <= pow10_spec(a) <= pow10_spec(b),
        pow10_spec(19) <= u64::MAX,
    decreases b,
{
    reveal_with_fuel(pow10_spec, 20);
    if a < b {
        lemma_pow10_monotone(a, (b - 1) as nat);
    } else if a > 0 {
        lemma_pow10_monotone((a - 1) as nat, (a - 1) as nat);
    }
}

/// Generic fixed-precision price: `raw` is the price scaled by `10^PLACES`.
#[derive(Debug, Clone, Copy, Default, PartialEq, Eq, PartialOrd, Ord, Hash)]
pub struct FixedPrecisionPrice<T, const PLACES: u32> {
    raw: T,
}

impl<const PLACES: u32> View for FixedPrecisionPrice<u64, PLACES> {
    type V = u64;

    closed spec fn view(&self) -> u64 {
        self.raw
    }
}

impl<const PLACES: u32> FixedPrecisionPrice<u64, PLACES> {
    /// The price whose raw value is `raw`.
    pub closed spec fn with_raw(raw: u64) -> Self {
        Self { raw }
    }

    /// The price made from a raw value has that raw value.
    pub broadcast proof fn lemma_with_raw(raw: u64)
        ensures
            (#[trigger] Self::with_raw(raw))@ == raw,
    {
    }

    /// A price is the one made from its own raw value.
    pub proof fn lemma_from_own_raw(p: Self)
        ensures
            p == Self::with_raw(p@),
    {
    }

    /// Construct from a raw (already-scaled) integer.
    pub fn from_raw(raw: u64) -> (p: Self)
        ensures
            p@ == raw,
            p == Self::with_raw(raw),
    {
        Self { raw }
    }

    /// The raw (scaled) integer.
    pub fn raw_value(self) -> (r: u64)
        ensures
            r == self@,
    {
        self.raw
    }

    /// Number of decimal places.
    pub fn num_places(self) -> (n: u32)
        ensures
            n == PLACES,
    {
        PLACES
    }
}

/// Number of decimal digits of `n` (zero has none).
pub open spec fn decimal_digits(n: nat) -> nat
    decreases n,
{
    if n == 0 {
        0
    } else {
        1 + decimal_digits(n / 10)
    }
}

/// A number below `10^k` has at most `k` decimal digits.
pub proof fn lemma_decimal_digits_bound(n: nat, k: nat)
    requires
        n < pow10_spec(k),
    ensures
        decimal_digits(n) <= k,
    decreases k,
{
    if n > 0 {
        if k == 0 {
            assert(pow10_spec(0) == 1);
        } else {
            lemma_decimal_digits_bound(n / 10, (k - 1) as nat);
        }
    }
}

impl<const PLACES: u32> FixedPrecisionPrice<u64, PLACES> {
    /// The divisor `10^PLACES` that separates the integer part from the fraction.
    pub fn divisor() -> (d: u64)
        requires
            PLACES <= 19,
        ensures
            d == pow10_spec(PLACES as nat),
            d >= 1,
    {
        proof {
            lemma_pow10_monotone(PLACES as nat, PLACES as nat);
        }
        pow10(PLACES)
    }

    /// Number of digits of the integer part of the price.
    pub fn num_digits(self) -> (n: u32)
        requires
            PLACES <= 19,
        ensures
            n == decimal_digits((self@ as nat) / pow10_spec(PLACES as nat)),
    {
        let int_part = self.raw / Self::divisor();
        let mut rest: u64 = int_part;
        let mut n: u32 = 0;
        proof {
            reveal_with_fuel(pow10_spec, 21);
            lemma_decimal_digits_bound(int_part as nat, 20);
        }
        while rest > 0
            invariant
                n + decimal_digits(rest as nat) == decimal_digits(int_part as nat),
                n <= 20 - decimal_digits(rest as nat),
                decimal_digits(rest as nat) <= 20,
            decreases rest,
        {
            rest = rest / 10;
            n = n + 1;
        }
        n
    }
}

impl<const PLACES: u32> From<u64> for FixedPrecisionPrice<u64, PLACES> {
    fn from(raw: u64) -> (p: Self) {
        Self { raw }
    }
}

impl<const PLACES: u32> vstd::std_specs::convert::FromSpecImpl<u64> for FixedPrecisionPrice<u64, PLACES> {
    open spec fn obeys_from_spec() -> bool {
        true
    }

    open spec fn from_spec(v: u64) -> Self {
        Self::with_raw(v)
    }
}

/// 4 decimal places: FX pip-level pricing.
pub type Price4 = FixedPrecisionPrice<u64, 4>;

/// 6 decimal places: equity / crypto standard.
pub type Price6 = FixedPrecisionPrice<u64, 6>;

/// 9 decimal places: high-precision crypto / fixed income.
pub type Price9 = FixedPrecisionPrice<u64, 9>;

// ── Conversions between precisions ──────────────────────────────────────────
//
// Going to more decimal places multiplies the raw value by the power of ten
// between the two precisions (modulo 2^64, as unchecked machine arithmetic
// does); going to fewer divides it, dropping the extra digits.

impl From<Price4> for Price6 {
    fn from(p: Price4) -> (r: Price6) {
        Price6::from_raw(p.raw_value().wrapping_mul(100))
    }
}

impl vstd::std_specs::convert::FromSpecImpl<Price4> for Price6 {
    open spec fn obeys_from_spec() -> bool {
        true
    }

    open spec fn from_spec(p: Price4) -> Price6 {
        Price6::with_raw(((p@ as nat * 100) % 0x1_0000_0000_0000_0000) as u64)
    }
}

impl From<Price6> for Price4 {
    fn from(p: Price6) -> (r: Price4) {
        Price4::from_raw(p.raw_value() / 100)
    }
}

impl vstd::std_specs::convert::FromSpecImpl<Price6> for Price4 {
    open spec fn obeys_from_spec() -> bool {
        true
    }

    open spec fn from_spec(p: Price6) -> Price4 {
        Price4::with_raw(p@ / 100)
    }
}

impl From<Price4> for Price9 {
    fn from(p: Price4) -> (r: Price9) {
        Price9::from_raw(p.raw_value().wrapping_mul(100_000))
    }
}

impl vstd::std_specs::convert::FromSpecImpl<Price4> for Price9 {
    open spec fn obeys_from_spec() -> bool {
        true
    }

    open spec fn from_spec(p: Price4) -> Price9 {
        Price9::with_raw(((p@ as nat * 100_000) % 0x1_0000_0000_0000_0000) as u64)
    }
}

impl From<Price9> for Price4 {
    fn from(p: Price9) -> (r: Price4) {
        Price4::from_raw(p.raw_value() / 100_000)
    }
}

impl vstd::std_specs::convert::FromSpecImpl<Price9> for Price4 {
    open spec fn obeys_from_spec() -> bool {
        true
    }

    open spec fn from_spec(p: Price9) -> Price4 {
        Price4::with_raw(p@ / 100_000)
    }
}

impl From<Price6> for Price9 {
    fn from(p: Price6) -> (r: Price9) {
        Price9::from_raw(p.raw_value().wrapping_mul(1_000))
    }
}

impl vstd::std_specs::convert::FromSpecImpl<Price6> for Price9 {
    open spec fn obeys_from_spec() -> bool {
        true
    }

    open spec fn from_spec(p: Price6) -> Price9 {
        Price9::with_raw(((p@ as nat * 1_000) % 0x1_0000_0000_0000_0000) as u64)
    }
}

impl From<Price9> for Price6 {
    fn from(p: Price9) -> (r: Price6) {
        Price6::from_raw(p.raw_value() / 1_000)
    }
}

impl vstd::std_specs::convert::FromSpecImpl<Price9> for Price6 {
    open spec fn obeys_from_spec() -> bool {
        true
    }

    open spec fn from_spec(p: Price9) -> Price6 {
        Price6::with_raw(p@ / 1_000)
    }
}

/// A price taken to six places and back to four is the same price, as long as the
/// scaled raw value fits in 64 bits.
pub proof fn law_price4_through_price6(p: Price4)
    requires
        p@ * 100 <= u64::MAX,
    ensures
        <Price4 as FromSpec<Price6>>::from_spec(<Price6 as FromSpec<Price4>>::from_spec(p)) == p,
{
}

/// A price taken to nine places and back to four is the same price, as long as the
/// scaled raw value fits in 64 bits.
pub proof fn law_price4_through_price9(p: Price4)
    requires
        p@ * 100_000 <= u64::MAX,
    ensures
        <Price4 as FromSpec<Price9>>::from_spec(<Price9 as FromSpec<Price4>>::from_spec(p)) == p,
{
}

/// A price taken to nine places and back to six is the same price, as long as the
/// scaled raw value fits in 64 bits.
pub proof fn law_price6_through_price9(p: Price6)
    requires
        p@ * 1_000 <= u64::MAX,
    ensures
        <Price6 as FromSpec<Price9>>::from_spec(<Price9 as FromSpec<Price6>>::from_spec(p)) == p,
{
}

} // verus!
