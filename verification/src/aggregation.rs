//! How the stored prices are re-binned into the buckets of a response.
use vstd::prelude::*;
use vstd::arithmetic::power::pow;

verus! {

/// The bucketing strategy applied to a distribution's prices (in cents).
#[derive(Clone, Copy, Debug, PartialEq, Eq, Structural)]
pub enum UrpdAggregation {
    /// No re-binning: each stored price is its own bucket.
    Raw,
    /// Fixed-width buckets of $1.
    Step1,
    /// Fixed-width buckets of $10.
    Step10,
    /// Fixed-width buckets of $100.
    Step100,
    /// Fixed-width buckets of $1,000.
    Step1000,
    /// Logarithmic buckets: the price keeps its two most significant digits.
    Log2,
    /// Logarithmic buckets: the price keeps its three most significant digits.
    Log3,
}

impl Default for UrpdAggregation {
    /// No re-binning.
    fn default() -> (r: Self)
        ensures
            r == UrpdAggregation::Raw,
    {
        UrpdAggregation::Raw
    }
}

/// `price` with all but its `digits` most significant decimal digits set to
/// zero.
pub open spec fn significant_floor(price: nat, digits: nat) -> nat
    decreases price,
{
    if price < pow10(digits) || price < 10 {
        price
    } else {
        10 * significant_floor(price / 10, digits)
    }
}

/// `10^n`.
pub open spec fn pow10(n: nat) -> nat
    decreases n,
{
    if n == 0 {
        1
    } else {
        10 * pow10((n - 1) as nat)
    }
}

impl UrpdAggregation {
    /// The width of a fixed-width bucket, in cents, or `None` for the other
    /// strategies.
    pub open spec fn step_cents(self) -> Option<nat> {
        match self {
            UrpdAggregation::Step1 => Some(100),
            UrpdAggregation::Step10 => Some(1_000),
            UrpdAggregation::Step100 => Some(10_000),
            UrpdAggregation::Step1000 => Some(100_000),
            _ => None,
        }
    }

    /// The lower bound, in cents, of the bucket that holds `price`.
    pub open spec fn floor_of(self, price: nat) -> nat {
        match self {
            UrpdAggregation::Raw => price,
            UrpdAggregation::Log2 => significant_floor(price, 2),
            UrpdAggregation::Log3 => significant_floor(price, 3),
            _ => {
                let step = self.step_cents().unwrap();
                (price - price % step) as nat
            },
        }
    }

    /// A bucket starts at or below the prices it holds.
    pub proof fn lemma_floor_le(self, price: nat)
        ensures
            self.floor_of(price) <= price,
    {
        lemma_significant_floor_le(price, 2);
        lemma_significant_floor_le(price, 3);
    }

    /// The lower bound, in cents, of the bucket that holds `price` (in cents).
    pub fn bucket_floor(&self, price: u64) -> (r: u64)
        ensures
            r == self.floor_of(price as nat),
            r <= price,
    {
        proof {
            reveal_with_fuel(pow10, 4);
        }
        match self {
            UrpdAggregation::Raw => price,
            UrpdAggregation::Step1 => price - price % 100,
            UrpdAggregation::Step10 => price - price % 1_000,
            UrpdAggregation::Step100 => price - price % 10_000,
            UrpdAggregation::Step1000 => price - price % 100_000,
            UrpdAggregation::Log2 => keep_significant(price, 100, Ghost(2)),
            UrpdAggregation::Log3 => keep_significant(price, 1_000, Ghost(3)),
        }
    }
}

/// The bucket of a price under each fixed-step strategy is the largest
/// multiple of the step at or below the price: $1 (100 cents) for `Step1`,
/// $10 for `Step10`, $100 for `Step100` and $1,000 for `Step1000`; `Raw`
/// keeps the price as it is.
pub proof fn law_fixed_step_floor(agg: UrpdAggregation, price: nat)
    ensures
        agg == UrpdAggregation::Raw ==> agg.floor_of(price) == price,
        agg == UrpdAggregation::Step1 ==> agg.floor_of(price) % 100 == 0 && agg.floor_of(price)
            <= price < agg.floor_of(price) + 100,
        agg == UrpdAggregation::Step10 ==> agg.floor_of(price) % 1_000 == 0 && agg.floor_of(
            price,
        ) <= price < agg.floor_of(price) + 1_000,
        agg == UrpdAggregation::Step100 ==> agg.floor_of(price) % 10_000 == 0 && agg.floor_of(
            price,
        ) <= price < agg.floor_of(price) + 10_000,
        agg == UrpdAggregation::Step1000 ==> agg.floor_of(price) % 100_000 == 0 && agg.floor_of(
            price,
        ) <= price < agg.floor_of(price) + 100_000,
{
    lemma_multiple_below(price, 100);
    lemma_multiple_below(price, 1_000);
    lemma_multiple_below(price, 10_000);
    lemma_multiple_below(price, 100_000);
}

/// Taking away the remainder leaves a multiple of the divisor within one
/// divisor of the number.
proof fn lemma_multiple_below(price: nat, step: nat)
    requires
        step > 0,
    ensures
        (price - price % step) as nat % step == 0,
        price - price % step <= price < price - price % step + step,
{
    let q = price as int / step as int;
    vstd::arithmetic::div_mod::lemma_fundamental_div_mod(price as int, step as int);
    vstd::arithmetic::mul::lemma_mul_is_commutative(step as int, q);
    vstd::arithmetic::div_mod::lemma_mod_multiples_basic(q, step as int);
    assert(price - price % step == q * step);
}

/// The logarithmic strategies keep the leading digits of a price: its bucket is
/// the price with its last `e` digits set to zero, for an `e` at which two
/// digits (`Log2`) or three digits (`Log3`) remain, and no digit is dropped
/// from a price that has no more than that many.
pub proof fn law_log_floor(agg: UrpdAggregation, price: nat) -> (e: nat)
    requires
        agg == UrpdAggregation::Log2 || agg == UrpdAggregation::Log3,
    ensures
        agg.floor_of(price) == (price / (pow(10, e) as nat)) * (pow(10, e) as nat),
        agg == UrpdAggregation::Log2 ==> (price / (pow(10, e) as nat)) < 100 && (e > 0 ==> 10
            <= price / (pow(10, e) as nat)),
        agg == UrpdAggregation::Log3 ==> (price / (pow(10, e) as nat)) < 1_000 && (e > 0 ==> 100
            <= price / (pow(10, e) as nat)),
{
    reveal_with_fuel(pow10, 4);
    if agg == UrpdAggregation::Log2 {
        lemma_significant_floor_digits(price, 2, 10)
    } else {
        lemma_significant_floor_digits(price, 3, 100)
    }
}

/// `significant_floor` drops the last `e` digits of a price and keeps fewer
/// than `10^digits`, and at least `lead` when a digit was dropped.
proof fn lemma_significant_floor_digits(price: nat, digits: nat, lead: nat) -> (e: nat)
    requires
        pow10(digits) == 10 * lead,
        lead >= 1,
    ensures
        pow(10, e) > 0,
        significant_floor(price, digits) == (price / (pow(10, e) as nat)) * (pow(10, e) as nat),
        (price / (pow(10, e) as nat)) < pow10(digits),
        e > 0 ==> lead <= price / (pow(10, e) as nat),
    decreases price,
{
    reveal(pow);
    if price < pow10(digits) || price < 10 {
        assert(pow(10, 0) == 1);
        assert(price / 1nat == price);
        assert((price / 1nat) * 1nat == price);
        0
    } else {
        let q = price / 10;
        let e0 = lemma_significant_floor_digits(q, digits, lead);
        let u0 = (pow(10, e0) as nat);
        let e = e0 + 1;
        assert(pow(10, e) == 10 * pow(10, e0));
        let u = (pow(10, e) as nat);
        vstd::arithmetic::div_mod::lemma_div_denominator(price as int, 10, u0 as int);
        assert(price / u == q / u0);
        assert(significant_floor(price, digits) == 10 * ((q / u0) * u0));
        assert(10 * ((q / u0) * u0) == (q / u0) * (10 * u0)) by (nonlinear_arith);
        assert((q / u0) * (10 * u0) == (price / u) * u);
        if e0 == 0 {
            assert(q / u0 == q);
        }
        e
    }
}

proof fn lemma_significant_floor_le(price: nat, digits: nat)
    ensures
        significant_floor(price, digits) <= price,
    decreases price,
{
    if !(price < pow10(digits) || price < 10) {
        lemma_significant_floor_le(price / 10, digits);
    }
}

/// `price` with all but its `digits` most significant digits zeroed, where
/// `limit == 10^digits`.
fn keep_significant(price: u64, limit: u64, Ghost(digits): Ghost<nat>) -> (r: u64)
    requires
        limit == pow10(digits),
        limit >= 10,
    ensures
        r == significant_floor(price as nat, digits),
        r <= price,
    decreases price,
{
    proof {
        lemma_significant_floor_le(price as nat, digits);
    }
    if price < limit || price < 10 {
        price
    } else {
        let head = keep_significant(price / 10, limit, Ghost(digits));
        10 * head
    }
}

} // verus!
