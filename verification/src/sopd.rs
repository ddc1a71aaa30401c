//! The response built from a stored distribution: buckets of spent (or
//! created) supply by cost-basis price, with their value and realized P&L.
//!
//! Amounts stay exact integers here: prices and values in cents, supply in
//! sats. Turning them into dollars and bitcoin is left to the presentation.
use vstd::prelude::*;

use crate::aggregation::UrpdAggregation;
use crate::date::Date;
use crate::collection::{
    fx_map_get, fx_map_insert, fx_map_into_vec, fx_map_with_capacity, sort_by_first, BucketAccum,
};
use crate::format::{lemma_sorted_keys, sats_sum, sorted_keys, total_sats};
use crate::raw::{lemma_iteration_is_sorted_listing, SopdRaw};
use vstd::std_specs::btree::spec_btree_map_iter;
use vstd::std_specs::iter::IteratorSpec;

verus! {

broadcast use {vstd::std_specs::btree::group_btree_axioms, vstd::laws_cmp::group_laws_cmp};

/// Sats in one bitcoin: a price in cents times an amount in sats, divided by
/// this, is a value in cents.
pub open spec fn sats_per_btc() -> nat {
    100_000_000
}

/// The sats of those keys among `ks` whose bucket under `agg` starts at `f`.
pub open spec fn spent_in(m: Map<u32, u64>, agg: UrpdAggregation, ks: Seq<u32>, f: nat) -> nat
    decreases ks.len(),
{
    if ks.len() == 0 {
        0
    } else {
        spent_in(m, agg, ks.drop_last(), f) + if agg.floor_of(ks.last() as nat) == f {
            m[ks.last()] as nat
        } else {
            0
        }
    }
}

/// Price times sats (cents times sats), summed over those keys among `ks`
/// whose bucket under `agg` starts at `f`.
pub open spec fn value_in(m: Map<u32, u64>, agg: UrpdAggregation, ks: Seq<u32>, f: nat) -> nat
    decreases ks.len(),
{
    if ks.len() == 0 {
        0
    } else {
        value_in(m, agg, ks.drop_last(), f) + if agg.floor_of(ks.last() as nat) == f {
            ks.last() as nat * m[ks.last()] as nat
        } else {
            0
        }
    }
}

/// The buckets that the keys `ks` fall in under `agg`.
pub open spec fn floors(agg: UrpdAggregation, ks: Seq<u32>) -> Set<nat> {
    ks.map_values(|k: u32| agg.floor_of(k as nat)).to_set()
}

/// A cohort's name, such as `all`, `sth` or `lth`.
#[derive(Clone, Debug)]
pub struct Cohort {
    pub name: String,
}

/// One bucket of a distribution.
#[derive(Clone, Copy, Debug)]
pub struct SopdBucket {
    /// Lower bound of the bucket, in cents; the exact price for `Raw`.
    pub price_floor: u64,
    /// Supply in this bucket, in sats.
    pub spent: u64,
    /// Sum of price times supply over the bucket, in cents (rounded down).
    pub cost_basis_value: u128,
    /// `(close - price_floor) * spent`, in cents: the close value and the
    /// floor value of the bucket's supply, each rounded down to a cent,
    /// subtracted.
    pub realized_pnl: i128,
}

/// A distribution for a cohort on a date, ready to be served.
#[derive(Clone, Debug)]
pub struct Sopd {
    pub cohort: Cohort,
    pub date: Date,
    /// Bucketing applied to the stored prices.
    pub aggregation: UrpdAggregation,
    /// Close price on `date`, in cents.
    pub close: u64,
    /// Sum of `spent` over all buckets, in sats.
    pub total_spent: u64,
    pub buckets: Vec<SopdBucket>,
}

/// Whether `b` is the bucket of `m` under `agg` that starts at its
/// `price_floor`, valued against `close` (cents).
pub open spec fn bucket_matches(
    b: SopdBucket,
    m: Map<u32, u64>,
    agg: UrpdAggregation,
    close: nat,
) -> bool {
    let ks = sorted_keys(m);
    let f = b.price_floor as nat;
    let s = spent_in(m, agg, ks, f);
    &&& floors(agg, ks).contains(f)
    &&& b.spent == s
    &&& b.cost_basis_value == value_in(m, agg, ks, f) / sats_per_btc()
    &&& b.realized_pnl == (close * s) / sats_per_btc() - (f * s) / sats_per_btc()
}

/// A bucket's supply never exceeds the supply it was drawn from.
pub proof fn lemma_spent_le_sum(m: Map<u32, u64>, agg: UrpdAggregation, ks: Seq<u32>, f: nat)
    ensures
        spent_in(m, agg, ks, f) <= sats_sum(m, ks),
    decreases ks.len(),
{
    if ks.len() > 0 {
        lemma_spent_le_sum(m, agg, ks.drop_last(), f);
    }
}

/// A bucket's value is below `2^32` cents per sat.
pub proof fn lemma_value_le_spent(m: Map<u32, u64>, agg: UrpdAggregation, ks: Seq<u32>, f: nat)
    ensures
        value_in(m, agg, ks, f) <= 0x1_0000_0000 * spent_in(m, agg, ks, f),
    decreases ks.len(),
{
    if ks.len() > 0 {
        lemma_value_le_spent(m, agg, ks.drop_last(), f);
        let k = ks.last() as nat;
        let v = m[ks.last()] as nat;
        assert(k * v <= 0x1_0000_0000 * v) by (nonlinear_arith)
            requires
                k < 0x1_0000_0000,
        ;
    }
}

/// Summing over a prefix gives no more than summing over the whole.
pub proof fn lemma_sats_sum_prefix(m: Map<u32, u64>, ks: Seq<u32>, i: int)
    requires
        0 <= i <= ks.len(),
    ensures
        sats_sum(m, ks.take(i)) <= sats_sum(m, ks),
    decreases ks.len(),
{
    if i < ks.len() {
        lemma_sats_sum_prefix(m, ks.drop_last(), i);
        assert(ks.drop_last().take(i) =~= ks.take(i));
    } else {
        assert(ks.take(i) =~= ks);
    }
}

/// Whether `bs` is the bucketing of `m` under `agg`, valued against `close`:
/// each bucket is right, the buckets are in strictly increasing price order,
/// and every bucket that some price falls in is there.
pub open spec fn is_bucketing(
    bs: Seq<SopdBucket>,
    m: Map<u32, u64>,
    agg: UrpdAggregation,
    close: nat,
) -> bool {
    &&& forall|i: int| 0 <= i < bs.len() ==> bucket_matches(#[trigger] bs[i], m, agg, close)
    &&& forall|i: int, j: int| 0 <= i < j < bs.len() ==> bs[i].price_floor < bs[j].price_floor
    &&& forall|f: nat|
        floors(agg, sorted_keys(m)).contains(f) ==> exists|i: int|
            0 <= i < bs.len() && bs[i].price_floor == f
}

/// The supply of the buckets `bs`, summed.
pub open spec fn buckets_spent(bs: Seq<SopdBucket>) -> nat
    decreases bs.len(),
{
    if bs.len() == 0 {
        0
    } else {
        buckets_spent(bs.drop_last()) + bs.last().spent as nat
    }
}

/// The supply of the buckets that start at the bounds `fs`, summed.
pub open spec fn spent_over(m: Map<u32, u64>, agg: UrpdAggregation, ks: Seq<u32>, fs: Seq<nat>) -> nat
    decreases fs.len(),
{
    if fs.len() == 0 {
        0
    } else {
        spent_over(m, agg, ks, fs.drop_last()) + spent_in(m, agg, ks, fs.last())
    }
}

/// Bucketing moves supply around and loses none of it: the buckets of a
/// distribution together hold its whole supply.
pub proof fn law_buckets_hold_all_supply(
    bs: Seq<SopdBucket>,
    m: Map<u32, u64>,
    agg: UrpdAggregation,
    close: nat,
)
    requires
        is_bucketing(bs, m, agg, close),
    ensures
        buckets_spent(bs) == total_sats(m),
{
    let ks = sorted_keys(m);
    let fs = bs.map_values(|b: SopdBucket| b.price_floor as nat);
    assert(fs.no_duplicates()) by {
        assert forall|i: int, j: int| 0 <= i < fs.len() && 0 <= j < fs.len() && i != j implies fs[i]
            != fs[j] by {
            if i < j {
                assert(bs[i].price_floor < bs[j].price_floor);
            } else {
                assert(bs[j].price_floor < bs[i].price_floor);
            }
        }
    }
    assert forall|f: nat| floors(agg, ks).contains(f) implies fs.contains(f) by {
        let i = choose|i: int| 0 <= i < bs.len() && bs[i].price_floor == f;
        assert(fs[i] == f);
    }
    lemma_spent_over_all(m, agg, ks, fs);
    lemma_buckets_spent_is_spent_over(bs, m, agg, close, bs.len() as int);
    assert(bs.take(bs.len() as int) =~= bs);
    assert(fs.take(bs.len() as int) =~= fs);
}

proof fn lemma_buckets_spent_is_spent_over(
    bs: Seq<SopdBucket>,
    m: Map<u32, u64>,
    agg: UrpdAggregation,
    close: nat,
    n: int,
)
    requires
        0 <= n <= bs.len(),
        forall|i: int| 0 <= i < bs.len() ==> bucket_matches(#[trigger] bs[i], m, agg, close),
    ensures
        buckets_spent(bs.take(n)) == spent_over(
            m,
            agg,
            sorted_keys(m),
            bs.map_values(|b: SopdBucket| b.price_floor as nat).take(n),
        ),
    decreases n,
{
    let fs = bs.map_values(|b: SopdBucket| b.price_floor as nat);
    if n > 0 {
        lemma_buckets_spent_is_spent_over(bs, m, agg, close, n - 1);
        assert(bs.take(n).drop_last() =~= bs.take(n - 1));
        assert(fs.take(n).drop_last() =~= fs.take(n - 1));
        assert(bucket_matches(bs[n - 1], m, agg, close));
    }
}

/// Adding a key adds its sats to the bucket bounds that hold its bucket.
proof fn lemma_spent_over_push_key(
    m: Map<u32, u64>,
    agg: UrpdAggregation,
    ks: Seq<u32>,
    k: u32,
    fs: Seq<nat>,
)
    requires
        fs.no_duplicates(),
    ensures
        spent_over(m, agg, ks.push(k), fs) == spent_over(m, agg, ks, fs) + if fs.contains(
            agg.floor_of(k as nat),
        ) {
            m[k] as nat
        } else {
            0
        },
    decreases fs.len(),
{
    assert(ks.push(k).drop_last() =~= ks);
    if fs.len() > 0 {
        let rest = fs.drop_last();
        assert(rest.no_duplicates());
        lemma_spent_over_push_key(m, agg, ks, k, rest);
        let c = agg.floor_of(k as nat);
        assert(fs.contains(c) <==> (rest.contains(c) || fs.last() == c)) by {
            if fs.contains(c) {
                let i = choose|i: int| 0 <= i < fs.len() && fs[i] == c;
                if i < fs.len() - 1 {
                    assert(rest[i] == c);
                }
            }
            if rest.contains(c) {
                let i = choose|i: int| 0 <= i < rest.len() && rest[i] == c;
                assert(fs[i] == c);
            }
        }
        if rest.contains(c) && fs.last() == c {
            let i = choose|i: int| 0 <= i < rest.len() && rest[i] == c;
            assert(fs[i] == fs[fs.len() - 1]);
        }
    }
}

/// Summed over distinct bounds that cover every bucket of `ks`, the bucket
/// supplies add up to the supply of `ks`.
proof fn lemma_spent_over_all(m: Map<u32, u64>, agg: UrpdAggregation, ks: Seq<u32>, fs: Seq<nat>)
    requires
        fs.no_duplicates(),
        forall|f: nat| floors(agg, ks).contains(f) ==> fs.contains(f),
    ensures
        spent_over(m, agg, ks, fs) == sats_sum(m, ks),
    decreases ks.len(),
{
    if ks.len() == 0 {
        lemma_spent_over_empty(m, agg, ks, fs);
    } else {
        let rest = ks.drop_last();
        let k = ks.last();
        assert(rest.push(k) =~= ks);
        lemma_floors_push(agg, rest, k);
        lemma_spent_over_all(m, agg, rest, fs);
        lemma_spent_over_push_key(m, agg, rest, k, fs);
        assert(floors(agg, ks).contains(agg.floor_of(k as nat)));
    }
}

proof fn lemma_spent_over_empty(m: Map<u32, u64>, agg: UrpdAggregation, ks: Seq<u32>, fs: Seq<nat>)
    requires
        ks.len() == 0,
    ensures
        spent_over(m, agg, ks, fs) == 0,
    decreases fs.len(),
{
    if fs.len() > 0 {
        lemma_spent_over_empty(m, agg, ks, fs.drop_last());
    }
}

/// The value (cents) of the buckets `bs`, summed.
pub open spec fn buckets_value(bs: Seq<SopdBucket>) -> nat
    decreases bs.len(),
{
    if bs.len() == 0 {
        0
    } else {
        buckets_value(bs.drop_last()) + bs.last().cost_basis_value as nat
    }
}

/// Price times sats over the keys `ks` of `m`, summed.
pub open spec fn value_sum(m: Map<u32, u64>, ks: Seq<u32>) -> nat
    decreases ks.len(),
{
    if ks.len() == 0 {
        0
    } else {
        value_sum(m, ks.drop_last()) + ks.last() as nat * m[ks.last()] as nat
    }
}

/// Price times sats of the buckets that start at the bounds `fs`, summed.
pub open spec fn value_over(m: Map<u32, u64>, agg: UrpdAggregation, ks: Seq<u32>, fs: Seq<nat>) -> nat
    decreases fs.len(),
{
    if fs.len() == 0 {
        0
    } else {
        value_over(m, agg, ks, fs.drop_last()) + value_in(m, agg, ks, fs.last())
    }
}

/// The buckets' values add up to the value of the whole distribution
/// (price times sats, in cents), up to the rounding of each bucket down to
/// a cent: less than one cent per bucket is lost.
pub proof fn law_bucket_values_add_up(
    bs: Seq<SopdBucket>,
    m: Map<u32, u64>,
    agg: UrpdAggregation,
    close: nat,
)
    requires
        is_bucketing(bs, m, agg, close),
    ensures
        sats_per_btc() * buckets_value(bs) <= value_sum(m, sorted_keys(m)),
        value_sum(m, sorted_keys(m)) <= sats_per_btc() * buckets_value(bs) + (sats_per_btc() - 1)
            * bs.len(),
{
    let ks = sorted_keys(m);
    let fs = bs.map_values(|b: SopdBucket| b.price_floor as nat);
    assert(fs.no_duplicates()) by {
        assert forall|i: int, j: int| 0 <= i < fs.len() && 0 <= j < fs.len() && i != j implies fs[i]
            != fs[j] by {
            if i < j {
                assert(bs[i].price_floor < bs[j].price_floor);
            } else {
                assert(bs[j].price_floor < bs[i].price_floor);
            }
        }
    }
    assert forall|f: nat| floors(agg, ks).contains(f) implies fs.contains(f) by {
        let i = choose|i: int| 0 <= i < bs.len() && bs[i].price_floor == f;
        assert(fs[i] == f);
    }
    lemma_value_over_all(m, agg, ks, fs);
    lemma_bucket_values_round(bs, m, agg, close, bs.len() as int);
    assert(bs.take(bs.len() as int) =~= bs);
    assert(fs.take(bs.len() as int) =~= fs);
}

proof fn lemma_bucket_values_round(
    bs: Seq<SopdBucket>,
    m: Map<u32, u64>,
    agg: UrpdAggregation,
    close: nat,
    n: int,
)
    requires
        0 <= n <= bs.len(),
        forall|i: int| 0 <= i < bs.len() ==> bucket_matches(#[trigger] bs[i], m, agg, close),
    ensures
        ({
            let v = value_over(
                m,
                agg,
                sorted_keys(m),
                bs.map_values(|b: SopdBucket| b.price_floor as nat).take(n),
            );
            &&& sats_per_btc() * buckets_value(bs.take(n)) <= v
            &&& v <= sats_per_btc() * buckets_value(bs.take(n)) + (sats_per_btc() - 1) * n
        }),
    decreases n,
{
    let fs = bs.map_values(|b: SopdBucket| b.price_floor as nat);
    if n > 0 {
        lemma_bucket_values_round(bs, m, agg, close, n - 1);
        assert(bs.take(n).drop_last() =~= bs.take(n - 1));
        assert(fs.take(n).drop_last() =~= fs.take(n - 1));
        assert(bucket_matches(bs[n - 1], m, agg, close));
        let v = value_in(m, agg, sorted_keys(m), fs[n - 1]);
        let q = v / sats_per_btc();
        assert(sats_per_btc() * q <= v && v <= sats_per_btc() * q + (sats_per_btc() - 1)) by (nonlinear_arith)
            requires
                q == v / 100_000_000,
        ;
    }
}

/// Adding a key adds its value to the bucket bounds that hold its bucket.
proof fn lemma_value_over_push_key(
    m: Map<u32, u64>,
    agg: UrpdAggregation,
    ks: Seq<u32>,
    k: u32,
    fs: Seq<nat>,
)
    requires
        fs.no_duplicates(),
    ensures
        value_over(m, agg, ks.push(k), fs) == value_over(m, agg, ks, fs) + if fs.contains(
            agg.floor_of(k as nat),
        ) {
            k as nat * m[k] as nat
        } else {
            0
        },
    decreases fs.len(),
{
    assert(ks.push(k).drop_last() =~= ks);
    if fs.len() > 0 {
        let rest = fs.drop_last();
        assert(rest.no_duplicates());
        lemma_value_over_push_key(m, agg, ks, k, rest);
        let c = agg.floor_of(k as nat);
        assert(fs.contains(c) <==> (rest.contains(c) || fs.last() == c)) by {
            if fs.contains(c) {
                let i = choose|i: int| 0 <= i < fs.len() && fs[i] == c;
                if i < fs.len() - 1 {
                    assert(rest[i] == c);
                }
            }
            if rest.contains(c) {
                let i = choose|i: int| 0 <= i < rest.len() && rest[i] == c;
                assert(fs[i] == c);
            }
        }
        if rest.contains(c) && fs.last() == c {
            let i = choose|i: int| 0 <= i < rest.len() && rest[i] == c;
            assert(fs[i] == fs[fs.len() - 1]);
        }
    }
}

/// Summed over distinct bounds that cover every bucket of `ks`, the bucket
/// values add up to the value of `ks`.
proof fn lemma_value_over_all(m: Map<u32, u64>, agg: UrpdAggregation, ks: Seq<u32>, fs: Seq<nat>)
    requires
        fs.no_duplicates(),
        forall|f: nat| floors(agg, ks).contains(f) ==> fs.contains(f),
    ensures
        value_over(m, agg, ks, fs) == value_sum(m, ks),
    decreases ks.len(),
{
    if ks.len() == 0 {
        lemma_value_over_empty(m, agg, ks, fs);
    } else {
        let rest = ks.drop_last();
        let k = ks.last();
        assert(rest.push(k) =~= ks);
        lemma_floors_push(agg, rest, k);
        lemma_value_over_all(m, agg, rest, fs);
        lemma_value_over_push_key(m, agg, rest, k, fs);
        assert(floors(agg, ks).contains(agg.floor_of(k as nat)));
    }
}

proof fn lemma_value_over_empty(m: Map<u32, u64>, agg: UrpdAggregation, ks: Seq<u32>, fs: Seq<nat>)
    requires
        ks.len() == 0,
    ensures
        value_over(m, agg, ks, fs) == 0,
    decreases fs.len(),
{
    if fs.len() > 0 {
        lemma_value_over_empty(m, agg, ks, fs.drop_last());
    }
}

/// A bucket's P&L has the sign of its close against its floor: spending at
/// a close above the cost basis realizes a profit, below it a loss.
pub proof fn law_pnl_sign(b: SopdBucket, m: Map<u32, u64>, agg: UrpdAggregation, close: nat)
    requires
        bucket_matches(b, m, agg, close),
    ensures
        close >= b.price_floor ==> b.realized_pnl >= 0,
        close <= b.price_floor ==> b.realized_pnl <= 0,
{
    let f = b.price_floor as nat;
    let s = b.spent as nat;
    if close >= f {
        assert(close * s >= f * s) by (nonlinear_arith)
            requires
                close >= f,
        ;
        lemma_div_mono(f * s, close * s);
    }
    if close <= f {
        assert(close * s <= f * s) by (nonlinear_arith)
            requires
                close <= f,
        ;
        lemma_div_mono(close * s, f * s);
    }
}

proof fn lemma_div_mono(a: nat, b: nat)
    requires
        a <= b,
    ensures
        a / sats_per_btc() <= b / sats_per_btc(),
{
    vstd::arithmetic::div_mod::lemma_div_is_ordered(a as int, b as int, sats_per_btc() as int);
}

/// Without re-binning, the buckets are the stored entries: one per stored
/// price, in increasing price order, each holding exactly that price's sats,
/// valued at that price.
pub proof fn law_raw_buckets_are_entries(bs: Seq<SopdBucket>, m: Map<u32, u64>, close: nat)
    requires
        is_bucketing(bs, m, UrpdAggregation::Raw, close),
    ensures
        bs.len() == m.len(),
        forall|i: int|
            0 <= i < bs.len() ==> {
                let k = sorted_keys(m)[i];
                &&& #[trigger] bs[i].price_floor == k
                &&& bs[i].spent == m[k]
                &&& bs[i].cost_basis_value == (k * m[k]) as nat / sats_per_btc()
            },
{
    let ks = sorted_keys(m);
    let agg = UrpdAggregation::Raw;
    let s = bs.map_values(|b: SopdBucket| b.price_floor as u32);
    lemma_sorted_keys(m);
    crate::format::lemma_keys_below(m, crate::format::key_space());
    assert forall|i: int| 0 <= i < bs.len() implies m.dom().contains(#[trigger] s[i])
        && s[i] == bs[i].price_floor by {
        assert(bucket_matches(bs[i], m, agg, close));
        let f = bs[i].price_floor as nat;
        let mapped = ks.map_values(|k: u32| agg.floor_of(k as nat));
        let j = choose|j: int| 0 <= j < mapped.len() && mapped[j] == f;
        assert(ks.to_set().contains(ks[j]));
    }
    assert forall|a: int, b: int| 0 <= a < b < s.len() implies s[a] < s[b] by {
        assert(bs[a].price_floor < bs[b].price_floor);
    }
    assert forall|k: u32| m.dom().contains(k) implies s.contains(k) by {
        assert(ks.to_set().contains(k));
        let j = choose|j: int| 0 <= j < ks.len() && ks[j] == k;
        let mapped = ks.map_values(|x: u32| agg.floor_of(x as nat));
        assert(mapped[j] == k as nat);
        assert(floors(agg, ks).contains(k as nat));
        let i = choose|i: int| 0 <= i < bs.len() && bs[i].price_floor == k as nat;
        assert(s[i] == k);
    }
    let n = crate::format::lemma_listing_unique(m, s, crate::format::key_space());
    if n < s.len() {
        assert((s[n] as nat) >= crate::format::key_space());
    }
    assert(s.take(n) =~= s);
    assert forall|i: int| 0 <= i < bs.len() implies {
        let k = sorted_keys(m)[i];
        &&& #[trigger] bs[i].price_floor == k
        &&& bs[i].spent == m[k]
        &&& bs[i].cost_basis_value == (k * m[k]) as nat / sats_per_btc()
    } by {
        let k = ks[i];
        assert(s[i] == k);
        assert(bucket_matches(bs[i], m, agg, close));
        lemma_raw_single(m, ks, k);
    }
}

/// Without re-binning, a bucket gathers exactly one distinct key.
proof fn lemma_raw_single(m: Map<u32, u64>, ks: Seq<u32>, k: u32)
    requires
        ks.no_duplicates(),
        ks.contains(k),
    ensures
        spent_in(m, UrpdAggregation::Raw, ks, k as nat) == m[k],
        value_in(m, UrpdAggregation::Raw, ks, k as nat) == k * m[k],
    decreases ks.len(),
{
    let rest = ks.drop_last();
    assert(rest.no_duplicates());
    if ks.last() == k {
        if rest.contains(k) {
            let i = choose|i: int| 0 <= i < rest.len() && rest[i] == k;
            assert(ks[i] == ks[ks.len() - 1]);
        }
        lemma_raw_absent(m, rest, k);
    } else {
        let i = choose|i: int| 0 <= i < ks.len() && ks[i] == k;
        assert(rest[i] == k);
        lemma_raw_single(m, rest, k);
    }
}

proof fn lemma_raw_absent(m: Map<u32, u64>, ks: Seq<u32>, k: u32)
    requires
        !ks.contains(k),
    ensures
        spent_in(m, UrpdAggregation::Raw, ks, k as nat) == 0,
        value_in(m, UrpdAggregation::Raw, ks, k as nat) == 0,
    decreases ks.len(),
{
    if ks.len() > 0 {
        let rest = ks.drop_last();
        assert(ks.last() != k);
        assert(!rest.contains(k)) by {
            if rest.contains(k) {
                let i = choose|i: int| 0 <= i < rest.len() && rest[i] == k;
                assert(ks[i] == k);
            }
        }
        lemma_raw_absent(m, rest, k);
    }
}

impl Sopd {
    /// Build the response from the stored distribution plus context: bucket
    /// the prices under `aggregation`, total each bucket's supply and value,
    /// and value each bucket against the close.
    pub fn build(
        cohort: Cohort,
        date: Date,
        close_cents: u64,
        raw: &SopdRaw,
        aggregation: UrpdAggregation,
    ) -> (r: Sopd)
        requires
            total_sats(raw@) <= u64::MAX,
        ensures
            r.cohort == cohort,
            r.date == date,
            r.aggregation == aggregation,
            r.close == close_cents,
            r.total_spent == total_sats(raw@),
            is_bucketing(r.buckets@, raw@, aggregation, close_cents as nat),
    {
        let ghost m = raw@;
        let ghost ks = sorted_keys(m);
        let mut acc = fx_map_with_capacity(raw.map.len());
        // The map's contract on `iter` says in what order a walk visits it.
        let _in_key_order = raw.map.iter();
        proof {
            lemma_iteration_is_sorted_listing(&raw.map);
            lemma_sorted_keys(m);
            assert(ks.take(0) =~= Seq::<u32>::empty());
            assert(floors(aggregation, ks.take(0)) =~= Set::<nat>::empty());
        }
        let ghost mut done: int = 0;
        for (k, v) in it: raw.map.iter()
            invariant
                done == it.index(),
                it.seq() == spec_btree_map_iter(&raw.map).remaining(),
                ks == spec_btree_map_iter(&raw.map).remaining().map_values(
                    |kv: (&u32, &u64)| *kv.0,
                ),
                m == raw@,
                ks == sorted_keys(m),
                sats_sum(m, ks) <= u64::MAX,
                forall|f: u64|
                    #[trigger] acc@.contains_key(f) <==> floors(
                        aggregation,
                        ks.take(it.index()),
                    ).contains(f as nat),
                forall|f: u64|
                    #[trigger] acc@.contains_key(f) ==> acc@[f].spent == spent_in(
                        m,
                        aggregation,
                        ks.take(it.index()),
                        f as nat,
                    ) && acc@[f].cost_basis_value == value_in(
                        m,
                        aggregation,
                        ks.take(it.index()),
                        f as nat,
                    ),
        {
            let ghost i = it.index();
            let ghost before = ks.take(i);
            let ghost after = ks.take(i + 1);
            let price: u64 = *k as u64;
            let key = aggregation.bucket_floor(price);
            proof {
                assert(ks[i] == *k);
                assert(m[*k] == *v);
                assert(after.drop_last() =~= before);
                assert(after.last() == *k);
                lemma_spent_le_sum(m, aggregation, after, key as nat);
                lemma_value_le_spent(m, aggregation, after, key as nat);
                lemma_sats_sum_prefix(m, ks, i + 1);
            }
            let slot = match fx_map_get(&acc, key) {
                Some(a) => a,
                None => BucketAccum { spent: 0, cost_basis_value: 0 },
            };
            proof {
                if !acc@.contains_key(key) {
                    assert(!floors(aggregation, before).contains(key as nat));
                    lemma_absent_floor(m, aggregation, before, key as nat);
                }
            }
            let next = BucketAccum {
                spent: slot.spent + *v,
                cost_basis_value: slot.cost_basis_value + (price as u128) * (*v as u128),
            };
            fx_map_insert(&mut acc, key, next);
            proof {
                lemma_floors_push(aggregation, before, *k);
                assert(after =~= before.push(*k));
                done = done + 1;
            }
        }
        assert(done == ks.len());
        assert(ks.take(done) =~= ks);
        let ghost full = acc@;
        let mut sorted = fx_map_into_vec(acc);
        let ghost unsorted = sorted@;
        sort_by_first(&mut sorted);
        proof {
            lemma_permuted_keys(unsorted, sorted@);
            assert forall|a: int| 0 <= a < sorted@.len() implies full.contains_key(
                #[trigger] sorted@[a].0,
            ) && full[sorted@[a].0] == sorted@[a].1 by {
                assert(sorted@.contains(sorted@[a]));
                assert(unsorted.contains(sorted@[a]));
            }
        }
        let mut buckets: Vec<SopdBucket> = Vec::new();
        let mut j: usize = 0;
        while j < sorted.len()
            invariant
                j <= sorted@.len(),
                buckets@.len() == j,
                m == raw@,
                ks == sorted_keys(m),
                forall|a: int, b: int|
                    0 <= a < b < sorted@.len() ==> sorted@[a].0 < sorted@[b].0,
                forall|a: int|
                    0 <= a < sorted@.len() ==> full.contains_key(#[trigger] sorted@[a].0)
                        && full[sorted@[a].0] == sorted@[a].1,
                forall|f: u64|
                    #[trigger] full.contains_key(f) <==> floors(aggregation, ks).contains(f as nat),
                forall|f: u64|
                    #[trigger] full.contains_key(f) ==> full[f].spent == spent_in(
                        m,
                        aggregation,
                        ks,
                        f as nat,
                    ) && full[f].cost_basis_value == value_in(m, aggregation, ks, f as nat),
                forall|a: int|
                    0 <= a < j ==> buckets@[a].price_floor == sorted@[a].0 && bucket_matches(
                        #[trigger] buckets@[a],
                        m,
                        aggregation,
                        close_cents as nat,
                    ),
            decreases sorted@.len() - j,
        {
            let (price_floor, slot) = sorted[j];
            let cost_basis_value: u128 = slot.cost_basis_value / 100_000_000;
            let spent_wide: u128 = slot.spent as u128;
            proof {
                let c = close_cents as nat;
                let p = price_floor as nat;
                let q = slot.spent as nat;
                assert(c * q < 0x1_0000_0000_0000_0000_0000_0000_0000_0000) by (nonlinear_arith)
                    requires
                        c < 0x1_0000_0000_0000_0000,
                        q < 0x1_0000_0000_0000_0000,
                ;
                assert(p * q < 0x1_0000_0000_0000_0000_0000_0000_0000_0000) by (nonlinear_arith)
                    requires
                        p < 0x1_0000_0000_0000_0000,
                        q < 0x1_0000_0000_0000_0000,
                ;
            }
            let close_value: u128 = (close_cents as u128) * spent_wide / 100_000_000;
            let floor_value: u128 = (price_floor as u128) * spent_wide / 100_000_000;
            let realized_pnl: i128 = close_value as i128 - floor_value as i128;
            buckets.push(
                SopdBucket { price_floor, spent: slot.spent, cost_basis_value, realized_pnl },
            );
            j = j + 1;
        }
        let total_spent = match raw.total_sats() {
            Some(t) => t,
            None => 0,
        };
        let r = Sopd { cohort, date, aggregation, close: close_cents, total_spent, buckets };
        proof {
            assert forall|f: nat| floors(aggregation, ks).contains(f) implies exists|i: int|
                0 <= i < r.buckets@.len() && r.buckets@[i].price_floor == f by {
                lemma_floor_bound(aggregation, ks, f);
                let key = f as u64;
                assert(full.contains_key(key));
                assert(unsorted.contains((key, full[key])));
                assert(sorted@.contains((key, full[key])));
                let i = choose|i: int| 0 <= i < sorted@.len() && sorted@[i] == (key, full[key]);
                assert(r.buckets@[i].price_floor == f);
            }
        }
        r
    }
}

/// Sorting entries whose keys are distinct keeps them, keeps the keys
/// distinct, and so puts them in strictly increasing order.
proof fn lemma_permuted_keys(u: Seq<(u64, BucketAccum)>, s: Seq<(u64, BucketAccum)>)
    requires
        forall|i: int, j: int| 0 <= i < j < u.len() ==> u[i].0 != u[j].0,
        s.to_multiset() == u.to_multiset(),
        forall|i: int, j: int| 0 <= i <= j < s.len() ==> s[i].0 <= s[j].0,
    ensures
        forall|i: int, j: int| 0 <= i < j < s.len() ==> s[i].0 < s[j].0,
        forall|e: (u64, BucketAccum)| s.contains(e) <==> u.contains(e),
{
    broadcast use vstd::seq_lib::group_to_multiset_ensures;

    assert forall|e: (u64, BucketAccum)| s.contains(e) <==> u.contains(e) by {
        vstd::seq_lib::to_multiset_contains(s, e);
        vstd::seq_lib::to_multiset_contains(u, e);
    }
    assert(u.no_duplicates()) by {
        assert forall|i: int, j: int| 0 <= i < u.len() && 0 <= j < u.len() && i != j implies u[i]
            != u[j] by {
            if i < j {
                assert(u[i].0 != u[j].0);
            } else {
                assert(u[j].0 != u[i].0);
            }
        }
    }
    u.lemma_multiset_has_no_duplicates();
    assert forall|x: (u64, BucketAccum)| s.to_multiset().contains(x) implies s.to_multiset().count(
        x,
    ) == 1 by {}
    s.lemma_multiset_has_no_duplicates_conv();
    assert forall|i: int, j: int| 0 <= i < j < s.len() implies s[i].0 < s[j].0 by {
        if s[i].0 == s[j].0 {
            assert(s[i] != s[j]);
            assert(u.contains(s[i]));
            assert(u.contains(s[j]));
            let p = choose|p: int| 0 <= p < u.len() && u[p] == s[i];
            let q = choose|q: int| 0 <= q < u.len() && u[q] == s[j];
            if p < q {
                assert(u[p].0 != u[q].0);
            } else if q < p {
                assert(u[q].0 != u[p].0);
            }
        }
    }
}

/// Every bucket lower bound is a price below `2^32`.
proof fn lemma_floor_bound(agg: UrpdAggregation, ks: Seq<u32>, f: nat)
    requires
        floors(agg, ks).contains(f),
    ensures
        f < 0x1_0000_0000,
{
    let mapped = ks.map_values(|k: u32| agg.floor_of(k as nat));
    let j = choose|j: int| 0 <= j < mapped.len() && mapped[j] == f;
    agg.lemma_floor_le(ks[j] as nat);
}

/// A bucket that no key falls in holds nothing.
proof fn lemma_absent_floor(m: Map<u32, u64>, agg: UrpdAggregation, ks: Seq<u32>, f: nat)
    requires
        !floors(agg, ks).contains(f),
    ensures
        spent_in(m, agg, ks, f) == 0,
        value_in(m, agg, ks, f) == 0,
    decreases ks.len(),
{
    if ks.len() > 0 {
        let mapped = ks.map_values(|k: u32| agg.floor_of(k as nat));
        assert(mapped[ks.len() - 1] == agg.floor_of(ks.last() as nat));
        assert(mapped.to_set().contains(mapped[ks.len() - 1]));
        assert(floors(agg, ks.drop_last()).subset_of(floors(agg, ks))) by {
            assert forall|x: nat| floors(agg, ks.drop_last()).contains(x) implies floors(
                agg,
                ks,
            ).contains(x) by {
                let inner = ks.drop_last().map_values(|k: u32| agg.floor_of(k as nat));
                let j = choose|j: int| 0 <= j < inner.len() && inner[j] == x;
                assert(mapped[j] == x);
            }
        }
        lemma_absent_floor(m, agg, ks.drop_last(), f);
    }
}

/// Adding a key adds its bucket.
proof fn lemma_floors_push(agg: UrpdAggregation, ks: Seq<u32>, k: u32)
    ensures
        floors(agg, ks.push(k)) == floors(agg, ks).insert(agg.floor_of(k as nat)),
{
    let g = |x: u32| agg.floor_of(x as nat);
    assert(ks.push(k).map_values(g) =~= ks.map_values(g).push(g(k)));
    ks.map_values(g).lemma_push_to_set_commute(g(k));
}

} // verus!
