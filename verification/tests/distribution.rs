use std::collections::BTreeMap;

use brk_sopd::aggregation::UrpdAggregation;
use brk_sopd::date::Date;
use brk_sopd::params::SopdQuery;
use brk_sopd::raw::SopdRaw;
use brk_sopd::sopd::{Cohort, Sopd};

fn raw(entries: &[(u32, u64)]) -> SopdRaw {
    let mut map = BTreeMap::new();
    for &(k, v) in entries {
        map.insert(k, v);
    }
    SopdRaw { map }
}

fn all() -> Cohort {
    Cohort { name: "all".to_string() }
}

const BTC: u64 = 100_000_000;

#[test]
fn worked_example_spent_side() {
    // Spend 10 BTC last moved at $30,000 and 5 BTC at $40,000; close $60,500.
    let r = raw(&[(3_000_000, 10 * BTC), (4_000_000, 5 * BTC)]);
    let date = Date::new(2024, 6, 1).unwrap();
    let s = Sopd::build(all(), date, 6_050_000, &r, UrpdAggregation::Raw);
    assert_eq!(s.total_spent, 15 * BTC);
    assert_eq!(s.close, 6_050_000);
    assert_eq!(s.buckets.len(), 2);
    let b = &s.buckets[0];
    assert_eq!((b.price_floor, b.spent), (3_000_000, 10 * BTC));
    assert_eq!(b.cost_basis_value, 30_000_000);
    assert_eq!(b.realized_pnl, 30_500_000);
    let b = &s.buckets[1];
    assert_eq!((b.price_floor, b.spent), (4_000_000, 5 * BTC));
    assert_eq!(b.cost_basis_value, 20_000_000);
    assert_eq!(b.realized_pnl, 10_250_000);
}

#[test]
fn worked_example_created_side() {
    // Receive 20 BTC at $60,000 and 8 BTC at $60,200; close $60,500.
    let r = raw(&[(6_000_000, 20 * BTC), (6_020_000, 8 * BTC)]);
    let date = Date::new(2024, 6, 1).unwrap();
    let s = Sopd::build(all(), date, 6_050_000, &r, UrpdAggregation::Raw);
    assert_eq!(s.total_spent, 28 * BTC);
    assert_eq!(s.buckets[0].cost_basis_value, 120_000_000);
    assert_eq!(s.buckets[0].realized_pnl, 1_000_000);
    assert_eq!(s.buckets[1].cost_basis_value, 48_160_000);
    assert_eq!(s.buckets[1].realized_pnl, 240_000);
}

#[test]
fn loss_side_spending_has_negative_pnl() {
    let r = raw(&[(7_000_000, BTC)]);
    let date = Date::new(2024, 6, 1).unwrap();
    let s = Sopd::build(all(), date, 6_000_000, &r, UrpdAggregation::Raw);
    assert_eq!(s.buckets[0].realized_pnl, -1_000_000);
}

#[test]
fn cent_rounding_is_downward() {
    // 0.412 BTC at $500.00: $206.00 exactly; at $0.01 a single sat is worth
    // far less than a cent.
    let r = raw(&[(1, 1), (50_000, 41_200_000)]);
    let date = Date::new(2024, 6, 1).unwrap();
    let s = Sopd::build(all(), date, 6_750_042, &r, UrpdAggregation::Raw);
    assert_eq!(s.buckets[0].cost_basis_value, 0);
    assert_eq!(s.buckets[0].realized_pnl, 0);
    assert_eq!(s.buckets[1].cost_basis_value, 20_600);
    // floor(6_750_042 * 0.412) - 20_600
    assert_eq!(s.buckets[1].realized_pnl, 2_781_017 - 20_600);
}

#[test]
fn fixed_step_buckets_merge_prices() {
    let r = raw(&[(3_000_000, BTC), (3_050_000, 2 * BTC), (3_100_000, 4 * BTC)]);
    let date = Date::new(2024, 6, 1).unwrap();
    let s = Sopd::build(all(), date, 3_100_000, &r, UrpdAggregation::Step1000);
    assert_eq!(s.total_spent, 7 * BTC);
    assert_eq!(s.buckets.len(), 2);
    assert_eq!(s.buckets[0].price_floor, 3_000_000);
    assert_eq!(s.buckets[0].spent, 3 * BTC);
    assert_eq!(s.buckets[0].cost_basis_value, 3_000_000 + 6_100_000);
    assert_eq!(s.buckets[0].realized_pnl, 9_300_000 - 9_000_000);
    assert_eq!(s.buckets[1].price_floor, 3_100_000);
    assert_eq!(s.buckets[1].spent, 4 * BTC);
}

#[test]
fn log_buckets_keep_leading_digits() {
    assert_eq!(UrpdAggregation::Log2.bucket_floor(6_750_042), 6_700_000);
    assert_eq!(UrpdAggregation::Log3.bucket_floor(6_750_042), 6_750_000);
    assert_eq!(UrpdAggregation::Log2.bucket_floor(99), 99);
    assert_eq!(UrpdAggregation::Step1.bucket_floor(12_345), 12_300);
    assert_eq!(UrpdAggregation::Step10.bucket_floor(12_345), 12_000);
    assert_eq!(UrpdAggregation::Step100.bucket_floor(12_345), 10_000);
    assert_eq!(UrpdAggregation::Raw.bucket_floor(12_345), 12_345);
}

#[test]
fn buckets_hold_all_supply_under_every_strategy() {
    let r = raw(&[(1, 3), (99, 5), (150, 7), (12_345, 11), (6_750_042, 13), (6_799_999, 17)]);
    let date = Date::new(2024, 6, 1).unwrap();
    for agg in [
        UrpdAggregation::Raw,
        UrpdAggregation::Step1,
        UrpdAggregation::Step10,
        UrpdAggregation::Step100,
        UrpdAggregation::Step1000,
        UrpdAggregation::Log2,
        UrpdAggregation::Log3,
    ] {
        let s = Sopd::build(all(), date, 100, &r, agg);
        let sum: u64 = s.buckets.iter().map(|b| b.spent).sum();
        assert_eq!(sum, s.total_spent);
        assert_eq!(s.total_spent, 56);
        for w in s.buckets.windows(2) {
            assert!(w[0].price_floor < w[1].price_floor);
        }
    }
}

#[test]
fn empty_distribution_has_no_buckets() {
    let date = Date::new(2024, 6, 1).unwrap();
    let s = Sopd::build(all(), date, 100, &SopdRaw::default(), UrpdAggregation::Raw);
    assert!(s.buckets.is_empty());
    assert_eq!(s.total_spent, 0);
    assert_eq!(s.cohort.name, "all");
}

#[test]
fn default_query_is_raw() {
    assert_eq!(SopdQuery::default().aggregation, UrpdAggregation::Raw);
}
