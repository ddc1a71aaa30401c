use brk_sopd::date::Date;
use brk_sopd::query::{dates_from_names, heights_from_names, latest_date, parse_height};

fn names(list: &[&str]) -> Vec<Vec<u8>> {
    list.iter().map(|s| s.as_bytes().to_vec()).collect()
}

#[test]
fn heights_parse_like_u32_from_str() {
    assert_eq!(parse_height(b"840000"), Some(840_000));
    assert_eq!(parse_height(b"+7"), Some(7));
    assert_eq!(parse_height(b"007"), Some(7));
    assert_eq!(parse_height(b"4294967295"), Some(u32::MAX));
    assert_eq!(parse_height(b"4294967296"), None);
    assert_eq!(parse_height(b"-1"), None);
    assert_eq!(parse_height(b"+"), None);
    assert_eq!(parse_height(b""), None);
    assert_eq!(parse_height(b"12a"), None);
    for s in ["0", "1", "99999", "+12", "-0", "1 ", "abc"] {
        assert_eq!(parse_height(s.as_bytes()), s.parse::<u32>().ok(), "{}", s);
    }
}

#[test]
fn heights_are_listed_ascending_and_others_skipped() {
    let got = heights_from_names(&names(&["900", "tmp", "12", "850000", "-3", "12"]));
    assert_eq!(got, vec![12, 12, 900, 850_000]);
}

#[test]
fn dates_are_listed_ascending_and_others_skipped() {
    let got = dates_from_names(&names(&[
        "2024-06-02",
        "2023-12-31",
        "2024-02-30",
        "notes",
        "2024-06-01",
    ]));
    let spelled: Vec<String> =
        got.iter().map(|d| String::from_utf8(d.to_iso_bytes()).unwrap()).collect();
    assert_eq!(spelled, vec!["2023-12-31", "2024-06-01", "2024-06-02"]);
    let last = latest_date(&got).unwrap();
    assert_eq!((last.year(), last.month(), last.day()), (2024, 6, 2));
}

#[test]
fn no_dates_means_no_latest() {
    assert!(latest_date(&Vec::new()).is_none());
}

#[test]
fn iso_dates_parse_and_print() {
    let d = Date::parse_iso(b"2024-02-29").unwrap();
    assert_eq!((d.year(), d.month(), d.day()), (2024, 2, 29));
    assert_eq!(d.to_iso_bytes(), b"2024-02-29".to_vec());
    assert!(Date::parse_iso(b"2023-02-29").is_none());
    assert!(Date::parse_iso(b"2024-13-01").is_none());
    assert!(Date::parse_iso(b"2024-1-01").is_none());
    assert!(Date::parse_iso(b"1969-12-31").is_none());
    assert_eq!(d.sort_key(), 20_240_229);
}

#[test]
fn timestamps_give_utc_dates() {
    let d = Date::from_timestamp(0);
    assert_eq!((d.year(), d.month(), d.day()), (1970, 1, 1));
    let d = Date::from_timestamp(1_717_200_000);
    assert_eq!((d.year(), d.month(), d.day()), (2024, 6, 1));
    let d = Date::from_timestamp(1_709_164_799);
    assert_eq!((d.year(), d.month(), d.day()), (2024, 2, 28));
    let d = Date::from_timestamp(1_709_164_800);
    assert_eq!((d.year(), d.month(), d.day()), (2024, 2, 29));
    let d = Date::from_timestamp(1_231_006_505);
    assert_eq!((d.year(), d.month(), d.day()), (2009, 1, 3));
    let d = Date::from_timestamp(u32::MAX);
    assert_eq!((d.year(), d.month(), d.day()), (2106, 2, 7));
}

#[test]
fn new_refuses_impossible_days() {
    assert!(Date::new(2023, 2, 29).is_none());
    assert!(Date::new(2100, 2, 29).is_none());
    assert!(Date::new(2000, 2, 29).is_some());
    assert!(Date::new(2024, 4, 31).is_none());
    assert!(Date::new(2024, 0, 1).is_none());
}
