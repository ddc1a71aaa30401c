//! The decisions of the query layer, apart from its file and price reads:
//! which directory entries name a block height or a date, in what order they
//! are listed, and which date is the latest.
use vstd::prelude::*;

use crate::collection::{sort_dates, sort_u32};
use crate::date::{
    digits_value, iso_parts, lemma_padded_digits, padded_digits, pow10_nat, valid_ymd, Date,
};

verus! {

/// What `str::parse::<u32>` makes of a string: an optional `+`, then at least
/// one ASCII digit, with a value that fits in a `u32`.
pub open spec fn parsed_u32(b: Seq<u8>) -> Option<nat> {
    let digits = if b.len() > 0 && b[0] == 43 {
        b.drop_first()
    } else {
        b
    };
    if digits.len() == 0 {
        None
    } else {
        match digits_value(digits) {
            Some(v) => if v <= u32::MAX {
                Some(v)
            } else {
                None
            },
            None => None,
        }
    }
}

/// The heights that the names spell, in the order of the names.
pub open spec fn parsed_heights(names: Seq<Seq<u8>>) -> Seq<u32>
    decreases names.len(),
{
    if names.len() == 0 {
        Seq::empty()
    } else {
        let prev = parsed_heights(names.drop_last());
        match parsed_u32(names.last()) {
            Some(h) => prev.push(h as u32),
            None => prev,
        }
    }
}

/// Whether `b` spells a date that a `Date` can hold.
pub open spec fn spells_date(b: Seq<u8>) -> bool {
    iso_parts(b) matches Some((y, m, d)) && valid_ymd(y, m, d)
}

/// The dates that the names spell, in the order of the names.
pub open spec fn parsed_dates(names: Seq<Seq<u8>>) -> Seq<Date>
    decreases names.len(),
{
    if names.len() == 0 {
        Seq::empty()
    } else {
        let prev = parsed_dates(names.drop_last());
        if spells_date(names.last()) {
            let (y, m, d) = iso_parts(names.last()).unwrap();
            prev.push(Date::of_parts(y, m, d))
        } else {
            prev
        }
    }
}

/// A digit string's prefixes have values no larger than its own.
proof fn lemma_digits_prefix(b: Seq<u8>, i: int)
    requires
        0 <= i <= b.len(),
        digits_value(b) is Some,
    ensures
        digits_value(b.take(i)) is Some,
        digits_value(b.take(i)).unwrap() <= digits_value(b).unwrap(),
    decreases b.len(),
{
    if i < b.len() {
        lemma_digits_prefix(b.drop_last(), i);
        assert(b.drop_last().take(i) =~= b.take(i));
    } else {
        assert(b.take(i) =~= b);
    }
}

/// The block height spelled by a directory entry's name, as
/// `str::parse::<u32>` reads it.
pub fn parse_height(name: &[u8]) -> (r: Option<u32>)
    ensures
        r is Some <==> parsed_u32(name@) is Some,
        r matches Some(h) ==> parsed_u32(name@) == Some(h as nat),
{
    let start: usize = if name.len() > 0 && name[0] == 43 {
        1
    } else {
        0
    };
    let ghost digits = if name@.len() > 0 && name@[0] == 43 {
        name@.drop_first()
    } else {
        name@
    };
    proof {
        assert(digits =~= name@.subrange(start as int, name@.len() as int));
        assert(name@.subrange(start as int, start as int) =~= Seq::<u8>::empty());
    }
    if start == name.len() {
        proof {
            assert(digits.len() == 0);
        }
        return None;
    }
    let mut value: u32 = 0;
    let mut i: usize = start;
    while i < name.len()
        invariant
            start <= i <= name@.len(),
            digits == name@.subrange(start as int, name@.len() as int),
            digits == if name@.len() > 0 && name@[0] == 43 {
                name@.drop_first()
            } else {
                name@
            },
            digits_value(name@.subrange(start as int, i as int)) == Some(value as nat),
        decreases name@.len() - i,
    {
        let b = name[i];
        let ghost prefix = name@.subrange(start as int, i + 1);
        proof {
            assert(prefix.drop_last() =~= name@.subrange(start as int, i as int));
            assert(prefix =~= digits.take(i + 1 - start));
        }
        if b < 48 || b > 57 {
            proof {
                assert(prefix.last() == b);
                assert(digits_value(prefix) is None);
                if digits_value(digits) is Some {
                    lemma_digits_prefix(digits, i + 1 - start);
                    assert(digits_value(digits.take(i + 1 - start)) is Some);
                }
            }
            return None;
        }
        let next = match value.checked_mul(10) {
            Some(t) => t.checked_add((b - 48) as u32),
            None => None,
        };
        match next {
            Some(v) => value = v,
            None => {
                proof {
                    assert(prefix.last() == b);
                    assert(digits_value(prefix) == Some(value as nat * 10 + (b - 48) as nat));
                    if digits_value(digits) is Some {
                        lemma_digits_prefix(digits, i + 1 - start);
                    }
                }
                return None;
            },
        }
        i = i + 1;
    }
    proof {
        assert(name@.subrange(start as int, i as int) =~= digits);
    }
    Some(value)
}

/// Every byte of a padded decimal spelling is an ASCII digit.
proof fn lemma_padded_is_digits(v: nat, n: nat)
    ensures
        forall|i: int|
            0 <= i < padded_digits(v, n).len() ==> 48 <= #[trigger] padded_digits(v, n)[i] <= 57,
    decreases n,
{
    if n > 0 {
        let prev = padded_digits(v / 10, (n - 1) as nat);
        lemma_padded_is_digits(v / 10, (n - 1) as nat);
        assert(v % 10 < 10);
        let last = (48 + v % 10) as u8;
        assert(48 <= last <= 57);
        assert forall|i: int| 0 <= i < padded_digits(v, n).len() implies 48
            <= #[trigger] padded_digits(v, n)[i] <= 57 by {
            if i < prev.len() {
                assert(padded_digits(v, n)[i] == prev[i]);
            } else {
                assert(padded_digits(v, n)[i] == last);
            }
        }
    }
}

/// A height written in decimal, with or without leading zeros and with or
/// without a leading `+`, reads back as that height.
pub proof fn law_height_spelling(height: nat, width: nat)
    requires
        height <= u32::MAX,
        width >= 1,
        height < pow10_nat(width),
    ensures
        parsed_u32(padded_digits(height, width)) == Some(height),
        parsed_u32(seq![43u8] + padded_digits(height, width)) == Some(height),
{
    lemma_padded_digits(height, width);
    lemma_padded_is_digits(height, width);
    let s = padded_digits(height, width);
    assert(48 <= s[0]);
    let t = seq![43u8] + s;
    assert(t.drop_first() =~= s);
}

/// The block heights that a directory's entry names spell, ascending.
pub fn heights_from_names(names: &Vec<Vec<u8>>) -> (r: Vec<u32>)
    ensures
        r@.to_multiset() == parsed_heights(names.deep_view()).to_multiset(),
        forall|i: int, j: int| 0 <= i <= j < r@.len() ==> r@[i] <= r@[j],
{
    let mut out: Vec<u32> = Vec::new();
    let mut i: usize = 0;
    while i < names.len()
        invariant
            i <= names@.len(),
            out@ == parsed_heights(names.deep_view().take(i as int)),
        decreases names@.len() - i,
    {
        proof {
            assert(names.deep_view().take(i + 1).drop_last() =~= names.deep_view().take(i as int));
            assert(names.deep_view().take(i + 1).last() == names@[i as int]@);
        }
        match parse_height(names[i].as_slice()) {
            Some(h) => out.push(h),
            None => {},
        }
        i = i + 1;
    }
    proof {
        assert(names.deep_view().take(i as int) =~= names.deep_view());
    }
    sort_u32(&mut out);
    out
}

/// The dates that a directory's entry names spell (`YYYY-MM-DD`),
/// ascending.
pub fn dates_from_names(names: &Vec<Vec<u8>>) -> (r: Vec<Date>)
    ensures
        r@.to_multiset() == parsed_dates(names.deep_view()).to_multiset(),
        forall|i: int, j: int| 0 <= i <= j < r@.len() ==> r@[i].key_of() <= r@[j].key_of(),
{
    let mut out: Vec<Date> = Vec::new();
    let mut i: usize = 0;
    while i < names.len()
        invariant
            i <= names@.len(),
            out@ == parsed_dates(names.deep_view().take(i as int)),
        decreases names@.len() - i,
    {
        proof {
            assert(names.deep_view().take(i + 1).drop_last() =~= names.deep_view().take(i as int));
            assert(names.deep_view().take(i + 1).last() == names@[i as int]@);
        }
        match Date::parse_iso(names[i].as_slice()) {
            Some(d) => out.push(d),
            None => {},
        }
        i = i + 1;
    }
    proof {
        assert(names.deep_view().take(i as int) =~= names.deep_view());
    }
    sort_dates(&mut out);
    out
}

/// The last of the listed dates: with the listing ascending, the latest.
pub fn latest_date(dates: &Vec<Date>) -> (r: Option<Date>)
    ensures
        r == if dates@.len() == 0 {
            None
        } else {
            Some(dates@.last())
        },
{
    if dates.len() == 0 {
        None
    } else {
        Some(dates[dates.len() - 1])
    }
}

/// In an ascending listing, no date comes after the last one.
pub proof fn law_last_is_latest(dates: Seq<Date>)
    requires
        dates.len() > 0,
        forall|i: int, j: int| 0 <= i <= j < dates.len() ==> dates[i].key_of() <= dates[j].key_of(),
    ensures
        forall|i: int| 0 <= i < dates.len() ==> dates[i].key_of() <= dates.last().key_of(),
{
}

} // verus!
