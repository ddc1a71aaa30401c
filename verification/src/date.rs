//! UTC calendar dates, counted from the Unix epoch (1970-01-01).
use vstd::prelude::*;

verus! {

/// Whether `year` is a leap year of the Gregorian calendar.
pub open spec fn is_leap(year: nat) -> bool {
    (year % 4 == 0 && year % 100 != 0) || year % 400 == 0
}

/// The number of days in `month` (1 to 12) of `year`.
pub open spec fn month_len(year: nat, month: nat) -> nat {
    if month == 2 {
        if is_leap(year) {
            29
        } else {
            28
        }
    } else if month == 4 || month == 6 || month == 9 || month == 11 {
        30
    } else {
        31
    }
}

/// The number of days in `year`.
pub open spec fn year_len(year: nat) -> nat {
    if is_leap(year) {
        366
    } else {
        365
    }
}

/// Earliest year a `Date` can hold.
pub open spec fn first_year() -> nat {
    1970
}

/// Latest year a `Date` can hold.
pub open spec fn last_year() -> nat {
    9999
}

/// Whether (`year`, `month`, `day`) names a day of the calendar that a `Date`
/// can hold.
pub open spec fn valid_ymd(year: nat, month: nat, day: nat) -> bool {
    &&& first_year() <= year <= last_year()
    &&& 1 <= month <= 12
    &&& 1 <= day <= month_len(year, month)
}

/// Days from 1970-01-01 to the first day of `year`.
pub open spec fn days_before_year(year: nat) -> nat
    decreases year,
{
    if year <= first_year() {
        0
    } else {
        days_before_year((year - 1) as nat) + year_len((year - 1) as nat)
    }
}

/// Days from the first day of `year` to the first day of `month`.
pub open spec fn days_before_month(year: nat, month: nat) -> nat
    decreases month,
{
    if month <= 1 {
        0
    } else {
        days_before_month(year, (month - 1) as nat) + month_len(year, (month - 1) as nat)
    }
}

/// Days from 1970-01-01 to the given day.
pub open spec fn day_number_of(year: nat, month: nat, day: nat) -> nat {
    (days_before_year(year) + days_before_month(year, month) + day - 1) as nat
}

/// The value of an ASCII decimal digit string, or `None` if some byte is not
/// a digit.
pub open spec fn digits_value(b: Seq<u8>) -> Option<nat>
    decreases b.len(),
{
    if b.len() == 0 {
        Some(0)
    } else {
        let last = b.last();
        if 48 <= last <= 57 {
            match digits_value(b.drop_last()) {
                Some(v) => Some(v * 10 + (last - 48) as nat),
                None => None,
            }
        } else {
            None
        }
    }
}

/// The parts of a `YYYY-MM-DD` string, if it has that shape.
pub open spec fn iso_parts(b: Seq<u8>) -> Option<(nat, nat, nat)> {
    if b.len() == 10 && b[4] == 45 && b[7] == 45 {
        match (
            digits_value(b.subrange(0, 4)),
            digits_value(b.subrange(5, 7)),
            digits_value(b.subrange(8, 10)),
        ) {
            (Some(y), Some(m), Some(d)) => Some((y, m, d)),
            _ => None,
        }
    } else {
        None
    }
}

/// `v` as `n` ASCII decimal digits, most significant first (zero-padded).
pub open spec fn padded_digits(v: nat, n: nat) -> Seq<u8>
    decreases n,
{
    if n == 0 {
        Seq::empty()
    } else {
        padded_digits(v / 10, (n - 1) as nat).push((48 + v % 10) as u8)
    }
}

/// The `YYYY-MM-DD` spelling of a day.
pub open spec fn iso_bytes(year: nat, month: nat, day: nat) -> Seq<u8> {
    padded_digits(year, 4) + seq![45u8] + padded_digits(month, 2) + seq![45u8] + padded_digits(
        day,
        2,
    )
}

/// Reading back `n` padded digits gives the number, when it has at most `n`
/// digits.
pub proof fn lemma_padded_digits(v: nat, n: nat)
    requires
        v < pow10_nat(n),
    ensures
        padded_digits(v, n).len() == n,
        digits_value(padded_digits(v, n)) == Some(v),
    decreases n,
{
    if n > 0 {
        lemma_padded_digits(v / 10, (n - 1) as nat);
        let s = padded_digits(v, n);
        assert(s.drop_last() =~= padded_digits(v / 10, (n - 1) as nat));
    } else {
        assert(v == 0);
    }
}

/// `10^n`.
pub open spec fn pow10_nat(n: nat) -> nat
    decreases n,
{
    if n == 0 {
        1
    } else {
        10 * pow10_nat((n - 1) as nat)
    }
}

/// Reading the spelling of a day gives the day back.
proof fn lemma_iso_roundtrip(year: nat, month: nat, day: nat)
    requires
        year < 10000,
        month < 100,
        day < 100,
    ensures
        iso_parts(iso_bytes(year, month, day)) == Some((year, month, day)),
{
    reveal_with_fuel(pow10_nat, 5);
    lemma_padded_digits(year, 4);
    lemma_padded_digits(month, 2);
    lemma_padded_digits(day, 2);
    let b = iso_bytes(year, month, day);
    assert(b.subrange(0, 4) =~= padded_digits(year, 4));
    assert(b.subrange(5, 7) =~= padded_digits(month, 2));
    assert(b.subrange(8, 10) =~= padded_digits(day, 2));
}

/// A day of the Gregorian calendar, from 1970-01-01 to 9999-12-31.
#[derive(Clone, Copy, Debug, PartialEq, Eq, Structural)]
pub struct Date {
    year: u16,
    month: u8,
    day: u8,
}

impl Date {
    #[verifier::type_invariant]
    spec fn valid(self) -> bool {
        valid_ymd(self.year as nat, self.month as nat, self.day as nat)
    }

    /// The date with these parts (meaningful where they are valid).
    pub closed spec fn of_parts(year: nat, month: nat, day: nat) -> Date {
        Date { year: year as u16, month: month as u8, day: day as u8 }
    }

    /// A date is the one with its parts, and the parts of a valid day are
    /// the ones it was made with.
    pub proof fn lemma_parts(self, year: nat, month: nat, day: nat)
        ensures
            Date::of_parts(self.year_of(), self.month_of(), self.day_of()) == self,
            valid_ymd(year, month, day) ==> Date::of_parts(year, month, day).year_of() == year
                && Date::of_parts(year, month, day).month_of() == month && Date::of_parts(
                year,
                month,
                day,
            ).day_of() == day,
    {
    }

    /// The year.
    pub closed spec fn year_of(self) -> nat {
        self.year as nat
    }

    /// The month, 1 to 12.
    pub closed spec fn month_of(self) -> nat {
        self.month as nat
    }

    /// The day of the month, from 1.
    pub closed spec fn day_of(self) -> nat {
        self.day as nat
    }

    /// Days from 1970-01-01 to this date.
    pub open spec fn day_number(self) -> nat {
        day_number_of(self.year_of(), self.month_of(), self.day_of())
    }

    /// The date with these parts, if they name a day that a `Date` can hold.
    pub fn new(year: u16, month: u8, day: u8) -> (r: Option<Date>)
        ensures
            r is Some <==> valid_ymd(year as nat, month as nat, day as nat),
            r matches Some(d) ==> d.year_of() == year && d.month_of() == month && d.day_of()
                == day,
    {
        if valid_date_parts(year, month, day) {
            Some(Date { year, month, day })
        } else {
            None
        }
    }

    /// The date spelled `YYYY-MM-DD` in `bytes`, if it is a day a `Date` can
    /// hold.
    pub fn parse_iso(bytes: &[u8]) -> (r: Option<Date>)
        ensures
            r is Some <==> (iso_parts(bytes@) matches Some((y, m, d)) && valid_ymd(y, m, d)),
            r matches Some(date) ==> iso_parts(bytes@) == Some(
                (date.year_of(), date.month_of(), date.day_of()),
            ) && date == Date::of_parts(date.year_of(), date.month_of(), date.day_of()),
    {
        if bytes.len() != 10 || bytes[4] != 45 || bytes[7] != 45 {
            return None;
        }
        let year = match read_digits(bytes, 0, 4) {
            Some(v) => v,
            None => return None,
        };
        let month = match read_digits(bytes, 5, 7) {
            Some(v) => v,
            None => return None,
        };
        let day = match read_digits(bytes, 8, 10) {
            Some(v) => v,
            None => return None,
        };
        proof {
            reveal_with_fuel(pow10_nat, 5);
            assert(iso_parts(bytes@) == Some((year as nat, month as nat, day as nat)));
        }
        if year > 9999 || month > 12 || day > 31 {
            return None;
        }
        Date::new(year as u16, month as u8, day as u8)
    }

    /// The `YYYY-MM-DD` spelling of the date, in ASCII.
    pub fn to_iso_bytes(&self) -> (r: Vec<u8>)
        ensures
            r@ == iso_bytes(self.year_of(), self.month_of(), self.day_of()),
            valid_ymd(self.year_of(), self.month_of(), self.day_of()),
    {
        proof {
            use_type_invariant(self);
        }
        let mut out: Vec<u8> = Vec::new();
        push_digits(&mut out, self.year as u32, 4);
        out.push(45);
        push_digits(&mut out, self.month as u32, 2);
        out.push(45);
        push_digits(&mut out, self.day as u32, 2);
        proof {
            assert(out@ =~= iso_bytes(self.year_of(), self.month_of(), self.day_of()));
        }
        out
    }

    /// The UTC date of a Unix timestamp (seconds since 1970-01-01 00:00 UTC).
    pub fn from_timestamp(timestamp: u32) -> (r: Date)
        ensures
            valid_ymd(r.year_of(), r.month_of(), r.day_of()),
            r.day_number() == timestamp as nat / 86400,
    {
        let days: u32 = timestamp / 86400;
        let mut year: u16 = 1970;
        let mut remaining: u32 = days;
        while remaining >= year_days(year)
            invariant
                1970 <= year,
                days_before_year(year as nat) + remaining == days,
                days_before_year(year as nat) >= 365 * (year - 1970),
                days <= 49710,
            decreases remaining,
        {
            remaining = remaining - year_days(year);
            year = year + 1;
        }
        let ghost in_year = remaining;
        let mut month: u8 = 1;
        while month < 12 && remaining >= days_in_month(year, month) as u32
            invariant
                1 <= month <= 12,
                days_before_month(year as nat, month as nat) + remaining == in_year,
                in_year < year_len(year as nat),
                year <= 2107,
            decreases 12 - month,
        {
            remaining = remaining - days_in_month(year, month) as u32;
            month = month + 1;
        }
        proof {
            lemma_days_before_month_13(year as nat);
            if month == 12 {
                assert(days_before_month(year as nat, 13) == days_before_month(year as nat, 12)
                    + month_len(year as nat, 12));
            }
        }
        let day: u8 = (remaining + 1) as u8;
        Date { year, month, day }
    }

    /// The date as the number `YYYYMMDD`.
    pub open spec fn key_of(self) -> nat {
        self.year_of() * 10000 + self.month_of() * 100 + self.day_of()
    }

    /// The date as the number `YYYYMMDD`, which orders dates by time.
    pub fn sort_key(&self) -> (r: u32)
        ensures
            r == self.key_of(),
    {
        proof {
            use_type_invariant(self);
        }
        self.year as u32 * 10000 + self.month as u32 * 100 + self.day as u32
    }

    /// The year.
    pub fn year(&self) -> (r: u16)
        ensures
            r == self.year_of(),
    {
        self.year
    }

    /// The month, 1 to 12.
    pub fn month(&self) -> (r: u8)
        ensures
            r == self.month_of(),
    {
        self.month
    }

    /// The day of the month, from 1.
    pub fn day(&self) -> (r: u8)
        ensures
            r == self.day_of(),
    {
        self.day
    }
}

/// The value of the ASCII digits `bytes[start..end]`, or `None` if some byte
/// is not a digit.
fn read_digits(bytes: &[u8], start: usize, end: usize) -> (r: Option<u32>)
    requires
        start <= end <= bytes@.len(),
        end - start <= 4,
    ensures
        r is Some <==> digits_value(bytes@.subrange(start as int, end as int)) is Some,
        r matches Some(v) ==> digits_value(bytes@.subrange(start as int, end as int)) == Some(
            v as nat,
        ) && v < pow10_nat((end - start) as nat),
{
    let mut value: u32 = 0;
    let mut i: usize = start;
    proof {
        assert(bytes@.subrange(start as int, start as int) =~= Seq::<u8>::empty());
    }
    while i < end
        invariant
            start <= i <= end <= bytes@.len(),
            end - start <= 4,
            digits_value(bytes@.subrange(start as int, i as int)) == Some(value as nat),
            value < pow10_nat((i - start) as nat),
        decreases end - i,
    {
        let b = bytes[i];
        proof {
            assert(bytes@.subrange(start as int, i + 1).drop_last() =~= bytes@.subrange(
                start as int,
                i as int,
            ));
            reveal_with_fuel(pow10_nat, 5);
        }
        if b < 48 || b > 57 {
            proof {
                lemma_digits_none_extends(bytes@, start as int, i as int, end as int);
            }
            return None;
        }
        value = value * 10 + (b - 48) as u32;
        i = i + 1;
    }
    Some(value)
}

/// A string with a non-digit has no value, however far it goes on.
proof fn lemma_digits_none_extends(b: Seq<u8>, start: int, i: int, end: int)
    requires
        0 <= start <= i < end <= b.len(),
        !(48 <= b[i] <= 57),
    ensures
        digits_value(b.subrange(start, end)) is None,
    decreases end - i,
{
    let s = b.subrange(start, end);
    if end - 1 == i {
        assert(s.last() == b[i]);
    } else {
        lemma_digits_none_extends(b, start, i, end - 1);
        assert(s.drop_last() =~= b.subrange(start, end - 1));
    }
}

/// Appends `value` as `n` zero-padded ASCII digits.
fn push_digits(out: &mut Vec<u8>, value: u32, n: usize)
    requires
        n <= 4,
    ensures
        final(out)@ == old(out)@ + padded_digits(value as nat, n as nat),
    decreases n,
{
    if n > 0 {
        push_digits(out, value / 10, n - 1);
        out.push((48 + value % 10) as u8);
    }
}

/// The number of days in `year`.
fn year_days(year: u16) -> (r: u32)
    ensures
        r == year_len(year as nat),
{
    if leap_year(year) {
        366
    } else {
        365
    }
}

/// The twelve months make up the year.
proof fn lemma_days_before_month_13(year: nat)
    ensures
        days_before_month(year, 13) == year_len(year),
{
    reveal_with_fuel(days_before_month, 13);
}

/// The spelling of every day a `Date` can hold reads back as that day.
pub proof fn law_iso_roundtrip(year: nat, month: nat, day: nat)
    requires
        valid_ymd(year, month, day),
    ensures
        iso_parts(iso_bytes(year, month, day)) == Some((year, month, day)),
{
    lemma_iso_roundtrip(year, month, day);
}

/// Days before a month never reach past the year's end.
proof fn lemma_days_before_month_bound(year: nat, month: nat, day: nat)
    requires
        1 <= month <= 12,
        1 <= day <= month_len(year, month),
    ensures
        days_before_month(year, month) + day - 1 < year_len(year),
        forall|later: nat|
            month < later <= 13 ==> days_before_month(year, month) + day - 1 < #[trigger] days_before_month(
                year,
                later,
            ),
{
    reveal_with_fuel(days_before_month, 13);
    lemma_days_before_month_13(year);
}

/// Days before a year grow with the year.
proof fn lemma_days_before_year_mono(a: nat, b: nat)
    requires
        first_year() <= a < b,
    ensures
        days_before_year(a) + year_len(a) <= days_before_year(b),
    decreases b,
{
    if a + 1 < b {
        lemma_days_before_year_mono(a, (b - 1) as nat);
    }
}

/// Ordering dates by their `YYYYMMDD` number orders them by time: of two
/// valid days, the one with the smaller number is the earlier one.
pub proof fn law_key_is_chronological(a: Date, b: Date)
    requires
        valid_ymd(a.year_of(), a.month_of(), a.day_of()),
        valid_ymd(b.year_of(), b.month_of(), b.day_of()),
    ensures
        a.key_of() < b.key_of() <==> a.day_number() < b.day_number(),
        a.key_of() == b.key_of() <==> a == b,
{
    let (ya, ma, da) = (a.year_of(), a.month_of(), a.day_of());
    let (yb, mb, db) = (b.year_of(), b.month_of(), b.day_of());
    lemma_days_before_month_bound(ya, ma, da);
    lemma_days_before_month_bound(yb, mb, db);
    a.lemma_parts(ya, ma, da);
    b.lemma_parts(yb, mb, db);
    if ya < yb {
        lemma_days_before_year_mono(ya, yb);
    } else if yb < ya {
        lemma_days_before_year_mono(yb, ya);
    } else if ma < mb {
        assert(days_before_month(ya, ma) + da - 1 < days_before_month(ya, mb));
    } else if mb < ma {
        assert(days_before_month(yb, mb) + db - 1 < days_before_month(yb, ma));
    }
}

/// Leap years of the Gregorian calendar: a year divisible by 4 is a leap
/// year, except a century year, which is one only when divisible by 400. A
/// leap year has 366 days, any other 365.
pub proof fn law_leap_years(year: nat)
    ensures
        year % 4 != 0 ==> !is_leap(year),
        year % 4 == 0 && year % 100 != 0 ==> is_leap(year),
        year % 400 == 0 ==> is_leap(year),
        year % 100 == 0 && year % 400 != 0 ==> !is_leap(year),
        is_leap(year) ==> year_len(year) == 366,
        !is_leap(year) ==> year_len(year) == 365,
{
}

/// The lengths of the months: January, March, May, July, August, October and
/// December have 31 days; April, June, September and November have 30;
/// February has 29 in a leap year and 28 otherwise.
pub proof fn law_month_lengths(year: nat)
    ensures
        month_len(year, 1) == 31,
        is_leap(year) ==> month_len(year, 2) == 29,
        !is_leap(year) ==> month_len(year, 2) == 28,
        month_len(year, 3) == 31,
        month_len(year, 4) == 30,
        month_len(year, 5) == 31,
        month_len(year, 6) == 30,
        month_len(year, 7) == 31,
        month_len(year, 8) == 31,
        month_len(year, 9) == 30,
        month_len(year, 10) == 31,
        month_len(year, 11) == 30,
        month_len(year, 12) == 31,
{
}

/// The day of the year (counted from 0) on which each month starts: 0, 31,
/// 59, 90, 120, 151, 181, 212, 243, 273, 304 and 334, one more from March on
/// in a leap year; the year ends after 365 days, or 366 in a leap year.
pub proof fn law_month_starts(year: nat)
    ensures
        days_before_month(year, 1) == 0,
        days_before_month(year, 2) == 31,
        days_before_month(year, 3) == 59 + (if is_leap(year) { 1int } else { 0int }),
        days_before_month(year, 4) == 90 + (if is_leap(year) { 1int } else { 0int }),
        days_before_month(year, 5) == 120 + (if is_leap(year) { 1int } else { 0int }),
        days_before_month(year, 6) == 151 + (if is_leap(year) { 1int } else { 0int }),
        days_before_month(year, 7) == 181 + (if is_leap(year) { 1int } else { 0int }),
        days_before_month(year, 8) == 212 + (if is_leap(year) { 1int } else { 0int }),
        days_before_month(year, 9) == 243 + (if is_leap(year) { 1int } else { 0int }),
        days_before_month(year, 10) == 273 + (if is_leap(year) { 1int } else { 0int }),
        days_before_month(year, 11) == 304 + (if is_leap(year) { 1int } else { 0int }),
        days_before_month(year, 12) == 334 + (if is_leap(year) { 1int } else { 0int }),
        days_before_month(year, 13) == 365 + (if is_leap(year) { 1int } else { 0int }),
{
    reveal_with_fuel(days_before_month, 13);
}

/// Which days a `Date` can hold, in a year it can hold: the 1st to the 28th of
/// every month, the 29th of every month but February of a common year, the
/// 30th of every month but February, and the 31st of January, March, May,
/// July, August, October and December.
pub proof fn law_valid_days(year: nat, month: nat, day: nat)
    requires
        first_year() <= year <= last_year(),
    ensures
        valid_ymd(year, month, day) <==> {
            &&& 1 <= month <= 12
            &&& 1 <= day
            &&& day <= 28 || (day == 29 && (month != 2 || is_leap(year))) || (day == 30 && month
                != 2) || (day == 31 && (month == 1 || month == 3 || month == 5 || month == 7
                || month == 8 || month == 10 || month == 12))
        },
{
}

/// Whether `year` is a leap year.
pub fn leap_year(year: u16) -> (r: bool)
    ensures
        r == is_leap(year as nat),
{
    (year % 4 == 0 && year % 100 != 0) || year % 400 == 0
}

/// The number of days in `month` (1 to 12) of `year`.
pub fn days_in_month(year: u16, month: u8) -> (r: u8)
    ensures
        r == month_len(year as nat, month as nat),
{
    if month == 2 {
        if leap_year(year) {
            29
        } else {
            28
        }
    } else if month == 4 || month == 6 || month == 9 || month == 11 {
        30
    } else {
        31
    }
}

fn valid_date_parts(year: u16, month: u8, day: u8) -> (r: bool)
    ensures
        r == valid_ymd(year as nat, month as nat, day as nat),
{
    1970 <= year && year <= 9999 && 1 <= month && month <= 12 && 1 <= day && day
        <= days_in_month(year, month)
}

} // verus!
