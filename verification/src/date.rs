//! Calendar dates in the proleptic Gregorian calendar, with verified
//! arithmetic: validity, day-of-year ordinals, a linear day index counted
//! from the first of January of year 1, and the weekday derived from it.
//!
//! Years are kept within `1..=9999`, which covers everything a production
//! calendar can be asked for and keeps the ISO rendering at four year digits.

use vstd::prelude::*;
use vstd::arithmetic::div_mod::lemma_fundamental_div_mod;
use vstd::arithmetic::div_mod::lemma_fundamental_div_mod_converse;
use vstd::arithmetic::div_mod::lemma_small_mod;

use crate::text::char_digit;
use crate::text::digit_char;
use crate::text::digit_str;
use crate::text::is_digit_char;

verus! {

/// A day of the week. The first of January of year 1 (proleptic Gregorian)
/// is a Monday.
#[derive(Clone, Copy, Debug, PartialEq, Eq, Structural, Hash)]
pub enum Weekday {
    Mon,
    Tue,
    Wed,
    Thu,
    Fri,
    Sat,
    Sun,
}

/// A calendar date, kept as plain year, month and day numbers.
#[derive(Clone, Copy, Debug, PartialEq, Eq, Structural, Hash)]
pub struct Date {
    pub year: u16,
    pub month: u8,
    pub day: u8,
}

/// Whether `y` is a leap year in the Gregorian calendar.
pub open spec fn is_leap_year(y: int) -> bool {
    (y % 4 == 0 && y % 100 != 0) || y % 400 == 0
}

/// Number of days in year `y`.
pub open spec fn days_in_year(y: int) -> int {
    if is_leap_year(y) {
        366
    } else {
        365
    }
}

/// Number of days in month `m` of year `y`.
pub open spec fn days_in_month(y: int, m: int) -> int {
    if m == 2 {
        if is_leap_year(y) {
            29
        } else {
            28
        }
    } else if m == 4 || m == 6 || m == 9 || m == 11 {
        30
    } else {
        31
    }
}

/// Number of days of year `y` that lie before the first of month `m`.
pub open spec fn days_before_month(y: int, m: int) -> int
    decreases m,
{
    if m <= 1 {
        0
    } else {
        days_before_month(y, m - 1) + days_in_month(y, m - 1)
    }
}

/// Number of days that lie before the first of January of year `y`,
/// counted from the first of January of year 1.
pub open spec fn days_before_year(y: int) -> int {
    365 * (y - 1) + (y - 1) / 4 - (y - 1) / 100 + (y - 1) / 400
}

impl Date {
    /// A well-formed date: the month exists and the day exists in it.
    pub open spec fn valid(self) -> bool {
        &&& 1 <= self.year <= 9999
        &&& 1 <= self.month <= 12
        &&& 1 <= self.day <= days_in_month(self.year as int, self.month as int)
    }

    /// One-based day of the year.
    pub open spec fn ordinal_spec(self) -> int {
        days_before_month(self.year as int, self.month as int) + self.day
    }

    /// Zero-based count of days since the first of January of year 1.
    pub open spec fn index(self) -> int {
        days_before_year(self.year as int) + self.ordinal_spec() - 1
    }
}

/// The weekday with index `k`, where Monday is 0 and Sunday is 6.
pub open spec fn weekday_from_index(k: int) -> Weekday {
    if k == 0 {
        Weekday::Mon
    } else if k == 1 {
        Weekday::Tue
    } else if k == 2 {
        Weekday::Wed
    } else if k == 3 {
        Weekday::Thu
    } else if k == 4 {
        Weekday::Fri
    } else if k == 5 {
        Weekday::Sat
    } else {
        Weekday::Sun
    }
}

/// The weekday of a date, derived from its day index.
pub open spec fn weekday_of(d: Date) -> Weekday {
    weekday_from_index(d.index() % 7)
}

/// Whether a weekday falls on the weekend.
pub open spec fn is_weekend_day(w: Weekday) -> bool {
    w == Weekday::Sat || w == Weekday::Sun
}

/// Whether `y` is a leap year.
pub fn is_leap(year: u16) -> (r: bool)
    ensures
        r == is_leap_year(year as int),
{
    (year % 4 == 0 && year % 100 != 0) || year % 400 == 0
}

/// Number of days in the given month.
pub fn month_length(year: u16, month: u8) -> (r: u8)
    ensures
        r == days_in_month(year as int, month as int),
{
    if month == 2 {
        if is_leap(year) {
            29
        } else {
            28
        }
    } else if month == 4 || month == 6 || month == 9 || month == 11 {
        30
    } else {
        31
    }
}

/// Number of days in the given year.
pub fn year_length(year: u16) -> (r: u16)
    ensures
        r == days_in_year(year as int),
{
    if is_leap(year) {
        366
    } else {
        365
    }
}

/// Number of days of `year` before the first of `month`.
pub fn month_offset(year: u16, month: u8) -> (r: u16)
    requires
        1 <= month <= 12,
    ensures
        r == days_before_month(year as int, month as int),
        r <= 341,
{
    let mut m: u8 = 1;
    let mut acc: u16 = 0;
    while m < month
        invariant
            1 <= m <= month,
            month <= 12,
            acc == days_before_month(year as int, m as int),
            acc <= 31 * (m - 1),
        decreases month - m,
    {
        acc = acc + month_length(year, m) as u16;
        m = m + 1;
    }
    acc
}

/// Number of days before the first of January of `year`, counted from the
/// first of January of year 1.
pub fn year_offset(year: u16) -> (r: u64)
    requires
        year >= 1,
    ensures
        r == days_before_year(year as int),
        r < 25000000,
{
    let x = (year - 1) as u64;
    assert(x / 100 <= 365 * x && x / 4 <= x && x / 100 <= x && x / 400 <= x) by (nonlinear_arith);
    365 * x + x / 4 - x / 100 + x / 400
}

impl Date {
    /// Builds a date when the year, month and day numbers form a valid date
    /// with the year in `1..=9999`.
    pub fn new(year: u16, month: u8, day: u8) -> (r: Option<Date>)
        ensures
            match r {
                Some(d) => d == (Date { year, month, day }) && d.valid(),
                None => !(Date { year, month, day }).valid(),
            },
    {
        if 1 <= year && year <= 9999 && 1 <= month && month <= 12 && 1 <= day && day
            <= month_length(year, month) {
            Some(Date { year, month, day })
        } else {
            None
        }
    }

    /// One-based day of the year.
    pub fn ordinal(&self) -> (r: u16)
        requires
            self.valid(),
        ensures
            r == self.ordinal_spec(),
    {
        month_offset(self.year, self.month) + self.day as u16
    }

    /// Zero-based count of days since the first of January of year 1.
    pub fn day_index(&self) -> (r: u64)
        requires
            self.valid(),
        ensures
            r == self.index(),
    {
        proof {
            lemma_ordinal_bounds(*self);
        }
        year_offset(self.year) + self.ordinal() as u64 - 1
    }

    /// The weekday this date falls on.
    pub fn weekday(&self) -> (r: Weekday)
        requires
            self.valid(),
        ensures
            r == weekday_of(*self),
    {
        let k = self.day_index() % 7;
        match k {
            0 => Weekday::Mon,
            1 => Weekday::Tue,
            2 => Weekday::Wed,
            3 => Weekday::Thu,
            4 => Weekday::Fri,
            5 => Weekday::Sat,
            _ => Weekday::Sun,
        }
    }

    /// The next calendar day.
    pub fn succ(&self) -> (r: Date)
        requires
            self.valid(),
            !(self.year == 9999 && self.month == 12 && self.day == 31),
        ensures
            r.valid(),
            r.index() == self.index() + 1,
            self.month == 12 && self.day == 31 ==> r.year == self.year + 1 && r.ordinal_spec()
                == 1,
            !(self.month == 12 && self.day == 31) ==> r.year == self.year && r.ordinal_spec()
                == self.ordinal_spec() + 1,
    {
        let dim = month_length(self.year, self.month);
        if self.day < dim {
            Date { year: self.year, month: self.month, day: self.day + 1 }
        } else if self.month < 12 {
            let r = Date { year: self.year, month: self.month + 1, day: 1 };
            proof {
                assert(days_before_month(self.year as int, self.month as int + 1)
                    == days_before_month(self.year as int, self.month as int) + days_in_month(
                    self.year as int, self.month as int));
            }
            r
        } else {
            let r = Date { year: self.year + 1, month: 1, day: 1 };
            proof {
                lemma_days_before_month_whole_year(self.year as int);
                lemma_year_step(self.year as int);
            }
            r
        }
    }

    /// Whether this date is on or before `other` in calendar order.
    pub fn le(&self, other: &Date) -> (r: bool)
        requires
            self.valid(),
            other.valid(),
        ensures
            r == (self.index() <= other.index()),
    {
        self.day_index() <= other.day_index()
    }
}

/// The days of a year before month 13 are exactly the days of that year.
pub proof fn lemma_days_before_month_whole_year(y: int)
    ensures
        days_before_month(y, 13) == days_in_year(y),
{
    reveal_with_fuel(days_before_month, 13);
}

/// Dividing `x + 1` instead of `x` raises the quotient exactly when `k`
/// divides `x + 1`.
proof fn lemma_div_succ(x: int, k: int)
    requires
        x >= 0,
        k >= 2,
    ensures
        (x + 1) / k == x / k + if (x + 1) % k == 0 {
            1int
        } else {
            0int
        },
{
    lemma_fundamental_div_mod(x, k);
    vstd::arithmetic::div_mod::lemma_mod_bound(x, k);
    let q = x / k;
    let r = x % k;
    assert(x == k * q + r);
    if r == k - 1 {
        assert(x + 1 == (q + 1) * k + 0) by (nonlinear_arith)
            requires
                x == k * q + r,
                r == k - 1,
        ;
        lemma_fundamental_div_mod_converse(x + 1, k, q + 1, 0);
    } else {
        assert(x + 1 == q * k + (r + 1)) by (nonlinear_arith)
            requires
                x == k * q + r,
        ;
        lemma_fundamental_div_mod_converse(x + 1, k, q, r + 1);
    }
}

/// Stepping to the next year adds exactly that year's number of days.
pub proof fn lemma_year_step(y: int)
    requires
        y >= 1,
    ensures
        days_before_year(y + 1) == days_before_year(y) + days_in_year(y),
{
    let x = y - 1;
    lemma_div_succ(x, 4);
    lemma_div_succ(x, 100);
    lemma_div_succ(x, 400);
    assert(y % 4 == 0 <==> (x + 1) % 4 == 0);
    assert(y % 100 == 0 <==> (x + 1) % 100 == 0);
    assert(y % 400 == 0 <==> (x + 1) % 400 == 0);
}

/// Year starts come in calendar order, a whole year apart at least.
pub proof fn lemma_year_offset_mono(y1: int, y2: int)
    requires
        1 <= y1 <= y2,
    ensures
        days_before_year(y1) <= days_before_year(y2),
        y1 < y2 ==> days_before_year(y1) + days_in_year(y1) <= days_before_year(y2),
    decreases y2 - y1,
{
    if y1 < y2 {
        lemma_year_step(y1);
        lemma_year_offset_mono(y1 + 1, y2);
    }
}

/// Month starts come in calendar order, a whole month apart at least.
pub proof fn lemma_month_offset_mono(y: int, m1: int, m2: int)
    requires
        1 <= m1 <= m2 <= 13,
    ensures
        days_before_month(y, m1) <= days_before_month(y, m2),
        m1 < m2 ==> days_before_month(y, m1) + days_in_month(y, m1) <= days_before_month(y, m2),
    decreases m2 - m1,
{
    if m1 < m2 {
        lemma_month_offset_mono(y, m1 + 1, m2);
    }
}

/// The ordinal of a valid date lies within its year.
pub proof fn lemma_ordinal_bounds(d: Date)
    requires
        d.valid(),
    ensures
        1 <= d.ordinal_spec() <= days_in_year(d.year as int),
{
    lemma_month_offset_mono(d.year as int, 1, d.month as int);
    lemma_month_offset_mono(d.year as int, d.month as int, 13);
    lemma_days_before_month_whole_year(d.year as int);
}

/// The day index respects calendar order: a date is earlier exactly when its
/// year is smaller, or the year is the same and the ordinal is smaller.
pub proof fn lemma_index_order(a: Date, b: Date)
    requires
        a.valid(),
        b.valid(),
    ensures
        (a.index() < b.index()) <==> (a.year < b.year || (a.year == b.year && a.ordinal_spec()
            < b.ordinal_spec())),
{
    lemma_ordinal_bounds(a);
    lemma_ordinal_bounds(b);
    if a.year < b.year {
        lemma_year_offset_mono(a.year as int, b.year as int);
    } else if b.year < a.year {
        lemma_year_offset_mono(b.year as int, a.year as int);
    }
}

/// Two valid dates with the same day index are the same date.
pub proof fn lemma_index_injective(a: Date, b: Date)
    requires
        a.valid(),
        b.valid(),
        a.index() == b.index(),
    ensures
        a == b,
{
    lemma_index_order(a, b);
    lemma_index_order(b, a);
    assert(a.year == b.year && a.ordinal_spec() == b.ordinal_spec());
    if a.month < b.month {
        lemma_month_offset_mono(a.year as int, a.month as int, b.month as int);
    } else if b.month < a.month {
        lemma_month_offset_mono(a.year as int, b.month as int, a.month as int);
    }
}

/// Four decimal digits, zero padded; the digits of `v` for `v <= 9999`.
pub open spec fn dec4_chars(v: int) -> Seq<char> {
    seq![
        digit_char(v / 1000 % 10),
        digit_char(v / 100 % 10),
        digit_char(v / 10 % 10),
        digit_char(v % 10),
    ]
}

/// Two decimal digits, zero padded; the digits of `v` for `v <= 99`.
pub open spec fn dec2_chars(v: int) -> Seq<char> {
    seq![digit_char(v / 10 % 10), digit_char(v % 10)]
}

/// The ISO rendering of a date: `YYYY-MM-DD`.
pub open spec fn iso_chars(d: Date) -> Seq<char> {
    dec4_chars(d.year as int) + seq!['-'] + dec2_chars(d.month as int) + seq!['-'] + dec2_chars(
        d.day as int,
    )
}

/// What reading an ISO `YYYY-MM-DD` rendering yields: the date, when the
/// shape is right and the numbers form a valid date.
pub open spec fn parse_iso_chars(s: Seq<char>) -> Option<Date> {
    if s.len() == 10 && s[4] == '-' && s[7] == '-' && is_digit_char(s[0]) && is_digit_char(s[1])
        && is_digit_char(s[2]) && is_digit_char(s[3]) && is_digit_char(s[5]) && is_digit_char(
        s[6],
    ) && is_digit_char(s[8]) && is_digit_char(s[9]) {
        let y = char_digit(s[0]) * 1000 + char_digit(s[1]) * 100 + char_digit(s[2]) * 10
            + char_digit(s[3]);
        let m = char_digit(s[5]) * 10 + char_digit(s[6]);
        let d = char_digit(s[8]) * 10 + char_digit(s[9]);
        let date = Date { year: y as u16, month: m as u8, day: d as u8 };
        if date.valid() {
            Some(date)
        } else {
            None
        }
    } else {
        None
    }
}

impl Date {
    /// Renders this date as `YYYY-MM-DD`. A year beyond 9999 or a month or
    /// day beyond two digits is truncated to its low digits, as the digit
    /// sequences are.
    pub fn to_iso_string(&self) -> (s: String)
        ensures
            s@ == iso_chars(*self),
    {
        let y = self.year;
        let mut s = String::from_str(digit_str((y / 1000 % 10) as u8));
        s.append(digit_str((y / 100 % 10) as u8));
        s.append(digit_str((y / 10 % 10) as u8));
        s.append(digit_str((y % 10) as u8));
        s.append("-");
        s.append(digit_str(self.month / 10 % 10));
        s.append(digit_str(self.month % 10));
        s.append("-");
        s.append(digit_str(self.day / 10 % 10));
        s.append(digit_str(self.day % 10));
        proof {
            reveal_strlit("-");
            assert(s@ =~= iso_chars(*self));
        }
        s
    }

    /// Reads a date back from its `YYYY-MM-DD` rendering.
    pub fn from_iso(s: &str) -> (r: Option<Date>)
        ensures
            r == parse_iso_chars(s@),
    {
        if s.unicode_len() != 10 {
            return None;
        }
        if s.get_char(4) != '-' || s.get_char(7) != '-' {
            return None;
        }
        let d0 = match digit_at(s, 0) {
            Some(v) => v,
            None => { return None },
        };
        let d1 = match digit_at(s, 1) {
            Some(v) => v,
            None => { return None },
        };
        let d2 = match digit_at(s, 2) {
            Some(v) => v,
            None => { return None },
        };
        let d3 = match digit_at(s, 3) {
            Some(v) => v,
            None => { return None },
        };
        let d5 = match digit_at(s, 5) {
            Some(v) => v,
            None => { return None },
        };
        let d6 = match digit_at(s, 6) {
            Some(v) => v,
            None => { return None },
        };
        let d8 = match digit_at(s, 8) {
            Some(v) => v,
            None => { return None },
        };
        let d9 = match digit_at(s, 9) {
            Some(v) => v,
            None => { return None },
        };
        let y: u16 = d0 as u16 * 1000 + d1 as u16 * 100 + d2 as u16 * 10 + d3 as u16;
        let m: u8 = d5 * 10 + d6;
        let d: u8 = d8 * 10 + d9;
        Date::new(y, m, d)
    }
}

/// The digit at position `i` of `s`, when there is one.
fn digit_at(s: &str, i: usize) -> (r: Option<u8>)
    requires
        i < s@.len(),
    ensures
        match r {
            Some(v) => is_digit_char(s@[i as int]) && v == char_digit(s@[i as int]) && v < 10,
            None => !is_digit_char(s@[i as int]),
        },
{
    let c = s.get_char(i);
    let v = c as u32;
    if 48 <= v && v <= 57 {
        Some((v - 48) as u8)
    } else {
        None
    }
}

/// Digit characters carry their digit: they parse back to the value they
/// were made from.
pub proof fn lemma_digit_char_value(v: int)
    requires
        0 <= v <= 9,
    ensures
        is_digit_char(digit_char(v)),
        char_digit(digit_char(v)) == v,
{
}

/// A number up to 9999 is recomposed exactly from its four padded digits.
proof fn lemma_dec4_recompose(y: int)
    requires
        0 <= y <= 9999,
    ensures
        y == 1000 * (y / 1000 % 10) + 100 * (y / 100 % 10) + 10 * (y / 10 % 10) + y % 10,
{
    lemma_fundamental_div_mod(y, 10);
    lemma_fundamental_div_mod(y / 10, 10);
    lemma_fundamental_div_mod(y / 100, 10);
    vstd::arithmetic::div_mod::lemma_div_denominator(y, 10, 10);
    vstd::arithmetic::div_mod::lemma_div_denominator(y, 100, 10);
    assert(y / 10 / 10 == y / 100);
    assert(y / 100 / 10 == y / 1000);
    vstd::arithmetic::div_mod::lemma_div_is_ordered(y, 9999, 1000);
    lemma_fundamental_div_mod_converse(9999, 1000, 9, 999);
    assert(9999int / 1000 == 9);
    assert(y / 1000 >= 0) by {
        vstd::arithmetic::div_mod::lemma_div_is_ordered(0, y, 1000);
    }
    lemma_small_mod((y / 1000) as nat, 10);
}

/// A number up to 99 is recomposed exactly from its two padded digits.
proof fn lemma_dec2_recompose(m: int)
    requires
        0 <= m <= 99,
    ensures
        m == 10 * (m / 10 % 10) + m % 10,
{
    lemma_fundamental_div_mod(m, 10);
    vstd::arithmetic::div_mod::lemma_div_is_ordered(m, 99, 10);
    lemma_fundamental_div_mod_converse(99, 10, 9, 9);
    assert(99int / 10 == 9);
    assert(m / 10 >= 0) by {
        vstd::arithmetic::div_mod::lemma_div_is_ordered(0, m, 10);
    }
    lemma_small_mod((m / 10) as nat, 10);
}

/// Reading back the ISO rendering of a valid date yields that date.
pub proof fn lemma_iso_round_trip(d: Date)
    requires
        d.valid(),
    ensures
        parse_iso_chars(iso_chars(d)) == Some(d),
{
    let s = iso_chars(d);
    let y = d.year as int;
    let m = d.month as int;
    let dd = d.day as int;
    vstd::arithmetic::div_mod::lemma_mod_bound(y / 1000, 10);
    vstd::arithmetic::div_mod::lemma_mod_bound(y / 100, 10);
    vstd::arithmetic::div_mod::lemma_mod_bound(y / 10, 10);
    vstd::arithmetic::div_mod::lemma_mod_bound(y, 10);
    vstd::arithmetic::div_mod::lemma_mod_bound(m / 10, 10);
    vstd::arithmetic::div_mod::lemma_mod_bound(m, 10);
    vstd::arithmetic::div_mod::lemma_mod_bound(dd / 10, 10);
    vstd::arithmetic::div_mod::lemma_mod_bound(dd, 10);
    assert(s[0] == digit_char(y / 1000 % 10));
    assert(s[1] == digit_char(y / 100 % 10));
    assert(s[2] == digit_char(y / 10 % 10));
    assert(s[3] == digit_char(y % 10));
    assert(s[4] == '-');
    assert(s[5] == digit_char(m / 10 % 10));
    assert(s[6] == digit_char(m % 10));
    assert(s[7] == '-');
    assert(s[8] == digit_char(dd / 10 % 10));
    assert(s[9] == digit_char(dd % 10));
    lemma_digit_char_value(y / 1000 % 10);
    lemma_digit_char_value(y / 100 % 10);
    lemma_digit_char_value(y / 10 % 10);
    lemma_digit_char_value(y % 10);
    lemma_digit_char_value(m / 10 % 10);
    lemma_digit_char_value(m % 10);
    lemma_digit_char_value(dd / 10 % 10);
    lemma_digit_char_value(dd % 10);
    lemma_dec4_recompose(y);
    lemma_dec2_recompose(m);
    lemma_dec2_recompose(dd);
}

/// The name of a weekday, as the usual three-letter English abbreviation.
pub open spec fn weekday_name(w: Weekday) -> Seq<char> {
    match w {
        Weekday::Mon => seq!['M', 'o', 'n'],
        Weekday::Tue => seq!['T', 'u', 'e'],
        Weekday::Wed => seq!['W', 'e', 'd'],
        Weekday::Thu => seq!['T', 'h', 'u'],
        Weekday::Fri => seq!['F', 'r', 'i'],
        Weekday::Sat => seq!['S', 'a', 't'],
        Weekday::Sun => seq!['S', 'u', 'n'],
    }
}

/// The weekday a three-letter name stands for, if any.
pub open spec fn parse_weekday_name(s: Seq<char>) -> Option<Weekday> {
    if s == weekday_name(Weekday::Mon) {
        Some(Weekday::Mon)
    } else if s == weekday_name(Weekday::Tue) {
        Some(Weekday::Tue)
    } else if s == weekday_name(Weekday::Wed) {
        Some(Weekday::Wed)
    } else if s == weekday_name(Weekday::Thu) {
        Some(Weekday::Thu)
    } else if s == weekday_name(Weekday::Fri) {
        Some(Weekday::Fri)
    } else if s == weekday_name(Weekday::Sat) {
        Some(Weekday::Sat)
    } else if s == weekday_name(Weekday::Sun) {
        Some(Weekday::Sun)
    } else {
        None
    }
}

impl Weekday {
    /// The three-letter name of this weekday.
    pub fn as_str(&self) -> (r: &'static str)
        ensures
            r@ == weekday_name(*self),
    {
        proof {
            reveal_strlit("Mon");
            reveal_strlit("Tue");
            reveal_strlit("Wed");
            reveal_strlit("Thu");
            reveal_strlit("Fri");
            reveal_strlit("Sat");
            reveal_strlit("Sun");
        }
        let r = match self {
            Weekday::Mon => "Mon",
            Weekday::Tue => "Tue",
            Weekday::Wed => "Wed",
            Weekday::Thu => "Thu",
            Weekday::Fri => "Fri",
            Weekday::Sat => "Sat",
            Weekday::Sun => "Sun",
        };
        proof {
            assert(r@ =~= weekday_name(*self));
        }
        r
    }

    /// The weekday a three-letter name stands for, if any.
    pub fn from_name(s: &str) -> (r: Option<Weekday>)
        ensures
            r == parse_weekday_name(s@),
    {
        proof {
            reveal_strlit("Mon");
            reveal_strlit("Tue");
            reveal_strlit("Wed");
            reveal_strlit("Thu");
            reveal_strlit("Fri");
            reveal_strlit("Sat");
            reveal_strlit("Sun");
            assert("Mon"@ =~= weekday_name(Weekday::Mon));
            assert("Tue"@ =~= weekday_name(Weekday::Tue));
            assert("Wed"@ =~= weekday_name(Weekday::Wed));
            assert("Thu"@ =~= weekday_name(Weekday::Thu));
            assert("Fri"@ =~= weekday_name(Weekday::Fri));
            assert("Sat"@ =~= weekday_name(Weekday::Sat));
            assert("Sun"@ =~= weekday_name(Weekday::Sun));
        }
        if crate::text::str_eq(s, "Mon") {
            Some(Weekday::Mon)
        } else if crate::text::str_eq(s, "Tue") {
            Some(Weekday::Tue)
        } else if crate::text::str_eq(s, "Wed") {
            Some(Weekday::Wed)
        } else if crate::text::str_eq(s, "Thu") {
            Some(Weekday::Thu)
        } else if crate::text::str_eq(s, "Fri") {
            Some(Weekday::Fri)
        } else if crate::text::str_eq(s, "Sat") {
            Some(Weekday::Sat)
        } else if crate::text::str_eq(s, "Sun") {
            Some(Weekday::Sun)
        } else {
            None
        }
    }
}

/// Weekday names are read back as the weekday they were made from.
pub proof fn lemma_weekday_name_round_trip(w: Weekday)
    ensures
        parse_weekday_name(weekday_name(w)) == Some(w),
{
    assert(weekday_name(Weekday::Mon) != weekday_name(Weekday::Tue));
    match w {
        Weekday::Mon => {},
        Weekday::Tue => {
            assert(weekday_name(w)[0] != weekday_name(Weekday::Mon)[0]);
        },
        Weekday::Wed => {
            assert(weekday_name(w)[0] != weekday_name(Weekday::Mon)[0]);
            assert(weekday_name(w)[0] != weekday_name(Weekday::Tue)[0]);
        },
        Weekday::Thu => {
            assert(weekday_name(w)[0] != weekday_name(Weekday::Mon)[0]);
            assert(weekday_name(w)[1] != weekday_name(Weekday::Tue)[1]);
            assert(weekday_name(w)[0] != weekday_name(Weekday::Wed)[0]);
        },
        Weekday::Fri => {
            assert(weekday_name(w)[0] != weekday_name(Weekday::Mon)[0]);
            assert(weekday_name(w)[0] != weekday_name(Weekday::Tue)[0]);
            assert(weekday_name(w)[0] != weekday_name(Weekday::Wed)[0]);
            assert(weekday_name(w)[0] != weekday_name(Weekday::Thu)[0]);
        },
        Weekday::Sat => {
            assert(weekday_name(w)[0] != weekday_name(Weekday::Mon)[0]);
            assert(weekday_name(w)[0] != weekday_name(Weekday::Tue)[0]);
            assert(weekday_name(w)[0] != weekday_name(Weekday::Wed)[0]);
            assert(weekday_name(w)[0] != weekday_name(Weekday::Thu)[0]);
            assert(weekday_name(w)[0] != weekday_name(Weekday::Fri)[0]);
        },
        Weekday::Sun => {
            assert(weekday_name(w)[0] != weekday_name(Weekday::Mon)[0]);
            assert(weekday_name(w)[0] != weekday_name(Weekday::Tue)[0]);
            assert(weekday_name(w)[0] != weekday_name(Weekday::Wed)[0]);
            assert(weekday_name(w)[0] != weekday_name(Weekday::Thu)[0]);
            assert(weekday_name(w)[0] != weekday_name(Weekday::Fri)[0]);
            assert(weekday_name(w)[1] != weekday_name(Weekday::Sat)[1]);
        },
    }
}

} // verus!
