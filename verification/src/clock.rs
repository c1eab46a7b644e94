use crate::text::{append, dec, decimal, string_of};
use vstd::prelude::*;

verus! {

/// Whether `y` is a leap year of the proleptic Gregorian calendar.
pub open spec fn is_leap(y: int) -> bool {
    y % 4 == 0 && (y % 100 != 0 || y % 400 == 0)
}

/// The number of days in the year `y`.
pub open spec fn year_len(y: int) -> int {
    if is_leap(y) {
        366
    } else {
        365
    }
}

/// The number of days from January 1 of year `a` to January 1 of year `b`.
pub open spec fn days_between(a: int, b: int) -> int
    decreases b - a,
{
    if b <= a {
        0
    } else {
        days_between(a, b - 1) + year_len(b - 1)
    }
}

/// The number of days in month `m` (1 to 12) of year `y`.
pub open spec fn month_len(y: int, m: int) -> int {
    if m == 2 {
        if is_leap(y) {
            29
        } else {
            28
        }
    } else if m == 4 || m == 6 || m == 9 || m == 11 {
        30
    } else {
        31
    }
}

/// The number of days of year `y` before the first of month `m`.
pub open spec fn days_before_month(y: int, m: int) -> int
    decreases m,
{
    if m <= 1 {
        0
    } else {
        days_before_month(y, m - 1) + month_len(y, m - 1)
    }
}

/// A calendar date on or after January 1, 1970.
pub open spec fn is_date(y: int, m: int, d: int) -> bool {
    1970 <= y && 1 <= m <= 12 && 1 <= d <= month_len(y, m)
}

/// The number of days from January 1, 1970 to the given date.
pub open spec fn day_number(y: int, m: int, d: int) -> int {
    days_between(1970, y) + days_before_month(y, m) + d - 1
}

/// The date that lies `days` days after January 1, 1970.
pub open spec fn date_of(days: int) -> (int, int, int) {
    choose|t: (int, int, int)| is_date(t.0, t.1, t.2) && day_number(t.0, t.1, t.2) == days
}

/// The decimal digits of `n`, padded with zeros on the left to `w` places.
pub open spec fn padded(n: int, w: nat) -> Seq<char> {
    let s = dec(n as nat);
    if s.len() >= w {
        s
    } else {
        Seq::new((w - s.len()) as nat, |_i: int| '0') + s
    }
}

/// `YYYY-MM-DDTHH:MM:SSZ` for the given fields.
pub open spec fn stamp_text(y: int, m: int, d: int, h: int, mi: int, s: int) -> Seq<char> {
    padded(y, 4) + seq!['-'] + padded(m, 2) + seq!['-'] + padded(d, 2) + seq!['T'] + padded(h, 2)
        + seq![':'] + padded(mi, 2) + seq![':'] + padded(s, 2) + seq!['Z']
}

/// The UTC time `secs` seconds after the Unix epoch, written as ISO 8601.
pub open spec fn utc_text(secs: int) -> Seq<char> {
    let t = date_of(secs / 86400);
    let sod = secs % 86400;
    stamp_text(t.0, t.1, t.2, sod / 3600, (sod % 3600) / 60, sod % 60)
}

proof fn lemma_split(a: int, b: int, c: int)
    requires
        a <= b <= c,
    ensures
        days_between(a, c) == days_between(a, b) + days_between(b, c),
    decreases c - b,
{
    if c > b {
        lemma_split(a, b, c - 1);
    }
}

proof fn lemma_at_least(a: int, b: int)
    requires
        a <= b,
    ensures
        days_between(a, b) >= 365 * (b - a),
    decreases b - a,
{
    if b > a {
        lemma_at_least(a, b - 1);
    }
}

proof fn lemma_shift(a: int, b: int)
    ensures
        days_between(a + 400, b + 400) == days_between(a, b),
    decreases b - a,
{
    if b > a {
        lemma_shift(a, b - 1);
        assert(is_leap(b - 1 + 400) == is_leap(b - 1));
    }
}

proof fn lemma_block(y: int)
    requires
        y % 4 == 0,
    ensures
        days_between(y, y + 4) == 1460 + (if is_leap(y) { 1int } else { 0int }),
{
    assert((y + 1) % 4 != 0 && (y + 2) % 4 != 0 && (y + 3) % 4 != 0) by (nonlinear_arith)
        requires
            y % 4 == 0,
    {
        let q = y / 4;
        assert(y == 4 * q);
    }
    assert(days_between(y, y) == 0);
    assert(days_between(y, y + 1) == year_len(y));
    assert(days_between(y, y + 2) == days_between(y, y + 1) + year_len(y + 1));
    assert(days_between(y, y + 3) == days_between(y, y + 2) + year_len(y + 2));
    assert(days_between(y, y + 4) == days_between(y, y + 3) + year_len(y + 3));
}

proof fn lemma_leap_inside_century(y: int, j: int)
    requires
        y % 100 == 0,
        0 < j < 25,
    ensures
        (y + 4 * j) % 4 == 0,
        (y + 4 * j) % 100 != 0,
{
    assert((y + 4 * j) % 4 == 0 && (y + 4 * j) % 100 != 0) by (nonlinear_arith)
        requires
            y % 100 == 0,
            0 < j < 25,
    {
        let c = y / 100;
        assert(y == 100 * c);
        assert(y + 4 * j == 4 * (25 * c + j));
        assert(y + 4 * j == 100 * c + 4 * j);
    }
}

proof fn lemma_century_part(y: int, k: int)
    requires
        y % 100 == 0,
        0 <= k <= 25,
    ensures
        days_between(y, y + 4 * k) == 1461 * k - (if k > 0 && !is_leap(y) { 1int } else { 0int }),
    decreases k,
{
    if k > 0 {
        lemma_century_part(y, k - 1);
        lemma_split(y, y + 4 * (k - 1), y + 4 * k);
        if k > 1 {
            lemma_leap_inside_century(y, k - 1);
            lemma_block(y + 4 * (k - 1));
        } else {
            assert(y % 4 == 0);
            lemma_block(y);
        }
    }
}

proof fn lemma_era_centuries(y: int)
    requires
        y % 400 == 0,
    ensures
        (y + 100) % 100 == 0 && (y + 200) % 100 == 0 && (y + 300) % 100 == 0,
        is_leap(y),
        !is_leap(y + 100) && !is_leap(y + 200) && !is_leap(y + 300),
{
    assert((y + 100) % 100 == 0 && (y + 200) % 100 == 0 && (y + 300) % 100 == 0
        && (y + 100) % 400 != 0 && (y + 200) % 400 != 0 && (y + 300) % 400 != 0
        && y % 4 == 0 && y % 100 == 0) by (nonlinear_arith)
        requires
            y % 400 == 0,
    {
        let c = y / 400;
        assert(y == 400 * c);
    }
}

proof fn lemma_era(y: int)
    requires
        y % 400 == 0,
    ensures
        days_between(y, y + 400) == 146097,
{
    lemma_era_centuries(y);
    lemma_century_part(y, 25);
    lemma_century_part(y + 100, 25);
    lemma_century_part(y + 200, 25);
    lemma_century_part(y + 300, 25);
    lemma_split(y, y + 100, y + 200);
    lemma_split(y, y + 200, y + 300);
    lemma_split(y, y + 300, y + 400);
}

/// Any 400 consecutive years hold 146097 days.
proof fn lemma_any_era(y: int)
    ensures
        days_between(y, y + 400) == 146097,
{
    let e = y - y % 400;
    lemma_era(e);
    lemma_shift(e, y);
    lemma_split(e, y, e + 400);
    lemma_split(y, e + 400, y + 400);
}

proof fn lemma_eras(y: int, k: int)
    requires
        k >= 0,
    ensures
        days_between(y, y + 400 * k) == 146097 * k,
    decreases k,
{
    if k > 0 {
        lemma_eras(y, k - 1);
        lemma_any_era(y + 400 * (k - 1));
        lemma_split(y, y + 400 * (k - 1), y + 400 * k);
    }
}

proof fn lemma_full_year(y: int)
    ensures
        days_before_month(y, 13) == year_len(y),
{
    reveal_with_fuel(days_before_month, 13);
}

proof fn lemma_months_grow(y: int, m1: int, m2: int)
    requires
        1 <= m1 <= m2,
    ensures
        days_before_month(y, m1) <= days_before_month(y, m2),
    decreases m2 - m1,
{
    if m2 > m1 {
        lemma_months_grow(y, m1, m2 - 1);
    }
}

proof fn lemma_within_year(y: int, m: int, d: int)
    requires
        is_date(y, m, d),
    ensures
        days_between(1970, y) <= day_number(y, m, d) < days_between(1970, y + 1),
        days_before_month(y, m) <= days_before_month(y, m) + d - 1 < days_before_month(y, m + 1),
{
    lemma_months_grow(y, 1, m);
    lemma_months_grow(y, m + 1, 13);
    lemma_full_year(y);
    assert(days_before_month(y, m + 1) == days_before_month(y, m) + month_len(y, m));
    assert(days_between(1970, y + 1) == days_between(1970, y) + year_len(y));
}

/// Two dates with the same day number are the same date.
pub proof fn lemma_date_unique(a: (int, int, int), b: (int, int, int))
    requires
        is_date(a.0, a.1, a.2),
        is_date(b.0, b.1, b.2),
        day_number(a.0, a.1, a.2) == day_number(b.0, b.1, b.2),
    ensures
        a == b,
{
    lemma_within_year(a.0, a.1, a.2);
    lemma_within_year(b.0, b.1, b.2);
    if a.0 < b.0 {
        lemma_split(1970, a.0 + 1, b.0);
        lemma_at_least(a.0 + 1, b.0);
    } else if b.0 < a.0 {
        lemma_split(1970, b.0 + 1, a.0);
        lemma_at_least(b.0 + 1, a.0);
    }
    assert(a.0 == b.0);
    if a.1 < b.1 {
        lemma_months_grow(a.0, a.1 + 1, b.1);
    } else if b.1 < a.1 {
        lemma_months_grow(a.0, b.1 + 1, a.1);
    }
}

fn leap_year(y: u64) -> (b: bool)
    ensures
        b == is_leap(y as int),
{
    y % 4 == 0 && (y % 100 != 0 || y % 400 == 0)
}

fn year_length(y: u64) -> (n: u64)
    ensures
        n == year_len(y as int),
{
    if leap_year(y) {
        366
    } else {
        365
    }
}

fn month_length(y: u64, m: u64) -> (n: u64)
    ensures
        n == month_len(y as int, m as int),
{
    if m == 2 {
        if leap_year(y) {
            29
        } else {
            28
        }
    } else if m == 4 || m == 6 || m == 9 || m == 11 {
        30
    } else {
        31
    }
}

/// The calendar date `days` days after January 1, 1970.
fn civil_from_days(days: u64) -> (r: (u64, u64, u64))
    requires
        days <= 0x1_0000_0000_0000,
    ensures
        is_date(r.0 as int, r.1 as int, r.2 as int),
        day_number(r.0 as int, r.1 as int, r.2 as int) == days,
{
    let eras = days / 146097;
    let mut rem = days % 146097;
    let start: u64 = 1970 + 400 * eras;
    proof {
        lemma_eras(1970, eras as int);
    }
    let mut y = start;
    while rem >= year_length(y)
        invariant
            1970 <= start <= y,
            start == 1970 + 400 * eras,
            eras <= 0x1_0000_0000,
            days_between(1970, start as int) == 146097 * eras,
            days_between(start as int, y as int) + rem == days % 146097,
            days == 146097 * eras + days % 146097,
        decreases rem,
    {
        proof {
            lemma_at_least(start as int, y as int);
        }
        rem = rem - year_length(y);
        y = y + 1;
    }
    proof {
        lemma_split(1970, start as int, y as int);
        lemma_full_year(y as int);
    }
    let ghost in_year = rem;
    let mut m: u64 = 1;
    while rem >= month_length(y, m)
        invariant
            1 <= m <= 12,
            days_before_month(y as int, m as int) + rem == in_year,
            days_before_month(y as int, m as int) + rem < year_len(y as int),
            days_before_month(y as int, 13) == year_len(y as int),
        decreases 12 - m,
    {
        proof {
            if m == 12 {
                assert(days_before_month(y as int, 13) == days_before_month(y as int, 12) + month_len(y as int, 12));
            }
        }
        rem = rem - month_length(y, m);
        m = m + 1;
    }
    (y, m, rem + 1)
}

/// The decimal digits of `n`, padded with zeros on the left to `w` places.
fn padded_digits(n: u64, w: usize) -> (r: Vec<char>)
    requires
        w <= 4,
    ensures
        r@ == padded(n as int, w as nat),
{
    let s = decimal(n);
    if s.len() >= w {
        s
    } else {
        let k = w - s.len();
        let mut r: Vec<char> = Vec::new();
        let mut i: usize = 0;
        while i < k
            invariant
                i <= k,
                r@ == Seq::new(i as nat, |_i: int| '0'),
            decreases k - i,
        {
            r.push('0');
            i = i + 1;
            assert(r@ =~= Seq::new(i as nat, |_i: int| '0'));
        }
        append(&mut r, &s);
        r
    }
}

fn push_sep(r: &mut Vec<char>, c: char, n: u64)
    requires
        n < 10000,
    ensures
        final(r)@ == old(r)@ + seq![c] + padded(n as int, 2),
{
    r.push(c);
    let d = padded_digits(n, 2);
    append(r, &d);
}

/// The UTC time `secs` seconds after the Unix epoch, written
/// `YYYY-MM-DDTHH:MM:SSZ`.
pub fn iso8601_utc(secs: u64) -> (r: String)
    requires
        secs <= 0x7fff_ffff_ffff_ffff,
    ensures
        r@ == utc_text(secs as int),
{
    let days = secs / 86400;
    let sod = secs % 86400;
    let (y, m, d) = civil_from_days(days);
    proof {
        let t = date_of(days as int);
        assert(is_date(y as int, m as int, d as int) && day_number(y as int, m as int, d as int) == days);
        lemma_date_unique(t, (y as int, m as int, d as int));
    }
    let mut v = padded_digits(y, 4);
    push_sep(&mut v, '-', m);
    push_sep(&mut v, '-', d);
    push_sep(&mut v, 'T', sod / 3600);
    push_sep(&mut v, ':', (sod % 3600) / 60);
    push_sep(&mut v, ':', sod % 60);
    v.push('Z');
    let r = string_of(&v);
    assert(r@ =~= utc_text(secs as int));
    r
}

} // verus!
