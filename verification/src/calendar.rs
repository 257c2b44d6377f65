//! Timestamps: seconds since the Unix epoch as the UTC instant that snapshots,
//! sightings and live frames are stamped with.
//!
//! The calendar is the proleptic Gregorian one, in both directions from 1970.

use vstd::prelude::*;
use crate::text::{
    decimal, decimal_chars, digit, lemma_drop_absent_char, lemma_drop_char_concat, lemma_lex_sign_concat,
    lex_sign, replace, string_of,
};
use vstd::arithmetic::div_mod::{
    lemma_fundamental_div_mod, lemma_fundamental_div_mod_converse, lemma_mod_bound,
};

verus! {

/// A leap year of the Gregorian calendar.
pub open spec fn leap(y: int) -> bool {
    y % 4 == 0 && (y % 100 != 0 || y % 400 == 0)
}

/// Days in year `y`.
pub open spec fn year_len(y: int) -> int {
    if leap(y) {
        366
    } else {
        365
    }
}

/// Days in month `m` (1 for January) of year `y`.
pub open spec fn month_len(y: int, m: int) -> int {
    if m == 2 {
        if leap(y) {
            29
        } else {
            28
        }
    } else if m == 4 || m == 6 || m == 9 || m == 11 {
        30
    } else {
        31
    }
}

/// Days of year `y` that lie before the first of month `m`.
pub open spec fn month_start(y: int, m: int) -> int
    decreases m,
{
    if m <= 1 {
        0
    } else {
        month_start(y, m - 1) + month_len(y, m - 1)
    }
}

/// The day number of the first of January of year `y`, counted from the
/// first of January 1970 (negative before it).
pub open spec fn year_start(y: int) -> int
    decreases (if y >= 1970 { y - 1970 } else { 1970 - y }),
{
    if y == 1970 {
        0
    } else if y > 1970 {
        year_start(y - 1) + year_len(y - 1)
    } else {
        year_start(y + 1) - year_len(y)
    }
}

/// A day of the calendar: month 1 to 12, day within the month.
pub open spec fn is_date(y: int, m: int, d: int) -> bool {
    1 <= m <= 12 && 1 <= d <= month_len(y, m)
}

/// The day number of a date, counted from the first of January 1970.
pub open spec fn day_number(y: int, m: int, d: int) -> int {
    year_start(y) + month_start(y, m) + d - 1
}

/// The date of day number `days`.
pub open spec fn date_of(days: int) -> (int, int, int) {
    choose|t: (int, int, int)| is_date(t.0, t.1, t.2) && day_number(t.0, t.1, t.2) == days
}

/// Leap years from year 1 up to `y - 1` (below year 1, minus those from `y`
/// up to year 0).
spec fn leaps_before(y: int) -> int {
    (y - 1) / 4 - (y - 1) / 100 + (y - 1) / 400
}

proof fn lemma_div_step(y: int, d: int)
    requires
        d > 0,
    ensures
        y / d - (y - 1) / d == (if y % d == 0 { 1int } else { 0int }),
{
    lemma_fundamental_div_mod(y, d);
    lemma_mod_bound(y, d);
    let q = y / d;
    let r = y % d;
    if r == 0 {
        assert(y - 1 == (q - 1) * d + (d - 1)) by (nonlinear_arith)
            requires
                y == d * q + r,
                r == 0,
        ;
        lemma_fundamental_div_mod_converse(y - 1, d, q - 1, d - 1);
    } else {
        assert(y - 1 == q * d + (r - 1)) by (nonlinear_arith)
            requires
                y == d * q + r,
        ;
        lemma_fundamental_div_mod_converse(y - 1, d, q, r - 1);
    }
}

proof fn lemma_leaps_step(y: int)
    ensures
        leaps_before(y + 1) - leaps_before(y) == year_len(y) - 365,
{
    lemma_div_step(y, 4);
    lemma_div_step(y, 100);
    lemma_div_step(y, 400);
    lemma_fundamental_div_mod(y, 100);
    lemma_fundamental_div_mod(y, 400);
    if y % 100 == 0 {
        lemma_fundamental_div_mod_converse(y, 4, 25 * (y / 100), 0);
    }
    if y % 400 == 0 {
        lemma_fundamental_div_mod_converse(y, 100, 4 * (y / 400), 0);
    }
}

/// `year_start` in closed form.
proof fn lemma_year_start(y: int)
    ensures
        year_start(y) == 365 * (y - 1970) + leaps_before(y) - leaps_before(1970),
    decreases (if y >= 1970 { y - 1970 } else { 1970 - y }),
{
    if y > 1970 {
        lemma_year_start(y - 1);
        lemma_leaps_step(y - 1);
    } else if y < 1970 {
        lemma_year_start(y + 1);
        lemma_leaps_step(y);
    }
}

proof fn lemma_year_step(y: int)
    ensures
        year_start(y + 1) == year_start(y) + year_len(y),
{
    if y >= 1970 {
        assert(year_start(y + 1) == year_start(y) + year_len(y));
    } else {
        assert(year_start(y) == year_start(y + 1) - year_len(y));
    }
}

/// The calendar repeats every 400 years, which hold 146097 days.
proof fn lemma_cycle(q: int)
    ensures
        year_start(2000 + 400 * q) == 10957 + 146097 * q,
{
    lemma_year_start(2000 + 400 * q);
    lemma_year_start(1970);
    lemma_fundamental_div_mod_converse(1999 + 400 * q, 4, 499 + 100 * q, 3);
    lemma_fundamental_div_mod_converse(1999 + 400 * q, 100, 19 + 4 * q, 99);
    lemma_fundamental_div_mod_converse(1999 + 400 * q, 400, 4 + q, 399);
    lemma_fundamental_div_mod_converse(1969, 4, 492, 1);
    lemma_fundamental_div_mod_converse(1969, 100, 19, 69);
    lemma_fundamental_div_mod_converse(1969, 400, 4, 369);
}

proof fn lemma_leap_period(c: int, q: int)
    ensures
        leap(c + 400 * q) == leap(c),
{
    lemma_fundamental_div_mod(c, 400);
    lemma_mod_bound(c, 400);
    let a = c / 400;
    let b = c % 400;
    lemma_fundamental_div_mod_converse(c + 400 * q, 400, a + q, b);
    lemma_fundamental_div_mod(b, 4);
    lemma_fundamental_div_mod(b, 100);
    lemma_mod_bound(b, 4);
    lemma_mod_bound(b, 100);
    lemma_fundamental_div_mod_converse(c, 4, 100 * a + b / 4, b % 4);
    lemma_fundamental_div_mod_converse(c + 400 * q, 4, 100 * (a + q) + b / 4, b % 4);
    lemma_fundamental_div_mod_converse(c, 100, 4 * a + b / 100, b % 100);
    lemma_fundamental_div_mod_converse(c + 400 * q, 100, 4 * (a + q) + b / 100, b % 100);
}

proof fn lemma_months_fill_year(y: int)
    ensures
        month_start(y, 13) == year_len(y),
{
    reveal_with_fuel(month_start, 13);
}

proof fn lemma_year_order(a: int, b: int)
    requires
        a < b,
    ensures
        year_start(a) + year_len(a) <= year_start(b),
    decreases b - a,
{
    lemma_year_step(a);
    if a + 1 < b {
        lemma_year_order(a + 1, b);
        lemma_year_step(a + 1);
    }
}

proof fn lemma_month_order(y: int, a: int, b: int)
    requires
        1 <= a < b <= 13,
    ensures
        month_start(y, a) + month_len(y, a) <= month_start(y, b),
    decreases b - a,
{
    if a + 1 < b {
        lemma_month_order(y, a + 1, b);
    }
}

proof fn lemma_within_year(y: int, m: int, d: int)
    requires
        is_date(y, m, d),
    ensures
        year_start(y) <= day_number(y, m, d) < year_start(y) + year_len(y),
{
    lemma_months_fill_year(y);
    lemma_month_order(y, m, 13);
    lemma_month_start_nonnegative(y, m);
}

proof fn lemma_month_start_nonnegative(y: int, m: int)
    ensures
        month_start(y, m) >= 0,
    decreases m,
{
    if m > 1 {
        lemma_month_start_nonnegative(y, m - 1);
    }
}

/// Two dates of the calendar never share a day number: each day number names
/// one date.
pub proof fn law_one_date_per_day(y1: int, m1: int, d1: int, y2: int, m2: int, d2: int)
    requires
        is_date(y1, m1, d1),
        is_date(y2, m2, d2),
        day_number(y1, m1, d1) == day_number(y2, m2, d2),
    ensures
        y1 == y2 && m1 == m2 && d1 == d2,
{
    lemma_within_year(y1, m1, d1);
    lemma_within_year(y2, m2, d2);
    if y1 < y2 {
        lemma_year_order(y1, y2);
    } else if y2 < y1 {
        lemma_year_order(y2, y1);
    } else if m1 < m2 {
        lemma_month_order(y1, m1, m2);
    } else if m2 < m1 {
        lemma_month_order(y1, m2, m1);
    }
}

proof fn lemma_find_month(y: int, m: int, r: int)
    requires
        1 <= m <= 12,
        month_start(y, m) <= r < year_len(y),
    ensures
        exists|mm: int| #![trigger month_start(y, mm)]
            1 <= mm <= 12 && month_start(y, mm) <= r < month_start(y, mm) + month_len(y, mm),
    decreases 12 - m,
{
    if r >= month_start(y, m) + month_len(y, m) {
        if m == 12 {
            lemma_months_fill_year(y);
            assert(month_start(y, 13) == month_start(y, 12) + month_len(y, 12));
        } else {
            assert(month_start(y, m + 1) == month_start(y, m) + month_len(y, m));
            lemma_find_month(y, m + 1, r);
        }
    }
}

proof fn lemma_find_year(days: int, y: int)
    requires
        year_start(y) <= days,
    ensures
        exists|yy: int| #![trigger year_start(yy)] year_start(yy) <= days < year_start(yy) + year_len(yy),
    decreases days - year_start(y),
{
    lemma_year_step(y);
    if days >= year_start(y) + year_len(y) {
        lemma_find_year(days, y + 1);
    }
}

/// Every day number is the day number of exactly one date, and `date_of`
/// names it.
pub proof fn law_every_day_has_one_date(days: int)
    ensures
        is_date(date_of(days).0, date_of(days).1, date_of(days).2),
        day_number(date_of(days).0, date_of(days).1, date_of(days).2) == days,
{
    let t = days - 10957;
    let q = t / 146097;
    lemma_fundamental_div_mod(t, 146097);
    lemma_mod_bound(t, 146097);
    lemma_cycle(q);
    assert(year_start(2000 + 400 * q) <= days);
    lemma_find_year(days, 2000 + 400 * q);
    let y = choose|yy: int| #![trigger year_start(yy)] year_start(yy) <= days < year_start(yy) + year_len(yy);
    let r = days - year_start(y);
    lemma_find_month(y, 1, r);
    let m = choose|mm: int| #![trigger month_start(y, mm)]
        1 <= mm <= 12 && month_start(y, mm) <= r < month_start(y, mm) + month_len(y, mm);
    let w = (y, m, r - month_start(y, m) + 1);
    assert(is_date(w.0, w.1, w.2) && day_number(w.0, w.1, w.2) == days);
}

fn is_leap_year(c: u64) -> (r: bool)
    ensures
        r == leap(c as int),
{
    c % 4 == 0 && (c % 100 != 0 || c % 400 == 0)
}

fn days_in_month(leap_year: bool, m: u8) -> (r: u64)
    ensures
        forall|y: int| leap(y) == leap_year ==> r == month_len(y, m as int),
{
    if m == 2 {
        if leap_year {
            29
        } else {
            28
        }
    } else if m == 4 || m == 6 || m == 9 || m == 11 {
        30
    } else {
        31
    }
}

/// The date of day number `days` (counted from the first of January 1970).
fn civil(days: i64) -> (r: (i64, u8, u8))
    requires
        -0x8000_0000_0000 <= days <= 0x8000_0000_0000,
    ensures
        is_date(r.0 as int, r.1 as int, r.2 as int),
        day_number(r.0 as int, r.1 as int, r.2 as int) == days,
        (r.0 as int, r.1 as int, r.2 as int) == date_of(days as int),
        -0x1000_0000_0000 <= r.0 <= 0x1000_0000_0000,
{
    // Days from the first of January 2000, which starts a 400-year cycle.
    let t: i64 = days - 10957;
    let q: i64;
    let r0: u64;
    if t >= 0 {
        let a = t as u64;
        q = (a / 146097) as i64;
        r0 = a % 146097;
        proof {
            lemma_fundamental_div_mod(a as int, 146097);
        }
    } else {
        let b = (-(t + 1)) as u64;
        q = -((b / 146097) as i64) - 1;
        r0 = 146096 - b % 146097;
        proof {
            lemma_fundamental_div_mod(b as int, 146097);
        }
    }
    assert(t == 146097 * q + r0 && r0 < 146097);
    assert(-0x1_0000_0000 <= q <= 0x1_0000_0000) by (nonlinear_arith)
        requires
            t == 146097 * q + r0,
            0 <= r0 < 146097,
            -0x8000_0000_0000 - 10957 <= t <= 0x8000_0000_0000,
    ;
    let ghost y0: int = 2000 + 400 * q;
    proof {
        lemma_cycle(q as int);
        lemma_cycle(q + 1);
    }
    // The year.
    let mut k: u64 = 0;
    let mut r: u64 = r0;
    let mut leap_year = is_leap_year(2000);
    let mut len: u64 = if leap_year { 366 } else { 365 };
    proof {
        lemma_leap_period(2000, q as int);
    }
    while r >= len
        invariant
            k < 400,
            r == days - year_start(y0 + k),
            days < year_start(y0 + 400),
            leap_year == leap(y0 + k),
            len == year_len(y0 + k),
            y0 == 2000 + 400 * q,
        decreases 400 - k,
    {
        proof {
            lemma_year_step(y0 + k);
            if k + 1 == 400 {
                assert(false);
            }
        }
        r = r - len;
        k = k + 1;
        leap_year = is_leap_year(2000 + k);
        len = if leap_year { 366 } else { 365 };
        proof {
            lemma_leap_period(2000 + k, q as int);
        }
    }
    let y: i64 = 2000 + 400 * q + k as i64;
    proof {
        lemma_year_step(y as int);
        lemma_months_fill_year(y as int);
    }
    // The month.
    let mut m: u8 = 1;
    while r >= days_in_month(leap_year, m)
        invariant
            1 <= m <= 12,
            r + month_start(y as int, m as int) == days - year_start(y as int),
            days - year_start(y as int) < year_len(y as int),
            month_start(y as int, 13) == year_len(y as int),
            leap_year == leap(y as int),
        decreases 12 - m,
    {
        let len = days_in_month(leap_year, m);
        proof {
            if m == 12 {
                assert(month_start(y as int, 13) == month_start(y as int, 12) + month_len(y as int, 12));
                assert(false);
            }
        }
        r = r - len;
        m = m + 1;
    }
    let d: u8 = (r + 1) as u8;
    proof {
        let w = (y as int, m as int, d as int);
        assert(is_date(w.0, w.1, w.2) && day_number(w.0, w.1, w.2) == days);
        let c = date_of(days as int);
        law_one_date_per_day(c.0, c.1, c.2, w.0, w.1, w.2);
    }
    (y, m, d)
}

/// `s` led by zeros up to `width` characters.
pub open spec fn zero_pad(s: Seq<char>, width: nat) -> Seq<char> {
    if s.len() >= width {
        s
    } else {
        Seq::new((width - s.len()) as nat, |i: int| '0') + s
    }
}

/// A year written at least four wide, zeros after the sign.
pub open spec fn year_text(y: int) -> Seq<char> {
    if y < 0 {
        seq!['-'] + zero_pad(decimal((-y) as nat), 3)
    } else {
        zero_pad(decimal(y as nat), 4)
    }
}

/// A number below 100 in two digits.
pub open spec fn two_digits(n: int) -> Seq<char> {
    zero_pad(decimal(n as nat), 2)
}

/// `YYYY-MM-DDTHH:MM:SSZ` for a date and the seconds into its day.
pub open spec fn stamp_text(y: int, m: int, d: int, s: int) -> Seq<char> {
    year_text(y) + seq!['-'] + two_digits(m) + seq!['-'] + two_digits(d) + seq!['T']
        + two_digits(s / 3600) + seq![':'] + two_digits((s % 3600) / 60) + seq![':']
        + two_digits(s % 60) + seq!['Z']
}

/// The ISO 8601 text, in UTC, of the instant `secs` seconds after the epoch.
pub open spec fn iso8601_text(secs: int) -> Seq<char> {
    let date = date_of(secs / 86400);
    stamp_text(date.0, date.1, date.2, secs % 86400)
}

fn push_padded(out: &mut Vec<char>, n: u64, width: usize)
    requires
        width <= 4,
    ensures
        final(out)@ == old(out)@ + zero_pad(decimal(n as nat), width as nat),
{
    let digits = decimal_chars(n);
    let ghost before = out@;
    let mut i: usize = digits.len();
    while i < width
        invariant
            out@ == before + Seq::new((i - digits.len()) as nat, |j: int| '0'),
            digits@ == decimal(n as nat),
            digits.len() <= i,
            i <= width || i == digits.len(),
        decreases width - i,
    {
        out.push('0');
        i = i + 1;
        assert(out@ =~= before + Seq::new((i - digits.len()) as nat, |j: int| '0'));
    }
    let ghost zeros = out@;
    let mut j: usize = 0;
    while j < digits.len()
        invariant
            out@ == zeros + digits@.take(j as int),
            j <= digits.len(),
        decreases digits.len() - j,
    {
        out.push(digits[j]);
        j = j + 1;
        assert(out@ =~= zeros + digits@.take(j as int));
    }
    assert(digits@.take(digits.len() as int) =~= digits@);
    if digits.len() >= width {
        assert(out@ =~= old(out)@ + zero_pad(decimal(n as nat), width as nat));
    } else {
        assert(out@ =~= old(out)@ + zero_pad(decimal(n as nat), width as nat));
    }
}

/// The UTC instant `secs` seconds after 1970-01-01T00:00:00Z, written
/// `YYYY-MM-DDTHH:MM:SSZ`; the year is at least four wide and signed before
/// year 0.
pub fn iso8601(secs: i64) -> (r: String)
    ensures
        r@ == iso8601_text(secs as int),
{
    let days: i64;
    let rest: u64;
    if secs >= 0 {
        let a = secs as u64;
        days = (a / 86400) as i64;
        rest = a % 86400;
        proof {
            lemma_fundamental_div_mod(a as int, 86400);
            lemma_fundamental_div_mod_converse(secs as int, 86400, days as int, rest as int);
        }
    } else {
        let b = (-(secs + 1)) as u64;
        days = -((b / 86400) as i64) - 1;
        rest = 86399 - b % 86400;
        proof {
            lemma_fundamental_div_mod(b as int, 86400);
            lemma_fundamental_div_mod_converse(secs as int, 86400, days as int, rest as int);
        }
    }
    assert(-0x8000_0000_0000 <= days <= 0x8000_0000_0000) by (nonlinear_arith)
        requires
            secs == 86400 * days + rest,
            0 <= rest < 86400,
            i64::MIN <= secs <= i64::MAX,
    ;
    let (y, m, d) = civil(days);
    stamp(y, m, d, rest)
}

fn push_char(out: &mut Vec<char>, c: char)
    ensures
        final(out)@ == old(out)@ + seq![c],
{
    out.push(c);
    assert(out@ =~= old(out)@ + seq![c]);
}

/// The text of a date and the seconds into its day.
fn stamp(y: i64, m: u8, d: u8, rest: u64) -> (r: String)
    requires
        -0x1000_0000_0000 <= y <= 0x1000_0000_0000,
        rest < 86400,
    ensures
        r@ == stamp_text(y as int, m as int, d as int, rest as int),
{
    let mut out: Vec<char> = Vec::new();
    if y < 0 {
        out.push('-');
        push_padded(&mut out, (-y) as u64, 3);
    } else {
        push_padded(&mut out, y as u64, 4);
    }
    assert(out@ =~= year_text(y as int));
    push_char(&mut out, '-');
    push_padded(&mut out, m as u64, 2);
    push_char(&mut out, '-');
    push_padded(&mut out, d as u64, 2);
    push_char(&mut out, 'T');
    push_padded(&mut out, rest / 3600, 2);
    push_char(&mut out, ':');
    push_padded(&mut out, (rest % 3600) / 60, 2);
    push_char(&mut out, ':');
    push_padded(&mut out, rest % 60, 2);
    push_char(&mut out, 'Z');
    string_of(&out)
}

spec fn ten_pow(w: nat) -> nat
    decreases w,
{
    if w == 0 {
        1
    } else {
        10 * ten_pow((w - 1) as nat)
    }
}

spec fn sign(x: int, y: int) -> int {
    if x < y {
        -1
    } else if x > y {
        1
    } else {
        0
    }
}

proof fn lemma_decimal_len(n: nat, w: nat)
    requires
        w >= 1,
        n < ten_pow(w),
    ensures
        decimal(n).len() <= w,
    decreases n,
{
    if n >= 10 {
        assert(ten_pow(w) == 10 * ten_pow((w - 1) as nat));
        assert(n / 10 < ten_pow((w - 1) as nat)) by (nonlinear_arith)
            requires
                n < 10 * ten_pow((w - 1) as nat),
        ;
        if w == 1 {
            assert(ten_pow(0) == 1);
        } else {
            lemma_decimal_len(n / 10, (w - 1) as nat);
        }
    }
}

/// A padded number is the padded number of its tens, then its last digit.
proof fn lemma_pad_last(n: nat, w: nat)
    requires
        w >= 2,
        n < ten_pow(w),
    ensures
        zero_pad(decimal(n), w) == zero_pad(decimal(n / 10), (w - 1) as nat).push(digit(n % 10)),
        zero_pad(decimal(n), w).len() == w,
{
    assert(ten_pow(w) == 10 * ten_pow((w - 1) as nat));
    assert(n / 10 < ten_pow((w - 1) as nat)) by (nonlinear_arith)
        requires
            n < 10 * ten_pow((w - 1) as nat),
    ;
    lemma_decimal_len(n, w);
    lemma_decimal_len(n / 10, (w - 1) as nat);
    if n >= 10 {
        let t = decimal(n / 10);
        assert(decimal(n) == t.push(digit(n % 10)));
        assert(zero_pad(decimal(n), w) =~= zero_pad(t, (w - 1) as nat).push(digit(n % 10)));
    } else {
        assert(decimal(n) == seq![digit(n)]);
        assert(decimal(0) == seq![digit(0)]);
        assert(zero_pad(decimal(n), w) =~= zero_pad(decimal(0), (w - 1) as nat).push(digit(n % 10)));
    }
}

proof fn lemma_digit_order(a: nat, b: nat)
    requires
        a < 10,
        b < 10,
    ensures
        lex_sign(seq![digit(a)], seq![digit(b)]) == sign(a as int, b as int),
{
    let x = seq![digit(a)];
    let y = seq![digit(b)];
    assert(x.drop_first() =~= Seq::<char>::empty());
    assert(y.drop_first() =~= Seq::<char>::empty());
    assert(lex_sign(x.drop_first(), y.drop_first()) == 0);
}

/// Numbers padded to one width compare as text as they compare as numbers.
proof fn lemma_pad_order(a: nat, b: nat, w: nat)
    requires
        w >= 1,
        a < ten_pow(w),
        b < ten_pow(w),
    ensures
        lex_sign(zero_pad(decimal(a), w), zero_pad(decimal(b), w)) == sign(a as int, b as int),
        zero_pad(decimal(a), w).len() == w,
    decreases w,
{
    if w == 1 {
        assert(ten_pow(1) == 10 * ten_pow(0));
        assert(zero_pad(decimal(a), 1) == seq![digit(a)]);
        assert(zero_pad(decimal(b), 1) == seq![digit(b)]);
        lemma_digit_order(a, b);
    } else {
        lemma_pad_last(a, w);
        lemma_pad_last(b, w);
        let w1 = (w - 1) as nat;
        assert(ten_pow(w) == 10 * ten_pow(w1));
        assert(a / 10 < ten_pow(w1) && b / 10 < ten_pow(w1)) by (nonlinear_arith)
            requires
                a < 10 * ten_pow(w1),
                b < 10 * ten_pow(w1),
        ;
        lemma_pad_order(a / 10, b / 10, w1);
        let pa = zero_pad(decimal(a / 10), w1);
        let pb = zero_pad(decimal(b / 10), w1);
        lemma_lex_sign_concat(pa, seq![digit(a % 10)], pb, seq![digit(b % 10)]);
        assert(pa.push(digit(a % 10)) =~= pa + seq![digit(a % 10)]);
        assert(pb.push(digit(b % 10)) =~= pb + seq![digit(b % 10)]);
        lemma_digit_order(a % 10, b % 10);
        lemma_fundamental_div_mod(a as int, 10);
        lemma_fundamental_div_mod(b as int, 10);
        crate::text::lemma_lex_sign_reflexive(pa);
    }
}

proof fn lemma_field(x1: nat, x2: nat, w: nat, r1: Seq<char>, r2: Seq<char>)
    requires
        w >= 1,
        x1 < ten_pow(w),
        x2 < ten_pow(w),
    ensures
        lex_sign(zero_pad(decimal(x1), w) + r1, zero_pad(decimal(x2), w) + r2) == if x1 != x2 {
            sign(x1 as int, x2 as int)
        } else {
            lex_sign(r1, r2)
        },
{
    lemma_pad_order(x1, x2, w);
    lemma_pad_order(x2, x1, w);
    lemma_lex_sign_concat(zero_pad(decimal(x1), w), r1, zero_pad(decimal(x2), w), r2);
    if x1 != x2 && zero_pad(decimal(x1), w) == zero_pad(decimal(x2), w) {
        crate::text::lemma_lex_sign_reflexive(zero_pad(decimal(x1), w));
    }
}

proof fn lemma_sep(c: char, r1: Seq<char>, r2: Seq<char>)
    ensures
        lex_sign(seq![c] + r1, seq![c] + r2) == lex_sign(r1, r2),
{
    lemma_lex_sign_concat(seq![c], r1, seq![c], r2);
}

proof fn lemma_clock_fields(r: int)
    requires
        0 <= r < 86400,
    ensures
        0 <= r / 3600 < 24,
        0 <= (r % 3600) / 60 < 60,
        0 <= r % 60 < 60,
        r == 3600 * (r / 3600) + 60 * ((r % 3600) / 60) + r % 60,
{
    lemma_fundamental_div_mod(r, 3600);
    lemma_mod_bound(r, 3600);
    lemma_fundamental_div_mod(r % 3600, 60);
    lemma_mod_bound(r % 3600, 60);
    lemma_fundamental_div_mod(r, 60);
    lemma_mod_bound(r, 60);
    assert(0 <= r / 3600 < 24) by (nonlinear_arith)
        requires
            r == 3600 * (r / 3600) + r % 3600,
            0 <= r % 3600 < 3600,
            0 <= r < 86400,
    ;
    assert(0 <= (r % 3600) / 60 < 60) by (nonlinear_arith)
        requires
            r % 3600 == 60 * ((r % 3600) / 60) + (r % 3600) % 60,
            0 <= (r % 3600) % 60 < 60,
            0 <= r % 3600 < 3600,
    ;
    lemma_fundamental_div_mod_converse(r, 60, 60 * (r / 3600) + (r % 3600) / 60, (r % 3600) % 60);
}

/// The text of a time of day, from the hour on.
spec fn clock_text(r: int) -> Seq<char> {
    two_digits(r / 3600) + (seq![':'] + (two_digits((r % 3600) / 60) + (seq![':'] + (two_digits(r % 60)
        + seq!['Z']))))
}

proof fn lemma_clock_order(r1: int, r2: int)
    requires
        0 <= r1 < 86400,
        0 <= r2 < 86400,
    ensures
        lex_sign(clock_text(r1), clock_text(r2)) == sign(r1, r2),
{
    reveal_with_fuel(ten_pow, 3);
    lemma_clock_fields(r1);
    lemma_clock_fields(r2);
    let z1 = two_digits(r1 % 60) + seq!['Z'];
    let z2 = two_digits(r2 % 60) + seq!['Z'];
    let n1 = two_digits((r1 % 3600) / 60) + (seq![':'] + z1);
    let n2 = two_digits((r2 % 3600) / 60) + (seq![':'] + z2);
    lemma_field((r1 % 60) as nat, (r2 % 60) as nat, 2, seq!['Z'], seq!['Z']);
    crate::text::lemma_lex_sign_reflexive(seq!['Z']);
    lemma_sep(':', z1, z2);
    lemma_field(((r1 % 3600) / 60) as nat, ((r2 % 3600) / 60) as nat, 2, seq![':'] + z1, seq![':'] + z2);
    lemma_sep(':', n1, n2);
    lemma_field((r1 / 3600) as nat, (r2 / 3600) as nat, 2, seq![':'] + n1, seq![':'] + n2);
    assert(sign(r1, r2) == if r1 / 3600 != r2 / 3600 {
        sign(r1 / 3600, r2 / 3600)
    } else if (r1 % 3600) / 60 != (r2 % 3600) / 60 {
        sign((r1 % 3600) / 60, (r2 % 3600) / 60)
    } else {
        sign(r1 % 60, r2 % 60)
    }) by (nonlinear_arith)
        requires
            r1 == 3600 * (r1 / 3600) + 60 * ((r1 % 3600) / 60) + r1 % 60,
            r2 == 3600 * (r2 / 3600) + 60 * ((r2 % 3600) / 60) + r2 % 60,
            0 <= (r1 % 3600) / 60 < 60,
            0 <= r1 % 60 < 60,
            0 <= (r2 % 3600) / 60 < 60,
            0 <= r2 % 60 < 60,
    ;
}

proof fn lemma_regroup(
    p0: Seq<char>,
    p1: Seq<char>,
    p2: Seq<char>,
    p3: Seq<char>,
    p4: Seq<char>,
    p5: Seq<char>,
    p6: Seq<char>,
    p7: Seq<char>,
    p8: Seq<char>,
    p9: Seq<char>,
    p10: Seq<char>,
    p11: Seq<char>,
)
    ensures
        p0 + p1 + p2 + p3 + p4 + p5 + p6 + p7 + p8 + p9 + p10 + p11 == p0 + (
        p1 + (p2 + (p3 + (p4 + (p5 + (p6 + (p7 + (p8 + (p9 + (p10
            + p11)))))))))),
{
    let r10 = p10 + p11;
    let r9 = p9 + r10;
    let r8 = p8 + r9;
    let r7 = p7 + r8;
    let r6 = p6 + r7;
    let r5 = p5 + r6;
    let r4 = p4 + r5;
    let r3 = p3 + r4;
    let r2 = p2 + r3;
    let r1 = p1 + r2;
    let l1 = p0 + p1;
    let l2 = l1 + p2;
    let l3 = l2 + p3;
    let l4 = l3 + p4;
    let l5 = l4 + p5;
    let l6 = l5 + p6;
    let l7 = l6 + p7;
    let l8 = l7 + p8;
    let l9 = l8 + p9;
    let l10 = l9 + p10;
    vstd::seq_lib::lemma_concat_associative(l9, p10, p11);
    vstd::seq_lib::lemma_concat_associative(l8, p9, r10);
    vstd::seq_lib::lemma_concat_associative(l7, p8, r9);
    vstd::seq_lib::lemma_concat_associative(l6, p7, r8);
    vstd::seq_lib::lemma_concat_associative(l5, p6, r7);
    vstd::seq_lib::lemma_concat_associative(l4, p5, r6);
    vstd::seq_lib::lemma_concat_associative(l3, p4, r5);
    vstd::seq_lib::lemma_concat_associative(l2, p3, r4);
    vstd::seq_lib::lemma_concat_associative(l1, p2, r3);
    vstd::seq_lib::lemma_concat_associative(p0, p1, r2);
}

proof fn lemma_stamp_shape(y: int, m: int, d: int, r: int)
    ensures
        stamp_text(y, m, d, r) == year_text(y) + (seq!['-'] + (two_digits(m) + (seq!['-'] + (
        two_digits(d) + (seq!['T'] + clock_text(r)))))),
{
    lemma_regroup(
        year_text(y),
        seq!['-'],
        two_digits(m),
        seq!['-'],
        two_digits(d),
        seq!['T'],
        two_digits(r / 3600),
        seq![':'],
        two_digits((r % 3600) / 60),
        seq![':'],
        two_digits(r % 60),
        seq!['Z'],
    );
}

proof fn lemma_stamp_order(y1: int, m1: int, d1: int, r1: int, y2: int, m2: int, d2: int, r2: int)
    requires
        0 <= y1 <= 9999,
        0 <= y2 <= 9999,
        1 <= m1 <= 12,
        1 <= m2 <= 12,
        1 <= d1 <= 31,
        1 <= d2 <= 31,
        0 <= r1 < 86400,
        0 <= r2 < 86400,
    ensures
        lex_sign(stamp_text(y1, m1, d1, r1), stamp_text(y2, m2, d2, r2)) == if y1 != y2 {
            sign(y1, y2)
        } else if m1 != m2 {
            sign(m1, m2)
        } else if d1 != d2 {
            sign(d1, d2)
        } else {
            sign(r1, r2)
        },
{
    reveal_with_fuel(ten_pow, 5);
    let c1 = clock_text(r1);
    let c2 = clock_text(r2);
    let e1 = two_digits(d1) + (seq!['T'] + c1);
    let e2 = two_digits(d2) + (seq!['T'] + c2);
    let o1 = two_digits(m1) + (seq!['-'] + e1);
    let o2 = two_digits(m2) + (seq!['-'] + e2);
    lemma_stamp_shape(y1, m1, d1, r1);
    lemma_stamp_shape(y2, m2, d2, r2);
    lemma_clock_order(r1, r2);
    lemma_sep('T', c1, c2);
    lemma_field(d1 as nat, d2 as nat, 2, seq!['T'] + c1, seq!['T'] + c2);
    lemma_sep('-', e1, e2);
    lemma_field(m1 as nat, m2 as nat, 2, seq!['-'] + e1, seq!['-'] + e2);
    lemma_sep('-', o1, o2);
    lemma_field(y1 as nat, y2 as nat, 4, seq!['-'] + o1, seq!['-'] + o2);
}

proof fn lemma_four_digit_years(days: int)
    requires
        -719528 <= days < 2932897,
    ensures
        0 <= date_of(days).0 <= 9999,
{
    law_every_day_has_one_date(days);
    let date = date_of(days);
    lemma_within_year(date.0, date.1, date.2);
    lemma_cycle(-5);
    lemma_cycle(20);
    if date.0 < 0 {
        lemma_year_order(date.0, 0);
    }
    if date.0 > 9999 {
        lemma_year_order(10000, date.0);
        lemma_year_step(10000);
    }
}

/// Later days have later dates.
proof fn lemma_date_order(days1: int, days2: int)
    requires
        days1 < days2,
    ensures
        ({
            let (y1, m1, d1) = date_of(days1);
            let (y2, m2, d2) = date_of(days2);
            y1 < y2 || (y1 == y2 && (m1 < m2 || (m1 == m2 && d1 < d2)))
        }),
{
    law_every_day_has_one_date(days1);
    law_every_day_has_one_date(days2);
    let (y1, m1, d1) = date_of(days1);
    let (y2, m2, d2) = date_of(days2);
    lemma_within_year(y1, m1, d1);
    lemma_within_year(y2, m2, d2);
    if y2 < y1 {
        lemma_year_order(y2, y1);
    } else if y2 == y1 && m2 < m1 {
        lemma_month_order(y1, m2, m1);
    }
}

/// Stamps sort as text in the order of the instants they name, for the
/// years 0000 to 9999 that are written with four digits.
pub proof fn law_stamps_sort_in_time_order(s1: int, s2: int)
    requires
        -62167219200 <= s1 < s2 < 253402300800,
    ensures
        lex_sign(iso8601_text(s1), iso8601_text(s2)) == -1,
{
    let days1 = s1 / 86400;
    let days2 = s2 / 86400;
    let r1 = s1 % 86400;
    let r2 = s2 % 86400;
    lemma_fundamental_div_mod(s1, 86400);
    lemma_fundamental_div_mod(s2, 86400);
    lemma_mod_bound(s1, 86400);
    lemma_mod_bound(s2, 86400);
    assert(-719528 <= days1 <= days2 < 2932897 && (days1 < days2 || r1 < r2)) by (nonlinear_arith)
        requires
            s1 == 86400 * days1 + r1,
            s2 == 86400 * days2 + r2,
            0 <= r1 < 86400,
            0 <= r2 < 86400,
            -62167219200 <= s1 < s2 < 253402300800,
    ;
    lemma_four_digit_years(days1);
    lemma_four_digit_years(days2);
    law_every_day_has_one_date(days1);
    law_every_day_has_one_date(days2);
    let (y1, m1, d1) = date_of(days1);
    let (y2, m2, d2) = date_of(days2);
    if days1 < days2 {
        lemma_date_order(days1, days2);
    }
    lemma_stamp_order(y1, m1, d1, r1, y2, m2, d2, r2);
}

proof fn lemma_decimal_digits(n: nat)
    ensures
        forall|i: int| 0 <= i < decimal(n).len() ==> '0' <= #[trigger] decimal(n)[i] <= '9',
    decreases n,
{
    if n >= 10 {
        lemma_decimal_digits(n / 10);
        let t = decimal(n / 10);
        assert(decimal(n) == t.push(digit(n % 10)));
        assert forall|i: int| 0 <= i < decimal(n).len() implies '0' <= #[trigger] decimal(n)[i] <= '9' by {
            if i < t.len() {
                assert(decimal(n)[i] == t[i]);
            }
        }
    }
}

proof fn lemma_no_colon_in_number(n: nat, w: nat)
    ensures
        replace(zero_pad(decimal(n), w), seq![':'], Seq::empty()) == zero_pad(decimal(n), w),
{
    lemma_decimal_digits(n);
    let p = zero_pad(decimal(n), w);
    assert forall|i: int| 0 <= i < p.len() implies p[i] != ':' by {
        if decimal(n).len() < w {
            let z = (w - decimal(n).len()) as nat;
            if i >= z {
                assert(p[i] == decimal(n)[i - z]);
            }
        }
    }
    lemma_drop_absent_char(p, ':');
}

/// The time of day with its colons dropped.
spec fn compact_clock(r: int) -> Seq<char> {
    two_digits(r / 3600) + (two_digits((r % 3600) / 60) + (two_digits(r % 60) + seq!['Z']))
}

/// A stamp with its colons dropped, as a snapshot's file name holds it.
pub open spec fn compact_stamp(secs: int) -> Seq<char> {
    replace(iso8601_text(secs), seq![':'], Seq::empty())
}

proof fn lemma_compact_shape(y: int, m: int, d: int, r: int)
    requires
        0 <= y,
        0 <= m,
        0 <= d,
        0 <= r < 86400,
    ensures
        replace(stamp_text(y, m, d, r), seq![':'], Seq::empty()) == year_text(y) + (seq!['-'] + (
        two_digits(m) + (seq!['-'] + (two_digits(d) + (seq!['T'] + compact_clock(r)))))),
{
    let e = Seq::<char>::empty();
    let c = seq![':'];
    lemma_clock_fields(r);
    lemma_stamp_shape(y, m, d, r);
    let z = two_digits(r % 60) + seq!['Z'];
    let n = two_digits((r % 3600) / 60) + (seq![':'] + z);
    lemma_no_colon_in_number((r % 60) as nat, 2);
    lemma_no_colon_in_number(((r % 3600) / 60) as nat, 2);
    lemma_no_colon_in_number((r / 3600) as nat, 2);
    lemma_no_colon_in_number(d as nat, 2);
    lemma_no_colon_in_number(m as nat, 2);
    lemma_no_colon_in_number(y as nat, 4);
    lemma_drop_absent_char(seq!['Z'], ':');
    lemma_drop_absent_char(seq!['-'], ':');
    lemma_drop_absent_char(seq!['T'], ':');
    assert(replace(c, c, e) =~= e) by {
        reveal_with_fuel(replace, 2);
        assert(c.take(1) =~= c);
        assert(c.skip(1) =~= e);
    }
    lemma_drop_char_concat(two_digits(r % 60), seq!['Z'], ':');
    lemma_drop_char_concat(c, z, ':');
    assert(e + replace(z, c, e) =~= replace(z, c, e));
    lemma_drop_char_concat(two_digits((r % 3600) / 60), c + z, ':');
    lemma_drop_char_concat(c, n, ':');
    assert(e + replace(n, c, e) =~= replace(n, c, e));
    lemma_drop_char_concat(two_digits(r / 3600), c + n, ':');
    let ct = clock_text(r);
    let et = two_digits(d) + (seq!['T'] + ct);
    let ot = two_digits(m) + (seq!['-'] + et);
    lemma_drop_char_concat(seq!['T'], ct, ':');
    lemma_drop_char_concat(two_digits(d), seq!['T'] + ct, ':');
    lemma_drop_char_concat(seq!['-'], et, ':');
    lemma_drop_char_concat(two_digits(m), seq!['-'] + et, ':');
    lemma_drop_char_concat(seq!['-'], ot, ':');
    lemma_drop_char_concat(year_text(y), seq!['-'] + ot, ':');
}

proof fn lemma_compact_clock_order(r1: int, r2: int)
    requires
        0 <= r1 < 86400,
        0 <= r2 < 86400,
    ensures
        lex_sign(compact_clock(r1), compact_clock(r2)) == sign(r1, r2),
        compact_clock(r1).len() == 7,
{
    reveal_with_fuel(ten_pow, 3);
    lemma_clock_fields(r1);
    lemma_clock_fields(r2);
    let z1 = two_digits(r1 % 60) + seq!['Z'];
    let z2 = two_digits(r2 % 60) + seq!['Z'];
    let n1 = two_digits((r1 % 3600) / 60) + z1;
    let n2 = two_digits((r2 % 3600) / 60) + z2;
    lemma_pad_order((r1 % 60) as nat, (r1 % 60) as nat, 2);
    lemma_pad_order(((r1 % 3600) / 60) as nat, ((r1 % 3600) / 60) as nat, 2);
    lemma_pad_order((r1 / 3600) as nat, (r1 / 3600) as nat, 2);
    lemma_field((r1 % 60) as nat, (r2 % 60) as nat, 2, seq!['Z'], seq!['Z']);
    crate::text::lemma_lex_sign_reflexive(seq!['Z']);
    lemma_field(((r1 % 3600) / 60) as nat, ((r2 % 3600) / 60) as nat, 2, z1, z2);
    lemma_field((r1 / 3600) as nat, (r2 / 3600) as nat, 2, n1, n2);
    assert(sign(r1, r2) == if r1 / 3600 != r2 / 3600 {
        sign(r1 / 3600, r2 / 3600)
    } else if (r1 % 3600) / 60 != (r2 % 3600) / 60 {
        sign((r1 % 3600) / 60, (r2 % 3600) / 60)
    } else {
        sign(r1 % 60, r2 % 60)
    }) by (nonlinear_arith)
        requires
            r1 == 3600 * (r1 / 3600) + 60 * ((r1 % 3600) / 60) + r1 % 60,
            r2 == 3600 * (r2 / 3600) + 60 * ((r2 % 3600) / 60) + r2 % 60,
            0 <= (r1 % 3600) / 60 < 60,
            0 <= r1 % 60 < 60,
            0 <= (r2 % 3600) / 60 < 60,
            0 <= r2 % 60 < 60,
    ;
}

proof fn lemma_compact_order(y1: int, m1: int, d1: int, r1: int, y2: int, m2: int, d2: int, r2: int)
    requires
        0 <= y1 <= 9999,
        0 <= y2 <= 9999,
        1 <= m1 <= 12,
        1 <= m2 <= 12,
        1 <= d1 <= 31,
        1 <= d2 <= 31,
        0 <= r1 < 86400,
        0 <= r2 < 86400,
    ensures
        lex_sign(
            replace(stamp_text(y1, m1, d1, r1), seq![':'], Seq::empty()),
            replace(stamp_text(y2, m2, d2, r2), seq![':'], Seq::empty()),
        ) == if y1 != y2 {
            sign(y1, y2)
        } else if m1 != m2 {
            sign(m1, m2)
        } else if d1 != d2 {
            sign(d1, d2)
        } else {
            sign(r1, r2)
        },
        replace(stamp_text(y1, m1, d1, r1), seq![':'], Seq::empty()).len() == 18,
{
    reveal_with_fuel(ten_pow, 5);
    let c1 = compact_clock(r1);
    let c2 = compact_clock(r2);
    let e1 = two_digits(d1) + (seq!['T'] + c1);
    let e2 = two_digits(d2) + (seq!['T'] + c2);
    let o1 = two_digits(m1) + (seq!['-'] + e1);
    let o2 = two_digits(m2) + (seq!['-'] + e2);
    lemma_compact_shape(y1, m1, d1, r1);
    lemma_compact_shape(y2, m2, d2, r2);
    lemma_compact_clock_order(r1, r2);
    lemma_pad_order(y1 as nat, y1 as nat, 4);
    lemma_pad_order(m1 as nat, m1 as nat, 2);
    lemma_pad_order(d1 as nat, d1 as nat, 2);
    lemma_sep('T', c1, c2);
    lemma_field(d1 as nat, d2 as nat, 2, seq!['T'] + c1, seq!['T'] + c2);
    lemma_sep('-', e1, e2);
    lemma_field(m1 as nat, m2 as nat, 2, seq!['-'] + e1, seq!['-'] + e2);
    lemma_sep('-', o1, o2);
    lemma_field(y1 as nat, y2 as nat, 4, seq!['-'] + o1, seq!['-'] + o2);
}

/// Stamps with their colons dropped still sort in time order, for the years
/// 0000 to 9999, and all have the same length.
pub proof fn law_compact_stamps_sort_in_time_order(s1: int, s2: int)
    requires
        -62167219200 <= s1 < s2 < 253402300800,
    ensures
        lex_sign(compact_stamp(s1), compact_stamp(s2)) == -1,
        compact_stamp(s1).len() == compact_stamp(s2).len(),
{
    let days1 = s1 / 86400;
    let days2 = s2 / 86400;
    let r1 = s1 % 86400;
    let r2 = s2 % 86400;
    lemma_fundamental_div_mod(s1, 86400);
    lemma_fundamental_div_mod(s2, 86400);
    lemma_mod_bound(s1, 86400);
    lemma_mod_bound(s2, 86400);
    assert(-719528 <= days1 <= days2 < 2932897 && (days1 < days2 || r1 < r2)) by (nonlinear_arith)
        requires
            s1 == 86400 * days1 + r1,
            s2 == 86400 * days2 + r2,
            0 <= r1 < 86400,
            0 <= r2 < 86400,
            -62167219200 <= s1 < s2 < 253402300800,
    ;
    lemma_four_digit_years(days1);
    lemma_four_digit_years(days2);
    law_every_day_has_one_date(days1);
    law_every_day_has_one_date(days2);
    let (y1, m1, d1) = date_of(days1);
    let (y2, m2, d2) = date_of(days2);
    if days1 < days2 {
        lemma_date_order(days1, days2);
    }
    lemma_compact_order(y1, m1, d1, r1, y2, m2, d2, r2);
    lemma_compact_order(y2, m2, d2, r2, y1, m1, d1, r1);
}

} // verus!
