//! UTC calendar stamps (`YYYYMMDD-HHMMSS`) for trash folder names.

use vstd::prelude::*;
use crate::text::{dec_digits, digit_char, lemma_dec_digits_at_most, padded, pow10, push_char, push_padded, zero_pad};

verus! {

pub const SECS_PER_DAY: i64 = 86_400;

/// Gregorian leap year.
pub open spec fn is_leap(y: int) -> bool {
    (y % 4 == 0 && y % 100 != 0) || y % 400 == 0
}

pub open spec fn year_len(y: int) -> int {
    if is_leap(y) {
        366
    } else {
        365
    }
}

pub open spec fn month_len(y: int, m: int) -> int {
    if m == 2 {
        if is_leap(y) {
            29
        } else {
            28
        }
    } else if m == 4 || m == 6 || m == 9 || m == 11 {
        30
    } else {
        31
    }
}

/// Days from 1970-01-01 to the first day of year `y` (negative for years before 1970).
pub open spec fn days_before_year(y: int) -> int
    decreases (if y >= 1970 { y - 1970 } else { 1970 - y }),
{
    if y == 1970 {
        0
    } else if y > 1970 {
        days_before_year(y - 1) + year_len(y - 1)
    } else {
        days_before_year(y + 1) - year_len(y)
    }
}

/// Days from the first of January of year `y` to the first day of month `m`.
pub open spec fn days_before_month(y: int, m: int) -> int
    decreases m,
{
    if m <= 1 {
        0
    } else {
        days_before_month(y, m - 1) + month_len(y, m - 1)
    }
}

/// Day number (days since 1970-01-01) of the date `y-m-d`.
pub open spec fn days_from_civil(y: int, m: int, d: int) -> int {
    days_before_year(y) + days_before_month(y, m) + d - 1
}

/// Whole years counted off from `y` onward: the year that day `days` (counted from the first
/// of January of `y`) falls in, and the day within that year.
pub open spec fn year_walk(days: int, y: int) -> (int, int)
    decreases days,
{
    if days < year_len(y) {
        (y, days)
    } else {
        year_walk(days - year_len(y), y + 1)
    }
}

/// Whole months counted off from month `m` onward within year `y`.
pub open spec fn month_walk(y: int, days: int, m: int) -> (int, int)
    decreases 12 - m,
{
    if m >= 12 || days < month_len(y, m) {
        (m, days)
    } else {
        month_walk(y, days - month_len(y, m), m + 1)
    }
}

/// Whole years counted back from the first of January of `y` while `days` (counted from
/// that day) is negative; from there on, `year_walk`.
pub open spec fn year_walk_back(days: int, y: int) -> (int, int)
    decreases (if days < 0 { -days } else { 0 }),
{
    if days >= 0 {
        year_walk(days, y)
    } else {
        year_walk_back(days + year_len(y - 1), y - 1)
    }
}

/// Calendar date (year, month, day of month) of day number `days` (days since 1970-01-01,
/// negative before it) in the proleptic Gregorian calendar.
pub open spec fn civil_of(days: int) -> (int, int, int) {
    let (y, rest) = year_walk_back(days, 1970);
    let (m, dd) = month_walk(y, rest, 1);
    (y, m, dd + 1)
}

/// Day number of the instant `now` (seconds since the epoch), rounding toward minus infinity.
pub open spec fn day_number(now: int) -> int {
    now / 86400
}

/// Seconds since midnight of the instant `now`.
pub open spec fn second_of_day(now: int) -> int {
    now % 86400
}

/// The stamp `YYYYMMDD-HHMMSS` (UTC) of `now`, each field formatted as `{:04}` / `{:02}` do.
pub open spec fn unix_stamp(now: int) -> Seq<char> {
    let (y, m, d) = civil_of(day_number(now));
    let s = second_of_day(now);
    padded(y, 4) + padded(m, 2) + padded(d, 2) + seq!['-'] + padded(s / 3600, 2) + padded(
        (s % 3600) / 60,
        2,
    ) + padded(s % 60, 2)
}

fn divisible(y: i64, k: i64) -> (r: bool)
    requires
        k > 0,
    ensures
        r == (y as int % k as int == 0),
{
    y.checked_rem_euclid(k).unwrap() == 0
}

fn year_length(y: i64) -> (r: i64)
    ensures
        r == year_len(y as int),
{
    if (divisible(y, 4) && !divisible(y, 100)) || divisible(y, 400) {
        366
    } else {
        365
    }
}

fn month_length(y: i64, m: i64) -> (r: i64)
    ensures
        r == month_len(y as int, m as int),
{
    if m == 2 {
        if year_length(y) == 366 {
            29
        } else {
            28
        }
    } else if m == 4 || m == 6 || m == 9 || m == 11 {
        30
    } else {
        31
    }
}

/// Converts a day number into its calendar date (see `civil_of`).
pub fn civil_from_days(days: i64) -> (r: (i64, i64, i64))
    ensures
        (r.0 as int, r.1 as int, r.2 as int) == civil_of(days as int),
        r.0 > i64::MIN,
        1 <= r.1 <= 12,
        1 <= r.2,
{
    let mut y: i64 = 1970;
    let mut rest: i64 = days;
    while rest < 0
        invariant
            y <= 1970,
            days <= rest,
            (1970 - y) * 365 <= rest - days,
            year_walk_back(days as int, 1970) == year_walk_back(rest as int, y as int),
        decreases (if rest < 0 { 0 - rest } else { 0 }),
    {
        y = y - 1;
        rest = rest + year_length(y);
    }
    assert(year_walk_back(days as int, 1970) == year_walk(rest as int, y as int));
    let ghost y0: int = y as int;
    let ghost rest0: int = rest as int;
    while rest >= year_length(y)
        invariant
            y0 <= y,
            y0 <= 1970,
            y0 > i64::MIN + 1,
            0 <= rest <= rest0,
            rest0 <= i64::MAX,
            (y - y0) * 365 <= rest0 - rest,
            year_walk(rest0, y0) == year_walk(rest as int, y as int),
        decreases rest,
    {
        rest = rest - year_length(y);
        y = y + 1;
    }
    assert(year_walk_back(days as int, 1970) == (y as int, rest as int));
    let mut m: i64 = 1;
    while m < 12 && rest >= month_length(y, m)
        invariant
            1 <= m <= 12,
            0 <= rest < 366,
            month_walk(y as int, year_walk_back(days as int, 1970).1, 1) == month_walk(y as int, rest as int, m as int),
        decreases 12 - m,
    {
        rest = rest - month_length(y, m);
        m = m + 1;
    }
    (y, m, rest + 1)
}

/// Formats `now` (seconds since the Unix epoch) as `YYYYMMDD-HHMMSS` in UTC.
pub fn format_unix(now: i64) -> (r: String)
    ensures
        r@ == unix_stamp(now as int),
{
    let secs_in_day: i64 = now.checked_rem_euclid(SECS_PER_DAY).unwrap();
    let days: i64 = now.checked_div_euclid(SECS_PER_DAY).unwrap();
    let (y, m, d) = civil_from_days(days);
    let h = secs_in_day / 3600;
    let mi = (secs_in_day % 3600) / 60;
    let s = secs_in_day % 60;
    let mut out = String::new();
    push_padded(&mut out, y, 4);
    push_padded(&mut out, m, 2);
    push_padded(&mut out, d, 2);
    push_char(&mut out, '-');
    push_padded(&mut out, h, 2);
    push_padded(&mut out, mi, 2);
    push_padded(&mut out, s, 2);
    assert(out@ =~= unix_stamp(now as int));
    out
}

} // verus!

verus! {

proof fn lemma_year_len_bounds(y: int)
    ensures
        365 <= year_len(y) <= 366,
{
}

proof fn lemma_year_step(y: int)
    ensures
        days_before_year(y) == days_before_year(y - 1) + year_len(y - 1),
{
}

proof fn lemma_year_walk_valid(days: int, y: int)
    requires
        days >= 0,
    ensures
        year_walk(days, y).0 >= y,
        0 <= year_walk(days, y).1 < year_len(year_walk(days, y).0),
        days_before_year(year_walk(days, y).0) - days_before_year(y) + year_walk(days, y).1 == days,
    decreases days,
{
    if days >= year_len(y) {
        lemma_year_walk_valid(days - year_len(y), y + 1);
        lemma_year_step(y + 1);
    }
}

proof fn lemma_year_walk_back_valid(days: int, y: int)
    ensures
        0 <= year_walk_back(days, y).1 < year_len(year_walk_back(days, y).0),
        days_before_year(year_walk_back(days, y).0) - days_before_year(y) + year_walk_back(days, y).1 == days,
    decreases (if days < 0 { -days } else { 0 }),
{
    if days >= 0 {
        lemma_year_walk_valid(days, y);
    } else {
        lemma_year_walk_back_valid(days + year_len(y - 1), y - 1);
        lemma_year_step(y);
    }
}

proof fn lemma_months_fill_year(y: int)
    ensures
        days_before_month(y, 13) == year_len(y),
{
    assert(days_before_month(y, 1) == 0);
    assert(days_before_month(y, 2) == 31);
    assert(days_before_month(y, 3) == 31 + month_len(y, 2));
    assert(days_before_month(y, 4) == 62 + month_len(y, 2));
    assert(days_before_month(y, 5) == 92 + month_len(y, 2));
    assert(days_before_month(y, 6) == 123 + month_len(y, 2));
    assert(days_before_month(y, 7) == 153 + month_len(y, 2));
    assert(days_before_month(y, 8) == 184 + month_len(y, 2));
    assert(days_before_month(y, 9) == 215 + month_len(y, 2));
    assert(days_before_month(y, 10) == 245 + month_len(y, 2));
    assert(days_before_month(y, 11) == 276 + month_len(y, 2));
    assert(days_before_month(y, 12) == 306 + month_len(y, 2));
    assert(days_before_month(y, 13) == 337 + month_len(y, 2));
}

proof fn lemma_month_walk_valid(y: int, days: int, m: int)
    requires
        1 <= m <= 12,
        0 <= days,
        days_before_month(y, m) + days < days_before_month(y, 13),
    ensures
        m <= month_walk(y, days, m).0 <= 12,
        0 <= month_walk(y, days, m).1 < month_len(y, month_walk(y, days, m).0),
        days_before_month(y, month_walk(y, days, m).0) + month_walk(y, days, m).1 == days_before_month(y, m) + days,
    decreases 12 - m,
{
    if m < 12 && days >= month_len(y, m) {
        lemma_month_walk_valid(y, days - month_len(y, m), m + 1);
    } else if m == 12 {
        assert(days_before_month(y, 13) == days_before_month(y, 12) + month_len(y, 12));
    }
}

/// For every day number, `civil_of` gives a real calendar date (month 1..=12, day within the
/// month's length) whose day number is the day itself.
pub proof fn law_civil_of_is_valid_date(days: int)
    ensures
        1 <= civil_of(days).1 <= 12,
        1 <= civil_of(days).2 <= month_len(civil_of(days).0, civil_of(days).1),
        days_from_civil(civil_of(days).0, civil_of(days).1, civil_of(days).2) == days,
{
    lemma_year_walk_back_valid(days, 1970);
    let (y, rest) = year_walk_back(days, 1970);
    lemma_months_fill_year(y);
    lemma_month_walk_valid(y, rest, 1);
}

proof fn lemma_years_increase(a: int, b: int)
    requires
        a < b,
    ensures
        days_before_year(b) >= days_before_year(a) + year_len(a),
    decreases b - a,
{
    lemma_year_step(b);
    if b > a + 1 {
        lemma_years_increase(a, b - 1);
        lemma_year_len_bounds(b - 1);
    }
}

proof fn lemma_months_increase(y: int, a: int, b: int)
    requires
        1 <= a < b,
    ensures
        days_before_month(y, b) >= days_before_month(y, a) + month_len(y, a),
    decreases b - a,
{
    if b > a + 1 {
        lemma_months_increase(y, a, b - 1);
    }
}

proof fn lemma_day_of_year_bound(y: int, m: int, d: int)
    requires
        1 <= m <= 12,
        1 <= d <= month_len(y, m),
    ensures
        0 <= days_before_month(y, m) + d - 1 < year_len(y),
{
    lemma_months_fill_year(y);
    if m < 12 {
        lemma_months_increase(y, m, 13);
    } else {
        assert(days_before_month(y, 13) == days_before_month(y, 12) + month_len(y, 12));
    }
    assert(days_before_month(y, m) >= 0) by {
        lemma_month_prefix_nonneg(y, m);
    }
}

proof fn lemma_month_prefix_nonneg(y: int, m: int)
    ensures
        days_before_month(y, m) >= 0,
    decreases m,
{
    if m > 1 {
        lemma_month_prefix_nonneg(y, m - 1);
    }
}

/// Two calendar dates with the same day number are the same date, so the date that
/// `civil_of` gives is the only one with that day number.
pub proof fn law_civil_date_unique(y1: int, m1: int, d1: int, y2: int, m2: int, d2: int)
    requires
        1 <= m1 <= 12,
        1 <= m2 <= 12,
        1 <= d1 <= month_len(y1, m1),
        1 <= d2 <= month_len(y2, m2),
        days_from_civil(y1, m1, d1) == days_from_civil(y2, m2, d2),
    ensures
        y1 == y2,
        m1 == m2,
        d1 == d2,
{
    lemma_day_of_year_bound(y1, m1, d1);
    lemma_day_of_year_bound(y2, m2, d2);
    if y1 < y2 {
        lemma_years_increase(y1, y2);
    } else if y2 < y1 {
        lemma_years_increase(y2, y1);
    }
    assert(y1 == y2);
    if m1 < m2 {
        lemma_months_increase(y1, m1, m2);
    } else if m2 < m1 {
        lemma_months_increase(y1, m2, m1);
    }
}

// ---------------------------------------------------------------------------------------
// Later seconds give later stamps
// ---------------------------------------------------------------------------------------

/// Of two texts of one length, `x` sorts before `y`: at the first character where they
/// differ, `x` has the smaller one.
pub open spec fn sorts_before(x: Seq<char>, y: Seq<char>) -> bool {
    x.len() == y.len() && exists|k: int|
        0 <= k < x.len() && #[trigger] x.take(k) == y.take(k) && (x[k] as u32) < (y[k] as u32)
}

/// The last `w` decimal digits of `v`, most significant first.
pub open spec fn fixed_digits(v: nat, w: nat) -> Seq<char>
    decreases w,
{
    if w == 0 {
        Seq::empty()
    } else {
        fixed_digits(v / 10, (w - 1) as nat).push(digit_char(v % 10))
    }
}

proof fn lemma_fixed_zero(k: nat)
    ensures
        fixed_digits(0, k) =~= Seq::new(k, |i: int| '0'),
    decreases k,
{
    if k > 0 {
        lemma_fixed_zero((k - 1) as nat);
        assert(digit_char(0) == '0');
    }
}

proof fn lemma_fixed_len(v: nat, w: nat)
    ensures
        fixed_digits(v, w).len() == w,
    decreases w,
{
    if w > 0 {
        lemma_fixed_len(v / 10, (w - 1) as nat);
    }
}

/// A value below `10^w` is padded to exactly its `w` last digits.
proof fn lemma_padded_fixed(v: nat, w: nat)
    requires
        1 <= w,
        v < pow10(w),
    ensures
        padded(v as int, w) == fixed_digits(v, w),
    decreases w,
{
    if v < 10 {
        lemma_fixed_zero((w - 1) as nat);
        assert(v / 10 == 0);
        assert(v % 10 == v);
        assert(dec_digits(v) == seq![digit_char(v)]);
        assert(zero_pad(dec_digits(v), w) =~= fixed_digits(v, w));
    } else {
        assert(w >= 2) by {
            if w == 1 {
                assert(pow10(1) == 10 * pow10(0));
            }
        }
        let q = v / 10;
        let pw = pow10((w - 1) as nat);
        assert(pow10(w) == 10 * pw);
        assert(q < pw) by (nonlinear_arith)
            requires
                v < 10 * pw,
                q == v / 10,
        ;
        lemma_dec_digits_at_most(q, (w - 1) as nat);
        lemma_padded_fixed(q, (w - 1) as nat);
        let d = digit_char(v % 10);
        assert(dec_digits(v) == dec_digits(q).push(d));
        assert(zero_pad(dec_digits(v), w) =~= zero_pad(dec_digits(q), (w - 1) as nat).push(d));
    }
}

/// Among numbers below `10^w`, a smaller one has digits that sort first.
proof fn lemma_fixed_order(v1: nat, v2: nat, w: nat)
    requires
        v1 < v2 < pow10(w),
    ensures
        sorts_before(fixed_digits(v1, w), fixed_digits(v2, w)),
    decreases w,
{
    assert(w >= 1) by {
        if w == 0 {
            assert(pow10(0) == 1);
        }
    }
    let pw = pow10((w - 1) as nat);
    assert(pow10(w) == 10 * pw);
    let q1 = v1 / 10;
    let q2 = v2 / 10;
    assert(q1 <= q2 < pw) by (nonlinear_arith)
        requires
            v1 < v2 < 10 * pw,
            q1 == v1 / 10,
            q2 == v2 / 10,
    ;
    let a = fixed_digits(q1, (w - 1) as nat);
    let b = fixed_digits(q2, (w - 1) as nat);
    let x = fixed_digits(v1, w);
    let y = fixed_digits(v2, w);
    lemma_fixed_len(q1, (w - 1) as nat);
    lemma_fixed_len(q2, (w - 1) as nat);
    assert(x == a.push(digit_char(v1 % 10)));
    assert(y == b.push(digit_char(v2 % 10)));
    if q1 < q2 {
        lemma_fixed_order(q1, q2, (w - 1) as nat);
        let k = choose|k: int| 0 <= k < a.len() && #[trigger] a.take(k) == b.take(k) && (a[k] as u32) < (b[k] as u32);
        assert(x.take(k) =~= a.take(k));
        assert(y.take(k) =~= b.take(k));
        assert(x[k] == a[k] && y[k] == b[k]);
    } else {
        assert(v1 % 10 < v2 % 10);
        let k = (w - 1) as int;
        assert(x.take(k) =~= a);
        assert(y.take(k) =~= b);
        assert((x[k] as u32) < (y[k] as u32));
    }
}

proof fn lemma_sorts_then(x1: Seq<char>, y1: Seq<char>, x2: Seq<char>, y2: Seq<char>)
    requires
        sorts_before(x1, y1),
        x2.len() == y2.len(),
    ensures
        sorts_before(x1 + x2, y1 + y2),
{
    let k = choose|k: int| 0 <= k < x1.len() && #[trigger] x1.take(k) == y1.take(k) && (x1[k] as u32) < (y1[k] as u32);
    assert((x1 + x2).take(k) =~= x1.take(k));
    assert((y1 + y2).take(k) =~= y1.take(k));
    assert((x1 + x2)[k] == x1[k] && (y1 + y2)[k] == y1[k]);
}

proof fn lemma_same_then(x: Seq<char>, x2: Seq<char>, y2: Seq<char>)
    requires
        sorts_before(x2, y2),
    ensures
        sorts_before(x + x2, x + y2),
{
    let k = choose|k: int| 0 <= k < x2.len() && #[trigger] x2.take(k) == y2.take(k) && (x2[k] as u32) < (y2[k] as u32);
    let j = x.len() + k;
    assert((x + x2).take(j) =~= x + x2.take(k));
    assert((x + y2).take(j) =~= x + y2.take(k));
    assert((x + x2)[j] == x2[k] && (x + y2)[j] == y2[k]);
}

/// The stamp text of the fields of a date and a time of day.
pub open spec fn stamp_of(y: int, m: int, d: int, h: int, mi: int, s: int) -> Seq<char> {
    padded(y, 4) + padded(m, 2) + padded(d, 2) + seq!['-'] + padded(h, 2) + padded(mi, 2) + padded(s, 2)
}

/// Two values of a stamp field below `10^w` are padded to `w` characters that keep their
/// order.
proof fn lemma_field(v1: int, v2: int, w: nat)
    requires
        w == 2 || w == 4,
        0 <= v1 < pow10(w),
        0 <= v2 < pow10(w),
    ensures
        padded(v1, w).len() == w,
        padded(v2, w).len() == w,
        v1 < v2 ==> sorts_before(padded(v1, w), padded(v2, w)),
{
    lemma_padded_fixed(v1 as nat, w);
    lemma_padded_fixed(v2 as nat, w);
    lemma_fixed_len(v1 as nat, w);
    lemma_fixed_len(v2 as nat, w);
    if v1 < v2 {
        lemma_fixed_order(v1 as nat, v2 as nat, w);
    }
}

/// Stamps follow the order of their fields, taken year first.
proof fn lemma_stamp_order(y1: int, m1: int, d1: int, h1: int, i1: int, s1: int, y2: int, m2: int, d2: int, h2: int, i2: int, s2: int)
    requires
        0 <= y1 < 10000 && 0 <= y2 < 10000,
        0 <= m1 < 100 && 0 <= m2 < 100 && 0 <= d1 < 100 && 0 <= d2 < 100,
        0 <= h1 < 100 && 0 <= h2 < 100 && 0 <= i1 < 100 && 0 <= i2 < 100,
        0 <= s1 < 100 && 0 <= s2 < 100,
        y1 < y2 || (y1 == y2 && (m1 < m2 || (m1 == m2 && (d1 < d2 || (d1 == d2 && (h1 < h2 || (h1 == h2
            && (i1 < i2 || (i1 == i2 && s1 < s2))))))))),
    ensures
        sorts_before(stamp_of(y1, m1, d1, h1, i1, s1), stamp_of(y2, m2, d2, h2, i2, s2)),
{
    reveal_with_fuel(pow10, 5);
    lemma_field(y1, y2, 4);
    lemma_field(m1, m2, 2);
    lemma_field(d1, d2, 2);
    lemma_field(h1, h2, 2);
    lemma_field(i1, i2, 2);
    lemma_field(s1, s2, 2);
    let (ya, yb) = (padded(y1, 4), padded(y2, 4));
    let (ma, mb) = (padded(m1, 2), padded(m2, 2));
    let (da, db) = (padded(d1, 2), padded(d2, 2));
    let (ha, hb) = (padded(h1, 2), padded(h2, 2));
    let (ia, ib) = (padded(i1, 2), padded(i2, 2));
    let (sa, sb) = (padded(s1, 2), padded(s2, 2));
    let dash = seq!['-'];
    // After the year.
    if y1 < y2 {
        lemma_sorts_then(ya, yb, ma, mb);
    } else if m1 < m2 {
        lemma_same_then(ya, ma, mb);
    }
    // After the month.
    if y1 < y2 || m1 < m2 {
        lemma_sorts_then(ya + ma, yb + mb, da, db);
    } else if d1 < d2 {
        lemma_same_then(ya + ma, da, db);
    }
    let p3a = ya + ma + da;
    let p3b = yb + mb + db;
    if y1 < y2 || m1 < m2 || d1 < d2 {
        lemma_sorts_then(p3a, p3b, dash, dash);
        lemma_sorts_then(p3a + dash, p3b + dash, ha, hb);
    } else if h1 < h2 {
        lemma_same_then(p3a + dash, ha, hb);
    }
    let p4a = p3a + dash + ha;
    let p4b = p3b + dash + hb;
    if y1 < y2 || m1 < m2 || d1 < d2 || h1 < h2 {
        lemma_sorts_then(p4a, p4b, ia, ib);
    } else if i1 < i2 {
        lemma_same_then(p4a, ia, ib);
    }
    if y1 < y2 || m1 < m2 || d1 < d2 || h1 < h2 || i1 < i2 {
        lemma_sorts_then(p4a + ia, p4b + ib, sa, sb);
    } else {
        lemma_same_then(p4a + ia, sa, sb);
    }
}

/// Days before a year from 1970 on, counted with the leap rule.
proof fn lemma_days_before_year_closed(y: int)
    requires
        y >= 1970,
    ensures
        days_before_year(y) == 365 * (y - 1970) + (y - 1) / 4 - (y - 1) / 100 + (y - 1) / 400 - 477,
    decreases y - 1970,
{
    if y > 1970 {
        lemma_days_before_year_closed(y - 1);
        let z = y - 1;
        assert(z / 4 - (z - 1) / 4 == if z % 4 == 0 { 1int } else { 0int });
        assert(z / 100 - (z - 1) / 100 == if z % 100 == 0 { 1int } else { 0int });
        assert(z / 400 - (z - 1) / 400 == if z % 400 == 0 { 1int } else { 0int });
    }
}

/// A valid date earlier in the calendar has a smaller day number.
proof fn lemma_date_order(y1: int, m1: int, d1: int, y2: int, m2: int, d2: int)
    requires
        1 <= m1 <= 12,
        1 <= m2 <= 12,
        1 <= d1 <= month_len(y1, m1),
        1 <= d2 <= month_len(y2, m2),
        y1 < y2 || (y1 == y2 && (m1 < m2 || (m1 == m2 && d1 < d2))),
    ensures
        days_from_civil(y1, m1, d1) < days_from_civil(y2, m2, d2),
{
    lemma_day_of_year_bound(y1, m1, d1);
    lemma_month_prefix_nonneg(y2, m2);
    if y1 < y2 {
        lemma_years_increase(y1, y2);
    } else if m1 < m2 {
        lemma_months_increase(y1, m1, m2);
    }
}

/// The date of a day from 1970-01-01 up to 9999-12-31 has a four-digit year.
proof fn lemma_year_in_range(days: int)
    requires
        0 <= days < 2_932_897,
    ensures
        1970 <= civil_of(days).0 <= 9999,
{
    law_civil_of_is_valid_date(days);
    let (y, m, d) = civil_of(days);
    lemma_day_of_year_bound(y, m, d);
    lemma_month_prefix_nonneg(y, m);
    if y > 9999 {
        lemma_days_before_year_closed(10000);
        if y > 10000 {
            lemma_years_increase(10000, y);
            lemma_year_len_bounds(10000);
        }
    }
    if y < 1970 {
        lemma_years_increase(y, 1970);
    }
}

/// A later second gives a stamp that sorts later, for every second from 1970-01-01
/// 00:00:00 up to 9999-12-31 23:59:59 UTC (while the year has four digits). So the trash
/// folders of distinct seconds have distinct names, in the order of time.
pub proof fn law_later_second_later_stamp(a: int, b: int)
    requires
        0 <= a < b < 253_402_300_800,
    ensures
        sorts_before(unix_stamp(a), unix_stamp(b)),
{
    let da = day_number(a);
    let db = day_number(b);
    let sa = second_of_day(a);
    let sb = second_of_day(b);
    assert(0 <= da <= db < 2_932_897);
    assert(da == db ==> sa < sb);
    lemma_year_in_range(da);
    lemma_year_in_range(db);
    law_civil_of_is_valid_date(da);
    law_civil_of_is_valid_date(db);
    let (y1, m1, d1) = civil_of(da);
    let (y2, m2, d2) = civil_of(db);
    assert(month_len(y1, m1) <= 31 && month_len(y2, m2) <= 31);
    if da < db {
        // The dates are in calendar order: otherwise the later day would come first.
        if !(y1 < y2 || (y1 == y2 && (m1 < m2 || (m1 == m2 && d1 < d2)))) {
            if y1 == y2 && m1 == m2 && d1 == d2 {
            } else {
                lemma_date_order(y2, m2, d2, y1, m1, d1);
            }
        }
    } else {
        assert(civil_of(da) == civil_of(db));
        let (h1, i1, s1) = (sa / 3600, (sa % 3600) / 60, sa % 60);
        let (h2, i2, s2) = (sb / 3600, (sb % 3600) / 60, sb % 60);
        assert(h1 < h2 || (h1 == h2 && (i1 < i2 || (i1 == i2 && s1 < s2)))) by (nonlinear_arith)
            requires
                0 <= sa < sb < 86400,
                h1 == sa / 3600,
                i1 == (sa % 3600) / 60,
                s1 == sa % 60,
                h2 == sb / 3600,
                i2 == (sb % 3600) / 60,
                s2 == sb % 60,
        ;
    }
    assert(unix_stamp(a) == stamp_of(y1, m1, d1, sa / 3600, (sa % 3600) / 60, sa % 60));
    assert(unix_stamp(b) == stamp_of(y2, m2, d2, sb / 3600, (sb % 3600) / 60, sb % 60));
    lemma_stamp_order(y1, m1, d1, sa / 3600, (sa % 3600) / 60, sa % 60, y2, m2, d2, sb / 3600, (sb % 3600) / 60, sb % 60);
}

/// The Gregorian calendar repeats every 400 years, which hold 146097 days (97 leap years),
/// and the twelve months of a year fill it exactly.
pub proof fn law_calendar_cycles(y: int)
    requires
        y >= 1970,
    ensures
        days_before_year(y + 400) == days_before_year(y) + 146097,
        days_before_year(y + 4) == days_before_year(y) + 1461 || days_before_year(y + 4) == days_before_year(y)
            + 1460,
        days_before_month(y, 13) == year_len(y),
{
    lemma_days_before_year_closed(y);
    lemma_days_before_year_closed(y + 400);
    lemma_days_before_year_closed(y + 4);
    lemma_months_fill_year(y);
}

} // verus!
