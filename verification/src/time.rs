//! Calendar arithmetic, enough for sonar timestamps and ISO-8601 output.
//!
//! Deliberately small: the only calendar questions asked here are "what month
//! is day-of-year N" and "print this instant as ISO-8601".

use vstd::prelude::*;

use crate::text::{push_padded, push_padded_signed};

verus! {

/// Whether `y` is a leap year in the proleptic Gregorian calendar.
pub open spec fn leap(y: int) -> bool {
    y % 4 == 0 && (y % 100 != 0 || y % 400 == 0)
}

/// Days in a month of a year. Months count from 1.
pub open spec fn month_len(y: int, m: int) -> int {
    if m == 2 {
        if leap(y) {
            29
        } else {
            28
        }
    } else if m == 4 || m == 6 || m == 9 || m == 11 {
        30
    } else {
        31
    }
}

/// Days in a year.
pub open spec fn year_len(y: int) -> int {
    if leap(y) {
        366
    } else {
        365
    }
}

/// Days of a year that come before the first of a month.
pub open spec fn days_before_month(y: int, m: int) -> int
    decreases m,
{
    if m <= 1 {
        0
    } else {
        days_before_month(y, m - 1) + month_len(y, m - 1)
    }
}

/// Days from the first of January of the year 1 to the first of January of
/// the year `y`.
pub open spec fn days_before_year(y: int) -> int {
    365 * (y - 1) + (y - 1) / 4 - (y - 1) / 100 + (y - 1) / 400
}

/// Days from 1970-01-01 to a calendar date.
pub open spec fn civil_days(y: int, m: int, d: int) -> int {
    days_before_year(y) + days_before_month(y, m) + d - 1 - 719162
}

/// Whether the three numbers are a date of the calendar.
pub open spec fn valid_date(y: int, m: int, d: int) -> bool {
    1 <= m <= 12 && 1 <= d <= month_len(y, m)
}

/// Whether a date is so many days from 1970-01-01.
pub open spec fn is_date(z: int, date: (int, int, int)) -> bool {
    valid_date(date.0, date.1, date.2) && civil_days(date.0, date.1, date.2) == z
}

/// The date so many days from 1970-01-01. There is exactly one.
pub open spec fn date_of(z: int) -> (int, int, int) {
    choose|date: (int, int, int)| is_date(z, date)
}

/// Days from 1970-01-01 in a year that starts in March, where a month `mp`
/// counts from zero.
///
/// With the leap day at the end of the year the months fall into a pattern of
/// 153 days in five, so no table is needed.
pub open spec fn march_days(y: int, mp: int, d: int) -> int {
    365 * y + y / 4 - y / 100 + y / 400 + (153 * mp + 2) / 5 + d - 1 - 719468
}

/// The lengths of the twelve months, summed up to each of them.
proof fn lemma_month_table(y: int)
    ensures
        days_before_month(y, 1) == 0,
        days_before_month(y, 2) == 31,
        days_before_month(y, 3) == 31 + month_len(y, 2),
        days_before_month(y, 4) == 62 + month_len(y, 2),
        days_before_month(y, 5) == 92 + month_len(y, 2),
        days_before_month(y, 6) == 123 + month_len(y, 2),
        days_before_month(y, 7) == 153 + month_len(y, 2),
        days_before_month(y, 8) == 184 + month_len(y, 2),
        days_before_month(y, 9) == 215 + month_len(y, 2),
        days_before_month(y, 10) == 245 + month_len(y, 2),
        days_before_month(y, 11) == 276 + month_len(y, 2),
        days_before_month(y, 12) == 306 + month_len(y, 2),
{
    reveal_with_fuel(days_before_month, 13);
}

/// A division goes up by one exactly at the multiples.
proof fn lemma_quotient_step(y: int, k: int)
    requires
        k > 0,
    ensures
        y / k - (y - 1) / k == if y % k == 0 {
            1int
        } else {
            0
        },
{
    let q = y / k;
    let r = y % k;
    vstd::arithmetic::div_mod::lemma_fundamental_div_mod(y, k);
    vstd::arithmetic::mul::lemma_mul_is_commutative(k, q);
    if r == 0 {
        assert((q - 1) * k + (k - 1) == y - 1) by (nonlinear_arith)
            requires
                y == q * k,
        ;
        vstd::arithmetic::div_mod::lemma_fundamental_div_mod_converse(y - 1, k, q - 1, k - 1);
    } else {
        vstd::arithmetic::div_mod::lemma_fundamental_div_mod_converse(y - 1, k, q, r - 1);
    }
}

/// One year on is one year's days on.
proof fn lemma_year_step(y: int)
    ensures
        days_before_year(y + 1) == days_before_year(y) + year_len(y),
{
    lemma_quotient_step(y, 4);
    lemma_quotient_step(y, 100);
    lemma_quotient_step(y, 400);
    assert(y % 100 == 0 ==> y % 4 == 0);
    assert(y % 400 == 0 ==> y % 100 == 0);
}

/// The March-based count is the calendar's count.
pub proof fn lemma_march_is_civil(y: int, m: int, d: int)
    requires
        1 <= m <= 12,
    ensures
        civil_days(y, m, d) == march_days(if m <= 2 { y - 1 } else { y }, (m + 9) % 12, d),
{
    lemma_month_table(y);
    lemma_year_step(y);
}

/// What is divisible by 400 is divisible by 4.
proof fn lemma_by_four(y: int)
    ensures
        y % 400 == 0 ==> y % 4 == 0,
{
    let q = y / 400;
    if y % 400 == 0 {
        assert(y == 4 * (100 * q));
    }
}

/// Whether `y` is a leap year.
#[verifier::spinoff_prover]
pub fn is_leap(y: i32) -> (r: bool)
    ensures
        r == leap(y as int),
{
    let (_, by4) = floor_div(y as i64, 4);
    let (_, by100) = floor_div(y as i64, 100);
    let (_, by400) = floor_div(y as i64, 400);
    proof {
        lemma_by_four(y as int);
    }
    (by4 == 0 && by100 != 0) || by400 == 0
}

fn month_length(leap_year: bool, m: u32) -> (n: u32)
    ensures
        forall|y: int| leap(y) == leap_year ==> n == month_len(y, m as int),
{
    if m == 2 {
        if leap_year {
            29
        } else {
            28
        }
    } else if m == 4 || m == 6 || m == 9 || m == 11 {
        30
    } else {
        31
    }
}

/// Day-of-year (1-based) to (month, day), or None if out of range.
pub fn month_day(year: i32, doy: u32) -> (r: Option<(u32, u32)>)
    ensures
        r is Some <==> 1 <= doy <= year_len(year as int),
        r matches Some((m, d)) ==> valid_date(year as int, m as int, d as int)
            && days_before_month(year as int, m as int) + d == doy,
{
    let leap_year = is_leap(year);
    let total: u32 = if leap_year { 366 } else { 365 };
    if doy == 0 || doy > total {
        return None;
    }
    let mut rem: u32 = doy;
    let mut m: u32 = 1;
    proof {
        lemma_month_table(year as int);
    }
    while m < 12
        invariant
            1 <= m <= 12,
            leap_year == leap(year as int),
            1 <= doy <= year_len(year as int),
            rem >= 1,
            rem + days_before_month(year as int, m as int) == doy,
            m == 12 ==> rem <= 31,
        decreases 12 - m,
    {
        let d: u32 = month_length(leap_year, m);
        if rem <= d {
            return Some((m, rem));
        }
        rem -= d;
        m += 1;
        proof {
            lemma_month_table(year as int);
        }
    }
    Some((m, rem))
}

/// The calendar repeats every 400 years, 146097 days at a time.
proof fn lemma_eras(era: int, yoe: int, mp: int, d: int)
    requires
        0 <= yoe < 400,
    ensures
        march_days(400 * era + yoe, mp, d) == era * 146097 + 365 * yoe + yoe / 4 - yoe / 100 + (153
            * mp + 2) / 5 + d - 1 - 719468,
{
    let y = 400 * era + yoe;
    assert(y / 4 == 100 * era + yoe / 4);
    assert(y / 100 == 4 * era + yoe / 100);
    assert(y / 400 == era);
}

/// Division that rounds down, with the part left over.
fn floor_div(n: i64, by: i64) -> (r: (i64, i64))
    requires
        0 < by <= 1000000,
    ensures
        r.0 == (n as int) / (by as int),
        r.1 == (n as int) % (by as int),
        n == r.0 * by + r.1,
        0 <= r.1 < by,
        -r.0 <= 9223372036854775808,
        n >= 0 ==> 0 <= r.0 <= n,
        n < 0 ==> n <= r.0 < 0,
{
    proof {
        vstd::arithmetic::div_mod::lemma_fundamental_div_mod(n as int, by as int);
        vstd::arithmetic::mul::lemma_mul_is_commutative(n as int / by as int, by as int);
    }
    if n >= 0 {
        let q: i64 = n / by;
        let r: i64 = n % by;
        proof {
            assert(q <= n) by (nonlinear_arith)
                requires
                    n == by * q + r,
                    r >= 0,
                    by >= 1,
                    q >= 0,
                    n >= 0,
            ;
        }
        (q, r)
    } else {
        let up: i64 = -(n + 1);
        let q: i64 = -(up / by) - 1;
        proof {
            vstd::arithmetic::div_mod::lemma_fundamental_div_mod(up as int, by as int);
            let a = up as int / by as int;
            let b = up as int % by as int;
            assert(n == (-a - 1) * by + (by - 1 - b)) by (nonlinear_arith)
                requires
                    up == by * a + b,
                    up == -(n + 1),
            ;
            vstd::arithmetic::div_mod::lemma_fundamental_div_mod_converse(
                n as int,
                by as int,
                -a - 1,
                by - 1 - b,
            );
            assert(a <= up) by (nonlinear_arith)
                requires
                    up == by * a + b,
                    b >= 0,
                    by >= 1,
                    a >= 0,
            ;
        }
        let r: i64 = by - 1 - up % by;
        (q, r)
    }
}

/// Days from 1970-01-01 to the given civil date.
///
/// Months outside the calendar are taken as the arithmetic takes them.
pub fn days_from_civil(y: i32, m: u32, d: u32) -> (days: i64)
    requires
        m <= 2 ==> y > i32::MIN,
        m <= u32::MAX - 9,
    ensures
        days == march_days(if m <= 2 { y - 1 } else { y as int }, (m + 9) % 12, d as int),
        1 <= m <= 12 ==> days == civil_days(y as int, m as int, d as int),
{
    let y0 = y;
    let y: i64 = if m <= 2 { y as i64 - 1 } else { y as i64 };
    let (era, yoe) = floor_div(y, 400);
    let mp: i64 = ((m + 9) % 12) as i64;
    let doy: i64 = (153 * mp + 2) / 5 + d as i64 - 1;
    let doe: i64 = yoe * 365 + yoe / 4 - yoe / 100 + doy;
    proof {
        lemma_eras(era as int, yoe as int, mp as int, d as int);
        if 1 <= m <= 12 {
            lemma_march_is_civil(y0 as int, m as int, d as int);
        }
    }
    era * 146097 + doe - 719468
}

/// The year of a 400-year era that a day of it falls in.
proof fn lemma_year_of_era(doe: int, yoe: int)
    requires
        0 <= doe < 146097,
        yoe == (doe - doe / 1460 + doe / 36524 - doe / 146096) / 365,
    ensures
        0 <= yoe < 400,
        365 * yoe + yoe / 4 - yoe / 100 <= doe,
        doe < 365 * yoe + yoe / 4 - yoe / 100 + (if (yoe + 1) % 4 == 0 && ((yoe + 1) % 100 != 0
            || (yoe + 1) % 400 == 0) {
            366int
        } else {
            365
        }),
{
    let c = doe / 36524;
    let q = doe / 1460;
    assert(0 <= c <= 4);
    assert(0 <= q <= 100);
}

/// The month of a March-based year that a day of it falls in.
proof fn lemma_month_of_year(doy: int, mp: int)
    requires
        0 <= doy <= 365,
        mp == (5 * doy + 2) / 153,
    ensures
        0 <= mp <= 11,
        (153 * mp + 2) / 5 <= doy,
        mp < 11 ==> doy < (153 * (mp + 1) + 2) / 5,
{
}

/// A day of a March-based year is a day of its month.
proof fn lemma_day_of_month(doy: int, mp: int, leap_end: bool)
    requires
        0 <= doy < (if leap_end {
            366int
        } else {
            365
        }),
        mp == (5 * doy + 2) / 153,
    ensures
        1 <= doy - (153 * mp + 2) / 5 + 1,
        mp == 11 ==> doy - (153 * mp + 2) / 5 + 1 <= if leap_end {
            29int
        } else {
            28
        },
        mp == 1 || mp == 3 || mp == 6 || mp == 8 ==> doy - (153 * mp + 2) / 5 + 1 <= 30,
        doy - (153 * mp + 2) / 5 + 1 <= 31,
{
    lemma_month_of_year(doy, mp);
    assert(mp == 0 || mp == 1 || mp == 2 || mp == 3 || mp == 4 || mp == 5 || mp == 6 || mp == 7
        || mp == 8 || mp == 9 || mp == 10 || mp == 11);
}

/// Whether a year is a leap year depends on its place in the era alone.
proof fn lemma_leap_in_era(era: int, yoe: int)
    requires
        0 <= yoe < 400,
    ensures
        leap(400 * era + yoe + 1) == ((yoe + 1) % 4 == 0 && ((yoe + 1) % 100 != 0 || (yoe + 1) % 400
            == 0)),
{
}

/// Two dates of the calendar that are the same number of days from 1970-01-01
/// are the same date.
pub proof fn lemma_civil_days_injective(y1: int, m1: int, d1: int, y2: int, m2: int, d2: int)
    requires
        valid_date(y1, m1, d1),
        valid_date(y2, m2, d2),
        civil_days(y1, m1, d1) == civil_days(y2, m2, d2),
    ensures
        y1 == y2,
        m1 == m2,
        d1 == d2,
{
    lemma_month_table(y1);
    lemma_month_table(y2);
    lemma_year_step(y1);
    lemma_year_step(y2);
    if y1 < y2 {
        lemma_years_apart(y1 + 1, y2);
    } else if y2 < y1 {
        lemma_years_apart(y2 + 1, y1);
    }
}

/// Later years start later.
proof fn lemma_years_apart(a: int, b: int)
    requires
        a <= b,
    ensures
        days_before_year(a) <= days_before_year(b),
    decreases b - a,
{
    if a < b {
        lemma_year_step(a);
        lemma_years_apart(a + 1, b);
    }
}

/// The parts that a day count is taken into are those of its date.
proof fn lemma_civil_parts(z: int, era: int, doe: int, yoe: int, doy: int, mp: int)
    requires
        z + 719468 == era * 146097 + doe,
        0 <= doe < 146097,
        yoe == (doe - doe / 1460 + doe / 36524 - doe / 146096) / 365,
        doy == doe - (365 * yoe + yoe / 4 - yoe / 100),
        mp == (5 * doy + 2) / 153,
    ensures
        ({
            let m = if mp < 10 {
                mp + 3
            } else {
                mp - 9
            };
            let y = if m <= 2 {
                yoe + era * 400 + 1
            } else {
                yoe + era * 400
            };
            let d = doy - (153 * mp + 2) / 5 + 1;
            valid_date(y, m, d) && civil_days(y, m, d) == z
        }),
{
    let m = if mp < 10 {
        mp + 3
    } else {
        mp - 9
    };
    let y = if m <= 2 {
        yoe + era * 400 + 1
    } else {
        yoe + era * 400
    };
    let d = doy - (153 * mp + 2) / 5 + 1;
    lemma_year_of_era(doe, yoe);
    lemma_leap_in_era(era, yoe);
    lemma_month_of_year(doy, mp);
    lemma_day_of_month(doy, mp, leap(400 * era + yoe + 1));
    assert(valid_date(y, m, d));
    assert(civil_days(y, m, d) == z) by {
        lemma_march_is_civil(y, m, d);
        lemma_eras(era, yoe, mp, d);
        assert((m + 9) % 12 == mp);
        assert(400 * era + yoe == if m <= 2 {
            y - 1
        } else {
            y
        });
    }
}

/// A date so many days from 1970-01-01 is the only one.
proof fn lemma_date_of(z: int, date: (int, int, int))
    requires
        is_date(z, date),
    ensures
        is_date(z, date_of(z)),
        date_of(z) == date,
{
    let other = date_of(z);
    lemma_civil_days_injective(other.0, other.1, other.2, date.0, date.1, date.2);
}

/// Inverse of `days_from_civil`: the one date of the calendar that many days
/// from 1970-01-01. The year is cut to 32 bits.
pub fn civil_from_days(z: i64) -> (r: (i32, u32, u32))
    requires
        z <= i64::MAX - 719468,
    ensures
        is_date(z as int, date_of(z as int)),
        r.0 == date_of(z as int).0 as i32,
        r.1 == date_of(z as int).1,
        r.2 == date_of(z as int).2,
{
    let z0 = z;
    let z: i64 = z + 719468;
    let (era, doe) = floor_div(z, 146097);
    let yoe: i64 = (doe - doe / 1460 + doe / 36524 - doe / 146096) / 365;
    proof {
        lemma_year_of_era(doe as int, yoe as int);
        assert(-70000000000000 <= era <= 70000000000000);
    }
    let y: i64 = yoe + era * 400;
    let doy: i64 = doe - (365 * yoe + yoe / 4 - yoe / 100);
    let mp: i64 = (5 * doy + 2) / 153;
    proof {
        lemma_month_of_year(doy as int, mp as int);
    }
    let d: u32 = (doy - (153 * mp + 2) / 5 + 1) as u32;
    let m: u32 = if mp < 10 { (mp + 3) as u32 } else { (mp - 9) as u32 };
    let year: i64 = if m <= 2 { y + 1 } else { y };
    proof {
        lemma_civil_parts(z0 as int, era as int, doe as int, yoe as int, doy as int, mp as int);
    }
    let short: i32 = #[verifier::truncate]
    (year as i32);
    proof {
        lemma_date_of(z0 as int, (year as int, m as int, d as int));
    }
    (short, m, d)
}

/// Unix seconds of a calendar instant.
pub open spec fn unix_seconds(y: int, mo: int, d: int, h: int, mi: int, s: int) -> int {
    civil_days(y, mo, d) * 86400 + h * 3600 + mi * 60 + s
}

/// Unix seconds for a UTC calendar instant.
pub fn unix_from_utc(y: i32, mo: u32, d: u32, h: u32, mi: u32, s: u32) -> (t: i64)
    requires
        mo <= 2 ==> y > i32::MIN,
        mo <= u32::MAX - 9,
    ensures
        t == march_days(if mo <= 2 { y - 1 } else { y as int }, (mo + 9) % 12, d as int) * 86400 + h
            * 3600 + mi * 60 + s,
        1 <= mo <= 12 ==> t == unix_seconds(
            y as int,
            mo as int,
            d as int,
            h as int,
            mi as int,
            s as int,
        ),
{
    days_from_civil(y, mo, d) * 86400 + h as i64 * 3600 + mi as i64 * 60 + s as i64
}

/// `HH:MM:SS` of a number of seconds.
pub open spec fn clock(secs: nat) -> Seq<char> {
    crate::text::padded(secs / 3600, 2) + seq![':'] + crate::text::padded(secs % 3600 / 60, 2)
        + seq![':'] + crate::text::padded(secs % 60, 2)
}

fn push_clock(out: &mut String, secs: u64)
    ensures
        final(out)@ == old(out)@ + clock(secs as nat),
{
    push_padded(out, secs / 3600, 2);
    out.push(':');
    push_padded(out, secs % 3600 / 60, 2);
    out.push(':');
    push_padded(out, secs % 60, 2);
    proof {
        assert(out@ =~= old(out)@ + clock(secs as nat));
    }
}

/// `HH:MM:SS` for a duration in whole seconds.
pub fn hms(seconds: u64) -> (s: String)
    ensures
        s@ == clock(seconds as nat),
{
    let mut s = String::new();
    push_clock(&mut s, seconds);
    proof {
        assert(Seq::<char>::empty() + clock(seconds as nat) =~= clock(seconds as nat));
    }
    s
}

/// A date and a time of day as ISO-8601, with milliseconds where they are given.
pub open spec fn iso_text(y: int, m: int, d: int, secs: nat, ms: Option<nat>) -> Seq<char> {
    crate::text::padded_signed(y, 4) + seq!['-'] + crate::text::padded(m as nat, 2) + seq!['-']
        + crate::text::padded(d as nat, 2) + seq!['T'] + clock(secs) + (match ms {
        Some(ms) => seq!['.'] + crate::text::padded(ms, 3),
        None => Seq::<char>::empty(),
    }) + seq!['Z']
}

/// The millisecond nearest to an instant of whole seconds and nanoseconds,
/// counted from the same start as the seconds.
pub open spec fn nearest_ms(secs: int, nanos: int) -> int {
    secs * 1000 + (nanos + 500_000) / 1_000_000
}

/// ISO-8601 UTC of an instant of whole seconds and nanoseconds: the nearest
/// millisecond, which is printed where there are any nanoseconds.
pub open spec fn iso_of(secs: int, nanos: int) -> Seq<char> {
    let at = nearest_ms(secs, nanos);
    let date = date_of(at / 1000 / 86400);
    iso_text(
        (date.0 as i32) as int,
        date.1,
        date.2,
        (at / 1000 % 86400) as nat,
        if nanos == 0 {
            None
        } else {
            Some((at % 1000) as nat)
        },
    )
}

/// ISO-8601 UTC of an instant of whole seconds and nanoseconds, milliseconds
/// included where the nanoseconds are not zero.
pub fn iso8601(secs: i64, nanos: u32) -> (s: String)
    requires
        nanos < 1_000_000_000,
    ensures
        s@ == iso_of(secs as int, nanos as int),
{
    let up: u32 = (nanos + 500_000) / 1_000_000;
    let (whole, left) = floor_div(secs, 86400);
    let carry = up == 1000;
    let (days, rem): (i64, u64) = if carry && left == 86399 {
        (whole + 1, 0)
    } else if carry {
        (whole, left as u64 + 1)
    } else {
        (whole, left as u64)
    };
    let ms: u32 = if carry { 0 } else { up };
    let ghost at = nearest_ms(secs as int, nanos as int);
    proof {
        assert(at / 1000 == secs + (if carry {
            1int
        } else {
            0
        }));
        assert(at % 1000 == ms);
        assert(at / 1000 / 86400 == days && at / 1000 % 86400 == rem);
    }
    let (y, m, d) = civil_from_days(days);
    let mut s = String::new();
    push_padded_signed(&mut s, y as i64, 4);
    s.push('-');
    push_padded(&mut s, m as u64, 2);
    s.push('-');
    push_padded(&mut s, d as u64, 2);
    s.push('T');
    push_clock(&mut s, rem);
    if nanos > 0 {
        s.push('.');
        push_padded(&mut s, ms as u64, 3);
    }
    s.push('Z');
    proof {
        assert(s@ =~= iso_of(secs as int, nanos as int));
    }
    s
}

/// The instant that is printed is within a millisecond of the one that is
/// given, its milliseconds are three digits, and they are there just where the
/// instant is not a whole second.
pub proof fn law_iso_is_near(secs: int, nanos: int)
    requires
        0 <= nanos < 1_000_000_000,
    ensures
        -1_000_000 < nearest_ms(secs, nanos) * 1_000_000 - (secs * 1_000_000_000 + nanos)
            < 1_000_000,
        nanos == 0 ==> nearest_ms(secs, nanos) == secs * 1000,
        crate::text::padded((nearest_ms(secs, nanos) % 1000) as nat, 3).len() == 3,
        ({
            let at = nearest_ms(secs, nanos);
            let date = date_of(at / 1000 / 86400);
            let (y, m, d, left) = (
                (date.0 as i32) as int,
                date.1,
                date.2,
                (at / 1000 % 86400) as nat,
            );
            iso_of(secs, nanos) == (if nanos == 0 {
                iso_text(y, m, d, left, None)
            } else {
                iso_text(y, m, d, left, Some((at % 1000) as nat))
            })
        }),
{
    let ms = (nearest_ms(secs, nanos) % 1000) as nat;
    reveal_with_fuel(crate::text::dec, 4);
    assert(ms < 1000);
    assert(crate::text::dec(ms).len() <= 3);
}

/// A date turned into days and back is the date it was.
pub proof fn law_civil_round_trip(y: int, m: int, d: int)
    requires
        valid_date(y, m, d),
    ensures
        date_of(civil_days(y, m, d)) == (y, m, d),
{
    lemma_date_of(civil_days(y, m, d), (y, m, d));
}

/// A number of days turned into a date and back is the number it was.
pub proof fn law_days_round_trip(z: int)
    ensures
        valid_date(date_of(z).0, date_of(z).1, date_of(z).2),
        civil_days(date_of(z).0, date_of(z).1, date_of(z).2) == z,
{
    let era = (z + 719468) / 146097;
    let doe = (z + 719468) % 146097;
    let yoe = (doe - doe / 1460 + doe / 36524 - doe / 146096) / 365;
    let doy = doe - (365 * yoe + yoe / 4 - yoe / 100);
    let mp = (5 * doy + 2) / 153;
    lemma_civil_parts(z, era, doe, yoe, doy, mp);
    let m = if mp < 10 {
        mp + 3
    } else {
        mp - 9
    };
    let y = if m <= 2 {
        yoe + era * 400 + 1
    } else {
        yoe + era * 400
    };
    lemma_date_of(z, (y, m, doy - (153 * mp + 2) / 5 + 1));
}

/// The day after a date is one day on, whether or not a month or a year ends.
pub proof fn law_days_follow(y: int, m: int, d: int)
    requires
        valid_date(y, m, d),
    ensures
        d < month_len(y, m) ==> civil_days(y, m, d + 1) == civil_days(y, m, d) + 1,
        d == month_len(y, m) && m < 12 ==> civil_days(y, m + 1, 1) == civil_days(y, m, d) + 1,
        d == month_len(y, m) && m == 12 ==> civil_days(y + 1, 1, 1) == civil_days(y, m, d) + 1,
        civil_days(1970, 1, 1) == 0,
{
    lemma_month_table(y);
    lemma_month_table(y + 1);
    lemma_month_table(1970);
    lemma_year_step(y);
}

/// The seconds of a minute, the minutes of an hour and the hours of a day make the
/// next of each, and time is counted from the start of 1970.
pub proof fn law_seconds_are_counted(y: int, mo: int, d: int, h: int, mi: int, s: int)
    ensures
        unix_seconds(1970, 1, 1, 0, 0, 0) == 0,
        unix_seconds(y, mo, d, h, mi, s + 1) == unix_seconds(y, mo, d, h, mi, s) + 1,
        unix_seconds(y, mo, d, h, mi, s + 60) == unix_seconds(y, mo, d, h, mi + 1, s),
        unix_seconds(y, mo, d, h, mi + 60, s) == unix_seconds(y, mo, d, h + 1, mi, s),
        unix_seconds(y, mo, d, h + 24, mi, s) == unix_seconds(y, mo, d + 1, h, mi, s),
{
}

/// The length of the years: one in four has a day more, but for the hundreds that
/// four hundred does not divide.
pub proof fn law_years(y: int)
    ensures
        days_before_year(y + 1) == days_before_year(y) + year_len(y),
        days_before_year(y + 400) == days_before_year(y) + 146097,
        y % 4 != 0 ==> year_len(y) == 365,
        y % 4 == 0 && y % 100 != 0 ==> year_len(y) == 366,
        y % 100 == 0 && y % 400 != 0 ==> year_len(y) == 365,
        y % 400 == 0 ==> year_len(y) == 366,
        days_before_month(y, 13) == year_len(y),
{
    reveal_with_fuel(days_before_month, 14);
    let x = y - 1;
    assert(y / 4 - x / 4 == (if y % 4 == 0 {
        1int
    } else {
        0
    }));
    assert(y / 100 - x / 100 == (if y % 100 == 0 {
        1int
    } else {
        0
    }));
    assert(y / 400 - x / 400 == (if y % 400 == 0 {
        1int
    } else {
        0
    }));
    assert(y % 400 == 0 ==> y % 100 == 0);
    assert(y % 100 == 0 ==> y % 4 == 0);
}

/// A time of day is read back from its text: hours, minutes and seconds make the
/// seconds that were written.
pub proof fn law_clock_reads_back(secs: nat)
    requires
        secs < 360000,
    ensures
        clock(secs).len() == 8,
        clock(secs)[2] == ':' && clock(secs)[5] == ':',
        ({
            let h = crate::text::number_of(clock(secs).take(2));
            let m = crate::text::number_of(clock(secs).subrange(3, 5));
            let s = crate::text::number_of(clock(secs).skip(6));
            secs == 3600 * h + 60 * m + s && m < 60 && s < 60
        }),
{
    let (h, m, s) = (secs / 3600, secs % 3600 / 60, secs % 60);
    lemma_two_digits(h);
    lemma_two_digits(m);
    lemma_two_digits(s);
    let c = clock(secs);
    assert(c.take(2) =~= crate::text::padded(h, 2));
    assert(c.subrange(3, 5) =~= crate::text::padded(m, 2));
    assert(c.skip(6) =~= crate::text::padded(s, 2));
}

proof fn lemma_two_digits(n: nat)
    requires
        n < 100,
    ensures
        crate::text::padded(n, 2).len() == 2,
        crate::text::number_of(crate::text::padded(n, 2)) == n,
{
    crate::text::law_number_of_digits(n);
    crate::text::law_written_number_is_read(n, 2);
    let p = crate::text::padded(n, 2);
    assert(p[0] != '+') by {
        crate::text::lemma_dec_reads(n);
        assert(crate::text::is_digit(crate::text::dec(n)[0]));
    }
}

/// A date is read back from its text: the year, the month, the day and the time of
/// day stand in their places.
pub proof fn law_date_reads_back(y: int, m: int, d: int, secs: nat)
    requires
        1000 <= y <= 9999,
        1 <= m <= 12,
        1 <= d <= 31,
        secs < 86400,
    ensures
        ({
            let t = iso_text(y, m, d, secs, None);
            &&& t.len() == 20
            &&& crate::text::number_of(t.take(4)) == y
            &&& crate::text::number_of(t.subrange(5, 7)) == m
            &&& crate::text::number_of(t.subrange(8, 10)) == d
            &&& t.subrange(11, 19) == clock(secs)
            &&& t[4] == '-' && t[7] == '-' && t[10] == 'T' && t[19] == 'Z'
        }),
{
    let t = iso_text(y, m, d, secs, None);
    lemma_two_digits(m as nat);
    lemma_two_digits(d as nat);
    law_clock_reads_back(secs);
    crate::text::law_number_of_digits(y as nat);
    crate::text::lemma_dec_reads(y as nat);
    assert(t.take(4) =~= crate::text::dec(y as nat));
    assert(t.subrange(5, 7) =~= crate::text::padded(m as nat, 2));
    assert(t.subrange(8, 10) =~= crate::text::padded(d as nat, 2));
    assert(t.subrange(11, 19) =~= clock(secs));
}

} // verus!
