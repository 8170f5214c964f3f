//! Calendar dates, as the proleptic Gregorian calendar has them.

use vstd::arithmetic::div_mod::{
    lemma_fundamental_div_mod, lemma_fundamental_div_mod_converse,
};
use vstd::prelude::*;
use vstd::string::*;

use crate::text::{dec, digit_char, number, pad_left, padded_left, text_below, Text};

verus! {

pub const DAY_SECONDS: u64 = 86400;

/// The years divisible by 4, but not those divisible by 100 unless by 400.
pub open spec fn is_leap(y: int) -> bool {
    y % 4 == 0 && (y % 100 != 0 || y % 400 == 0)
}

/// The days of a month, January being 1.
pub open spec fn days_in_month(y: int, m: int) -> int {
    if m == 2 {
        if is_leap(y) {
            29
        } else {
            28
        }
    } else if m == 4 || m == 6 || m == 9 || m == 11 {
        30
    } else {
        31
    }
}

/// How many leap years there are from year 1 up to year `y`.
pub open spec fn leap_years(y: int) -> int {
    y / 4 - y / 100 + y / 400
}

/// The days of a year before its month `m`.
pub open spec fn days_before_month(y: int, m: int) -> int
    decreases m,
{
    if m <= 1 {
        0
    } else {
        days_before_month(y, m - 1) + days_in_month(y, m - 1)
    }
}

/// The days from 1970-01-01 to the first day of year `y`.
pub open spec fn days_before_year(y: int) -> int {
    365 * (y - 1970) + leap_years(y - 1) - leap_years(1969)
}

#[verifier::ext_equal]
pub struct Date {
    pub y: int,
    pub m: int,
    pub d: int,
}

/// The date is one of the calendar.
pub open spec fn is_date(t: Date) -> bool {
    1 <= t.m <= 12 && 1 <= t.d <= days_in_month(t.y, t.m)
}

/// The days from 1970-01-01 to a date.
pub open spec fn day_number(t: Date) -> int {
    days_before_year(t.y) + days_before_month(t.y, t.m) + t.d - 1
}

/// The date that many days after 1970-01-01.
pub open spec fn date_of(days: int) -> Date {
    choose|t: Date| is_date(t) && #[trigger] day_number(t) == days
}

/// A number with zeros before it where it has fewer than `width` digits.
pub open spec fn zero_padded(n: nat, width: nat) -> Seq<char> {
    padded_left(dec(n), width, '0')
}

/// A year with at least four characters.
pub open spec fn year_text(y: int) -> Seq<char> {
    if y < 0 {
        "-"@ + zero_padded((-y) as nat, 3)
    } else {
        zero_padded(y as nat, 4)
    }
}

/// A time in seconds since the start of 1970, written as in ISO 8601.
pub open spec fn iso_text(secs: int) -> Seq<char> {
    let t = date_of(secs / 86400);
    let rem = secs % 86400;
    year_text(t.y) + "-"@ + zero_padded(t.m as nat, 2) + "-"@ + zero_padded(t.d as nat, 2) + "T"@
        + zero_padded((rem / 3600) as nat, 2) + ":"@ + zero_padded((rem % 3600 / 60) as nat, 2)
        + ":"@ + zero_padded((rem % 60) as nat, 2) + "Z"@
}

/// The months of a year in one sum.
proof fn lemma_months(y: int)
    ensures
        days_before_month(y, 1) == 0,
        days_before_month(y, 2) == 31,
        days_before_month(y, 3) == 59 + leap_day(y),
        days_before_month(y, 4) == 90 + leap_day(y),
        days_before_month(y, 5) == 120 + leap_day(y),
        days_before_month(y, 6) == 151 + leap_day(y),
        days_before_month(y, 7) == 181 + leap_day(y),
        days_before_month(y, 8) == 212 + leap_day(y),
        days_before_month(y, 9) == 243 + leap_day(y),
        days_before_month(y, 10) == 273 + leap_day(y),
        days_before_month(y, 11) == 304 + leap_day(y),
        days_before_month(y, 12) == 334 + leap_day(y),
        days_before_month(y, 13) == 365 + leap_day(y),
{
    reveal_with_fuel(days_before_month, 14);
}

/// 1 in a leap year.
spec fn leap_day(y: int) -> int {
    if is_leap(y) {
        1
    } else {
        0
    }
}

/// Stepping back one year crosses a multiple of four, of a hundred, of four hundred, or not.
#[verifier::spinoff_prover]
proof fn lemma_step_four(y: int)
    ensures
        y / 4 - (y - 1) / 4 == if y % 4 == 0 {
            1int
        } else {
            0
        },
{
    let q = y / 4;
    let r = y % 4;
    lemma_fundamental_div_mod(y, 4);
    if r > 0 {
        lemma_fundamental_div_mod_converse(y - 1, 4, q, r - 1);
    } else {
        lemma_fundamental_div_mod_converse(y - 1, 4, q - 1, 3);
    }
}

#[verifier::spinoff_prover]
proof fn lemma_step_hundred(y: int)
    ensures
        y / 100 - (y - 1) / 100 == if y % 100 == 0 {
            1int
        } else {
            0
        },
        y % 100 == 0 ==> y % 4 == 0,
{
    let q = y / 100;
    let r = y % 100;
    lemma_fundamental_div_mod(y, 100);
    if r > 0 {
        lemma_fundamental_div_mod_converse(y - 1, 100, q, r - 1);
    } else {
        lemma_fundamental_div_mod_converse(y - 1, 100, q - 1, 99);
    }
    if r == 0 {
        lemma_fundamental_div_mod_converse(y, 4, 25 * q, 0);
    }
}

#[verifier::spinoff_prover]
proof fn lemma_step_four_hundred(y: int)
    ensures
        y / 400 - (y - 1) / 400 == if y % 400 == 0 {
            1int
        } else {
            0
        },
        y % 400 == 0 ==> y % 100 == 0,
{
    let q = y / 400;
    let r = y % 400;
    lemma_fundamental_div_mod(y, 400);
    if r > 0 {
        lemma_fundamental_div_mod_converse(y - 1, 400, q, r - 1);
    } else {
        lemma_fundamental_div_mod_converse(y - 1, 400, q - 1, 399);
    }
    if r == 0 {
        lemma_fundamental_div_mod_converse(y, 100, 4 * q, 0);
    }
}

/// A year is as long as its months.
#[verifier::spinoff_prover]
proof fn lemma_year_length(y: int)
    ensures
        days_before_year(y + 1) == days_before_year(y) + 365 + leap_day(y),
{
    lemma_step_four(y);
    lemma_step_hundred(y);
    lemma_step_four_hundred(y);
}

proof fn lemma_years_ascend(a: int, b: int)
    requires
        a < b,
    ensures
        days_before_year(a) + 365 + leap_day(a) <= days_before_year(b),
    decreases b - a,
{
    lemma_year_length(a);
    if a + 1 < b {
        lemma_years_ascend(a + 1, b);
    }
}

proof fn lemma_months_ascend(y: int, a: int, b: int)
    requires
        1 <= a < b <= 13,
    ensures
        days_before_month(y, a) + days_in_month(y, a) <= days_before_month(y, b),
    decreases b - a,
{
    if a + 1 < b {
        lemma_months_ascend(y, a, b - 1);
    }
}

/// A date lies within its year.
proof fn lemma_date_in_year(t: Date)
    requires
        is_date(t),
    ensures
        days_before_year(t.y) <= day_number(t) < days_before_year(t.y) + 365 + leap_day(t.y),
{
    lemma_months(t.y);
    lemma_months_ascend(t.y, t.m, 13);
    if t.m > 1 {
        lemma_months_ascend(t.y, 1, t.m);
    }
}

/// No two dates are the same number of days after 1970-01-01.
pub proof fn law_dates_are_unique(a: Date, b: Date)
    requires
        is_date(a),
        is_date(b),
        day_number(a) == day_number(b),
    ensures
        a == b,
{
    lemma_date_in_year(a);
    lemma_date_in_year(b);
    if a.y < b.y {
        lemma_years_ascend(a.y, b.y);
    }
    if b.y < a.y {
        lemma_years_ascend(b.y, a.y);
    }
    if a.m < b.m {
        lemma_months_ascend(a.y, a.m, b.m);
    }
    if b.m < a.m {
        lemma_months_ascend(a.y, b.m, a.m);
    }
}

/// The year, counted from March, that is `yoe` years into a cycle of 400 starts that many
/// days into it.
#[verifier::spinoff_prover]
proof fn lemma_cycle(a: int, b: int, c: int)
    requires
        0 <= a <= 3,
        0 <= b <= 24,
        0 <= c <= 3,
    ensures
        ({
            let yoe = 100 * a + 4 * b + c;
            &&& yoe / 4 == 25 * a + b
            &&& yoe / 100 == a
            &&& 365 * yoe + yoe / 4 - yoe / 100 == 36524 * a + 1461 * b + 365 * c
        }),
{
    let yoe = 100 * a + 4 * b + c;
    lemma_fundamental_div_mod_converse(yoe, 4, 25 * a + b, c);
    lemma_fundamental_div_mod_converse(yoe, 100, a, 4 * b + c);
}

/// A day of a year that starts in March, as a date. The cycle of 400 years begins with
/// March of the year 400 times `era`.
#[verifier::spinoff_prover]
proof fn lemma_march(era: int, yoe: int, doy: int, mp: int)
    requires
        0 <= yoe < 400,
        0 <= doy <= 365,
        mp == (5 * doy + 2) / 153,
        doy == 365 ==> is_leap(400 * era + yoe + 1),
    ensures
        ({
            let m = if mp < 10 {
                mp + 3
            } else {
                mp - 9
            };
            let y = 400 * era + yoe + if m <= 2 {
                1int
            } else {
                0
            };
            let d = doy - (153 * mp + 2) / 5 + 1;
            let t = Date { y, m, d };
            &&& is_date(t)
            &&& day_number(t) == 146097 * era + 365 * yoe + yoe / 4 - yoe / 100 + doy - 719468
        }),
{
    let year = 400 * era + yoe;
    assert(0 <= mp <= 11);
    lemma_fundamental_div_mod(yoe, 4);
    lemma_fundamental_div_mod(yoe, 100);
    lemma_fundamental_div_mod_converse(year, 4, 100 * era + yoe / 4, yoe % 4);
    lemma_fundamental_div_mod_converse(year, 100, 4 * era + yoe / 100, yoe % 100);
    lemma_fundamental_div_mod_converse(year, 400, era, yoe);
    assert(leap_years(year) == 97 * era + yoe / 4 - yoe / 100);
    assert(leap_years(1969) == 477);
    lemma_months(year);
    lemma_months(year + 1);
    lemma_year_length(year);
    // Month by month, from March to February.
    if mp == 0 {
    } else if mp == 1 {
    } else if mp == 2 {
    } else if mp == 3 {
    } else if mp == 4 {
    } else if mp == 5 {
    } else if mp == 6 {
    } else if mp == 7 {
    } else if mp == 8 {
    } else if mp == 9 {
    } else if mp == 10 {
    } else {
    }
}

/// A day of a cycle of 400 years that start in March: the century, the four years within it
/// and the year within those, and the day of that year. The last century and the last of
/// four years may be a day longer than the others.
#[verifier::spinoff_prover]
proof fn lemma_day_of_cycle(doe: int, a: int, b: int, c: int)
    requires
        0 <= doe < 146097,
        a == if doe / 36524 > 3 {
            3
        } else {
            doe / 36524
        },
        b == (doe - a * 36524) / 1461,
        c == if (doe - a * 36524) % 1461 / 365 > 3 {
            3
        } else {
            (doe - a * 36524) % 1461 / 365
        },
    ensures
        0 <= a <= 3,
        0 <= b <= 24,
        0 <= c <= 3,
        0 <= doe - a * 36524 - b * 1461 - c * 365 <= 365,
        doe - a * 36524 - b * 1461 - c * 365 == 365 ==> c == 3 && (b == 24 ==> a == 3),
{
}

/// Such a longer year ends with a leap day: that of the year after the one it starts in.
#[verifier::spinoff_prover]
proof fn lemma_longer_year(era: int, a: int, b: int)
    requires
        0 <= a <= 3,
        0 <= b <= 24,
        b == 24 ==> a == 3,
    ensures
        is_leap(400 * era + 100 * a + 4 * b + 4),
{
    let y = 400 * era + 100 * a + 4 * b + 4;
    lemma_fundamental_div_mod_converse(y, 4, 100 * era + 25 * a + b + 1, 0);
    if b == 24 {
        lemma_fundamental_div_mod_converse(y, 400, era + 1, 0);
    } else {
        lemma_fundamental_div_mod_converse(y, 100, 4 * era + a, 4 * (b + 1));
    }
}

/// The days after 1970-01-01 as year, month and day.
#[verifier::spinoff_prover]
#[verifier::rlimit(40)]
fn civil(days: i64) -> (r: (i64, u64, u64))
    requires
        -120_000_000_000_000 <= days <= 120_000_000_000_000,
    ensures
        is_date(Date { y: r.0 as int, m: r.1 as int, d: r.2 as int }),
        day_number(Date { y: r.0 as int, m: r.1 as int, d: r.2 as int }) == days,
        -400_000_000_000 <= r.0 <= 400_000_000_000,
{
    // Days since March of the year 400 * -900_000_000.
    let z: u64 = (days + 719_468 + 131_487_300_000_000) as u64;
    let era_up: u64 = z / 146_097;
    let doe: u64 = z % 146_097;
    let era: i64 = era_up as i64 - 900_000_000;
    let mut a: u64 = doe / 36_524;
    if a > 3 {
        a = 3;
    }
    proof {
        let rest = doe - a * 36524;
        let c = if rest % 1461 / 365 > 3 {
            3
        } else {
            rest % 1461 / 365
        };
        lemma_day_of_cycle(doe as int, a as int, rest / 1461, c);
    }
    let in_century: u64 = doe - a * 36_524;
    let b: u64 = in_century / 1461;
    let in_four: u64 = in_century % 1461;
    let mut c: u64 = in_four / 365;
    if c > 3 {
        c = 3;
    }
    let doy: u64 = in_four - c * 365;
    let yoe: u64 = 100 * a + 4 * b + c;
    proof {
        lemma_cycle(a as int, b as int, c as int);
        if doy == 365 {
            lemma_longer_year(era as int, a as int, b as int);
        }
    }
    let mp: u64 = (5 * doy + 2) / 153;
    proof {
        lemma_march(era as int, yoe as int, doy as int, mp as int);
    }
    let d: u64 = doy - (153 * mp + 2) / 5 + 1;
    let m: u64 = if mp < 10 {
        mp + 3
    } else {
        mp - 9
    };
    let y: i64 = 400 * era + yoe as i64 + if m <= 2 {
        1
    } else {
        0
    };
    (y, m, d)
}

fn zeros_before(n: u64, width: usize) -> (s: String)
    ensures
        s@ == zero_padded(n as nat, width as nat),
{
    pad_left(number(n, 10).as_str(), width, '0')
}

/// The time `secs` seconds after the start of 1970, as in ISO 8601.
pub fn iso_time(secs: i64) -> (s: String)
    ensures
        s@ == iso_text(secs as int),
{
    let (days, rem): (i64, u64) = if secs >= 0 {
        ((secs as u64 / DAY_SECONDS) as i64, secs as u64 % DAY_SECONDS)
    } else {
        // The last second before 1970 is the last of its day.
        let before: u64 = (-(secs + 1)) as u64;
        (-((before / DAY_SECONDS) as i64) - 1, DAY_SECONDS - 1 - before % DAY_SECONDS)
    };
    assert(days == secs / 86400 && rem == secs % 86400);
    let (y, m, d) = civil(days);
    proof {
        let t = Date { y: y as int, m: m as int, d: d as int };
        law_dates_are_unique(t, date_of(days as int));
    }
    let year = if y < 0 {
        Text::of("-").lit(zeros_before((-y) as u64, 3).as_str()).done()
    } else {
        zeros_before(y as u64, 4)
    };
    Text::of(year.as_str()).lit("-").lit(zeros_before(m, 2).as_str()).lit("-").lit(
        zeros_before(d, 2).as_str(),
    ).lit("T").lit(zeros_before(rem / 3600, 2).as_str()).lit(":").lit(
        zeros_before(rem % 3600 / 60, 2).as_str(),
    ).lit(":").lit(zeros_before(rem % 60, 2).as_str()).lit("Z").done()
}

/// Every day has a date.
pub proof fn law_every_day_has_a_date(days: int)
    ensures
        is_date(date_of(days)),
        day_number(date_of(days)) == days,
{
    let z = days + 719468;
    let era = z / 146097;
    let doe = z % 146097;
    let a = if doe / 36524 > 3 {
        3
    } else {
        doe / 36524
    };
    let rest = doe - a * 36524;
    let b = rest / 1461;
    let c = if rest % 1461 / 365 > 3 {
        3
    } else {
        rest % 1461 / 365
    };
    let doy = rest % 1461 - c * 365;
    lemma_day_of_cycle(doe, a, b, c);
    lemma_cycle(a, b, c);
    if doy == 365 {
        lemma_longer_year(era, a, b);
    }
    let yoe = 100 * a + 4 * b + c;
    let mp = (5 * doy + 2) / 153;
    lemma_march(era, yoe, doy, mp);
    let m = if mp < 10 {
        mp + 3
    } else {
        mp - 9
    };
    let y = 400 * era + yoe + if m <= 2 {
        1int
    } else {
        0
    };
    let t = Date { y, m, d: doy - (153 * mp + 2) / 5 + 1 };
    assert(is_date(t) && day_number(t) == days);
}

/// A later day has a later date.
proof fn lemma_dates_ascend(a: int, b: int)
    requires
        a < b,
    ensures
        ({
            let s = date_of(a);
            let t = date_of(b);
            s.y < t.y || s.y == t.y && (s.m < t.m || s.m == t.m && s.d < t.d)
        }),
{
    law_every_day_has_a_date(a);
    law_every_day_has_a_date(b);
    let s = date_of(a);
    let t = date_of(b);
    lemma_date_in_year(s);
    lemma_date_in_year(t);
    if t.y < s.y {
        lemma_years_ascend(t.y, s.y);
    }
    if t.y == s.y && t.m < s.m {
        lemma_months_ascend(s.y, t.m, s.m);
    }
}

/// Two digits, or four.
proof fn lemma_zero_padded(n: nat)
    ensures
        n < 100 ==> zero_padded(n, 2) == seq![digit_char(n / 10), digit_char(n % 10)],
        n < 10000 ==> zero_padded(n, 4) == seq![
            digit_char(n / 1000),
            digit_char(n / 100 % 10),
            digit_char(n / 10 % 10),
            digit_char(n % 10),
        ],
{
    reveal_with_fuel(crate::text::digits, 5);
    if n < 100 {
        assert(zero_padded(n, 2) =~= seq![digit_char(n / 10), digit_char(n % 10)]);
    }
    if n < 10000 {
        assert(n / 10 / 10 == n / 100);
        assert(n / 10 / 10 / 10 == n / 1000);
        assert(zero_padded(n, 4) =~= seq![
            digit_char(n / 1000),
            digit_char(n / 100 % 10),
            digit_char(n / 10 % 10),
            digit_char(n % 10),
        ]);
    }
}

/// A text comes before another where, after characters in which they agree, its next is lower.
proof fn lemma_text_below(a: Seq<char>, b: Seq<char>, k: int)
    requires
        0 <= k < a.len(),
        k < b.len(),
        a.take(k) == b.take(k),
        a[k] < b[k],
    ensures
        text_below(a, b),
    decreases k,
{
    if k > 0 {
        assert(a[0] == a.take(k)[0] && b[0] == b.take(k)[0]);
        assert(a.skip(1).take(k - 1) =~= a.take(k).skip(1));
        assert(b.skip(1).take(k - 1) =~= b.take(k).skip(1));
        lemma_text_below(a.skip(1), b.skip(1), k - 1);
    }
}

/// A number is the sum of its digits.
#[verifier::spinoff_prover]
proof fn lemma_digit_sum(n: nat)
    ensures
        n == 10 * (n / 10) + n % 10,
        n < 10000 ==> n == 1000 * (n / 1000) + 100 * (n / 100 % 10) + 10 * (n / 10 % 10) + n % 10,
{
    lemma_fundamental_div_mod(n as int, 10);
    lemma_fundamental_div_mod(n as int / 10, 10);
    lemma_fundamental_div_mod(n as int / 100, 10);
    assert(n / 10 / 10 == n / 100);
    assert(n / 100 / 10 == n / 1000);
}

/// Where a lower number of the same width first has a lower digit.
#[verifier::spinoff_prover]
proof fn lemma_lower_digit(p: nat, q: nat, width: nat) -> (k: int)
    requires
        p < q,
        width == 2 && q < 100 || width == 4 && q < 10000,
    ensures
        0 <= k < width,
        zero_padded(p, width).len() == width,
        zero_padded(q, width).len() == width,
        forall|i: int|
            0 <= i < k ==> #[trigger] zero_padded(p, width)[i] == zero_padded(q, width)[i],
        zero_padded(p, width)[k] < zero_padded(q, width)[k],
{
    lemma_zero_padded(p);
    lemma_zero_padded(q);
    lemma_digit_sum(p);
    lemma_digit_sum(q);
    let (a, b) = (p % 10, q % 10);
    if width == 2 {
        let (c, d) = (p / 10, q / 10);
        assert(c < d || c == d && a < b);
        if c < d {
            0
        } else {
            1
        }
    } else {
        let (c, d) = (p / 10 % 10, q / 10 % 10);
        let (g, h) = (p / 100 % 10, q / 100 % 10);
        let (m, n) = (p / 1000, q / 1000);
        assert(m < n || m == n && (g < h || g == h && (c < d || c == d && a < b)));
        if m < n {
            0
        } else if g < h {
            1
        } else if c < d {
            2
        } else {
            3
        }
    }
}

/// A lower number in the place of another makes a lower text, whatever follows.
#[verifier::spinoff_prover]
proof fn lemma_number_below(
    front: Seq<char>,
    p: nat,
    q: nat,
    width: nat,
    s: Seq<char>,
    t: Seq<char>,
)
    requires
        p < q,
        width == 2 && q < 100 || width == 4 && q < 10000,
    ensures
        text_below(front + zero_padded(p, width) + s, front + zero_padded(q, width) + t),
{
    let k = lemma_lower_digit(p, q, width);
    let x = zero_padded(p, width);
    let y = zero_padded(q, width);
    let a = front + x + s;
    let b = front + y + t;
    let n = front.len() + k;
    assert forall|i: int| 0 <= i < n implies #[trigger] a.take(n)[i] == b.take(n)[i] by {
        if i >= front.len() {
            assert(x[i - front.len()] == y[i - front.len()]);
        }
    }
    assert(a.take(n) =~= b.take(n));
    lemma_text_below(a, b, n);
}

/// The first second of the year 0.
pub const FIRST_SECOND: i64 = -62_167_219_200;

/// The last second of the year 9999.
pub const LAST_SECOND: i64 = 253_402_300_799;

/// Between those the year has four digits.
pub proof fn lemma_four_digits(secs: int)
    requires
        FIRST_SECOND <= secs <= LAST_SECOND,
    ensures
        is_date(date_of(secs / 86400)),
        0 <= date_of(secs / 86400).y <= 9999,
{
    let days = secs / 86400;
    let t = date_of(days);
    law_every_day_has_a_date(days);
    lemma_date_in_year(t);
    assert(days_before_year(0) == -719528);
    assert(days_before_year(10000) == 2932897);
    if t.y < 0 {
        lemma_years_ascend(t.y, 0);
    }
    if t.y > 10000 {
        lemma_years_ascend(10000, t.y);
    }
}

/// The text has the form `YYYY-MM-DDTHH:MM:SSZ`.
pub open spec fn has_iso_form(s: Seq<char>) -> bool {
    &&& s.len() == 20
    &&& s[4] == '-' && s[7] == '-' && s[10] == 'T' && s[13] == ':' && s[16] == ':' && s[19] == 'Z'
    &&& forall|i: int|
        0 <= i < 19 && i != 4 && i != 7 && i != 10 && i != 13 && i != 16 ==> '0' <= #[trigger] s[i]
            <= '9'
}

/// A time of the years 0 to 9999 is written in twenty characters, with the numbers of a date
/// of the calendar and of a time of the day that together are that time.
#[verifier::spinoff_prover]
pub proof fn law_texts_name_their_time(secs: int)
    requires
        FIRST_SECOND <= secs <= LAST_SECOND,
    ensures
        has_iso_form(iso_text(secs)),
        ({
            let t = date_of(secs / 86400);
            let rem = secs % 86400;
            let s = iso_text(secs);
            &&& is_date(t)
            &&& s.subrange(0, 4) == zero_padded(t.y as nat, 4)
            &&& s.subrange(5, 7) == zero_padded(t.m as nat, 2)
            &&& s.subrange(8, 10) == zero_padded(t.d as nat, 2)
            &&& s.subrange(11, 13) == zero_padded((rem / 3600) as nat, 2)
            &&& s.subrange(14, 16) == zero_padded((rem % 3600 / 60) as nat, 2)
            &&& s.subrange(17, 19) == zero_padded((rem % 60) as nat, 2)
            &&& secs == 86400 * day_number(t) + 3600 * (rem / 3600) + 60 * (rem % 3600 / 60) + rem
                % 60
        }),
{
    let t = date_of(secs / 86400);
    let rem = secs % 86400;
    let s = iso_text(secs);
    lemma_four_digits(secs);
    law_every_day_has_a_date(secs / 86400);
    reveal_strlit("-");
    reveal_strlit("T");
    reveal_strlit(":");
    reveal_strlit("Z");
    lemma_widths(t, rem);
    assert(s.subrange(0, 4) =~= zero_padded(t.y as nat, 4));
    assert(s.subrange(5, 7) =~= zero_padded(t.m as nat, 2));
    assert(s.subrange(8, 10) =~= zero_padded(t.d as nat, 2));
    assert(s.subrange(11, 13) =~= zero_padded((rem / 3600) as nat, 2));
    assert(s.subrange(14, 16) =~= zero_padded((rem % 3600 / 60) as nat, 2));
    assert(s.subrange(17, 19) =~= zero_padded((rem % 60) as nat, 2));
    lemma_zero_padded(t.y as nat);
    lemma_zero_padded(t.m as nat);
    lemma_zero_padded(t.d as nat);
    lemma_zero_padded((rem / 3600) as nat);
    lemma_zero_padded((rem % 3600 / 60) as nat);
    lemma_zero_padded((rem % 60) as nat);
    assert forall|i: int|
        0 <= i < 19 && i != 4 && i != 7 && i != 10 && i != 13 && i != 16 implies '0'
            <= #[trigger] s[i] <= '9' by {
        if i < 4 {
            assert(s[i] == s.subrange(0, 4)[i]);
        } else if i < 7 {
            assert(s[i] == s.subrange(5, 7)[i - 5]);
        } else if i < 10 {
            assert(s[i] == s.subrange(8, 10)[i - 8]);
        } else if i < 13 {
            assert(s[i] == s.subrange(11, 13)[i - 11]);
        } else if i < 16 {
            assert(s[i] == s.subrange(14, 16)[i - 14]);
        } else {
            assert(s[i] == s.subrange(17, 19)[i - 17]);
        }
    }
}

/// A later time of those years has a text that comes later.
#[verifier::spinoff_prover]
#[verifier::rlimit(40)]
pub proof fn law_texts_sort_as_times(a: int, b: int)
    requires
        FIRST_SECOND <= a < b <= LAST_SECOND,
    ensures
        text_below(iso_text(a), iso_text(b)),
{
    let s = date_of(a / 86400);
    let t = date_of(b / 86400);
    let v = a % 86400;
    let w = b % 86400;
    lemma_four_digits(a);
    lemma_four_digits(b);
    if a / 86400 < b / 86400 {
        lemma_dates_ascend(a / 86400, b / 86400);
    }
    reveal_strlit("-");
    reveal_strlit("T");
    reveal_strlit(":");
    reveal_strlit("Z");
    lemma_widths(s, v);
    lemma_widths(t, w);
    let x0 = year_text(s.y) + "-"@;
    let x1 = x0 + zero_padded(s.m as nat, 2) + "-"@;
    let x2 = x1 + zero_padded(s.d as nat, 2) + "T"@;
    let x3 = x2 + zero_padded((v / 3600) as nat, 2) + ":"@;
    let x4 = x3 + zero_padded((v % 3600 / 60) as nat, 2) + ":"@;
    let x5 = x4 + zero_padded((v % 60) as nat, 2) + "Z"@;
    let y0 = year_text(t.y) + "-"@;
    let y1 = y0 + zero_padded(t.m as nat, 2) + "-"@;
    let y2 = y1 + zero_padded(t.d as nat, 2) + "T"@;
    let y3 = y2 + zero_padded((w / 3600) as nat, 2) + ":"@;
    let y4 = y3 + zero_padded((w % 3600 / 60) as nat, 2) + ":"@;
    let y5 = y4 + zero_padded((w % 60) as nat, 2) + "Z"@;
    assert(iso_text(a) == x5);
    assert(iso_text(b) == y5);
    if s.y != t.y {
        let none = Seq::<char>::empty();
        lemma_number_below(none, s.y as nat, t.y as nat, 4, x5.skip(4), y5.skip(4));
        assert(x5 =~= none + zero_padded(s.y as nat, 4) + x5.skip(4));
        assert(y5 =~= none + zero_padded(t.y as nat, 4) + y5.skip(4));
    } else if s.m != t.m {
        lemma_number_below(x0, s.m as nat, t.m as nat, 2, x5.skip(7), y5.skip(7));
        assert(x5 =~= x0 + zero_padded(s.m as nat, 2) + x5.skip(7));
        assert(y5 =~= y0 + zero_padded(t.m as nat, 2) + y5.skip(7));
    } else if s.d != t.d {
        lemma_number_below(x1, s.d as nat, t.d as nat, 2, x5.skip(10), y5.skip(10));
        assert(x5 =~= x1 + zero_padded(s.d as nat, 2) + x5.skip(10));
        assert(y5 =~= y1 + zero_padded(t.d as nat, 2) + y5.skip(10));
    } else {
        assert(v < w);
        let (i, j) = ((v / 3600) as nat, (w / 3600) as nat);
        let (k, l) = ((v % 3600 / 60) as nat, (w % 3600 / 60) as nat);
        let (m, n) = ((v % 60) as nat, (w % 60) as nat);
        assert(v == 3600 * i + 60 * k + m);
        assert(w == 3600 * j + 60 * l + n);
        if i != j {
            lemma_number_below(x2, i, j, 2, x5.skip(13), y5.skip(13));
            assert(x5 =~= x2 + zero_padded(i, 2) + x5.skip(13));
            assert(y5 =~= y2 + zero_padded(j, 2) + y5.skip(13));
        } else if k != l {
            lemma_number_below(x3, k, l, 2, x5.skip(16), y5.skip(16));
            assert(x5 =~= x3 + zero_padded(k, 2) + x5.skip(16));
            assert(y5 =~= y3 + zero_padded(l, 2) + y5.skip(16));
        } else {
            lemma_number_below(x4, m, n, 2, "Z"@, "Z"@);
        }
    }
}

/// Each of the numbers of a time has its width.
proof fn lemma_widths(t: Date, rem: int)
    requires
        is_date(t),
        0 <= t.y <= 9999,
        0 <= rem < 86400,
    ensures
        year_text(t.y) == zero_padded(t.y as nat, 4),
        year_text(t.y).len() == 4,
        zero_padded(t.m as nat, 2).len() == 2,
        zero_padded(t.d as nat, 2).len() == 2,
        zero_padded((rem / 3600) as nat, 2).len() == 2,
        zero_padded((rem % 3600 / 60) as nat, 2).len() == 2,
        zero_padded((rem % 60) as nat, 2).len() == 2,
{
    lemma_zero_padded(t.y as nat);
    lemma_zero_padded(t.m as nat);
    lemma_zero_padded(t.d as nat);
    lemma_zero_padded((rem / 3600) as nat);
    lemma_zero_padded((rem % 3600 / 60) as nat);
    lemma_zero_padded((rem % 60) as nat);
}

} // verus!
