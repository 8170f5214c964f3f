//! The calendar day by day, and times as they are written.

use vstd::prelude::*;

use crate::number_laws::{law_decimals, law_padding, numeral_value};
use crate::text::dec;
use crate::time::{
    date_of, day_number, days_before_month, is_date, iso_text, law_dates_are_unique,
    law_every_day_has_a_date, law_texts_name_their_time, leap_years, year_text, zero_padded, Date,
};

verus! {

/// The days of a month: thirty for April, June, September and November, and for February
/// twenty-eight, or twenty-nine every fourth year but for three in four of the centuries.
pub open spec fn length_of_month(y: int, m: int) -> int {
    if m == 4 || m == 6 || m == 9 || m == 11 {
        30
    } else if m != 2 {
        31
    } else if y % 400 == 0 || (y % 4 == 0 && y % 100 != 0) {
        29
    } else {
        28
    }
}

/// The day after a date.
pub open spec fn day_after(t: Date) -> Date {
    if t.d < length_of_month(t.y, t.m) {
        Date { d: t.d + 1, ..t }
    } else if t.m < 12 {
        Date { y: t.y, m: t.m + 1, d: 1 }
    } else {
        Date { y: t.y + 1, m: 1, d: 1 }
    }
}

proof fn lemma_leap_years(y: int)
    ensures
        leap_years(y) - leap_years(y - 1) == length_of_month(y, 2) - 28,
{
    assert(y / 4 - (y - 1) / 4 == if y % 4 == 0 {
        1int
    } else {
        0
    });
    assert(y / 100 - (y - 1) / 100 == if y % 100 == 0 {
        1int
    } else {
        0
    });
    assert(y / 400 - (y - 1) / 400 == if y % 400 == 0 {
        1int
    } else {
        0
    });
}

proof fn lemma_year_length(y: int)
    ensures
        days_before_month(y, 13) == 337 + length_of_month(y, 2),
{
    reveal_with_fuel(days_before_month, 14);
}

proof fn lemma_day_after(t: Date)
    requires
        is_date(t),
    ensures
        is_date(day_after(t)),
        day_number(day_after(t)) == day_number(t) + 1,
{
    let u = day_after(t);
    if t.m == 12 && t.d == 31 {
        lemma_year_length(t.y);
        lemma_leap_years(t.y);
        assert(days_before_month(t.y, 13) == days_before_month(t.y, 12) + 31);
        assert(days_before_month(u.y, 1) == 0);
    } else if t.d == length_of_month(t.y, t.m) {
        assert(days_before_month(t.y, t.m + 1) == days_before_month(t.y, t.m) + t.d);
    }
}

/// Day 0 is the first of January 1970, and each day has the date after that of the day before.
pub proof fn law_days_follow_one_another(days: int)
    ensures
        date_of(0) == (Date { y: 1970, m: 1, d: 1 }),
        date_of(days + 1) == day_after(date_of(days)),
{
    let first = Date { y: 1970, m: 1, d: 1 };
    assert(is_date(first) && day_number(first) == 0);
    law_every_day_has_a_date(0);
    law_dates_are_unique(date_of(0), first);
    law_every_day_has_a_date(days);
    law_every_day_has_a_date(days + 1);
    lemma_day_after(date_of(days));
    law_dates_are_unique(date_of(days + 1), day_after(date_of(days)));
}

proof fn lemma_after_zeros(z: Seq<char>, s: Seq<char>)
    requires
        forall|i: int| 0 <= i < z.len() ==> #[trigger] z[i] == '0',
    ensures
        numeral_value(z + s, 10) == numeral_value(s, 10),
    decreases z.len() + s.len(),
{
    if s.len() > 0 {
        assert((z + s).drop_last() =~= z + s.drop_last());
        assert((z + s).last() == s.last());
        lemma_after_zeros(z, s.drop_last());
    } else {
        assert(z + s =~= z);
        if z.len() > 0 {
            assert(z.last() == '0');
            assert(z.drop_last() + s =~= z.drop_last());
            lemma_after_zeros(z.drop_last(), s);
        }
    }
}

proof fn lemma_padded_value(n: nat, width: nat)
    ensures
        numeral_value(zero_padded(n, width), 10) == n,
{
    law_decimals(n);
    law_padding(dec(n), width, '0');
    let p = zero_padded(n, width);
    let k = p.len() - dec(n).len();
    assert(p =~= p.take(k) + p.skip(k));
    lemma_after_zeros(p.take(k), p.skip(k));
}

/// The numbers that a written time shows are those of its date and of its time of the day; with
/// the day that the date stands for they add up to the time.
pub proof fn law_times_are_written(secs: int)
    requires
        -62_167_219_200 <= secs <= 253_402_300_799,
    ensures
        ({
            let s = iso_text(secs);
            let t = date_of(secs / 86400);
            let h = numeral_value(s.subrange(11, 13), 10);
            let m = numeral_value(s.subrange(14, 16), 10);
            let n = numeral_value(s.subrange(17, 19), 10);
            &&& s.len() == 20
            &&& numeral_value(s.subrange(0, 4), 10) == t.y
            &&& numeral_value(s.subrange(5, 7), 10) == t.m
            &&& numeral_value(s.subrange(8, 10), 10) == t.d
            &&& 0 <= h < 24
            &&& 0 <= m < 60
            &&& 0 <= n < 60
            &&& secs % 86400 == 3600 * h + 60 * m + n
            &&& s[4] == '-' && s[7] == '-' && s[10] == 'T' && s[13] == ':' && s[16] == ':' && s[19]
                == 'Z'
        }),
{
    law_texts_name_their_time(secs);
    let t = date_of(secs / 86400);
    let rem = secs % 86400;
    assert(t.y >= 0) by {
        if t.y < 0 {
            crate::time::lemma_four_digits(secs);
        }
    }
    lemma_padded_value(t.y as nat, 4);
    lemma_padded_value(t.m as nat, 2);
    lemma_padded_value(t.d as nat, 2);
    lemma_padded_value((rem / 3600) as nat, 2);
    lemma_padded_value((rem % 3600 / 60) as nat, 2);
    lemma_padded_value((rem % 60) as nat, 2);
}

/// A year is written with at least four characters; one before the year 0 has a minus sign.
pub proof fn law_years_are_written(y: int)
    ensures
        year_text(y).len() >= 4,
        y >= 0 ==> numeral_value(year_text(y), 10) == y,
        y < 0 ==> year_text(y)[0] == '-' && numeral_value(year_text(y).skip(1), 10) == -y,
{
    reveal_strlit("-");
    if y < 0 {
        law_padding(dec((-y) as nat), 3, '0');
        lemma_padded_value((-y) as nat, 3);
        assert(year_text(y).skip(1) =~= zero_padded((-y) as nat, 3));
    } else {
        law_padding(dec(y as nat), 4, '0');
        lemma_padded_value(y as nat, 4);
    }
}

} // verus!
