//! Turning the date and time written at the head of a message line into a
//! UTC timestamp in milliseconds.
use vstd::prelude::*;

verus! {

pub open spec fn is_digit(c: char) -> bool {
    '0' <= c && c <= '9'
}

/// The decimal number written by the digits `s` (the empty run is zero).
pub open spec fn number_of(s: Seq<char>) -> int
    decreases s.len(),
{
    if s.len() == 0 {
        0
    } else {
        number_of(s.drop_last()) * 10 + (s.last() as int - '0' as int)
    }
}

pub open spec fn all_digits(s: Seq<char>) -> bool {
    forall|i: int| 0 <= i < s.len() ==> is_digit(#[trigger] s[i])
}

pub open spec fn is_leap_year(y: int) -> bool {
    y % 4 == 0 && (y % 100 != 0 || y % 400 == 0)
}

pub open spec fn days_in_month(y: int, m: int) -> int {
    if m == 2 {
        if is_leap_year(y) { 29 } else { 28 }
    } else if m == 4 || m == 6 || m == 9 || m == 11 {
        30
    } else {
        31
    }
}

pub open spec fn is_valid_date(y: int, m: int, d: int) -> bool {
    1 <= m <= 12 && 1 <= d <= days_in_month(y, m)
}

/// Days from 0000-01-01 to the first of January of year `y >= 0`
/// (proleptic Gregorian calendar; year 0 is a leap year).
pub open spec fn days_before_year(y: int) -> int {
    365 * y + (y + 3) / 4 - (y + 99) / 100 + (y + 399) / 400
}

/// Days from the first of January to the first day of month `m` of year `y`.
pub open spec fn days_before_month(y: int, m: int) -> int {
    let base: int = if m == 1 {
        0
    } else if m == 2 {
        31
    } else if m == 3 {
        59
    } else if m == 4 {
        90
    } else if m == 5 {
        120
    } else if m == 6 {
        151
    } else if m == 7 {
        181
    } else if m == 8 {
        212
    } else if m == 9 {
        243
    } else if m == 10 {
        273
    } else if m == 11 {
        304
    } else {
        334
    };
    if m > 2 && is_leap_year(y) { base + 1 } else { base }
}

/// Days from 1970-01-01 to the given date.
pub open spec fn epoch_days(y: int, m: int, d: int) -> int {
    days_before_year(y) + days_before_month(y, m) + (d - 1) - days_before_year(1970)
}

/// Milliseconds from 1970-01-01 00:00 UTC to the given date and time.
pub open spec fn epoch_millis(y: int, m: int, d: int, hour: int, minute: int) -> int {
    ((epoch_days(y, m, d) * 24 + hour) * 60 + minute) * 60_000
}

/// The milliseconds from 1970-01-01 00:00 UTC to the given date and time,
/// or `None` where they name no real date or time.
pub open spec fn calendar_millis(y: int, m: int, d: int, hour: int, minute: int) -> Option<int> {
    if is_valid_date(y, m, d) && 0 <= hour < 24 && 0 <= minute < 60 {
        Some(epoch_millis(y, m, d, hour, minute))
    } else {
        None
    }
}

/// The calendar year written with `digits`: four digits stand for themselves;
/// two digits `yy` stand for `19yy` from 70 on and for `20yy` below 70;
/// any other count is no year.
pub open spec fn full_year(digits: Seq<char>) -> Option<int> {
    if digits.len() == 4 {
        Some(number_of(digits))
    } else if digits.len() == 2 {
        let yy = number_of(digits);
        if yy >= 70 { Some(1900 + yy) } else { Some(2000 + yy) }
    } else {
        None
    }
}

/// The timestamp of the date and time written with the given digit runs,
/// or `None` where they name no real date or time.
pub open spec fn timestamp_of(
    day: Seq<char>,
    month: Seq<char>,
    year: Seq<char>,
    hour: Seq<char>,
    minute: Seq<char>,
) -> Option<int> {
    match full_year(year) {
        Some(y) => calendar_millis(y, number_of(month), number_of(day), number_of(hour), number_of(minute)),
        None => None,
    }
}

pub proof fn lemma_number_bound(s: Seq<char>)
    requires
        all_digits(s),
    ensures
        0 <= number_of(s),
        s.len() <= 1 ==> number_of(s) < 10,
        s.len() <= 2 ==> number_of(s) < 100,
        s.len() <= 3 ==> number_of(s) < 1000,
        s.len() <= 4 ==> number_of(s) < 10000,
    decreases s.len(),
{
    if s.len() > 0 {
        let t = s.drop_last();
        assert(all_digits(t)) by {
            assert forall|i: int| 0 <= i < t.len() implies is_digit(#[trigger] t[i]) by {
                assert(t[i] == s[i]);
            }
        }
        assert(is_digit(s[s.len() - 1]));
        lemma_number_bound(t);
    }
}

/// The century digits that a two-digit year stands under: `19` from 70 on,
/// `20` below.
pub open spec fn century_digits(yy: Seq<char>) -> Seq<char> {
    if number_of(yy) >= 70 {
        seq!['1', '9']
    } else {
        seq!['2', '0']
    }
}

proof fn lemma_century_number(yy: Seq<char>)
    requires
        yy.len() == 2,
    ensures
        number_of(century_digits(yy) + yy) == if number_of(yy) >= 70 { 1900 + number_of(yy) } else { 2000 + number_of(yy) },
{
    let c = century_digits(yy);
    let w = c + yy;
    let w1 = seq![c[0]];
    let w2 = seq![c[0], c[1]];
    let w3 = seq![c[0], c[1], yy[0]];
    let y1 = seq![yy[0]];
    assert(w.drop_last() =~= w3);
    assert(w3.drop_last() =~= w2);
    assert(w2.drop_last() =~= w1);
    assert(w1.drop_last() =~= Seq::<char>::empty());
    assert(yy.drop_last() =~= y1);
    assert(y1.drop_last() =~= Seq::<char>::empty());
    assert(number_of(Seq::<char>::empty()) == 0);
    assert(w1.last() == c[0]);
    assert(w2.last() == c[1]);
    assert(w3.last() == yy[0]);
    assert(w.last() == yy[1]);
    assert(y1.last() == yy[0]);
    let (d0, d1) = (c[0] as int - '0' as int, c[1] as int - '0' as int);
    let (e0, e1) = (yy[0] as int - '0' as int, yy[1] as int - '0' as int);
    assert(number_of(w1) == d0);
    assert(number_of(w2) == d0 * 10 + d1);
    assert(number_of(w3) == (d0 * 10 + d1) * 10 + e0);
    assert(number_of(w) == ((d0 * 10 + d1) * 10 + e0) * 10 + e1);
    assert(number_of(y1) == e0);
    assert(number_of(yy) == e0 * 10 + e1);
}

/// A date written with a two-digit year `yy` names the same instant as the
/// same date written with the four-digit year `19yy` (from 70 on) or `20yy`
/// (below 70).
pub proof fn lemma_two_digit_year(
    day: Seq<char>,
    month: Seq<char>,
    yy: Seq<char>,
    hour: Seq<char>,
    minute: Seq<char>,
)
    requires
        yy.len() == 2,
    ensures
        timestamp_of(day, month, yy, hour, minute) == timestamp_of(
            day,
            month,
            century_digits(yy) + yy,
            hour,
            minute,
        ),
{
    lemma_century_number(yy);
    assert(full_year(yy) == full_year(century_digits(yy) + yy));
}

pub open spec fn year_length(y: int) -> int {
    if is_leap_year(y) { 366 } else { 365 }
}

proof fn lemma_year_step(y: int)
    requires
        y >= 0,
    ensures
        days_before_year(y + 1) == days_before_year(y) + year_length(y),
{
}

proof fn lemma_years_increase(y1: int, y2: int)
    requires
        0 <= y1 < y2,
    ensures
        days_before_year(y2) >= days_before_year(y1) + year_length(y1),
    decreases y2 - y1,
{
    lemma_year_step(y1);
    if y2 > y1 + 1 {
        lemma_years_increase(y1 + 1, y2);
        lemma_year_step(y1 + 1);
    }
}

proof fn lemma_day_of_year(y: int, m: int, d: int)
    requires
        is_valid_date(y, m, d),
    ensures
        0 <= days_before_month(y, m) + d - 1 < year_length(y),
{
}

proof fn lemma_months_increase(y: int, m1: int, m2: int)
    requires
        1 <= m1 < m2 <= 12,
    ensures
        days_before_month(y, m2) >= days_before_month(y, m1) + days_in_month(y, m1),
    decreases m2 - m1,
{
    if m2 > m1 + 1 {
        lemma_months_increase(y, m1 + 1, m2);
    }
}

/// `(y1, m1, d1, h1, i1)` comes before `(y2, m2, d2, h2, i2)` in the order of
/// year, then month, day, hour and minute.
pub open spec fn comes_before(
    y1: int,
    m1: int,
    d1: int,
    h1: int,
    i1: int,
    y2: int,
    m2: int,
    d2: int,
    h2: int,
    i2: int,
) -> bool {
    ||| y1 < y2
    ||| y1 == y2 && m1 < m2
    ||| y1 == y2 && m1 == m2 && d1 < d2
    ||| y1 == y2 && m1 == m2 && d1 == d2 && h1 < h2
    ||| y1 == y2 && m1 == m2 && d1 == d2 && h1 == h2 && i1 < i2
}

/// Timestamps follow the order of dates and times: of two real dates and
/// times from year 0 on, the earlier one has the smaller timestamp.
pub proof fn lemma_timestamps_follow_date_order(
    y1: int,
    m1: int,
    d1: int,
    h1: int,
    i1: int,
    y2: int,
    m2: int,
    d2: int,
    h2: int,
    i2: int,
)
    requires
        y1 >= 0 && y2 >= 0,
        calendar_millis(y1, m1, d1, h1, i1) is Some,
        calendar_millis(y2, m2, d2, h2, i2) is Some,
        comes_before(y1, m1, d1, h1, i1, y2, m2, d2, h2, i2),
    ensures
        calendar_millis(y1, m1, d1, h1, i1)->0 < calendar_millis(y2, m2, d2, h2, i2)->0,
{
    let e1 = epoch_days(y1, m1, d1);
    let e2 = epoch_days(y2, m2, d2);
    lemma_day_of_year(y1, m1, d1);
    lemma_day_of_year(y2, m2, d2);
    if y1 < y2 {
        lemma_years_increase(y1, y2);
        assert(e1 < e2);
    } else if m1 < m2 {
        lemma_months_increase(y1, m1, m2);
        assert(e1 < e2);
    }
    assert(e1 <= e2);
    if e1 < e2 {
        assert((e1 * 24 + h1) * 60 + i1 < (e2 * 24 + h2) * 60 + i2);
    }
}

/// Relies on chrono: `NaiveDate::from_ymd_opt` (`None` exactly for a day that
/// the calendar does not have), `NaiveDate::and_hms_opt` (`None` exactly for
/// an hour over 23 or a minute over 59), and `NaiveDateTime::and_utc` with
/// `DateTime::timestamp_millis` (milliseconds since 1970-01-01 00:00 UTC).
#[verifier::external_body]
fn utc_millis(year: i32, month: u32, day: u32, hour: u32, minute: u32) -> (r: Option<i64>)
    requires
        0 <= year <= 9999,
    ensures
        r is Some <==> calendar_millis(year as int, month as int, day as int, hour as int, minute as int) is Some,
        r matches Some(t) ==> calendar_millis(year as int, month as int, day as int, hour as int, minute as int) == Some(t as int),
{
    let date = chrono::NaiveDate::from_ymd_opt(year, month, day)?;
    let moment = date.and_hms_opt(hour, minute, 0)?;
    Some(moment.and_utc().timestamp_millis())
}

/// The number written by `s[from..to]`, a run of at most four digits.
pub fn read_number(s: &Vec<char>, from: usize, to: usize) -> (r: u32)
    requires
        from <= to <= s.len(),
        to - from <= 4,
        all_digits(s@.subrange(from as int, to as int)),
    ensures
        r == number_of(s@.subrange(from as int, to as int)),
{
    let mut r: u32 = 0;
    let mut i: usize = from;
    while i < to
        invariant
            from <= i <= to <= s.len(),
            to - from <= 4,
            all_digits(s@.subrange(from as int, to as int)),
            r == number_of(s@.subrange(from as int, i as int)),
        decreases to - i,
    {
        let ghost run = s@.subrange(from as int, i as int + 1);
        proof {
            assert(run.drop_last() =~= s@.subrange(from as int, i as int));
            assert(s@.subrange(from as int, to as int)[i - from] == s@[i as int]);
            assert(all_digits(run)) by {
                assert forall|k: int| 0 <= k < run.len() implies is_digit(#[trigger] run[k]) by {
                    assert(run[k] == s@.subrange(from as int, to as int)[k]);
                }
            }
            lemma_number_bound(run);
        }
        r = r * 10 + (s[i] as u32 - '0' as u32);
        i = i + 1;
    }
    r
}

/// The timestamp written by the digit runs `s[day.0..day.1]` (the day),
/// `s[month.0..month.1]` and so on; see [`timestamp_of`].
pub fn resolve_timestamp(
    s: &Vec<char>,
    day: (usize, usize),
    month: (usize, usize),
    year: (usize, usize),
    hour: (usize, usize),
    minute: (usize, usize),
) -> (r: Option<i64>)
    requires
        day.0 <= day.1 <= s.len(),
        day.1 - day.0 <= 2,
        month.0 <= month.1 <= s.len(),
        month.1 - month.0 <= 2,
        year.0 <= year.1 <= s.len(),
        year.1 - year.0 <= 4,
        hour.0 <= hour.1 <= s.len(),
        hour.1 - hour.0 <= 2,
        minute.0 <= minute.1 <= s.len(),
        minute.1 - minute.0 <= 2,
        all_digits(s@.subrange(day.0 as int, day.1 as int)),
        all_digits(s@.subrange(month.0 as int, month.1 as int)),
        all_digits(s@.subrange(year.0 as int, year.1 as int)),
        all_digits(s@.subrange(hour.0 as int, hour.1 as int)),
        all_digits(s@.subrange(minute.0 as int, minute.1 as int)),
    ensures
        r matches Some(t) ==> timestamp_of(
            s@.subrange(day.0 as int, day.1 as int),
            s@.subrange(month.0 as int, month.1 as int),
            s@.subrange(year.0 as int, year.1 as int),
            s@.subrange(hour.0 as int, hour.1 as int),
            s@.subrange(minute.0 as int, minute.1 as int),
        ) == Some(t as int),
        r is None ==> timestamp_of(
            s@.subrange(day.0 as int, day.1 as int),
            s@.subrange(month.0 as int, month.1 as int),
            s@.subrange(year.0 as int, year.1 as int),
            s@.subrange(hour.0 as int, hour.1 as int),
            s@.subrange(minute.0 as int, minute.1 as int),
        ) is None,
{
    let year_digits = year.1 - year.0;
    if year_digits != 2 && year_digits != 4 {
        return None;
    }
    let written = read_number(s, year.0, year.1);
    proof {
        lemma_number_bound(s@.subrange(year.0 as int, year.1 as int));
    }
    let full: u32 = if year_digits == 4 {
        written
    } else if written >= 70 {
        1900 + written
    } else {
        2000 + written
    };
    let d = read_number(s, day.0, day.1);
    let m = read_number(s, month.0, month.1);
    let h = read_number(s, hour.0, hour.1);
    let mi = read_number(s, minute.0, minute.1);
    utc_millis(full as i32, m, d, h, mi)
}

} // verus!
