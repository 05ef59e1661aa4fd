//! Dates: the proleptic Gregorian calendar, UTC offsets, calendar buckets
//! and the parsing of user-supplied dates.
use vstd::prelude::*;
use vstd::string::*;
use crate::text::{
    all_digits, chars_of, decimal, digit, digit_value, i64_of, int_of, is_digit, pad2,
    parse_i64, push_char, push_decimal, same_chars, trim, trim_str,
};

verus! {

// ---------------------------------------------------------------------------
// The calendar
// ---------------------------------------------------------------------------
/// The first year that the date library represents.
pub const MIN_YEAR: i32 = -9999;

/// The last year that the date library represents.
pub const MAX_YEAR: i32 = 9999;

/// The first second of year `MIN_YEAR`, in Unix seconds.
pub const MIN_TS: i64 = -377705116800;

/// The last second of year `MAX_YEAR`, in Unix seconds.
pub const MAX_TS: i64 = 253402300799;

/// The first second of year `MAX_YEAR`, in Unix seconds.
pub const LAST_YEAR_TS: i64 = 253370764800;

/// The largest UTC offset, in seconds (25:59:59).
pub const MAX_OFFSET: i32 = 93599;

/// The seconds of a day.
pub const DAY: i64 = 86400;

pub open spec fn is_leap(y: int) -> bool {
    y % 4 == 0 && (y % 100 != 0 || y % 400 == 0)
}

pub open spec fn days_in_year(y: int) -> int {
    if is_leap(y) {
        366
    } else {
        365
    }
}

pub open spec fn days_in_month(y: int, m: int) -> int {
    if m == 2 {
        if is_leap(y) {
            29
        } else {
            28
        }
    } else if m == 4 || m == 6 || m == 9 || m == 11 {
        30
    } else {
        31
    }
}

/// The days of year `y` before the first of month `m` (1 to 13).
pub open spec fn days_before_month(y: int, m: int) -> int {
    let l: int = if is_leap(y) {
        1
    } else {
        0
    };
    if m <= 1 {
        0
    } else if m == 2 {
        31
    } else if m == 3 {
        59 + l
    } else if m == 4 {
        90 + l
    } else if m == 5 {
        120 + l
    } else if m == 6 {
        151 + l
    } else if m == 7 {
        181 + l
    } else if m == 8 {
        212 + l
    } else if m == 9 {
        243 + l
    } else if m == 10 {
        273 + l
    } else if m == 11 {
        304 + l
    } else if m == 12 {
        334 + l
    } else {
        365 + l
    }
}

/// The days from 0001-01-01 to the first of January of year `y`.
pub open spec fn days_before_year(y: int) -> int {
    365 * (y - 1) + (y - 1) / 4 - (y - 1) / 100 + (y - 1) / 400
}

/// The day number of a date, counted from 1970-01-01.
pub open spec fn epoch_day(y: int, m: int, d: int) -> int {
    days_before_year(y) + days_before_month(y, m) + d - 1 - 719162
}

/// A date of the calendar in the years that the date library represents.
pub open spec fn valid_date(y: int, m: int, d: int) -> bool {
    MIN_YEAR <= y <= MAX_YEAR && 1 <= m <= 12 && 1 <= d <= days_in_month(y, m)
}

/// The date whose day number is `days`.
pub open spec fn civil_of(days: int) -> (int, int, int) {
    choose|c: (int, int, int)| valid_date(c.0, c.1, c.2) && epoch_day(c.0, c.1, c.2) == days
}

/// The day of the week of a day number, Monday being 0 (1970-01-01 was a Thursday).
pub open spec fn weekday(days: int) -> int {
    (days + 3) % 7
}

/// The day number of the moment `ts` seen at offset `off`.
pub open spec fn local_day(ts: int, off: int) -> int {
    (ts + off) / 86400
}

proof fn lemma_div4(y: int)
    ensures
        y / 4 - (y - 1) / 4 == if y % 4 == 0 { 1int } else { 0 },
{
}

proof fn lemma_div100(y: int)
    ensures
        y / 100 - (y - 1) / 100 == if y % 100 == 0 { 1int } else { 0 },
{
}

proof fn lemma_div400(y: int)
    ensures
        y / 400 - (y - 1) / 400 == if y % 400 == 0 { 1int } else { 0 },
{
}

proof fn lemma_year_length(y: int)
    ensures
        days_before_year(y + 1) == days_before_year(y) + days_in_year(y),
        days_before_month(y, 13) == days_in_year(y),
{
    lemma_div4(y);
    lemma_div100(y);
    lemma_div400(y);
}

proof fn lemma_years_increase(y1: int, y2: int)
    requires
        y1 < y2,
    ensures
        days_before_year(y1) + days_in_year(y1) <= days_before_year(y2),
    decreases y2 - y1,
{
    lemma_year_length(y1);
    if y1 + 1 < y2 {
        lemma_years_increase(y1 + 1, y2);
    }
}

proof fn lemma_months_increase(y: int, m1: int, m2: int)
    requires
        1 <= m1 < m2 <= 13,
    ensures
        days_before_month(y, m1) + days_in_month(y, m1) <= days_before_month(y, m2),
{
}

/// A valid date lies inside its year.
proof fn lemma_day_in_year(y: int, m: int, d: int)
    requires
        valid_date(y, m, d),
    ensures
        0 <= days_before_month(y, m) + d - 1 < days_in_year(y),
{
    lemma_year_length(y);
    lemma_months_increase(y, m, 13);
}

/// Distinct valid dates have distinct day numbers.
pub proof fn lemma_epoch_day_injective(y1: int, m1: int, d1: int, y2: int, m2: int, d2: int)
    requires
        valid_date(y1, m1, d1),
        valid_date(y2, m2, d2),
        epoch_day(y1, m1, d1) == epoch_day(y2, m2, d2),
    ensures
        y1 == y2 && m1 == m2 && d1 == d2,
{
    lemma_day_in_year(y1, m1, d1);
    lemma_day_in_year(y2, m2, d2);
    if y1 < y2 {
        lemma_years_increase(y1, y2);
    } else if y2 < y1 {
        lemma_years_increase(y2, y1);
    } else if m1 < m2 {
        lemma_months_increase(y1, m1, m2);
    } else if m2 < m1 {
        lemma_months_increase(y1, m2, m1);
    }
}

/// `civil_of` gives back the date of a day number.
pub proof fn lemma_civil_of(y: int, m: int, d: int)
    requires
        valid_date(y, m, d),
    ensures
        civil_of(epoch_day(y, m, d)) == (y, m, d),
{
    let days = epoch_day(y, m, d);
    assert(valid_date((y, m, d).0, (y, m, d).1, (y, m, d).2) && epoch_day(
        (y, m, d).0,
        (y, m, d).1,
        (y, m, d).2,
    ) == days);
    let c = civil_of(days);
    lemma_epoch_day_injective(c.0, c.1, c.2, y, m, d);
}

// ---------------------------------------------------------------------------
// Offsets, dates and the date library
// ---------------------------------------------------------------------------
/// A UTC offset in seconds, east of Greenwich positive.
#[derive(Clone, Copy)]
pub struct Offset {
    pub secs: i32,
}

impl Offset {
    /// The offset lies in the range that the date library represents.
    pub open spec fn wf(&self) -> bool {
        -MAX_OFFSET <= self.secs <= MAX_OFFSET
    }

    pub fn utc() -> (r: Offset)
        ensures
            r.secs == 0,
    {
        Offset { secs: 0 }
    }

    /// The offset of `secs` seconds, if it is in range.
    pub fn from_seconds(secs: i32) -> (r: Option<Offset>)
        ensures
            r is Some <==> -MAX_OFFSET <= secs <= MAX_OFFSET,
            r is Some ==> r->Some_0.secs == secs,
    {
        if -MAX_OFFSET <= secs && secs <= MAX_OFFSET {
            Some(Offset { secs })
        } else {
            None
        }
    }
}

/// A calendar date.
#[derive(Clone, Copy)]
pub struct CivilDate {
    pub year: i32,
    pub month: u8,
    pub day: u8,
}

/// Relies on `OffsetDateTime::from_unix_timestamp`, `to_offset` and `date`:
/// the date in the proleptic Gregorian calendar of the moment `ts` seen at
/// offset `off`. Neither call fails or panics in the range required here.
#[verifier::external_body]
fn date_at(ts: i64, off: i32) -> (r: CivilDate)
    requires
        MIN_TS <= ts <= MAX_TS,
        MIN_TS <= ts + off <= MAX_TS,
        -MAX_OFFSET <= off <= MAX_OFFSET,
    ensures
        valid_date(r.year as int, r.month as int, r.day as int),
        epoch_day(r.year as int, r.month as int, r.day as int) == local_day(ts as int, off as int),
{
    let o = time::UtcOffset::from_whole_seconds(off).unwrap();
    let d = time::OffsetDateTime::from_unix_timestamp(ts).unwrap().to_offset(o).date();
    CivilDate { year: d.year(), month: d.month() as u8, day: d.day() }
}

/// Relies on `Date::from_calendar_date`, `Date::with_hms`,
/// `PrimitiveDateTime::assume_offset` and `OffsetDateTime::unix_timestamp`:
/// the Unix time of a wall-clock date and time at offset `off`, when the date
/// exists in the proleptic Gregorian calendar and in the library's years.
#[verifier::external_body]
fn timestamp_of(y: i32, m: u8, d: u8, hh: u8, mm: u8, ss: u8, off: i32) -> (r: Option<i64>)
    requires
        1 <= m <= 12,
        hh < 24,
        mm < 60,
        ss < 60,
        -MAX_OFFSET <= off <= MAX_OFFSET,
    ensures
        r is Some <==> valid_date(y as int, m as int, d as int),
        r is Some ==> r->Some_0 == epoch_day(y as int, m as int, d as int) * 86400 + hh * 3600 + mm
            * 60 + ss - off,
{
    let month = time::Month::try_from(m).ok()?;
    let date = time::Date::from_calendar_date(y, month, d).ok()?;
    let o = time::UtcOffset::from_whole_seconds(off).ok()?;
    Some(date.with_hms(hh, mm, ss).ok()?.assume_offset(o).unix_timestamp())
}

/// The day number of the moment `ts` seen at offset `off`.
fn day_number(ts: i64, off: i32) -> (r: i64)
    requires
        MIN_TS <= ts + off <= MAX_TS,
    ensures
        r == local_day(ts as int, off as int),
        -4371587 <= r <= 2932896,
{
    let shifted = ts + off as i64 - MIN_TS;
    let r = shifted / DAY - 4371587;
    assert(MIN_TS == -4371587 * 86400);
    r
}

// ---------------------------------------------------------------------------
// Calendar buckets
// ---------------------------------------------------------------------------
/// A span of calendar time to group events by.
#[derive(Clone, Copy, PartialEq, Eq, Structural, Debug)]
pub enum Timespan {
    Year,
    Month,
    Week,
    Day,
}

/// The timestamps that the bucketer takes at offset `off`: the moment and its
/// local time lie in the library's years, before the last of them.
pub open spec fn span_range(ts: int, off: int) -> bool {
    &&& MIN_TS <= ts <= MAX_TS
    &&& MIN_TS <= ts + off < LAST_YEAR_TS
    &&& -MAX_OFFSET <= off <= MAX_OFFSET
}

/// The day number of the first day of the span after the one holding day `days`.
pub open spec fn next_day(span: Timespan, days: int) -> int {
    let c = civil_of(days);
    match span {
        Timespan::Year => epoch_day(c.0 + 1, 1, 1),
        Timespan::Month => if c.1 == 12 {
            epoch_day(c.0 + 1, 1, 1)
        } else {
            epoch_day(c.0, c.1 + 1, 1)
        },
        Timespan::Week => days + 7 - weekday(days),
        Timespan::Day => days + 1,
    }
}

/// The span boundary after `ts` at offset `off`, in Unix seconds.
pub open spec fn next_spec(span: Timespan, ts: int, off: int) -> int {
    next_day(span, local_day(ts, off)) * 86400 - off
}

/// The grouping of `s`: `y`, `m`, `w` or `d`.
pub fn parse_timespan(s: &str) -> (r: Result<Timespan, String>)
    ensures
        r is Ok <==> (s@ == "y"@ || s@ == "m"@ || s@ == "w"@ || s@ == "d"@),
        s@ == "y"@ ==> r == Ok::<Timespan, String>(Timespan::Year),
        s@ == "m"@ ==> r == Ok::<Timespan, String>(Timespan::Month),
        s@ == "w"@ ==> r == Ok::<Timespan, String>(Timespan::Week),
        s@ == "d"@ ==> r == Ok::<Timespan, String>(Timespan::Day),
{
    let cs = chars_of(s);
    proof {
        reveal_strlit("y");
        reveal_strlit("m");
        reveal_strlit("w");
        reveal_strlit("d");
    }
    if cs.len() == 1 {
        let c = cs[0];
        if c == 'y' {
            assert(s@ =~= "y"@);
            return Ok(Timespan::Year);
        } else if c == 'm' {
            assert(s@ =~= "m"@);
            return Ok(Timespan::Month);
        } else if c == 'w' {
            assert(s@ =~= "w"@);
            return Ok(Timespan::Week);
        } else if c == 'd' {
            assert(s@ =~= "d"@);
            return Ok(Timespan::Day);
        }
    }
    Err(String::from_str("Valid values are y(ear), m(onth), w(eek), d(ay)"))
}

impl Timespan {
    /// Advance `ts` to the start of the next year, month, week (Monday) or
    /// day, as the wall clock reads at `offset`.
    pub fn next(&self, ts: i64, offset: Offset) -> (r: i64)
        requires
            span_range(ts as int, offset.secs as int),
        ensures
            r == next_spec(*self, ts as int, offset.secs as int),
    {
        let off = offset.secs;
        let days = day_number(ts, off);
        match self {
            Timespan::Day => (days + 1) * DAY - off as i64,
            Timespan::Week => {
                let wd = (days + 4371587) % 7;
                assert(weekday(days as int) == wd) by {
                    assert(4371587int % 7 == 3);
                }
                (days + 7 - wd) * DAY - off as i64
            },
            _ => {
                let d = date_at(ts, off);
                proof {
                    lemma_civil_of(d.year as int, d.month as int, d.day as int);
                    lemma_day_in_year(d.year as int, d.month as int, d.day as int);
                    lemma_year_length(d.year as int);
                    if d.year >= MAX_YEAR {
                        lemma_years_increase(MAX_YEAR as int, d.year as int + 1);
                        assert(false);
                    }
                }
                let (y, m) = if *self == Timespan::Year || d.month == 12 {
                    (d.year + 1, 1u8)
                } else {
                    (d.year, d.month + 1)
                };
                match timestamp_of(y, m, 1, 0, 0, 0, off) {
                    Some(t) => t,
                    None => 0,
                }
            },
        }
    }
}

/// Day `days` has a date in the library's years.
pub open spec fn has_date(days: int) -> bool {
    exists|c: (int, int, int)| valid_date(c.0, c.1, c.2) && epoch_day(c.0, c.1, c.2) == days
}

/// Every day number from the first to the last day of the library's years has a date.
pub proof fn lemma_has_date(days: int)
    requires
        -4371587 <= days <= 2932896,
    ensures
        has_date(days),
        valid_date(civil_of(days).0, civil_of(days).1, civil_of(days).2),
        epoch_day(civil_of(days).0, civil_of(days).1, civil_of(days).2) == days,
    decreases days + 4371587,
{
    if days == -4371587 {
        let c = (-9999int, 1int, 1int);
        assert(valid_date(c.0, c.1, c.2) && epoch_day(c.0, c.1, c.2) == days);
    } else {
        lemma_has_date(days - 1);
        let c = civil_of(days - 1);
        let (y, m, d) = c;
        lemma_year_length(y);
        let n: (int, int, int) = if d < days_in_month(y, m) {
            (y, m, d + 1)
        } else if m < 12 {
            (y, m + 1, 1)
        } else {
            (y + 1, 1, 1)
        };
        if y == MAX_YEAR && m == 12 && d == 31 {
            assert(epoch_day(y, m, d) == 2932896);
            assert(false);
        }
        assert(valid_date(n.0, n.1, n.2) && epoch_day(n.0, n.1, n.2) == days);
    }
}

/// The bucketer's boundary is a midnight at the offset, strictly after `ts`,
/// on the first day of the next year, of the next month, on the next Monday,
/// or on the next day.
#[verifier::rlimit(60)]
pub proof fn lemma_next_boundary(span: Timespan, ts: int, off: int)
    requires
        span_range(ts, off),
    ensures
        next_spec(span, ts, off) > ts,
        (next_spec(span, ts, off) + off) % 86400 == 0,
        ({
            let days = local_day(ts, off);
            let c = civil_of(days);
            let nd = local_day(next_spec(span, ts, off), off);
            let n = civil_of(nd);
            match span {
                Timespan::Year => n == (c.0 + 1, 1int, 1int),
                Timespan::Month => n == if c.1 == 12 {
                    (c.0 + 1, 1int, 1int)
                } else {
                    (c.0, c.1 + 1, 1int)
                },
                Timespan::Week => weekday(nd) == 0 && days < nd <= days + 7,
                Timespan::Day => nd == days + 1,
            }
        }),
{
    let days = local_day(ts, off);
    assert(MIN_TS == -4371587 * 86400);
    assert(LAST_YEAR_TS == 2932532 * 86400);
    lemma_has_date(days);
    let c = civil_of(days);
    lemma_day_in_year(c.0, c.1, c.2);
    lemma_year_length(c.0);
    if c.0 >= MAX_YEAR {
        lemma_years_increase(MAX_YEAR as int, c.0 + 1);
    }
    let nd = next_day(span, days);
    assert(local_day(nd * 86400 - off, off) == nd);
    match span {
        Timespan::Year => {
            lemma_civil_of(c.0 + 1, 1, 1);
        },
        Timespan::Month => {
            lemma_months_increase(c.0, c.1, c.1 + 1);
            if c.1 == 12 {
                lemma_civil_of(c.0 + 1, 1, 1);
            } else {
                lemma_civil_of(c.0, c.1 + 1, 1);
            }
        },
        _ => {},
    }
}

// ---------------------------------------------------------------------------
// Absolute dates
// ---------------------------------------------------------------------------
/// `s[i..i + n]` are digits.
pub open spec fn digits_at(s: Seq<char>, i: int, n: int) -> bool {
    forall|k: int| i <= k < i + n ==> is_digit(#[trigger] s[k])
}

/// The value of the two digits at `s[i]`.
pub open spec fn two_at(s: Seq<char>, i: int) -> int {
    digit_value(s[i]) * 10 + digit_value(s[i + 1])
}

/// The fields (year, month, day, hour, minute, second) of
/// `[+|-]YYYY-MM-DD`, `... HH:MM` or `... HH:MM:SS` (with `T` or a space
/// before the time); a missing time field is 0.
pub open spec fn ymd_fields(s: Seq<char>) -> Option<(int, int, int, int, int, int)> {
    let p: int = if s.len() > 0 && (s[0] == '+' || s[0] == '-') {
        1
    } else {
        0
    };
    let n = s.len() - p;
    let v = two_at(s, p) * 100 + two_at(s, p + 2);
    if (n == 10 || n == 16 || n == 19) && digits_at(s, p, 4) && s[p + 4] == '-' && digits_at(
        s,
        p + 5,
        2,
    ) && s[p + 7] == '-' && digits_at(s, p + 8, 2) && (n >= 16 ==> ((s[p + 10] == 'T' || s[p
        + 10] == ' ') && digits_at(s, p + 11, 2) && s[p + 13] == ':' && digits_at(s, p + 14, 2)))
        && (n == 19 ==> (s[p + 16] == ':' && digits_at(s, p + 17, 2))) {
        Some(
            (
                if p == 1 && s[0] == '-' {
                    -v
                } else {
                    v
                },
                two_at(s, p + 5),
                two_at(s, p + 8),
                if n >= 16 {
                    two_at(s, p + 11)
                } else {
                    0
                },
                if n >= 16 {
                    two_at(s, p + 14)
                } else {
                    0
                },
                if n == 19 {
                    two_at(s, p + 17)
                } else {
                    0
                },
            ),
        )
    } else {
        None
    }
}

/// The Unix time of an absolute date string read at offset `off`.
pub open spec fn absolute_ts(s: Seq<char>, off: int) -> Option<int> {
    match ymd_fields(s) {
        Some((y, m, d, h, mi, se)) => if 1 <= m <= 12 && h < 24 && mi < 60 && se < 60
            && valid_date(y, m, d) {
            Some(epoch_day(y, m, d) * 86400 + h * 3600 + mi * 60 + se - off)
        } else {
            None
        },
        None => None,
    }
}

fn two_digits(cs: &Vec<char>, i: usize) -> (r: Option<u8>)
    requires
        i + 2 <= cs@.len(),
    ensures
        r is Some <==> digits_at(cs@, i as int, 2),
        r is Some ==> r->Some_0 == two_at(cs@, i as int),
{
    let n = cs.len();
    let a = cs[i];
    let b = cs[i + 1];
    if digit(a) && digit(b) {
        Some(((a as u32 - '0' as u32) * 10 + (b as u32 - '0' as u32)) as u8)
    } else {
        None
    }
}

/// The fields of an absolute date string, as `ymd_fields` reads them.
fn ymd_fields_of(cs: &Vec<char>) -> (r: Option<(i32, u8, u8, u8, u8, u8)>)
    ensures
        r is Some <==> ymd_fields(cs@) is Some,
        r matches Some((y, mo, d, h, mi, se)) ==> ymd_fields(cs@) == Some(
            (y as int, mo as int, d as int, h as int, mi as int, se as int),
        ),
{
    let len = cs.len();
    let p: usize = if len > 0 && (cs[0] == '+' || cs[0] == '-') {
        1
    } else {
        0
    };
    let n = len - p;
    if !(n == 10 || n == 16 || n == 19) {
        return None;
    }
    let y1 = match two_digits(cs, p) {
        Some(v) => v,
        None => return None,
    };
    let y2 = match two_digits(cs, p + 2) {
        Some(v) => v,
        None => {
            assert(!digits_at(cs@, p as int, 4)) by {
                assert(!digits_at(cs@, p + 2, 2));
            }
            return None;
        },
    };
    assert(digits_at(cs@, p as int, 4)) by {
        assert forall|k: int| p <= k < p + 4 implies is_digit(#[trigger] cs@[k]) by {
            if k < p + 2 {
                assert(digits_at(cs@, p as int, 2));
            } else {
                assert(digits_at(cs@, p + 2, 2));
            }
        }
    }
    if cs[p + 4] != '-' || cs[p + 7] != '-' {
        return None;
    }
    let mo = match two_digits(cs, p + 5) {
        Some(v) => v,
        None => return None,
    };
    let d = match two_digits(cs, p + 8) {
        Some(v) => v,
        None => return None,
    };
    let mut h: u8 = 0;
    let mut mi: u8 = 0;
    let mut se: u8 = 0;
    if n >= 16 {
        if !(cs[p + 10] == 'T' || cs[p + 10] == ' ') || cs[p + 13] != ':' {
            return None;
        }
        h = match two_digits(cs, p + 11) {
            Some(v) => v,
            None => return None,
        };
        mi = match two_digits(cs, p + 14) {
            Some(v) => v,
            None => return None,
        };
    }
    if n == 19 {
        if cs[p + 16] != ':' {
            return None;
        }
        se = match two_digits(cs, p + 17) {
            Some(v) => v,
            None => return None,
        };
    }
    let year: i32 = if p == 1 && cs[0] == '-' {
        -(y1 as i32 * 100 + y2 as i32)
    } else {
        y1 as i32 * 100 + y2 as i32
    };
    Some((year, mo, d, h, mi, se))
}

/// Parse an absolute date, read at `offset`, into Unix seconds.
pub fn parse_date_yyyymmdd(s: &str, offset: Offset) -> (r: Option<i64>)
    requires
        offset.wf(),
    ensures
        r is Some <==> absolute_ts(s@, offset.secs as int) is Some,
        r is Some ==> r->Some_0 == absolute_ts(s@, offset.secs as int)->Some_0,
{
    let cs = chars_of(s);
    let (year, mo, d, h, mi, se) = match ymd_fields_of(&cs) {
        Some(f) => f,
        None => return None,
    };
    if mo < 1 || mo > 12 || h >= 24 || mi >= 60 || se >= 60 {
        return None;
    }
    timestamp_of(year, mo, d, h, mi, se, offset.secs)
}

// ---------------------------------------------------------------------------
// Relative dates
// ---------------------------------------------------------------------------
/// Whether `c` has the Unicode Alphabetic or Numeric property.
pub uninterp spec fn alnum(c: char) -> bool;

/// Relies on `char::is_alphanumeric`: the Unicode Alphabetic or Numeric property.
#[verifier::external_body]
fn is_alphanumeric(c: char) -> (r: bool)
    ensures
        r == alnum(c),
{
    c.is_alphanumeric()
}

/// The class of a character in a relative date: 1 for a digit, 2 for a
/// lowercase ASCII letter, 0 for anything else.
pub open spec fn ago_class(c: char) -> int {
    if is_digit(c) {
        1
    } else if 'a' <= c && c <= 'z' {
        2
    } else {
        0
    }
}

/// The spans of the runs of digits and of lowercase letters in `s`.
pub open spec fn ago_spans(s: Seq<char>) -> Seq<(int, int)>
    decreases s.len(),
{
    if s.len() == 0 {
        Seq::empty()
    } else {
        let p = ago_spans(s.drop_last());
        let n = s.len() - 1;
        let k = ago_class(s[n]);
        if k == 0 {
            p
        } else if n > 0 && ago_class(s[n - 1]) == k {
            p.update(p.len() - 1, (p.last().0, n + 1))
        } else {
            p.push((n, n + 1))
        }
    }
}

/// The numbers and words of a relative date, in order.
pub open spec fn ago_tokens(s: Seq<char>) -> Seq<Seq<char>> {
    ago_spans(s).map_values(|p: (int, int)| s.subrange(p.0, p.1))
}

/// The length in seconds of a fixed unit; -1 for years, -2 for months, 0 for
/// an unknown unit.
pub open spec fn unit_of(u: Seq<char>) -> int {
    if u == "y"@ || u == "year"@ || u == "years"@ {
        -1
    } else if u == "m"@ || u == "month"@ || u == "months"@ {
        -2
    } else if u == "w"@ || u == "week"@ || u == "weeks"@ {
        604800
    } else if u == "d"@ || u == "day"@ || u == "days"@ {
        86400
    } else if u == "h"@ || u == "hour"@ || u == "hours"@ {
        3600
    } else if u == "min"@ || u == "mins"@ || u == "minute"@ || u == "minutes"@ {
        60
    } else if u == "s"@ || u == "sec"@ || u == "secs"@ || u == "second"@ || u == "seconds"@ {
        1
    } else {
        0
    }
}

/// The day `d` of a month, brought back to the month's last day if needed.
pub open spec fn clamp_day(y: int, m: int, d: int) -> int {
    if d <= days_in_month(y, m) {
        d
    } else {
        days_in_month(y, m)
    }
}

/// The moment `t` moved to year `y` and month `m`, keeping its day of month
/// (clamped) and its time of day.
pub open spec fn move_to_month(t: int, y: int, m: int) -> Option<int> {
    let c = civil_of(t / 86400);
    if y < MIN_YEAR {
        None
    } else {
        Some(epoch_day(y, m, clamp_day(y, m, c.2)) * 86400 + t % 86400)
    }
}

/// `t` moved back by `n` of the unit `k` (as `unit_of` gives it).
pub open spec fn ago_step(t: int, n: int, k: int) -> Option<int> {
    if k == -1 || k == -2 {
        if MIN_TS <= t <= MAX_TS {
            let c = civil_of(t / 86400);
            if k == -1 {
                move_to_month(t, c.0 - n, c.1)
            } else {
                let total = c.0 * 12 + (c.1 - 1) - n;
                move_to_month(t, total / 12, total % 12 + 1)
            }
        } else {
            None
        }
    } else if k > 0 {
        if t - n * k >= MIN_TS {
            Some(t - n * k)
        } else {
            None
        }
    } else {
        None
    }
}

/// The moment `t` moved back by each `number unit` pair of `toks`, in order.
pub open spec fn ago_apply(toks: Seq<Seq<char>>, t: int) -> Option<int>
    decreases toks.len(),
{
    if toks.len() == 0 {
        Some(t)
    } else if toks.len() == 1 {
        None
    } else {
        match i64_of(toks[0]) {
            Some(n) => if 0 <= n <= i32::MAX {
                match ago_step(t, n as int, unit_of(toks[1])) {
                    Some(t2) => ago_apply(toks.skip(2), t2),
                    None => None,
                }
            } else {
                None
            },
            None => None,
        }
    }
}

/// A character that a relative date may hold: a letter or digit (ASCII or
/// Unicode alphanumeric), a space or a comma.
pub open spec fn ago_char_ok(c: char) -> bool {
    if (c as u32) < 128 {
        is_digit(c) || ('a' <= c && c <= 'z') || ('A' <= c && c <= 'Z') || c == ' ' || c == ','
    } else {
        alnum(c)
    }
}

/// The characters of a relative date are all allowed.
pub open spec fn ago_chars_ok(s: Seq<char>) -> bool {
    forall|i: int| 0 <= i < s.len() ==> ago_char_ok(#[trigger] s[i])
}

/// The moment that a relative date `s` names, counted back from `now`.
pub open spec fn ago_of(s: Seq<char>, now: int) -> Option<int> {
    if ago_chars_ok(s) && ago_tokens(s).len() > 0 {
        ago_apply(ago_tokens(s), now)
    } else {
        None
    }
}

fn ago_token_spans(s: &Vec<char>) -> (r: Vec<(usize, usize)>)
    ensures
        r@.len() == ago_spans(s@).len(),
        forall|k: int|
            0 <= k < r@.len() ==> (#[trigger] r@[k]).0 == ago_spans(s@)[k].0 && r@[k].1
                == ago_spans(s@)[k].1 && r@[k].0 < r@[k].1 <= s@.len(),
{
    let mut r: Vec<(usize, usize)> = Vec::new();
    let mut i: usize = 0;
    while i < s.len()
        invariant
            i <= s@.len(),
            r@.len() == ago_spans(s@.take(i as int)).len(),
            forall|k: int|
                0 <= k < r@.len() ==> (#[trigger] r@[k]).0 == ago_spans(s@.take(i as int))[k].0
                    && r@[k].1 == ago_spans(s@.take(i as int))[k].1 && r@[k].0 < r@[k].1 <= i,
            (i > 0 && ago_class(s@[i - 1]) != 0) ==> r@.len() > 0 && r@.last().1 == i,
        decreases s@.len() - i,
    {
        assert(s@.take(i + 1).drop_last() =~= s@.take(i as int));
        let k = class_of(s[i]);
        if k == 0 {
        } else if i > 0 && class_of(s[i - 1]) == k {
            let last = r.len() - 1;
            let st = r[last].0;
            r.set(last, (st, i + 1));
        } else {
            r.push((i, i + 1));
        }
        i += 1;
    }
    assert(s@.take(s@.len() as int) =~= s@);
    r
}

fn class_of(c: char) -> (r: u8)
    ensures
        r as int == ago_class(c),
{
    if digit(c) {
        1
    } else if 'a' <= c && c <= 'z' {
        2
    } else {
        0
    }
}

/// Whether `u` is one of the words `w`.
fn word_in(u: &Vec<char>, w: &Vec<&str>) -> (r: bool)
    ensures
        r <==> exists|i: int| 0 <= i < w@.len() && u@ == (#[trigger] w@[i])@,
{
    let mut i: usize = 0;
    while i < w.len()
        invariant
            i <= w@.len(),
            forall|j: int| 0 <= j < i ==> u@ != (#[trigger] w@[j])@,
        decreases w@.len() - i,
    {
        if same_chars(u, w[i]) {
            return true;
        }
        i += 1;
    }
    false
}

/// The unit code of a word, as `unit_of` gives it.
fn unit_code(u: &str) -> (r: i64)
    ensures
        r == unit_of(u@),
{
    let cs = chars_of(u);
    let years = vec!["y", "year", "years"];
    if word_in(&cs, &years) {
        assert(u@ == "y"@ || u@ == "year"@ || u@ == "years"@);
        return -1;
    }
    assert(u@ != years@[0]@ && u@ != years@[1]@ && u@ != years@[2]@);
    let months = vec!["m", "month", "months"];
    if word_in(&cs, &months) {
        assert(u@ == "m"@ || u@ == "month"@ || u@ == "months"@);
        return -2;
    }
    assert(u@ != months@[0]@ && u@ != months@[1]@ && u@ != months@[2]@);
    let weeks = vec!["w", "week", "weeks"];
    if word_in(&cs, &weeks) {
        assert(u@ == "w"@ || u@ == "week"@ || u@ == "weeks"@);
        return 604800;
    }
    assert(u@ != weeks@[0]@ && u@ != weeks@[1]@ && u@ != weeks@[2]@);
    let days = vec!["d", "day", "days"];
    if word_in(&cs, &days) {
        assert(u@ == "d"@ || u@ == "day"@ || u@ == "days"@);
        return 86400;
    }
    assert(u@ != days@[0]@ && u@ != days@[1]@ && u@ != days@[2]@);
    let hours = vec!["h", "hour", "hours"];
    if word_in(&cs, &hours) {
        assert(u@ == "h"@ || u@ == "hour"@ || u@ == "hours"@);
        return 3600;
    }
    assert(u@ != hours@[0]@ && u@ != hours@[1]@ && u@ != hours@[2]@);
    let minutes = vec!["min", "mins", "minute", "minutes"];
    if word_in(&cs, &minutes) {
        assert(u@ == "min"@ || u@ == "mins"@ || u@ == "minute"@ || u@ == "minutes"@);
        return 60;
    }
    assert(u@ != minutes@[0]@ && u@ != minutes@[1]@ && u@ != minutes@[2]@ && u@
        != minutes@[3]@);
    let seconds = vec!["s", "sec", "secs", "second", "seconds"];
    if word_in(&cs, &seconds) {
        assert(u@ == "s"@ || u@ == "sec"@ || u@ == "secs"@ || u@ == "second"@ || u@
            == "seconds"@);
        return 1;
    }
    assert(u@ != seconds@[0]@ && u@ != seconds@[1]@ && u@ != seconds@[2]@ && u@
        != seconds@[3]@ && u@ != seconds@[4]@);
    0
}

pub fn is_leap_year(y: i64) -> (r: bool)
    requires
        MIN_YEAR <= y <= MAX_YEAR,
    ensures
        r == is_leap(y as int),
{
    let z = (y + 10400) as u64;
    assert(z as int % 4 == y % 4 && z as int % 100 == y % 100 && z as int % 400 == y % 400);
    z % 4 == 0 && (z % 100 != 0 || z % 400 == 0)
}

pub fn month_days(y: i64, m: i64) -> (r: u8)
    requires
        MIN_YEAR <= y <= MAX_YEAR,
        1 <= m <= 12,
    ensures
        r as int == days_in_month(y as int, m as int),
{
    if m == 2 {
        if is_leap_year(y) {
            29
        } else {
            28
        }
    } else if m == 4 || m == 6 || m == 9 || m == 11 {
        30
    } else {
        31
    }
}

/// The year and month `n` months before month `m` of year `y`, if it is in
/// the library's years.
fn months_back(y: i32, m: u8, n: i64) -> (r: Option<(i64, i64)>)
    requires
        MIN_YEAR <= y <= MAX_YEAR,
        1 <= m <= 12,
        0 <= n <= i32::MAX,
    ensures
        ({
            let total = y * 12 + (m - 1) - n;
            match r {
                Some((y2, m2)) => y2 == total / 12 && m2 == total % 12 + 1 && MIN_YEAR <= y2
                    <= MAX_YEAR,
                None => total / 12 < MIN_YEAR,
            }
        }),
{
    let total = y as i64 * 12 + (m as i64 - 1) - n;
    if total < MIN_YEAR as i64 * 12 {
        return None;
    }
    let z = total + 120000;
    assert(z / 12 - 10000 == total / 12 && z % 12 == total % 12);
    Some((z / 12 - 10000, z % 12 + 1))
}

/// The time of `t` kept, on day `d` (clamped) of month `m2` of year `y2`.
fn at_month(t: i64, y2: i64, m2: i64, d: u8) -> (r: Option<i64>)
    requires
        MIN_TS <= t <= MAX_TS,
        MIN_YEAR <= y2 <= MAX_YEAR,
        1 <= m2 <= 12,
        1 <= d <= 31,
    ensures
        r == Some((epoch_day(y2 as int, m2 as int, clamp_day(y2 as int, m2 as int, d as int))
            * 86400 + t % 86400) as i64),
        i64::MIN <= epoch_day(y2 as int, m2 as int, clamp_day(y2 as int, m2 as int, d as int))
            * 86400 + t % 86400 <= i64::MAX,
{
    let dim = month_days(y2, m2);
    let d2 = if d <= dim {
        d
    } else {
        dim
    };
    proof {
        lemma_shifted_day(t as int);
    }
    let sod = (t - MIN_TS) % DAY;
    let hh = (sod / 3600) as u8;
    let mm = (sod % 3600 / 60) as u8;
    let ss = (sod % 60) as u8;
    proof {
        lemma_hms(sod as int);
    }
    match timestamp_of(y2 as i32, m2 as u8, d2, hh, mm, ss, 0) {
        Some(v) => Some(v),
        None => None,
    }
}

/// `t` moved back by `n` years (`k == -1`) or months (`k == -2`).
fn step_calendar(t: i64, n: i64, k: i64) -> (r: Option<i64>)
    requires
        0 <= n <= i32::MAX,
        k == -1 || k == -2,
    ensures
        r is Some <==> ago_step(t as int, n as int, k as int) is Some,
        r is Some ==> r->Some_0 == ago_step(t as int, n as int, k as int)->Some_0,
{
    if t < MIN_TS || t > MAX_TS {
        return None;
    }
    let c = date_at(t, 0);
    proof {
        lemma_civil_of(c.year as int, c.month as int, c.day as int);
        assert(local_day(t as int, 0) == t / 86400);
    }
    let (y2, m2): (i64, i64) = if k == -1 {
        let y2 = c.year as i64 - n;
        if y2 < MIN_YEAR as i64 {
            return None;
        }
        (y2, c.month as i64)
    } else {
        match months_back(c.year, c.month, n) {
            Some(p) => p,
            None => return None,
        }
    };
    at_month(t, y2, m2, c.day)
}

/// `t` moved back by `n` of the unit `k`.
fn step_back(t: i64, n: i64, k: i64) -> (r: Option<i64>)
    requires
        0 <= n <= i32::MAX,
        k == -1 || k == -2 || 0 <= k <= 604800,
    ensures
        r is Some <==> ago_step(t as int, n as int, k as int) is Some,
        r is Some ==> r->Some_0 == ago_step(t as int, n as int, k as int)->Some_0,
{
    if k == 0 {
        return None;
    }
    if k < 0 {
        return step_calendar(t, n, k);
    }
    assert(0 <= n * k <= 2147483647 * 604800) by (nonlinear_arith)
        requires
            0 <= n <= i32::MAX,
            0 < k <= 604800,
    ;
    let d = n * k;
    if t < MIN_TS + d {
        return None;
    }
    Some(t - d)
}

/// The moment that a relative date such as `"1 hour, 3 days 45sec"` names,
/// counted back from `now`.
pub fn parse_date_ago(s: &str, now: i64) -> (r: Option<i64>)
    ensures
        r is Some <==> ago_of(s@, now as int) is Some,
        r is Some ==> r->Some_0 == ago_of(s@, now as int)->Some_0,
{
    let cs = chars_of(s);
    let mut i: usize = 0;
    while i < cs.len()
        invariant
            i <= cs@.len(),
            cs@ == s@,
            forall|j: int| 0 <= j < i ==> ago_char_ok(#[trigger] cs@[j]),
        decreases cs@.len() - i,
    {
        let c = cs[i];
        let ok = if (c as u32) < 128 {
            digit(c) || ('a' <= c && c <= 'z') || ('A' <= c && c <= 'Z') || c == ' ' || c == ','
        } else {
            is_alphanumeric(c)
        };
        if !ok {
            return None;
        }
        i += 1;
    }
    let sp = ago_token_spans(&cs);
    if sp.len() == 0 {
        return None;
    }
    let ghost toks = ago_tokens(s@);
    let mut cur = now;
    let mut i: usize = 0;
    assert(toks.skip(0) =~= toks);
    while i < sp.len()
        invariant
            i <= sp@.len(),
            toks == ago_tokens(s@),
            cs@ == s@,
            sp@.len() == ago_spans(cs@).len(),
            forall|k: int|
                0 <= k < sp@.len() ==> (#[trigger] sp@[k]).0 == ago_spans(cs@)[k].0 && sp@[k].1
                    == ago_spans(cs@)[k].1 && sp@[k].0 < sp@[k].1 <= cs@.len(),
            ago_apply(toks, now as int) == ago_apply(toks.skip(i as int), cur as int),
        decreases sp@.len() - i,
    {
        let rest = Ghost(toks.skip(i as int));
        let (a0, a1) = sp[i];
        if i + 1 >= sp.len() {
            return None;
        }
        let num = s.substring_char(a0, a1);
        assert(num@ == rest@[0]);
        let n = match parse_i64(num) {
            Some(v) => v,
            None => return None,
        };
        if n < 0 || n > i32::MAX as i64 {
            return None;
        }
        let (b0, b1) = sp[i + 1];
        let unit = s.substring_char(b0, b1);
        assert(unit@ == rest@[1]);
        let k = unit_code(unit);
        match step_back(cur, n, k) {
            Some(t2) => {
                assert(rest@.skip(2) =~= toks.skip(i + 2));
                cur = t2;
            },
            None => return None,
        }
        i += 2;
    }
    assert(toks.skip(i as int).len() == 0);
    Some(cur)
}

/// The Unix time that a user-supplied date names: an integer, an absolute
/// date read at `off`, or a relative date counted back from `now`; leading
/// and trailing whitespace is ignored.
pub open spec fn date_of(s: Seq<char>, off: int, now: int) -> Option<int> {
    let t = trim(s);
    match i64_of(t) {
        Some(v) => Some(v as int),
        None => match absolute_ts(t, off) {
            Some(v) => Some(v),
            None => ago_of(t, now),
        },
    }
}

/// The message for a date that reads in none of the three forms; the trimmed
/// input stands between double quotes.
pub open spec fn date_error(s: Seq<char>) -> Seq<char> {
    "Couldn't parse \""@ + trim(s) + "\", check examples in --help"@
}

/// Parse a user-supplied date into Unix seconds, with `now` as the present.
pub fn parse_date_at(s: &str, offset: Offset, now: i64) -> (r: Result<i64, String>)
    requires
        offset.wf(),
    ensures
        r is Ok <==> date_of(s@, offset.secs as int, now as int) is Some,
        r is Ok ==> r->Ok_0 == date_of(s@, offset.secs as int, now as int)->Some_0,
        r matches Err(e) ==> e@ == date_error(s@),
{
    let t = trim_str(s);
    if let Some(v) = parse_i64(t) {
        return Ok(v);
    }
    if let Some(v) = parse_date_yyyymmdd(t, offset) {
        return Ok(v);
    }
    if let Some(v) = parse_date_ago(t, now) {
        return Ok(v);
    }
    let mut msg = String::from_str("Couldn't parse \"");
    msg.append(t);
    msg.append("\", check examples in --help");
    Err(msg)
}

/// Relies on `SystemTime::now` and `duration_since(UNIX_EPOCH)`: the current
/// time in Unix seconds, negative before 1970. Nothing is known of its value.
#[verifier::external_body]
pub fn epoch_now() -> i64 {
    match std::time::SystemTime::now().duration_since(std::time::UNIX_EPOCH) {
        Ok(d) => d.as_secs() as i64,
        Err(e) => -(e.duration().as_secs() as i64),
    }
}

/// Parse a user-supplied date into Unix seconds: an integer, an absolute
/// date read at `offset`, or a relative date counted back from the present.
pub fn parse_date(s: &str, offset: Offset) -> (r: Result<i64, String>)
    requires
        offset.wf(),
    ensures
        i64_of(trim(s@)) is Some ==> r == Ok::<i64, String>(i64_of(trim(s@))->Some_0),
        exists|now: i64|
            {
                &&& r is Ok <==> date_of(s@, offset.secs as int, now as int) is Some
                &&& r is Ok ==> r->Ok_0 == date_of(s@, offset.secs as int, now as int)->Some_0
            },
        r matches Err(e) ==> e@ == date_error(s@),
{
    let now = epoch_now();
    parse_date_at(s, offset, now)
}

/// An absolute date string reads back as itself: parsing a valid
/// `YYYY-MM-DD[THH:MM[:SS]]` at offset `off` gives the moment whose
/// wall-clock date at `off` is that date and whose time of day is that time.
pub proof fn lemma_absolute_round_trip(s: Seq<char>, off: int, now: int)
    requires
        trim(s) == s,
        -MAX_OFFSET <= off <= MAX_OFFSET,
        ymd_fields(s) matches Some((y, m, d, h, mi, se)) && 1 <= m <= 12 && h < 24 && mi < 60
            && se < 60 && valid_date(y, m, d),
    ensures
        ymd_fields(s) matches Some((y, m, d, h, mi, se)) && date_of(s, off, now) matches Some(t)
            && civil_of(local_day(t, off)) == (y, m, d) && (t + off) % 86400 == h * 3600 + mi
            * 60 + se,
{
    let (y, m, d, h, mi, se) = ymd_fields(s)->Some_0;
    let p: int = if s.len() > 0 && (s[0] == '+' || s[0] == '-') {
        1
    } else {
        0
    };
    assert(s[p + 4] == '-');
    if p == 1 {
        assert(!is_digit(s.drop_first()[p + 3]));
    } else {
        assert(!is_digit(s[p + 4]));
    }
    assert(i64_of(s) is None);
    let t = epoch_day(y, m, d) * 86400 + h * 3600 + mi * 60 + se - off;
    assert(local_day(t, off) == epoch_day(y, m, d));
    lemma_civil_of(y, m, d);
}

// ---------------------------------------------------------------------------
// The local offset
// ---------------------------------------------------------------------------
/// Relies on `UtcOffset::current_local_offset` and `UtcOffset::whole_seconds`:
/// the local offset now, when the platform can tell it; a `UtcOffset` lies in
/// the range checked here.
#[verifier::external_body]
fn local_offset_seconds() -> (r: Option<i32>)
    ensures
        r matches Some(s) ==> -MAX_OFFSET <= s <= MAX_OFFSET,
{
    time::UtcOffset::current_local_offset().ok().map(|o| o.whole_seconds())
}

/// The offset to read and show dates with: UTC when asked for, else the
/// local offset, falling back to UTC when it cannot be found. To be called
/// before other threads start.
pub fn get_offset(utc: bool) -> (r: Offset)
    ensures
        r.wf(),
        utc ==> r.secs == 0,
{
    if utc {
        return Offset::utc();
    }
    offset_or_utc(local_offset_seconds())
}

/// The local offset when the platform told it, else UTC.
pub fn offset_or_utc(local: Option<i32>) -> (r: Offset)
    requires
        local matches Some(s) ==> -MAX_OFFSET <= s <= MAX_OFFSET,
    ensures
        r.wf(),
        r.secs == match local {
            Some(s) => s,
            None => 0,
        },
{
    match local {
        Some(secs) => Offset { secs },
        None => Offset::utc(),
    }
}

// ---------------------------------------------------------------------------
// Formatting
// ---------------------------------------------------------------------------
/// `n` with at least four digits.
pub open spec fn pad4(n: nat) -> Seq<char> {
    if n < 10 {
        seq!['0', '0', '0'] + decimal(n)
    } else if n < 100 {
        seq!['0', '0'] + decimal(n)
    } else if n < 1000 {
        seq!['0'] + decimal(n)
    } else {
        decimal(n)
    }
}

/// A year as the date library prints it: four digits, with a `-` before negative years.
pub open spec fn year_text(y: int) -> Seq<char> {
    if y < 0 {
        seq!['-'] + pad4((-y) as nat)
    } else {
        pad4(y as nat)
    }
}

/// The moments that can be shown at offset `off`.
pub open spec fn shown_range(ts: int, off: int) -> bool {
    &&& MIN_TS <= ts <= MAX_TS
    &&& MIN_TS <= ts + off <= MAX_TS
    &&& -MAX_OFFSET <= off <= MAX_OFFSET
}

/// The seconds since local midnight of the moment `ts` seen at offset `off`.
pub open spec fn local_secs(ts: int, off: int) -> int {
    (ts + off) % 86400
}

proof fn lemma_shifted_day(x: int)
    requires
        x >= MIN_TS,
    ensures
        (x - MIN_TS) % 86400 == x % 86400,
        (x - MIN_TS) / 86400 - 4371587 == x / 86400,
{
    assert(MIN_TS == -4371587 * 86400);
}

proof fn lemma_hms(x: int)
    requires
        0 <= x < 86400,
    ensures
        (x / 3600) * 3600 + (x % 3600 / 60) * 60 + x % 60 == x,
        x / 3600 < 24,
{
}

/// `YYYY-MM-DD` of a wall-clock date.
pub open spec fn ymd_text(c: (int, int, int), sep: Seq<char>) -> Seq<char> {
    year_text(c.0) + sep + pad2(c.1 as nat) + sep + pad2(c.2 as nat)
}

/// `HH:MM:SS` of seconds since midnight.
pub open spec fn hms_text(secs: int, sep: Seq<char>) -> Seq<char> {
    hms_parts(secs / 3600, secs % 3600 / 60, secs % 60, sep)
}

/// `HH:MM:SS` of an hour, minute and second.
pub open spec fn hms_parts(h: int, m: int, s: int, sep: Seq<char>) -> Seq<char> {
    pad2(h as nat) + sep + pad2(m as nat) + sep + pad2(s as nat)
}

/// `+HH:MM` or `-HH:MM` of an offset (seconds past the minute are not shown).
pub open spec fn offset_text(off: int) -> Seq<char> {
    let a = if off < 0 {
        -off
    } else {
        off
    };
    (if off < 0 {
        seq!['-']
    } else {
        seq!['+']
    }) + pad2((a / 3600) as nat) + seq![':'] + pad2((a % 3600 / 60) as nat)
}

/// A UTC date and time, `YYYY-MM-DDTHH:MM:SSZ`.
pub open spec fn utc_text(ts: int) -> Seq<char> {
    ymd_text(civil_of(local_day(ts, 0)), seq!['-']) + seq!['T'] + hms_text(
        local_secs(ts, 0),
        seq![':'],
    ) + seq!['Z']
}

/// `r` holds the text `t`.
pub open spec fn gives(r: Option<String>, t: Seq<char>) -> bool {
    r matches Some(x) && x@ == t
}

/// Relies on `time::format_description::parse`, and on
/// `OffsetDateTime::from_unix_timestamp`, `to_offset` and `format`: the
/// moment `ts` at offset `off`, formatted by the description `fmt`. For the
/// descriptions that the library uses, the text is stated: `[year]` is four
/// digits after a `-` for negative years, `[month]`, `[day]`, `[hour]`,
/// `[minute]`, `[second]` and `[week_number]` (ISO weeks) are two digits, the
/// offset is its sign and two-digit hours and minutes.
#[verifier::external_body]
fn format_at(ts: i64, off: i32, fmt: &str) -> (r: Option<String>)
    requires
        shown_range(ts as int, off as int),
    ensures
        fmt@ == "[year]-[month]-[day]"@ ==> gives(r, time_text(ts as int, DateStyle::Ymd, off as int)),
        fmt@ == "[year]-[month]-[day] [hour]:[minute]:[second]"@ ==> gives(
            r,
            time_text(ts as int, DateStyle::Ymdhms, off as int),
        ),
        fmt@
            == "[year]-[month]-[day] [hour]:[minute]:[second] [offset_hour sign:mandatory]:[offset_minute]"@
            ==> gives(r, time_text(ts as int, DateStyle::Ymdhmso, off as int)),
        fmt@
            == "[year]-[month]-[day]T[hour]:[minute]:[second][offset_hour sign:mandatory]:[offset_minute]"@
            ==> gives(r, time_text(ts as int, DateStyle::Rfc3339, off as int)),
        fmt@
            == "[weekday repr:short], [day] [month repr:short] [year] [hour]:[minute]:[second] [offset_hour sign:mandatory]:[offset_minute]"@
            ==> gives(r, time_text(ts as int, DateStyle::Rfc2822, off as int)),
        fmt@ == "[year][month][day][hour][minute][second]"@ ==> gives(
            r,
            time_text(ts as int, DateStyle::Compact, off as int),
        ),
        fmt@ == "[year]-[month]-[day]T[hour]:[minute]:[second]Z"@ && off == 0 ==> gives(
            r,
            utc_text(ts as int),
        ),
        fmt@ == "[year] "@ ==> gives(r, header_text(Timespan::Year, ts as int, off as int)),
        fmt@ == "[year]-[month] "@ ==> gives(r, header_text(Timespan::Month, ts as int, off as int)),
        fmt@ == "[year]-[week_number] "@ ==> gives(
            r,
            header_text(Timespan::Week, ts as int, off as int),
        ),
        fmt@ == "[year]-[month]-[day] "@ ==> gives(r, header_text(Timespan::Day, ts as int, off as int)),
{
    let items = time::format_description::parse(fmt).ok()?;
    let o = time::UtcOffset::from_whole_seconds(off).ok()?;
    let t = time::OffsetDateTime::from_unix_timestamp(ts).ok()?.to_offset(o);
    t.format(&items).ok()
}

/// The text of `r`, when `gives(r, t)` holds.
fn text_of(r: Option<String>, Ghost(t): Ghost<Seq<char>>) -> (s: String)
    requires
        gives(r, t),
    ensures
        s@ == t,
{
    match r {
        Some(x) => x,
        None => String::new(),
    }
}

/// Format a moment as a UTC date and time, `YYYY-MM-DDTHH:MM:SSZ`.
pub fn fmt_utctime(ts: i64) -> (r: String)
    requires
        MIN_TS <= ts <= MAX_TS,
    ensures
        r@ == utc_text(ts as int),
{
    let f = format_at(ts, 0, "[year]-[month]-[day]T[hour]:[minute]:[second]Z");
    text_of(f, Ghost(utc_text(ts as int)))
}

/// An integer in decimal, with a `-` before negative ones.
pub open spec fn int_text(n: int) -> Seq<char> {
    if n < 0 {
        seq!['-'] + decimal((-n) as nat)
    } else {
        decimal(n as nat)
    }
}

/// The three-letter name of a weekday, Monday being 0.
pub open spec fn weekday_name(w: int) -> Seq<char> {
    if w == 0 {
        "Mon"@
    } else if w == 1 {
        "Tue"@
    } else if w == 2 {
        "Wed"@
    } else if w == 3 {
        "Thu"@
    } else if w == 4 {
        "Fri"@
    } else if w == 5 {
        "Sat"@
    } else {
        "Sun"@
    }
}

/// The three-letter name of a month.
pub open spec fn month_name(m: int) -> Seq<char> {
    if m == 1 {
        "Jan"@
    } else if m == 2 {
        "Feb"@
    } else if m == 3 {
        "Mar"@
    } else if m == 4 {
        "Apr"@
    } else if m == 5 {
        "May"@
    } else if m == 6 {
        "Jun"@
    } else if m == 7 {
        "Jul"@
    } else if m == 8 {
        "Aug"@
    } else if m == 9 {
        "Sep"@
    } else if m == 10 {
        "Oct"@
    } else if m == 11 {
        "Nov"@
    } else {
        "Dec"@
    }
}

/// How dates are displayed.
#[derive(Clone, Copy, PartialEq, Eq, Structural, Debug)]
pub enum DateStyle {
    /// `YYYY-MM-DD`
    Ymd,
    /// `YYYY-MM-DD HH:MM:SS`
    Ymdhms,
    /// `YYYY-MM-DD HH:MM:SS +HH:MM`
    Ymdhmso,
    /// `YYYY-MM-DDTHH:MM:SS+HH:MM`
    Rfc3339,
    /// `Www, DD Mmm YYYY HH:MM:SS +HH:MM`
    Rfc2822,
    /// `YYYYMMDDHHMMSS`
    Compact,
    /// Unix seconds.
    Unix,
}

impl DateStyle {
    /// The style that `s` names: `ymd`/`d`, `ymdhms`/`dt`, `ymdhmso`/`dto`,
    /// `rfc3339`/`3339`, `rfc2822`/`2822`, `compact` or `unix`.
    pub fn from_str(s: &str) -> (r: Result<DateStyle, String>)
        ensures
            (s@ == "ymd"@ || s@ == "d"@) ==> r == Ok::<DateStyle, String>(DateStyle::Ymd),
            (s@ == "ymdhms"@ || s@ == "dt"@) ==> r == Ok::<DateStyle, String>(DateStyle::Ymdhms),
            (s@ == "ymdhmso"@ || s@ == "dto"@) ==> r == Ok::<DateStyle, String>(
                DateStyle::Ymdhmso,
            ),
            (s@ == "rfc3339"@ || s@ == "3339"@) ==> r == Ok::<DateStyle, String>(
                DateStyle::Rfc3339,
            ),
            (s@ == "rfc2822"@ || s@ == "2822"@) ==> r == Ok::<DateStyle, String>(
                DateStyle::Rfc2822,
            ),
            s@ == "compact"@ ==> r == Ok::<DateStyle, String>(DateStyle::Compact),
            s@ == "unix"@ ==> r == Ok::<DateStyle, String>(DateStyle::Unix),
            r is Ok ==> (s@ == "ymd"@ || s@ == "d"@ || s@ == "ymdhms"@ || s@ == "dt"@ || s@
                == "ymdhmso"@ || s@ == "dto"@ || s@ == "rfc3339"@ || s@ == "3339"@ || s@
                == "rfc2822"@ || s@ == "2822"@ || s@ == "compact"@ || s@ == "unix"@),
    {
        let cs = chars_of(s);
        proof {
            reveal_strlit("ymd");
            reveal_strlit("d");
            reveal_strlit("ymdhms");
            reveal_strlit("dt");
            reveal_strlit("ymdhmso");
            reveal_strlit("dto");
            reveal_strlit("rfc3339");
            reveal_strlit("3339");
            reveal_strlit("rfc2822");
            reveal_strlit("2822");
            reveal_strlit("compact");
            reveal_strlit("unix");
            assert("ymd"@.len() == 3 && "d"@.len() == 1 && "ymdhms"@.len() == 6 && "dt"@.len() == 2
                && "ymdhmso"@.len() == 7 && "dto"@.len() == 3 && "rfc3339"@.len() == 7
                && "3339"@.len() == 4 && "rfc2822"@.len() == 7 && "2822"@.len() == 4
                && "compact"@.len() == 7 && "unix"@.len() == 4);
            assert("ymd"@[0] != "dto"@[0]);
            assert("ymdhmso"@[0] != "rfc3339"@[0] && "ymdhmso"@[0] != "rfc2822"@[0]
                && "ymdhmso"@[0] != "compact"@[0] && "rfc3339"@[0] != "compact"@[0]);
            assert("rfc3339"@[3] != "rfc2822"@[3]);
            assert("3339"@[0] != "2822"@[0] && "3339"@[0] != "unix"@[0] && "2822"@[0]
                != "unix"@[0]);
        }
        if same_chars(&cs, "ymd") || same_chars(&cs, "d") {
            Ok(DateStyle::Ymd)
        } else if same_chars(&cs, "ymdhms") || same_chars(&cs, "dt") {
            Ok(DateStyle::Ymdhms)
        } else if same_chars(&cs, "ymdhmso") || same_chars(&cs, "dto") {
            Ok(DateStyle::Ymdhmso)
        } else if same_chars(&cs, "rfc3339") || same_chars(&cs, "3339") {
            Ok(DateStyle::Rfc3339)
        } else if same_chars(&cs, "rfc2822") || same_chars(&cs, "2822") {
            Ok(DateStyle::Rfc2822)
        } else if same_chars(&cs, "compact") {
            Ok(DateStyle::Compact)
        } else if same_chars(&cs, "unix") {
            Ok(DateStyle::Unix)
        } else {
            let mut e = String::from_str("Invalid date format ");
            e.append(s);
            Err(e)
        }
    }
}

/// A moment as `style` shows it at offset `off`.
pub open spec fn time_text(ts: int, style: DateStyle, off: int) -> Seq<char> {
    let c = civil_of(local_day(ts, off));
    let x = local_secs(ts, off);
    match style {
        DateStyle::Unix => int_text(ts),
        DateStyle::Ymd => ymd_text(c, seq!['-']),
        DateStyle::Ymdhms => ymd_text(c, seq!['-']) + seq![' '] + hms_text(x, seq![':']),
        DateStyle::Ymdhmso => ymd_text(c, seq!['-']) + seq![' '] + hms_text(x, seq![':']) + seq![
            ' ',
        ] + offset_text(off),
        DateStyle::Rfc3339 => ymd_text(c, seq!['-']) + seq!['T'] + hms_text(x, seq![':'])
            + offset_text(off),
        DateStyle::Rfc2822 => weekday_name(weekday(local_day(ts, off))) + seq![',', ' '] + pad2(
            c.2 as nat,
        ) + seq![' '] + month_name(c.1) + seq![' '] + year_text(c.0) + seq![' '] + hms_text(
            x,
            seq![':'],
        ) + seq![' '] + offset_text(off),
        DateStyle::Compact => ymd_text(c, Seq::empty()) + hms_text(x, Seq::empty()),
    }
}

/// Format a moment in `style`, at `offset`.
pub fn fmt_time(ts: i64, style: DateStyle, offset: Offset) -> (r: String)
    requires
        style is Unix || shown_range(ts as int, offset.secs as int),
    ensures
        r@ == time_text(ts as int, style, offset.secs as int),
{
    let off = offset.secs;
    let ghost t = time_text(ts as int, style, off as int);
    match style {
        DateStyle::Unix => {
            let mut out = String::new();
            if ts < 0 {
                push_char(&mut out, '-');
                push_decimal(&mut out, (0i128 - ts as i128) as u64);
            } else {
                push_decimal(&mut out, ts as u64);
            }
            assert(out@ =~= t);
            out
        },
        DateStyle::Ymd => text_of(format_at(ts, off, "[year]-[month]-[day]"), Ghost(t)),
        DateStyle::Ymdhms => text_of(
            format_at(ts, off, "[year]-[month]-[day] [hour]:[minute]:[second]"),
            Ghost(t),
        ),
        DateStyle::Ymdhmso => text_of(
            format_at(
                ts,
                off,
                "[year]-[month]-[day] [hour]:[minute]:[second] [offset_hour sign:mandatory]:[offset_minute]",
            ),
            Ghost(t),
        ),
        DateStyle::Rfc3339 => text_of(
            format_at(
                ts,
                off,
                "[year]-[month]-[day]T[hour]:[minute]:[second][offset_hour sign:mandatory]:[offset_minute]",
            ),
            Ghost(t),
        ),
        DateStyle::Rfc2822 => text_of(
            format_at(
                ts,
                off,
                "[weekday repr:short], [day] [month repr:short] [year] [hour]:[minute]:[second] [offset_hour sign:mandatory]:[offset_minute]",
            ),
            Ghost(t),
        ),
        DateStyle::Compact => text_of(
            format_at(ts, off, "[year][month][day][hour][minute][second]"),
            Ghost(t),
        ),
    }
}

/// The ISO 8601 week-numbering weeks of year `y`: 53 when it starts on a
/// Thursday, or on a Wednesday in a leap year; else 52.
pub open spec fn weeks_in_year(y: int) -> int {
    let w = weekday(epoch_day(y, 1, 1));
    if w == 3 || (is_leap(y) && w == 2) {
        53
    } else {
        52
    }
}

/// The ISO 8601 week number of a date (weeks start on Monday; week 1 holds
/// the year's first Thursday).
pub open spec fn iso_week(y: int, m: int, d: int) -> int {
    let w = (days_before_month(y, m) + d - (weekday(epoch_day(y, m, d)) + 1) + 10) / 7;
    if w < 1 {
        weeks_in_year(y - 1)
    } else if w > weeks_in_year(y) {
        1
    } else {
        w
    }
}

/// The leading column of a row grouped by `span`: `"YYYY "`, `"YYYY-MM "`,
/// `"YYYY-WW "` (ISO week) or `"YYYY-MM-DD "`, at offset `off`.
pub open spec fn header_text(span: Timespan, ts: int, off: int) -> Seq<char> {
    let c = civil_of(local_day(ts, off));
    match span {
        Timespan::Year => year_text(c.0) + seq![' '],
        Timespan::Month => year_text(c.0) + seq!['-'] + pad2(c.1 as nat) + seq![' '],
        Timespan::Week => year_text(c.0) + seq!['-'] + pad2(iso_week(c.0, c.1, c.2) as nat)
            + seq![' '],
        Timespan::Day => ymd_text(c, seq!['-']) + seq![' '],
    }
}

impl Timespan {
    /// The leading column of a row for the span holding `ts`, at `offset`.
    pub fn header(&self, ts: i64, offset: Offset) -> (r: String)
        requires
            shown_range(ts as int, offset.secs as int),
        ensures
            r@ == header_text(*self, ts as int, offset.secs as int),
    {
        let off = offset.secs;
        let ghost t = header_text(*self, ts as int, off as int);
        match self {
            Timespan::Year => text_of(format_at(ts, off, "[year] "), Ghost(t)),
            Timespan::Month => text_of(format_at(ts, off, "[year]-[month] "), Ghost(t)),
            Timespan::Week => text_of(format_at(ts, off, "[year]-[week_number] "), Ghost(t)),
            Timespan::Day => text_of(format_at(ts, off, "[year]-[month]-[day] "), Ghost(t)),
        }
    }
}

proof fn lemma_digit_char(c: char)
    requires
        is_digit(c),
    ensures
        crate::text::digit_char(digit_value(c)) == c,
        0 <= digit_value(c) < 10,
{
    let k = digit_value(c);
    assert(0 <= k < 10);
    if k == 0 {
        assert(c == '0');
    } else if k == 1 {
        assert(c == '1');
    } else if k == 2 {
        assert(c == '2');
    } else if k == 3 {
        assert(c == '3');
    } else if k == 4 {
        assert(c == '4');
    } else if k == 5 {
        assert(c == '5');
    } else if k == 6 {
        assert(c == '6');
    } else if k == 7 {
        assert(c == '7');
    } else if k == 8 {
        assert(c == '8');
    } else {
        assert(c == '9');
    }
}

proof fn lemma_decimal_small(n: nat)
    ensures
        n < 10 ==> decimal(n) == seq![crate::text::digit_char(n as int)],
        10 <= n < 100 ==> decimal(n) == seq![
            crate::text::digit_char((n / 10) as int),
            crate::text::digit_char((n % 10) as int),
        ],
        100 <= n < 1000 ==> decimal(n) == seq![
            crate::text::digit_char((n / 100) as int),
            crate::text::digit_char((n / 10 % 10) as int),
            crate::text::digit_char((n % 10) as int),
        ],
        1000 <= n < 10000 ==> decimal(n) == seq![
            crate::text::digit_char((n / 1000) as int),
            crate::text::digit_char((n / 100 % 10) as int),
            crate::text::digit_char((n / 10 % 10) as int),
            crate::text::digit_char((n % 10) as int),
        ],
{
    reveal_with_fuel(decimal, 4);
    if 10 <= n < 100 {
        assert(decimal(n) =~= seq![
            crate::text::digit_char((n / 10) as int),
            crate::text::digit_char((n % 10) as int),
        ]);
    } else if 100 <= n < 1000 {
        assert((n / 10) / 10 == n / 100 && (n / 10) % 10 == n / 10 % 10);
        assert(decimal(n) =~= seq![
            crate::text::digit_char((n / 100) as int),
            crate::text::digit_char((n / 10 % 10) as int),
            crate::text::digit_char((n % 10) as int),
        ]);
    } else if 1000 <= n < 10000 {
        assert((n / 10) / 10 == n / 100 && (n / 100) / 10 == n / 1000);
        assert((n / 10) % 10 == n / 10 % 10 && (n / 100) % 10 == n / 100 % 10);
        assert(decimal(n) =~= seq![
            crate::text::digit_char((n / 1000) as int),
            crate::text::digit_char((n / 100 % 10) as int),
            crate::text::digit_char((n / 10 % 10) as int),
            crate::text::digit_char((n % 10) as int),
        ]);
    }
}

/// Two digits print back as themselves.
proof fn lemma_pad2_digits(s: Seq<char>, i: int)
    requires
        0 <= i,
        i + 2 <= s.len(),
        digits_at(s, i, 2),
    ensures
        pad2(two_at(s, i) as nat) == s.subrange(i, i + 2),
{
    let a = s[i];
    let b = s[i + 1];
    assert(is_digit(a) && is_digit(b));
    lemma_digit_char(a);
    lemma_digit_char(b);
    let n = two_at(s, i);
    lemma_decimal_small(n as nat);
    assert(n / 10 == digit_value(a) && n % 10 == digit_value(b));
    assert(pad2(n as nat) =~= s.subrange(i, i + 2));
}

proof fn lemma_pad4(n: nat)
    requires
        n < 10000,
    ensures
        pad4(n) == seq![
            crate::text::digit_char((n / 1000) as int),
            crate::text::digit_char((n / 100 % 10) as int),
            crate::text::digit_char((n / 10 % 10) as int),
            crate::text::digit_char((n % 10) as int),
        ],
{
    lemma_decimal_small(n);
    assert(crate::text::digit_char(0) == '0');
    if n < 10 {
        assert(n / 1000 == 0 && n / 100 % 10 == 0 && n / 10 % 10 == 0 && n % 10 == n);
        assert(pad4(n) =~= seq!['0', '0', '0', crate::text::digit_char(n as int)]);
    } else if n < 100 {
        assert(n / 1000 == 0 && n / 100 % 10 == 0 && n / 10 % 10 == n / 10);
        assert(pad4(n) =~= seq![
            '0',
            '0',
            crate::text::digit_char((n / 10) as int),
            crate::text::digit_char((n % 10) as int),
        ]);
    } else if n < 1000 {
        assert(n / 1000 == 0 && n / 100 % 10 == n / 100);
        assert(pad4(n) =~= seq![
            '0',
            crate::text::digit_char((n / 100) as int),
            crate::text::digit_char((n / 10 % 10) as int),
            crate::text::digit_char((n % 10) as int),
        ]);
    } else {
        assert(pad4(n) == decimal(n));
    }
}

/// Four digits print back as themselves as a year.
proof fn lemma_year_digits(s: Seq<char>, i: int)
    requires
        0 <= i,
        i + 4 <= s.len(),
        digits_at(s, i, 4),
    ensures
        year_text(two_at(s, i) * 100 + two_at(s, i + 2)) == s.subrange(i, i + 4),
{
    let (a, b, c, d) = (s[i], s[i + 1], s[i + 2], s[i + 3]);
    assert(is_digit(a) && is_digit(b) && is_digit(c) && is_digit(d));
    lemma_digit_char(a);
    lemma_digit_char(b);
    lemma_digit_char(c);
    lemma_digit_char(d);
    let (da, db, dc, dd) = (digit_value(a), digit_value(b), digit_value(c), digit_value(d));
    let n = two_at(s, i) * 100 + two_at(s, i + 2);
    assert(n == da * 1000 + db * 100 + dc * 10 + dd);
    assert(n / 1000 == da && n / 100 % 10 == db && n / 10 % 10 == dc && n % 10 == dd);
    lemma_pad4(n as nat);
    assert(year_text(n) == pad4(n as nat));
    assert(year_text(n) =~= s.subrange(i, i + 4));
}

/// Formatting reads back what parsing read: a date `YYYY-MM-DD` parsed at
/// `off` shows as itself in the `Ymd` style, and `YYYY-MM-DD HH:MM:SS` in the
/// `Ymdhms` style.
pub proof fn lemma_format_round_trip(s: Seq<char>, off: int, now: int)
    requires
        -MAX_OFFSET <= off <= MAX_OFFSET,
        s.len() == 10 || (s.len() == 19 && s[10] == ' '),
        absolute_ts(s, off) is Some,
        shown_range(absolute_ts(s, off)->Some_0, off),
    ensures
        date_of(s, off, now) == absolute_ts(s, off),
        time_text(
            absolute_ts(s, off)->Some_0,
            if s.len() == 10 {
                DateStyle::Ymd
            } else {
                DateStyle::Ymdhms
            },
            off,
        ) == s,
{
    let (y, m, d, h, mi, se) = ymd_fields(s)->Some_0;
    assert(is_digit(s[0]));
    assert(s[0] != '+' && s[0] != '-');
    assert(s[4] == '-');
    assert(!all_digits(s));
    assert(i64_of(s) is None);
    assert(trim(s) == s) by {
        assert(!crate::text::is_white(s[0]));
        assert(!crate::text::is_white(s.last()));
        assert(crate::text::trim_start(s) == s);
    }
    let t = absolute_ts(s, off)->Some_0;
    assert(local_day(t, off) == epoch_day(y, m, d));
    assert(local_secs(t, off) == h * 3600 + mi * 60 + se);
    lemma_civil_of(y, m, d);
    lemma_year_digits(s, 0);
    lemma_pad2_digits(s, 5);
    lemma_pad2_digits(s, 8);
    let ymd = ymd_text((y, m, d), seq!['-']);
    assert(ymd =~= s.subrange(0, 10));
    if s.len() == 10 {
        assert(s =~= s.subrange(0, 10));
    } else {
        lemma_pad2_digits(s, 11);
        lemma_pad2_digits(s, 14);
        lemma_pad2_digits(s, 17);
        let x = local_secs(t, off);
        assert(x / 3600 == h && x % 3600 / 60 == mi && x % 60 == se);
        assert(hms_text(x, seq![':']) =~= s.subrange(11, 19));
        assert(ymd + seq![' '] + hms_text(x, seq![':']) =~= s);
    }
}

/// Every integer reads back as itself: its decimal text, with any whitespace
/// around it, parses to that integer, whatever the offset and the present.
pub proof fn lemma_integer_round_trip(n: i64, w1: Seq<char>, w2: Seq<char>, off: int, now: int)
    requires
        forall|i: int| 0 <= i < w1.len() ==> crate::text::is_white(#[trigger] w1[i]),
        forall|i: int| 0 <= i < w2.len() ==> crate::text::is_white(#[trigger] w2[i]),
    ensures
        date_of(w1 + int_text(n as int) + w2, off, now) == Some(n as int),
{
    let k: nat = if n < 0 {
        (-n) as nat
    } else {
        n as nat
    };
    crate::text::lemma_decimal_value(k);
    let d = decimal(k);
    let t = int_text(n as int);
    assert(is_digit(d[0]) && is_digit(d.last()));
    if n < 0 {
        assert(t.drop_first() =~= d);
        assert(t.last() == d.last());
    } else {
        assert(t == d);
    }
    crate::text::lemma_trim_around(w1, t, w2);
    assert(int_of(t) == Some(n as int));
}

/// The wall-clock text of `t` at offset `off` in the shape of `s`: the date,
/// then, where `s` has them, its separator (`T` or space) with hour and
/// minute, and the seconds.
pub open spec fn shaped_text(s: Seq<char>, t: int, off: int) -> Seq<char> {
    let c = civil_of(local_day(t, off));
    let x = local_secs(t, off);
    ymd_text(c, seq!['-']) + (if s.len() >= 16 {
        seq![s[10]] + pad2((x / 3600) as nat) + seq![':'] + pad2((x % 3600 / 60) as nat)
    } else {
        Seq::empty()
    }) + (if s.len() == 19 {
        seq![':'] + pad2((x % 60) as nat)
    } else {
        Seq::empty()
    })
}

/// Every absolute date reads back as itself: for `YYYY-MM-DD`,
/// `YYYY-MM-DD HH:MM` and `YYYY-MM-DD HH:MM:SS` (with `T` or a space), the
/// moment that parsing at `off` gives, written in the same shape at `off`,
/// is the input.
pub proof fn lemma_shape_round_trip(s: Seq<char>, off: int, now: int)
    requires
        -MAX_OFFSET <= off <= MAX_OFFSET,
        s.len() > 0 && is_digit(s[0]),
        absolute_ts(s, off) is Some,
    ensures
        date_of(s, off, now) == absolute_ts(s, off),
        shaped_text(s, absolute_ts(s, off)->Some_0, off) == s,
{
    let (y, m, d, h, mi, se) = ymd_fields(s)->Some_0;
    assert(s[4] == '-');
    assert(!all_digits(s));
    assert(i64_of(s) is None);
    assert(trim(s) == s) by {
        assert(!crate::text::is_white(s[0]));
        assert(is_digit(s.last()));
        assert(!crate::text::is_white(s.last()));
        assert(crate::text::trim_start(s) == s);
    }
    let t = absolute_ts(s, off)->Some_0;
    assert(local_day(t, off) == epoch_day(y, m, d));
    assert(local_secs(t, off) == h * 3600 + mi * 60 + se);
    lemma_civil_of(y, m, d);
    lemma_year_digits(s, 0);
    lemma_pad2_digits(s, 5);
    lemma_pad2_digits(s, 8);
    let ymd = ymd_text((y, m, d), seq!['-']);
    assert(ymd =~= s.subrange(0, 10));
    let x = local_secs(t, off);
    assert(x / 3600 == h && x % 3600 / 60 == mi && x % 60 == se);
    if s.len() == 10 {
        assert(shaped_text(s, t, off) =~= s);
    } else if s.len() == 16 {
        lemma_pad2_digits(s, 11);
        lemma_pad2_digits(s, 14);
        assert(shaped_text(s, t, off) =~= s);
    } else {
        lemma_pad2_digits(s, 11);
        lemma_pad2_digits(s, 14);
        lemma_pad2_digits(s, 17);
        assert(shaped_text(s, t, off) =~= s);
    }
}

} // verus!
