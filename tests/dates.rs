use emlop::date::{
    epoch_now, fmt_time, fmt_utctime, get_offset, offset_or_utc, parse_date, parse_date_ago,
    parse_date_at,
    parse_date_yyyymmdd, parse_timespan, DateStyle, Offset, Timespan,
};
use time::{format_description::well_known::Rfc3339, Month, OffsetDateTime, Weekday};

fn parse_3339(s: &str) -> OffsetDateTime {
    OffsetDateTime::parse(s, &Rfc3339).expect(s)
}

fn ts(t: OffsetDateTime) -> i64 {
    t.unix_timestamp()
}

fn off(secs: i32) -> Offset {
    Offset::from_seconds(secs).unwrap()
}

#[test]
fn date_date() {
    let then = OffsetDateTime::parse("2018-04-03T00:00:00Z", &Rfc3339).unwrap().unix_timestamp();
    let now = epoch_now();
    let (day, hour, min) = (60 * 60 * 24, 60 * 60, 60);
    let tz_utc = Offset::utc();

    // Absolute dates
    assert_eq!(Ok(then), parse_date(" 1522713600 ", tz_utc));
    assert_eq!(Ok(then), parse_date(" 2018-04-03 ", tz_utc));
    assert_eq!(Ok(then + hour + min), parse_date("2018-04-03 01:01", tz_utc));
    assert_eq!(Ok(then + hour + min + 1), parse_date("2018-04-03 01:01:01", tz_utc));
    assert_eq!(Ok(then + hour + min + 1), parse_date("2018-04-03T01:01:01", tz_utc));

    // Different timezone
    for secs in [hour, -1 * hour, 90 * min, -90 * min] {
        let offset = off(secs as i32);
        assert_eq!(Ok(then - secs), parse_date("2018-04-03T00:00", offset));
    }

    // Relative dates
    assert_eq!(Ok(now - hour - 3 * day - 45), parse_date("1 hour, 3 days  45sec", tz_utc));
    assert_eq!(Ok(now - 5 * 7 * day), parse_date("5 weeks", tz_utc));

    // Failure cases
    assert!(parse_date("", tz_utc).is_err());
    assert!(parse_date("junk2018-04-03T01:01:01", tz_utc).is_err());
    assert!(parse_date("2018-04-03T01:01:01junk", tz_utc).is_err());
    assert!(parse_date("152271000o", tz_utc).is_err());
    assert!(parse_date("1 day 3 centuries", tz_utc).is_err());
    assert!(parse_date("a while ago", tz_utc).is_err());
}

#[test]
fn timespan_next_() {
    for t in [
        // input             year       month      week       day
        "2019-01-01T00:00:00 2020-01-01 2019-02-01 2019-01-07 2019-01-02",
        "2019-01-01T23:59:59 2020-01-01 2019-02-01 2019-01-07 2019-01-02",
        "2019-01-30T00:00:00 2020-01-01 2019-02-01 2019-02-04 2019-01-31",
        "2019-01-31T00:00:00 2020-01-01 2019-02-01 2019-02-04 2019-02-01",
        "2019-12-31T00:00:00 2020-01-01 2020-01-01 2020-01-06 2020-01-01",
        "2020-02-28T12:34:00 2021-01-01 2020-03-01 2020-03-02 2020-02-29",
    ] {
        let v: Vec<&str> = t.split_whitespace().collect();
        let (base_s, year_s, month_s, week_s, day_s) = (v[0], v[1], v[2], v[3], v[4]);
        let base_utc = parse_3339(&format!("{base_s}+00:00"));
        for offset_s in ["+00:00", "+05:00", "-10:30"] {
            let base = parse_3339(&format!("{base_s}{offset_s}"));
            let year = parse_3339(&format!("{year_s}T00:00:00{offset_s}"));
            let month = parse_3339(&format!("{month_s}T00:00:00{offset_s}"));
            let week = parse_3339(&format!("{week_s}T00:00:00{offset_s}"));
            let day = parse_3339(&format!("{day_s}T00:00:00{offset_s}"));
            // Check our test data is correct
            let offset = base.offset();
            assert!(base < year && base < month && base < week && base < day,
                    "{base} < {year} / {month} / {week} / {day}");
            assert_eq!(ts(base), ts(base_utc) - offset.whole_seconds() as i64);
            assert_eq!(Month::January, year.month());
            assert_eq!(1, year.day());
            assert_eq!(1, month.day());
            assert_eq!(Weekday::Monday, week.weekday());
            // Check the tested code is correct
            let offset = off(offset.whole_seconds());
            assert_eq!(ts(year), Timespan::Year.next(ts(base), offset), "{base} Y {year}");
            assert_eq!(ts(month), Timespan::Month.next(ts(base), offset), "{base} M {month}");
            assert_eq!(ts(week), Timespan::Week.next(ts(base), offset), "{base} W {week}");
            assert_eq!(ts(day), Timespan::Day.next(ts(base), offset), "{base} D {day}");
        }
    }
}

#[test]
fn parse_date_integer_round_trip() {
    for n in [0i64, 1, -1, 1522713600, i64::MAX, i64::MIN] {
        assert_eq!(Ok(n), parse_date(&n.to_string(), Offset::utc()));
    }
    assert_eq!(Ok(42), parse_date("+42", Offset::utc()));
}

#[test]
fn parse_date_scenarios() {
    let utc = Offset::utc();
    assert_eq!(Ok(1522713600), parse_date("1522713600", utc));
    assert_eq!(Ok(1522713600), parse_date("2018-04-03", utc));
    assert_eq!(Ok(1522717261), parse_date("2018-04-03 01:01:01", utc));
    assert_eq!(Ok(1522713661), parse_date("2018-04-03 01:01:01", off(3600)));
}

#[test]
fn parse_date_absolute_edges() {
    let utc = Offset::utc();
    assert_eq!(Some(951782400), parse_date_yyyymmdd("2000-02-29", utc));
    assert_eq!(None, parse_date_yyyymmdd("1900-02-29", utc));
    assert_eq!(None, parse_date_yyyymmdd("2018-13-01", utc));
    assert_eq!(None, parse_date_yyyymmdd("2018-04-00", utc));
    assert_eq!(None, parse_date_yyyymmdd("2018-04-03 24:00", utc));
    assert_eq!(None, parse_date_yyyymmdd("2018-04-03 01:60", utc));
    assert_eq!(None, parse_date_yyyymmdd("2018-04-03T", utc));
    assert_eq!(None, parse_date_yyyymmdd("2018-04-03 01:01:", utc));
    assert_eq!(None, parse_date_yyyymmdd("18-04-03", utc));
    assert_eq!(Some(0), parse_date_yyyymmdd("1970-01-01T00:00:00", utc));
    assert_eq!(Some(-62167219200), parse_date_yyyymmdd("0000-01-01", utc));
    assert_eq!(Some(-62198755200), parse_date_yyyymmdd("-0001-01-01", utc));
    assert_eq!(Some(1522713600), parse_date_yyyymmdd("+2018-04-03", utc));
}

#[test]
fn parse_date_relative_exact() {
    let now = 1522713600; // 2018-04-03T00:00:00Z
    let utc = Offset::utc();
    let n = now;
    assert_eq!(Ok(n - 3600 - 3 * 86400 - 45), parse_date_at("1 hour, 3 days 45sec", utc, now));
    assert_eq!(Ok(n - 5 * 7 * 86400), parse_date_at("5 weeks", utc, now));
    assert_eq!(Ok(n - 90), parse_date_at("1min 30s", utc, now));
    // 2017-04-03
    assert_eq!(Some(1491177600), parse_date_ago("1 year", now));
    // 2018-03-03
    assert_eq!(Some(1520035200), parse_date_ago("1 month", now));
    // 2017-12-03, across the year
    assert_eq!(Some(1512259200), parse_date_ago("4m", now));
    // 2018-03-31 minus one month clamps to 2018-02-28
    assert_eq!(Some(1519776000), parse_date_ago("1 month", 1522454400));
    // 2020-02-29 minus one year clamps to 2019-02-28
    assert_eq!(Some(1551312000), parse_date_ago("1y", 1582934400));
    assert_eq!(None, parse_date_ago("", now));
    assert_eq!(None, parse_date_ago("3", now));
    assert_eq!(None, parse_date_ago("day 3", now));
    assert_eq!(None, parse_date_ago("1 day 3 centuries", now));
    assert_eq!(None, parse_date_ago("1 day; 3 hours", now));
    assert_eq!(None, parse_date_ago("99999999999 s", now));
}

#[test]
fn timespan_parse() {
    assert_eq!(Ok(Timespan::Year), parse_timespan("y"));
    assert_eq!(Ok(Timespan::Month), parse_timespan("m"));
    assert_eq!(Ok(Timespan::Week), parse_timespan("w"));
    assert_eq!(Ok(Timespan::Day), parse_timespan("d"));
    assert!(parse_timespan("year").is_err());
    assert!(parse_timespan("").is_err());
}

#[test]
fn timespan_header() {
    let t = 1548806400; // 2019-01-30T00:00:00Z, a Wednesday
    let utc = Offset::utc();
    assert_eq!("2019 ", Timespan::Year.header(t, utc));
    assert_eq!("2019-01 ", Timespan::Month.header(t, utc));
    assert_eq!("2019-05 ", Timespan::Week.header(t, utc));
    assert_eq!("2019-01-30 ", Timespan::Day.header(t, utc));
    assert_eq!("2019-01-29 ", Timespan::Day.header(t, off(-3600)));
    // 2021-01-01 is in ISO week 53 of 2020
    assert_eq!("2021-53 ", Timespan::Week.header(1609459200, utc));
    // 2018-12-31 is in ISO week 1 of 2019
    assert_eq!("2018-01 ", Timespan::Week.header(1546214400, utc));
}

#[test]
fn timespan_next_is_after() {
    let utc = Offset::utc();
    let t = 1546300800; // 2019-01-01T00:00:00Z
    for span in [Timespan::Year, Timespan::Month, Timespan::Week, Timespan::Day] {
        let n = span.next(t, utc);
        assert!(n > t);
        assert_eq!(0, n % 86400);
    }
}

#[test]
fn format_dates() {
    let t = 1522717261; // 2018-04-03T01:01:01Z, a Tuesday
    let utc = Offset::utc();
    let plus = off(5400);
    assert_eq!("2018-04-03T01:01:01Z", fmt_utctime(t));
    assert_eq!("1970-01-01T00:00:00Z", fmt_utctime(0));
    assert_eq!("2018-04-03", fmt_time(t, DateStyle::Ymd, utc));
    assert_eq!("2018-04-03 01:01:01", fmt_time(t, DateStyle::Ymdhms, utc));
    assert_eq!("2018-04-03 02:31:01 +01:30", fmt_time(t, DateStyle::Ymdhmso, plus));
    assert_eq!("2018-04-02T23:01:01-02:00", fmt_time(t, DateStyle::Rfc3339, off(-7200)));
    assert_eq!("Tue, 03 Apr 2018 01:01:01 +00:00", fmt_time(t, DateStyle::Rfc2822, utc));
    assert_eq!("20180403010101", fmt_time(t, DateStyle::Compact, utc));
    assert_eq!("1522717261", fmt_time(t, DateStyle::Unix, utc));
    assert_eq!("-5", fmt_time(-5, DateStyle::Unix, utc));
}

#[test]
fn date_styles() {
    assert_eq!(Ok(DateStyle::Ymd), DateStyle::from_str("ymd"));
    assert_eq!(Ok(DateStyle::Ymd), DateStyle::from_str("d"));
    assert_eq!(Ok(DateStyle::Ymdhms), DateStyle::from_str("dt"));
    assert_eq!(Ok(DateStyle::Ymdhmso), DateStyle::from_str("dto"));
    assert_eq!(Ok(DateStyle::Rfc3339), DateStyle::from_str("3339"));
    assert_eq!(Ok(DateStyle::Rfc2822), DateStyle::from_str("rfc2822"));
    assert_eq!(Ok(DateStyle::Compact), DateStyle::from_str("compact"));
    assert_eq!(Ok(DateStyle::Unix), DateStyle::from_str("unix"));
    assert!(DateStyle::from_str("iso").is_err());
}

#[test]
fn offsets() {
    assert_eq!(0, get_offset(true).secs);
    let local = get_offset(false).secs;
    assert!(-93599 <= local && local <= 93599);
    assert!(Offset::from_seconds(93600).is_none());
    assert_eq!(Some(-93599), Offset::from_seconds(-93599).map(|o| o.secs));
}

#[test]
fn parse_then_format() {
    for (s, style) in [("2018-04-03 01:01:01", DateStyle::Ymdhms), ("2018-04-03", DateStyle::Ymd),
                       ("0999-12-31 23:59:59", DateStyle::Ymdhms)] {
        for secs in [0, 18000, -37800] {
            let t = parse_date(s, off(secs)).unwrap();
            assert_eq!(s, fmt_time(t, style, off(secs)));
        }
    }
}

#[test]
fn offset_choice() {
    assert_eq!(3600, offset_or_utc(Some(3600)).secs);
    assert_eq!(0, offset_or_utc(None).secs);
}

#[test]
fn date_error_text() {
    assert_eq!(Err("Couldn't parse \"a while ago\", check examples in --help".to_string()),
               parse_date("  a while ago ", Offset::utc()));
    assert_eq!(Err("Couldn't parse \"\", check examples in --help".to_string()),
               parse_date("", Offset::utc()));
}

#[test]
fn relative_punctuation() {
    assert_eq!(None, parse_date_ago("1-day", 1522713600));
    assert_eq!(None, parse_date_ago("1 Day", 1522713600));
    assert_eq!(Some(1522713600 - 86400 - 7200), parse_date_ago("1 day, 2 h", 1522713600));
    assert_eq!(Some(1522713600 - 60), parse_date_ago("1 min", 1522713600));
}
