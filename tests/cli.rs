use emlop::cli::{find_invalid, fmt_duration, parse_limit, DurationStyle};

#[test]
fn duration() {
    for (hms, s, i) in &[("0", "0", 0),
                         ("1", "1", 1),
                         ("59", "59", 59),
                         ("1:00", "60", 60),
                         ("1:01", "61", 61),
                         ("59:59", "3599", 3599),
                         ("1:00:00", "3600", 3600),
                         ("99:59:59", "359999", 359999),
                         ("100:00:00", "360000", 360000),
                         ("?", "?", -1),
                         ("?", "?", -123456)]
    {
        assert_eq!(*hms, fmt_duration(DurationStyle::HMS, *i));
        assert_eq!(*s, fmt_duration(DurationStyle::S, *i));
    }
}

#[test]
fn limits() {
    assert_eq!(Ok(10), parse_limit("10"));
    assert_eq!(Ok(0), parse_limit("0"));
    assert_eq!(Ok(65535), parse_limit("65535"));
    assert_eq!(Ok(5), parse_limit("+5"));
    assert!(parse_limit("65536").is_err());
    assert!(parse_limit("-0").is_err());
    assert!(parse_limit("-1").is_err());
    assert!(parse_limit("ten").is_err());
    assert!(parse_limit("").is_err());
}

#[test]
fn invalid_letters() {
    assert_eq!(Ok(()), find_invalid("musa", "mu"));
    assert_eq!(Ok(()), find_invalid("musa", ""));
    assert_eq!(Err("x".to_string()), find_invalid("musa", "mxy"));
}

#[test]
fn duration_styles() {
    assert_eq!(Ok(DurationStyle::HMS), DurationStyle::from_str("hms"));
    assert_eq!(Ok(DurationStyle::S), DurationStyle::from_str("s"));
    assert!(DurationStyle::from_str("ms").is_err());
}
