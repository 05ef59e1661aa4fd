use emlop::parser::{
    filter_pkg_fn, filter_ts_fn, parse_event, parse_pretend, parse_start, parse_stop,
    parse_syncstart, parse_syncstop, parse_ts, parse_unmergestart, parse_unmergestop, FilterPkg,
    Hist, LogParser, NocaseRegex, Show,
};

fn merges() -> Show {
    Show { merge: true, ..Show::default() }
}

fn all() -> Show {
    Show { merge: true, unmerge: true, sync: true, ..Show::default() }
}

fn kind(h: &Hist) -> &'static str {
    match h {
        Hist::MergeStart { .. } => "MStart",
        Hist::MergeStop { .. } => "MStop",
        Hist::UnmergeStart { .. } => "UStart",
        Hist::UnmergeStop { .. } => "UStop",
        Hist::SyncStart { .. } => "SStart",
        Hist::SyncStop { .. } => "SStop",
    }
}

const LOG: &str = "1517609348: >>> emerge (5 of 12) dev-libs/foo-1.2.3 to /
1517609350:  === Unmerging... (dev-libs/foo-1.2.2)
1517609351: >>> unmerge success: dev-libs/foo-1.2.2
1517609360: ::: completed emerge (5 of 12) dev-libs/foo-1.2.3 to /
1517609370: === sync
1517609380: === Sync completed for gentoo
1517609390: >>> emerge (6 of 12) kde-frameworks/kactivities-5.4 to /
1517609300: ::: completed emerge (6 of 12) kde-frameworks/kactivities-5.4 to /
junk line
15176093x0: >>> emerge (7 of 12) media-libs/jpeg-9 to /
1517609400: >>> emerge (7 of 12) media-libs/libpng to /";

fn lines() -> Vec<String> {
    LOG.lines().map(|l| l.to_string()).collect()
}

#[test]
fn merge_start_line() {
    let f = filter_pkg_fn(None, false).unwrap();
    let ft = filter_ts_fn(None, None);
    let (t, rest) = parse_ts("1517609348: >>> emerge (5 of 12) dev-libs/foo-1.2.3 to /", &ft).unwrap();
    assert_eq!(1517609348, t);
    let h = parse_start(true, t, rest, &f).unwrap();
    assert_eq!("MStart", kind(&h));
    assert_eq!(1517609348, h.ts());
    assert_eq!("dev-libs/foo", h.ebuild());
    assert_eq!("1.2.3", h.version());
    assert_eq!("12)5", h.iter());
    assert_eq!("dev-libs/foo-1.2.3", h.ebuild_version());
    assert!(parse_start(false, t, rest, &f).is_none());
    assert!(parse_stop(true, t, rest, &f).is_none());
}

#[test]
fn other_lines() {
    let f = FilterPkg::True;
    let h = parse_stop(true, 5, "::: completed emerge (1 of 3) a/b-2 to /", &f).unwrap();
    assert_eq!(("MStop", "a/b", "2", "3)1"), (kind(&h), h.ebuild(), h.version(), h.iter()));
    let h = parse_unmergestart(true, 5, "=== Unmerging... (a/b-2.1)", &f).unwrap();
    assert_eq!(("UStart", "a/b", "2.1"), (kind(&h), h.ebuild(), h.version()));
    let h = parse_unmergestop(true, 5, ">>> unmerge success: a/b-2.1", &f).unwrap();
    assert_eq!(("UStop", "a/b", "2.1"), (kind(&h), h.ebuild(), h.version()));
    assert!(parse_syncstart(true, 5, "=== sync").is_some());
    assert!(parse_syncstart(true, 5, "=== sync now").is_none());
    assert!(parse_syncstop(true, 5, "=== Sync completed with x").is_some());
    assert!(parse_syncstop(false, 5, "=== Sync completed with x").is_none());
    assert!(parse_unmergestart(true, 5, "=== Unmerging... (", &f).is_none());
    assert!(parse_unmergestart(true, 5, "=== Unmerging... xa/b-1y", &f).is_none());
    assert!(parse_unmergestart(true, 5, "=== Unmerging... (a/b-1", &f).is_none());
    assert!(parse_unmergestart(true, 5, "=== Unmerging... a/b-1)", &f).is_none());
    assert!(parse_stop(true, 5, "::: completed emerge (1 of 3)", &f).is_none());
    assert!(parse_start(true, 5, ">>> emerge (1 of 3) a/b to /", &f).is_none());
}

#[test]
fn timestamps() {
    let ft = filter_ts_fn(Some(10), Some(20));
    assert!(ft.matches(10) && ft.matches(20) && !ft.matches(9) && !ft.matches(21));
    assert_eq!(None, parse_ts("9: === sync", &ft));
    assert_eq!(Some((10, "=== sync")), parse_ts("10:    === sync", &ft));
    assert_eq!(Some((20, "")), parse_ts("20:", &ft));
    assert_eq!(None, parse_ts("x: === sync", &ft));
    assert_eq!(None, parse_ts("no colon", &ft));
    let all_ts = filter_ts_fn(None, None);
    assert!(all_ts.matches(i64::MIN) && all_ts.matches(i64::MAX));
}

#[test]
fn package_filters() {
    let f = filter_pkg_fn(Some("kactivities"), true).unwrap();
    assert!(f.matches("kde-frameworks/kactivities"));
    assert!(!f.matches("kde-frameworks/kactivities-stats"));
    assert!(!f.matches("kactivities"));
    let f = filter_pkg_fn(Some("kde-frameworks/kactivities"), true).unwrap();
    assert!(f.matches("kde-frameworks/kactivities"));
    assert!(!f.matches("x/kde-frameworks/kactivities"));
    let f = filter_pkg_fn(Some("frameworks/kactivities"), true).unwrap();
    assert!(!f.matches("kde-frameworks/kactivities"));
    let f = filter_pkg_fn(Some("FILE"), false).unwrap();
    assert!(f.matches("dev-perl/File-Next"));
    assert!(f.matches("sys-apps/file"));
    let f = filter_pkg_fn(Some("ks/kw"), false).unwrap();
    assert!(f.matches("kde-frameworks/kwallet"));
    assert!(filter_pkg_fn(Some("("), false).is_err());
    assert!(filter_pkg_fn(None, false).unwrap().matches("anything"));
}

#[test]
fn log_in_order() {
    let mut p = LogParser::new(None, None, all(), None, false).unwrap();
    let evs = p.parse_lines(&lines());
    let kinds: Vec<&str> = evs.iter().map(kind).collect();
    assert_eq!(vec!["MStart", "UStart", "UStop", "MStop", "SStart", "SStop", "MStart", "MStop"], kinds);
    let ts: Vec<i64> = evs.iter().map(|h| h.ts()).collect();
    assert_eq!(vec![1517609348, 1517609350, 1517609351, 1517609360, 1517609370, 1517609380,
                    1517609390, 1517609300], ts);
}

#[test]
fn log_filters() {
    let mut p = LogParser::new(Some(1517609350), Some(1517609370), all(), None, false).unwrap();
    let evs = p.parse_lines(&lines());
    let kinds: Vec<&str> = evs.iter().map(kind).collect();
    assert_eq!(vec!["UStart", "UStop", "MStop", "SStart"], kinds);
    let mut p = LogParser::new(None, None, merges(), Some("kactivities"), true).unwrap();
    let evs = p.parse_lines(&lines());
    assert_eq!(2, evs.len());
    assert!(evs.iter().all(|h| h.ebuild() == "kde-frameworks/kactivities"));
    let mut p = LogParser::new(None, None, Show { sync: true, ..Show::default() }, None, false).unwrap();
    assert_eq!(2, p.parse_lines(&lines()).len());
    let mut p = LogParser::new(None, None, Show { tot: true, ..Show::default() }, None, false).unwrap();
    assert_eq!(6, p.parse_lines(&lines()).len());
    assert!(LogParser::new(None, None, all(), Some("["), false).is_err());
}

#[test]
fn clock_jump() {
    let mut p = LogParser::new(None, None, all(), None, false).unwrap();
    assert_eq!(None, p.parse_line("100: === sync").1);
    assert_eq!(Some(100), p.parse_line("50: === sync").1);
    assert_eq!(None, p.parse_line("60: junk").1);
    assert_eq!(60, p.prev_ts);
}

#[test]
fn dispatch() {
    let f = FilterPkg::True;
    assert!(parse_event(1, ">>> emerge (1 of 1) a/b-1 to /", &merges(), &f).is_some());
    assert!(parse_event(1, ">>> unmerge success: a/b-1", &merges(), &f).is_none());
    assert!(parse_event(1, "=== sync", &merges(), &f).is_none());
    assert!(parse_event(1, "=== sync", &all(), &f).is_some());
}

#[test]
fn pretend_lines() {
    let p = parse_pretend("[ebuild     U  ] sys-devel/gcc-6.4.0-r1 [6.4.0] USE=\"cxx\"").unwrap();
    assert_eq!(("sys-devel/gcc", "6.4.0-r1"), (p.ebuild.as_str(), p.version.as_str()));
    let p = parse_pretend("[ebuild   R    ] app-portage/emlop-0.1.0_p20180221::gentoo").unwrap();
    assert_eq!(("app-portage/emlop", "0.1.0_p20180221"), (p.ebuild.as_str(), p.version.as_str()));
    let p = parse_pretend("[ebuild  N     ] dev-db/postgresql-10.3:10").unwrap();
    assert_eq!(("dev-db/postgresql", "10.3"), (p.ebuild.as_str(), p.version.as_str()));
    assert!(parse_pretend("[blocks B      ] app-admin/syslog-ng-3.13.2").is_none());
    assert!(parse_pretend("[ebuild] a/b-1").is_none());
    assert!(parse_pretend("[ebuild  N ]a/b-1").is_none());
    assert!(parse_pretend("[ebuild  N ] a/b").is_none());
    assert!(parse_pretend("Calculating dependencies").is_none());
}

#[test]
fn start_stop_keys() {
    let f = FilterPkg::True;
    let key = |h: &Hist| (h.ebuild().to_string(), h.version().to_string(), h.iter().to_string());
    let s = parse_start(true, 1, ">>> emerge (5 of 12) dev-libs/foo-1.2.3 to /", &f).unwrap();
    let p = parse_stop(true, 2, "::: completed emerge (5 of 12) dev-libs/foo-1.2.3 to /", &f).unwrap();
    assert_eq!(key(&s), key(&p));
    assert_eq!("12)5", p.iter());
    for other in ["::: completed emerge (1 of 25) dev-libs/foo-1.2.3 to /",
                  "::: completed emerge (5 of 12) dev-libs/foo-1.2.4 to /",
                  "::: completed emerge (5 of 12) dev-libs/bar-1.2.3 to /"] {
        let p = parse_stop(true, 2, other, &f).unwrap();
        assert_ne!(key(&s), key(&p));
    }
}

#[test]
fn regex_filter_ignores_case() {
    let lower = filter_pkg_fn(Some("file"), false).unwrap();
    let upper = filter_pkg_fn(Some("FILE"), false).unwrap();
    for s in ["dev-perl/File-Next", "sys-apps/file", "app-misc/mc", "x/fIlE"] {
        assert_eq!(lower.matches(s), upper.matches(s));
    }
    let r = NocaseRegex::new("^sys-.*/FILE$").unwrap();
    assert!(r.is_match("sys-apps/file"));
    assert!(!r.is_match("dev-perl/file"));
    assert!(NocaseRegex::new("(").is_err());
    let f = FilterPkg::Re { r: NocaseRegex::new("kactivities").unwrap() };
    assert!(parse_start(true, 1, ">>> emerge (1 of 1) kde-frameworks/kactivities-5 to /", &f).is_some());
    assert!(parse_start(true, 1, ">>> emerge (1 of 1) kde-frameworks/kwallet-5 to /", &f).is_none());
}
