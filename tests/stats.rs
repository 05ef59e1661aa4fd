use emlop::parser::{Hist, Pretend};
use emlop::date::{Offset, Timespan};
use emlop::stats::{mean, Buckets, Pairing, Stats, Times, Totals};

fn start(ts: i64, e: &str, v: &str, it: &str) -> Hist {
    Hist::MergeStart { ts, ebuild: e.to_string(), version: v.to_string(), iter: it.to_string() }
}

fn stop(ts: i64, e: &str, v: &str, it: &str) -> Hist {
    Hist::MergeStop { ts, ebuild: e.to_string(), version: v.to_string(), iter: it.to_string() }
}

fn pretend(e: &str, v: &str) -> Pretend {
    Pretend { ebuild: e.to_string(), version: v.to_string() }
}

#[test]
fn predict_mean() {
    let mut s = Stats::new(10);
    for (i, d) in [60, 120, 180].iter().enumerate() {
        let t = 1000 * i as i64;
        s.add(&start(t, "c/p", "1", "1)1"));
        s.add(&stop(t + d, "c/p", "1", "1)1"));
    }
    assert_eq!(&[60, 120, 180], s.merge_times.get("c/p"));
    let p = s.predict(&vec![pretend("c/p", "2")]);
    assert_eq!(120, p.total);
    assert!(p.unknown.is_empty());
    let p = s.predict(&vec![pretend("c/p", "2"), pretend("c/q", "1")]);
    assert_eq!(120, p.total);
    assert_eq!(vec!["c/q".to_string()], p.unknown);
}

#[test]
fn pairing_latest_start() {
    let mut s = Stats::new(10);
    s.add(&start(0, "c/p", "1", "1)1"));
    s.add(&start(100, "c/p", "1", "1)1"));
    s.add(&stop(130, "c/p", "1", "1)1"));
    s.add(&stop(200, "c/p", "1", "1)1"));
    assert_eq!(&[30], s.merge_times.get("c/p"));
}

#[test]
fn pairing_mismatch_discards() {
    let mut s = Stats::new(10);
    s.add(&start(0, "c/p", "1", "1)2"));
    s.add(&stop(50, "c/p", "2", "1)2"));
    s.add(&stop(60, "c/p", "1", "1)2"));
    assert!(s.merge_times.get("c/p").is_empty());
    let mut p = Pairing::new();
    p.start("c/p", "k".to_string(), 5);
    assert_eq!(None, p.stop("c/q", "k", 9));
    assert_eq!(Some(4), p.stop("c/p", "k", 9));
    assert_eq!(None, p.stop("c/p", "k", 10));
}

#[test]
fn unmerge_and_sync() {
    let mut s = Stats::new(10);
    s.add(&Hist::UnmergeStart { ts: 10, ebuild: "c/p".to_string(), version: "1".to_string() });
    s.add(&Hist::UnmergeStop { ts: 13, ebuild: "c/p".to_string(), version: "1".to_string() });
    s.add(&Hist::SyncStop { ts: 20 });
    s.add(&Hist::SyncStart { ts: 30 });
    s.add(&Hist::SyncStop { ts: 75 });
    assert_eq!(&[3], s.unmerge_times.get("c/p"));
    assert_eq!(&[45], s.sync_times.get(""));
}

#[test]
fn times_keep_last() {
    let mut t = Times::new(2);
    t.record("a", 1);
    t.record("a", 2);
    t.record("a", 3);
    t.record("b", 9);
    assert_eq!(&[2, 3], t.get("a"));
    assert_eq!(&[9], t.get("b"));
    assert!(t.get("c").is_empty());
}

#[test]
fn means() {
    assert_eq!(120, mean(&[60, 120, 180]));
    assert_eq!(1, mean(&[1, 2]));
    assert_eq!(-1, mean(&[-1, -2]));
    assert_eq!(i64::MAX, mean(&[i64::MAX, i64::MAX]));
    assert_eq!(i64::MIN, mean(&[i64::MIN, i64::MIN]));
}

#[test]
fn buckets_by_month() {
    let mut b = Buckets::new(Timespan::Month, Offset::utc());
    assert!(b.advance(1548806400)); // 2019-01-30
    assert_eq!(Some(1548979200), b.next); // 2019-02-01
    assert!(!b.advance(1548892800)); // 2019-01-31
    assert!(b.advance(1548979200)); // 2019-02-01
    assert_eq!(Some(1551398400), b.next); // 2019-03-01
}

#[test]
fn totals() {
    let mut s = Stats::new(10);
    assert_eq!(None, s.add(&start(0, "c/p", "1", "1)1")));
    assert_eq!(Some(30), s.add(&stop(30, "c/p", "1", "1)1")));
    assert_eq!(None, s.add(&stop(40, "c/p", "1", "1)1")));
    let mut t = Totals::new();
    assert_eq!(None, t.average());
    t.add(30);
    t.add(61);
    assert_eq!((2, 91), (t.count, t.sum));
    assert_eq!(Some(45), t.average());
    t.add(-200);
    assert_eq!(Some(-36), t.average());
}
