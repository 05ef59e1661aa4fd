//! Pairing start and stop events into durations, and predicting build times.
use vstd::prelude::*;
use vstd::string::*;
use crate::date::{next_spec, span_range, Offset, Timespan};
use crate::parser::{atom_split, is_first_split, start_event, stop_event, Hist, HistV, Pretend};
use crate::text::{all_digits, has_prefix, is_ascii_white, is_word, joined, lemma_joined_prefix, lemma_tokens_joined, tokens};
use crate::text::same_chars_str;

verus! {

// ---------------------------------------------------------------------------
// Pairing
// ---------------------------------------------------------------------------
/// A start that has not been matched by a stop yet.
pub struct Started {
    pub ebuild: String,
    pub key: String,
    pub ts: i64,
}

/// The pending starts, at most one per package.
pub struct Pairing {
    pub started: Vec<Started>,
}

/// The pending start of each package: its key (version and batch position) and time.
pub type PendingMap = Map<Seq<char>, (Seq<char>, int)>;

/// What a stop of `pkg` with `key` at `ts` yields against the pending starts
/// `m`: the duration since the pending start if its key is the same.
pub open spec fn stop_result(m: PendingMap, pkg: Seq<char>, key: Seq<char>, ts: int) -> Option<
    int,
> {
    if m.contains_key(pkg) && m[pkg].0 == key {
        Some(ts - m[pkg].1)
    } else {
        None
    }
}

impl Pairing {
    /// No package appears twice.
    pub open spec fn wf(&self) -> bool {
        forall|i: int, j: int|
            0 <= i < j < self.started@.len() ==> (#[trigger] self.started@[i]).ebuild@
                != (#[trigger] self.started@[j]).ebuild@
    }

    pub open spec fn view(&self) -> PendingMap {
        Map::new(
            |p: Seq<char>| exists|i: int|
                0 <= i < self.started@.len() && (#[trigger] self.started@[i]).ebuild@ == p,
            |p: Seq<char>| {
                let i = choose|i: int|
                    0 <= i < self.started@.len() && (#[trigger] self.started@[i]).ebuild@ == p;
                (self.started@[i].key@, self.started@[i].ts as int)
            },
        )
    }

    pub fn new() -> (r: Pairing)
        ensures
            r.wf(),
            r.view() == PendingMap::empty(),
    {
        let r = Pairing { started: Vec::new() };
        assert(r.view() =~= PendingMap::empty());
        r
    }

    proof fn lemma_view_at(&self, i: int)
        requires
            self.wf(),
            0 <= i < self.started@.len(),
        ensures
            self.view().contains_key(self.started@[i].ebuild@),
            self.view()[self.started@[i].ebuild@]
                == (self.started@[i].key@, self.started@[i].ts as int),
    {
        let p = self.started@[i].ebuild@;
        let j = choose|j: int|
            0 <= j < self.started@.len() && (#[trigger] self.started@[j]).ebuild@ == p;
        if j != i {
            if j < i {
                assert(self.started@[j].ebuild@ != self.started@[i].ebuild@);
            } else {
                assert(self.started@[i].ebuild@ != self.started@[j].ebuild@);
            }
        }
    }

    /// The index of the pending start of `pkg`.
    fn find(&self, pkg: &str) -> (r: Option<usize>)
        requires
            self.wf(),
        ensures
            match r {
                Some(i) => i < self.started@.len() && self.started@[i as int].ebuild@ == pkg@,
                None => !self.view().contains_key(pkg@),
            },
    {
        let mut i: usize = 0;
        while i < self.started.len()
            invariant
                i <= self.started@.len(),
                forall|j: int| 0 <= j < i ==> (#[trigger] self.started@[j]).ebuild@ != pkg@,
            decreases self.started@.len() - i,
        {
            if same_chars_str(self.started[i].ebuild.as_str(), pkg) {
                return Some(i);
            }
            i += 1;
        }
        None
    }

    /// Drop the pending start at index `i`.
    fn remove_at(&mut self, i: usize)
        requires
            old(self).wf(),
            i < old(self).started@.len(),
        ensures
            final(self).wf(),
            final(self).view() == old(self).view().remove(old(self).started@[i as int].ebuild@),
    {
        let ghost p = self.started@[i as int].ebuild@;
        let ghost before = *self;
        self.started.remove(i);
        assert forall|q: Seq<char>|
            #[trigger] self.view().contains_key(q) == before.view().remove(p).contains_key(q) by {
            if self.view().contains_key(q) {
                let j = choose|j: int|
                    0 <= j < self.started@.len() && (#[trigger] self.started@[j]).ebuild@ == q;
                let k = if j < i { j } else { j + 1 };
                assert(before.started@[k] == self.started@[j]);
                before.lemma_view_at(k);
            }
            if before.view().remove(p).contains_key(q) {
                let k = choose|k: int|
                    0 <= k < before.started@.len() && (#[trigger] before.started@[k]).ebuild@ == q;
                let j = if k < i { k } else { k - 1 };
                assert(self.started@[j] == before.started@[k]);
            }
        }
        assert forall|q: Seq<char>|
            #[trigger] self.view().contains_key(q) implies self.view()[q]
                == before.view().remove(p)[q] by {
            let j = choose|j: int|
                0 <= j < self.started@.len() && (#[trigger] self.started@[j]).ebuild@ == q;
            let k = if j < i { j } else { j + 1 };
            assert(before.started@[k] == self.started@[j]);
            before.lemma_view_at(k);
            self.lemma_view_at(j);
        }
        assert(self.view() =~= before.view().remove(p));
    }

    /// Record a start of `pkg`; a pending start of the same package is
    /// dropped (it was interrupted).
    pub fn start(&mut self, pkg: &str, key: String, ts: i64)
        requires
            old(self).wf(),
        ensures
            final(self).wf(),
            final(self).view() == old(self).view().insert(pkg@, (key@, ts as int)),
    {
        if let Some(i) = self.find(pkg) {
            self.remove_at(i);
        }
        let ghost before = *self;
        assert(!before.view().contains_key(pkg@));
        self.started.push(Started { ebuild: String::from_str(pkg), key, ts });
        let ghost n: int = self.started@.len() - 1;
        assert forall|j: int| 0 <= j < n implies (#[trigger] self.started@[j]).ebuild@ != pkg@ by {
            assert(self.started@[j] == before.started@[j]);
            if self.started@[j].ebuild@ == pkg@ {
                assert(before.view().contains_key(pkg@));
            }
        }
        assert forall|q: Seq<char>|
            #[trigger] self.view().contains_key(q)
                == before.view().insert(pkg@, (key@, ts as int)).contains_key(q) by {
            if self.view().contains_key(q) && q != pkg@ {
                let j = choose|j: int|
                    0 <= j < self.started@.len() && (#[trigger] self.started@[j]).ebuild@ == q;
                assert(before.started@[j] == self.started@[j]);
            }
            if before.view().contains_key(q) {
                let k = choose|k: int|
                    0 <= k < before.started@.len() && (#[trigger] before.started@[k]).ebuild@ == q;
                assert(self.started@[k] == before.started@[k]);
            }
            if q == pkg@ {
                assert(self.started@[n].ebuild@ == q);
            }
        }
        assert forall|q: Seq<char>|
            #[trigger] self.view().contains_key(q) implies self.view()[q]
                == before.view().insert(pkg@, (key@, ts as int))[q] by {
            let j = choose|j: int|
                0 <= j < self.started@.len() && (#[trigger] self.started@[j]).ebuild@ == q;
            self.lemma_view_at(j);
            if j < n {
                assert(before.started@[j] == self.started@[j]);
                before.lemma_view_at(j);
            }
        }
        assert(self.view() =~= before.view().insert(pkg@, (key@, ts as int)));
    }

    /// Record a stop of `pkg` with `key` at `ts`: the duration since the
    /// pending start if it has the same key; the pending start goes either way.
    pub fn stop(&mut self, pkg: &str, key: &str, ts: i64) -> (r: Option<i64>)
        requires
            old(self).wf(),
        ensures
            final(self).wf(),
            final(self).view() == old(self).view().remove(pkg@),
            match stop_result(old(self).view(), pkg@, key@, ts as int) {
                Some(d) => if i64::MIN <= d <= i64::MAX {
                    r == Some(d as i64)
                } else {
                    r is None
                },
                None => r is None,
            },
    {
        match self.find(pkg) {
            None => {
                assert(self.view().remove(pkg@) =~= self.view());
                None
            },
            Some(i) => {
                proof {
                    self.lemma_view_at(i as int);
                }
                let same = same_chars_str(self.started[i].key.as_str(), key);
                let t0 = self.started[i].ts;
                self.remove_at(i);
                if same {
                    ts.checked_sub(t0)
                } else {
                    None
                }
            },
        }
    }
}

/// A stop consumes the start it matches: once a stop of a package has been
/// handled, the same stop again matches nothing. With the start that a
/// later start replaces, this leaves at most one start for each stop.
pub proof fn lemma_stop_matches_once(m: PendingMap, pkg: Seq<char>, key: Seq<char>, ts: int)
    ensures
        stop_result(m.remove(pkg), pkg, key, ts) is None,
{
}

/// A later start of a package replaces the earlier one: a stop matches the
/// most recent start.
pub proof fn lemma_latest_start_wins(
    m: PendingMap,
    pkg: Seq<char>,
    k1: Seq<char>,
    t1: int,
    k2: Seq<char>,
    t2: int,
    ts: int,
)
    ensures
        stop_result(m.insert(pkg, (k1, t1)).insert(pkg, (k2, t2)), pkg, k2, ts) == Some(ts - t2),
        k1 != k2 ==> stop_result(m.insert(pkg, (k1, t1)).insert(pkg, (k2, t2)), pkg, k1, ts)
            is None,
{
}

// ---------------------------------------------------------------------------
// Durations
// ---------------------------------------------------------------------------
/// The last `n` items of `s`.
pub open spec fn keep_last(s: Seq<i64>, n: int) -> Seq<i64> {
    if s.len() > n {
        s.skip(s.len() - n)
    } else {
        s
    }
}

/// The recent durations of one package.
pub struct PkgTimes {
    pub ebuild: String,
    pub times: Vec<i64>,
}

/// The most recent durations of each package, at most `limit` of them.
pub struct Times {
    pub pkgs: Vec<PkgTimes>,
    pub limit: usize,
}

impl Times {
    pub open spec fn wf(&self) -> bool {
        forall|i: int, j: int|
            0 <= i < j < self.pkgs@.len() ==> (#[trigger] self.pkgs@[i]).ebuild@
                != (#[trigger] self.pkgs@[j]).ebuild@
    }

    pub open spec fn view(&self) -> Map<Seq<char>, Seq<i64>> {
        Map::new(
            |p: Seq<char>| exists|i: int|
                0 <= i < self.pkgs@.len() && (#[trigger] self.pkgs@[i]).ebuild@ == p,
            |p: Seq<char>| {
                let i = choose|i: int|
                    0 <= i < self.pkgs@.len() && (#[trigger] self.pkgs@[i]).ebuild@ == p;
                self.pkgs@[i].times@
            },
        )
    }

    /// The durations recorded for `p`, none if it has no entry.
    pub open spec fn times_of(&self, p: Seq<char>) -> Seq<i64> {
        if self.view().contains_key(p) {
            self.view()[p]
        } else {
            Seq::empty()
        }
    }

    pub fn new(limit: usize) -> (r: Times)
        ensures
            r.wf(),
            r.limit == limit,
            r.view() == Map::<Seq<char>, Seq<i64>>::empty(),
    {
        let r = Times { pkgs: Vec::new(), limit };
        assert(r.view() =~= Map::<Seq<char>, Seq<i64>>::empty());
        r
    }

    proof fn lemma_view_at(&self, i: int)
        requires
            self.wf(),
            0 <= i < self.pkgs@.len(),
        ensures
            self.view().contains_key(self.pkgs@[i].ebuild@),
            self.view()[self.pkgs@[i].ebuild@] == self.pkgs@[i].times@,
    {
        let p = self.pkgs@[i].ebuild@;
        let j = choose|j: int| 0 <= j < self.pkgs@.len() && (#[trigger] self.pkgs@[j]).ebuild@ == p;
        if j != i {
            if j < i {
                assert(self.pkgs@[j].ebuild@ != self.pkgs@[i].ebuild@);
            } else {
                assert(self.pkgs@[i].ebuild@ != self.pkgs@[j].ebuild@);
            }
        }
    }

    fn find(&self, pkg: &str) -> (r: Option<usize>)
        requires
            self.wf(),
        ensures
            match r {
                Some(i) => i < self.pkgs@.len() && self.pkgs@[i as int].ebuild@ == pkg@,
                None => !self.view().contains_key(pkg@),
            },
    {
        let mut i: usize = 0;
        while i < self.pkgs.len()
            invariant
                i <= self.pkgs@.len(),
                forall|j: int| 0 <= j < i ==> (#[trigger] self.pkgs@[j]).ebuild@ != pkg@,
            decreases self.pkgs@.len() - i,
        {
            if same_chars_str(self.pkgs[i].ebuild.as_str(), pkg) {
                return Some(i);
            }
            i += 1;
        }
        None
    }

    /// The durations recorded for `pkg`, oldest first.
    pub fn get(&self, pkg: &str) -> (r: &[i64])
        requires
            self.wf(),
        ensures
            r@ == self.times_of(pkg@),
    {
        match self.find(pkg) {
            Some(i) => {
                proof {
                    self.lemma_view_at(i as int);
                }
                self.pkgs[i].times.as_slice()
            },
            None => &[],
        }
    }

    fn take_at(&mut self, i: usize) -> (r: PkgTimes)
        requires
            old(self).wf(),
            i < old(self).pkgs@.len(),
        ensures
            final(self).wf(),
            final(self).limit == old(self).limit,
            r == old(self).pkgs@[i as int],
            final(self).view() == old(self).view().remove(r.ebuild@),
    {
        let ghost p = self.pkgs@[i as int].ebuild@;
        let ghost before = *self;
        let r = self.pkgs.remove(i);
        assert forall|q: Seq<char>|
            #[trigger] self.view().contains_key(q) == before.view().remove(p).contains_key(q) by {
            if self.view().contains_key(q) {
                let j = choose|j: int|
                    0 <= j < self.pkgs@.len() && (#[trigger] self.pkgs@[j]).ebuild@ == q;
                let k = if j < i { j } else { j + 1 };
                assert(before.pkgs@[k] == self.pkgs@[j]);
                before.lemma_view_at(k);
            }
            if before.view().remove(p).contains_key(q) {
                let k = choose|k: int|
                    0 <= k < before.pkgs@.len() && (#[trigger] before.pkgs@[k]).ebuild@ == q;
                let j = if k < i { k } else { k - 1 };
                assert(self.pkgs@[j] == before.pkgs@[k]);
            }
        }
        assert forall|q: Seq<char>|
            #[trigger] self.view().contains_key(q) implies self.view()[q]
                == before.view().remove(p)[q] by {
            let j = choose|j: int|
                0 <= j < self.pkgs@.len() && (#[trigger] self.pkgs@[j]).ebuild@ == q;
            let k = if j < i { j } else { j + 1 };
            assert(before.pkgs@[k] == self.pkgs@[j]);
            before.lemma_view_at(k);
            self.lemma_view_at(j);
        }
        assert(self.view() =~= before.view().remove(p));
        r
    }

    fn put(&mut self, e: PkgTimes)
        requires
            old(self).wf(),
            !old(self).view().contains_key(e.ebuild@),
        ensures
            final(self).wf(),
            final(self).limit == old(self).limit,
            final(self).view() == old(self).view().insert(e.ebuild@, e.times@),
    {
        let ghost before = *self;
        let ghost pkg = e.ebuild@;
        let ghost ts = e.times@;
        self.pkgs.push(e);
        let ghost n: int = self.pkgs@.len() - 1;
        assert forall|j: int| 0 <= j < n implies (#[trigger] self.pkgs@[j]).ebuild@ != pkg by {
            assert(self.pkgs@[j] == before.pkgs@[j]);
            if self.pkgs@[j].ebuild@ == pkg {
                assert(before.view().contains_key(pkg));
            }
        }
        assert forall|q: Seq<char>|
            #[trigger] self.view().contains_key(q)
                == before.view().insert(pkg, ts).contains_key(q) by {
            if self.view().contains_key(q) && q != pkg {
                let j = choose|j: int|
                    0 <= j < self.pkgs@.len() && (#[trigger] self.pkgs@[j]).ebuild@ == q;
                assert(before.pkgs@[j] == self.pkgs@[j]);
            }
            if before.view().contains_key(q) {
                let k = choose|k: int|
                    0 <= k < before.pkgs@.len() && (#[trigger] before.pkgs@[k]).ebuild@ == q;
                assert(self.pkgs@[k] == before.pkgs@[k]);
            }
            if q == pkg {
                assert(self.pkgs@[n].ebuild@ == q);
            }
        }
        assert forall|q: Seq<char>|
            #[trigger] self.view().contains_key(q) implies self.view()[q]
                == before.view().insert(pkg, ts)[q] by {
            let j = choose|j: int|
                0 <= j < self.pkgs@.len() && (#[trigger] self.pkgs@[j]).ebuild@ == q;
            self.lemma_view_at(j);
            if j < n {
                assert(before.pkgs@[j] == self.pkgs@[j]);
                before.lemma_view_at(j);
            }
        }
        assert(self.view() =~= before.view().insert(pkg, ts));
    }

    /// Record a duration of `pkg`, keeping only the last `limit` ones.
    pub fn record(&mut self, pkg: &str, d: i64)
        requires
            old(self).wf(),
        ensures
            final(self).wf(),
            final(self).limit == old(self).limit,
            final(self).view() == old(self).view().insert(
                pkg@,
                keep_last(old(self).times_of(pkg@).push(d), old(self).limit as int),
            ),
    {
        let mut e = match self.find(pkg) {
            Some(i) => {
                proof {
                    self.lemma_view_at(i as int);
                }
                self.take_at(i)
            },
            None => PkgTimes { ebuild: String::from_str(pkg), times: Vec::new() },
        };
        let ghost old_times = e.times@;
        e.times.push(d);
        if e.times.len() > self.limit {
            let extra = e.times.len() - self.limit;
            let mut kept: Vec<i64> = Vec::new();
            let mut j = extra;
            while j < e.times.len()
                invariant
                    extra <= j <= e.times@.len(),
                    kept@ == e.times@.subrange(extra as int, j as int),
                decreases e.times@.len() - j,
            {
                kept.push(e.times[j]);
                j += 1;
            }
            e.times = kept;
        }
        self.put(e);
    }
}

/// 2 to the 64th, above every `usize`.
pub open spec fn two_64() -> int {
    18446744073709551616
}

/// The mean of `s`, rounded toward zero.
pub open spec fn mean_of(s: Seq<i64>) -> int {
    let t = sum_of(s);
    if t >= 0 {
        t / (s.len() as int)
    } else {
        -((-t) / (s.len() as int))
    }
}

pub open spec fn sum_of(s: Seq<i64>) -> int
    decreases s.len(),
{
    if s.len() == 0 {
        0
    } else {
        sum_of(s.drop_last()) + s.last()
    }
}

proof fn lemma_sum_bounds(s: Seq<i64>)
    ensures
        s.len() * (i64::MIN as int) <= sum_of(s) <= s.len() * (i64::MAX as int),
    decreases s.len(),
{
    if s.len() > 0 {
        lemma_sum_bounds(s.drop_last());
        assert(s.len() * (i64::MIN as int)
            == (s.len() - 1) * (i64::MIN as int) + i64::MIN) by (nonlinear_arith);
        assert(s.len() * (i64::MAX as int)
            == (s.len() - 1) * (i64::MAX as int) + i64::MAX) by (nonlinear_arith);
    }
}

/// The mean of a non-empty list of durations, rounded toward zero.
pub fn mean(s: &[i64]) -> (r: i64)
    requires
        s@.len() > 0,
    ensures
        r == mean_of(s@),
{
    let n = s.len();
    let mut t: i128 = 0;
    let mut i: usize = 0;
    while i < n
        invariant
            n == s@.len(),
            i <= n,
            t == sum_of(s@.take(i as int)),
            i * (i64::MIN as int) <= t <= i * (i64::MAX as int),
            n <= usize::MAX,
        decreases n - i,
    {
        assert(s@.take(i + 1).drop_last() =~= s@.take(i as int));
        proof {
            lemma_sum_bounds(s@.take(i + 1));
            assert((i + 1) * (i64::MAX as int) <= two_64() * 9223372036854775807)
                by (nonlinear_arith)
                requires
                    i + 1 <= two_64(),
            ;
            assert((i + 1) * (i64::MIN as int) >= two_64() * (-9223372036854775808))
                by (nonlinear_arith)
                requires
                    i + 1 <= two_64(),
            ;
        }
        t = t + s[i] as i128;
        i += 1;
    }
    assert(s@.take(n as int) =~= s@);
    let nn = n as i128;
    let q: i128 = if t >= 0 { t / nn } else { -((-t) / nn) };
    proof {
        let ti = t as int;
        let ni = n as int;
        if ti >= 0 {
            assert(ti / ni <= i64::MAX) by (nonlinear_arith)
                requires
                    0 <= ti <= ni * 9223372036854775807,
                    ni > 0,
            ;
        } else {
            assert((-ti) / ni <= 9223372036854775808) by (nonlinear_arith)
                requires
                    0 <= -ti <= ni * 9223372036854775808,
                    ni > 0,
            ;
        }
    }
    q as i64
}

// ---------------------------------------------------------------------------
// Statistics over an event stream
// ---------------------------------------------------------------------------
/// The key that pairs a merge stop with its start: version and batch position.
pub open spec fn merge_key(version: Seq<char>, iter: Seq<char>) -> Seq<char> {
    version + seq![' '] + iter
}

/// The durations table after the result `r` of a stop: the duration, when
/// there is one and it fits, is recorded.
pub open spec fn after_stop(
    times: Map<Seq<char>, Seq<i64>>,
    pkg: Seq<char>,
    r: Option<int>,
    limit: int,
) -> Map<Seq<char>, Seq<i64>> {
    match r {
        Some(d) => if i64::MIN <= d <= i64::MAX {
            times.insert(
                pkg,
                keep_last(
                    (if times.contains_key(pkg) {
                        times[pkg]
                    } else {
                        Seq::empty()
                    }).push(d as i64),
                    limit,
                ),
            )
        } else {
            times
        },
        None => times,
    }
}

/// Pending starts and recent durations of merges, unmerges and syncs.
pub struct Stats {
    pub merges: Pairing,
    pub unmerges: Pairing,
    pub merge_times: Times,
    pub unmerge_times: Times,
    pub sync_start: Option<i64>,
    pub sync_times: Times,
}

/// The value of a `Stats`.
pub struct StatsV {
    pub merges: PendingMap,
    pub unmerges: PendingMap,
    pub merge_times: Map<Seq<char>, Seq<i64>>,
    pub unmerge_times: Map<Seq<char>, Seq<i64>>,
    pub sync_start: Option<i64>,
    pub sync_times: Map<Seq<char>, Seq<i64>>,
    pub limit: int,
}

/// The key under which sync durations are kept.
pub open spec fn sync_key() -> Seq<char> {
    Seq::empty()
}

/// The statistics after the event `e`.
pub open spec fn stats_step(s: StatsV, e: HistV) -> StatsV {
    match e {
        HistV::MergeStart { ts, ebuild, version, iter } => StatsV {
            merges: s.merges.insert(ebuild, (merge_key(version, iter), ts as int)),
            ..s
        },
        HistV::MergeStop { ts, ebuild, version, iter } => StatsV {
            merges: s.merges.remove(ebuild),
            merge_times: after_stop(
                s.merge_times,
                ebuild,
                stop_result(s.merges, ebuild, merge_key(version, iter), ts as int),
                s.limit,
            ),
            ..s
        },
        HistV::UnmergeStart { ts, ebuild, version } => StatsV {
            unmerges: s.unmerges.insert(ebuild, (version, ts as int)),
            ..s
        },
        HistV::UnmergeStop { ts, ebuild, version } => StatsV {
            unmerges: s.unmerges.remove(ebuild),
            unmerge_times: after_stop(
                s.unmerge_times,
                ebuild,
                stop_result(s.unmerges, ebuild, version, ts as int),
                s.limit,
            ),
            ..s
        },
        HistV::SyncStart { ts } => StatsV { sync_start: Some(ts), ..s },
        HistV::SyncStop { ts } => match s.sync_start {
            Some(t0) => StatsV {
                sync_start: None,
                sync_times: after_stop(s.sync_times, sync_key(), Some(ts - t0), s.limit),
                ..s
            },
            None => s,
        },
    }
}

/// A duration kept when it fits in an `i64`.
pub open spec fn fitting(d: Option<int>) -> Option<int> {
    match d {
        Some(x) => if i64::MIN <= x <= i64::MAX {
            Some(x)
        } else {
            None
        },
        None => None,
    }
}

/// An optional `i64` as an optional integer.
pub open spec fn opt_int(r: Option<i64>) -> Option<int> {
    match r {
        Some(x) => Some(x as int),
        None => None,
    }
}

/// The duration that the event `e` completes, if any.
pub open spec fn stop_duration(s: StatsV, e: HistV) -> Option<int> {
    match e {
        HistV::MergeStop { ts, ebuild, version, iter } => fitting(
            stop_result(s.merges, ebuild, merge_key(version, iter), ts as int),
        ),
        HistV::UnmergeStop { ts, ebuild, version } => fitting(
            stop_result(s.unmerges, ebuild, version, ts as int),
        ),
        HistV::SyncStop { ts } => match s.sync_start {
            Some(t0) => fitting(Some(ts - t0)),
            None => None,
        },
        _ => None,
    }
}

impl Stats {
    pub open spec fn wf(&self) -> bool {
        &&& self.merges.wf()
        &&& self.unmerges.wf()
        &&& self.merge_times.wf()
        &&& self.unmerge_times.wf()
        &&& self.sync_times.wf()
        &&& self.unmerge_times.limit == self.merge_times.limit
        &&& self.sync_times.limit == self.merge_times.limit
    }

    pub open spec fn view(&self) -> StatsV {
        StatsV {
            merges: self.merges.view(),
            unmerges: self.unmerges.view(),
            merge_times: self.merge_times.view(),
            unmerge_times: self.unmerge_times.view(),
            sync_start: self.sync_start,
            sync_times: self.sync_times.view(),
            limit: self.merge_times.limit as int,
        }
    }

    /// Empty statistics that keep the last `limit` durations of each package.
    pub fn new(limit: usize) -> (r: Stats)
        ensures
            r.wf(),
            r.view() == (StatsV {
                merges: PendingMap::empty(),
                unmerges: PendingMap::empty(),
                merge_times: Map::empty(),
                unmerge_times: Map::empty(),
                sync_start: None,
                sync_times: Map::empty(),
                limit: limit as int,
            }),
    {
        Stats {
            merges: Pairing::new(),
            unmerges: Pairing::new(),
            merge_times: Times::new(limit),
            unmerge_times: Times::new(limit),
            sync_start: None,
            sync_times: Times::new(limit),
        }
    }

    /// Take one event into account.
    pub fn add(&mut self, h: &Hist) -> (r: Option<i64>)
        requires
            old(self).wf(),
        ensures
            final(self).wf(),
            final(self).view() == stats_step(old(self).view(), h@),
            opt_int(r) == stop_duration(old(self).view(), h@),
    {
        match h {
            Hist::MergeStart { ts, ebuild, version, iter } => {
                proof {
                    reveal_strlit(" ");
                }
                let mut key = String::from_str(version.as_str());
                key.append(" ");
                key.append(iter.as_str());
                assert(key@ =~= merge_key(version@, iter@));
                self.merges.start(ebuild.as_str(), key, *ts);
                None
            },
            Hist::MergeStop { ts, ebuild, version, iter } => {
                proof {
                    reveal_strlit(" ");
                }
                let mut key = String::from_str(version.as_str());
                key.append(" ");
                key.append(iter.as_str());
                assert(key@ =~= merge_key(version@, iter@));
                let d = self.merges.stop(ebuild.as_str(), key.as_str(), *ts);
                if let Some(d) = d {
                    self.merge_times.record(ebuild.as_str(), d);
                }
                d
            },
            Hist::UnmergeStart { ts, ebuild, version } => {
                self.unmerges.start(ebuild.as_str(), String::from_str(version.as_str()), *ts);
                None
            },
            Hist::UnmergeStop { ts, ebuild, version } => {
                let d = self.unmerges.stop(ebuild.as_str(), version.as_str(), *ts);
                if let Some(d) = d {
                    self.unmerge_times.record(ebuild.as_str(), d);
                }
                d
            },
            Hist::SyncStart { ts } => {
                self.sync_start = Some(*ts);
                None
            },
            Hist::SyncStop { ts } => {
                if let Some(t0) = self.sync_start {
                    self.sync_start = None;
                    let d = ts.checked_sub(t0);
                    if let Some(d) = d {
                        let none = String::new();
                        self.sync_times.record(none.as_str(), d);
                    }
                    d
                } else {
                    None
                }
            },
        }
    }
}

// ---------------------------------------------------------------------------
// Prediction
// ---------------------------------------------------------------------------
/// The estimate for a list of pending builds.
pub struct Prediction {
    /// The sum of the estimates of the packages with a history.
    pub total: i128,
    /// The packages without a history, in order.
    pub unknown: Vec<String>,
}

/// The durations recorded for `p` in `times`.
pub open spec fn history(times: Map<Seq<char>, Seq<i64>>, p: Seq<char>) -> Seq<i64> {
    if times.contains_key(p) {
        times[p]
    } else {
        Seq::empty()
    }
}

/// The sum of the mean durations of the packages of `ps` that have a history.
pub open spec fn predict_total(times: Map<Seq<char>, Seq<i64>>, ps: Seq<Seq<char>>) -> int
    decreases ps.len(),
{
    if ps.len() == 0 {
        0
    } else {
        predict_total(times, ps.drop_last()) + if history(times, ps.last()).len() > 0 {
            mean_of(history(times, ps.last()))
        } else {
            0
        }
    }
}

/// The packages of `ps` without a history, in order.
pub open spec fn unknown_of(times: Map<Seq<char>, Seq<i64>>, ps: Seq<Seq<char>>) -> Seq<Seq<char>>
    decreases ps.len(),
{
    if ps.len() == 0 {
        Seq::empty()
    } else {
        unknown_of(times, ps.drop_last()) + if history(times, ps.last()).len() > 0 {
            Seq::empty()
        } else {
            seq![ps.last()]
        }
    }
}

proof fn lemma_mean_bounds(s: Seq<i64>)
    requires
        s.len() > 0,
    ensures
        i64::MIN <= mean_of(s) <= i64::MAX,
{
    lemma_sum_bounds(s);
    let t = sum_of(s);
    let n = s.len() as int;
    if t >= 0 {
        assert(t / n <= i64::MAX) by (nonlinear_arith)
            requires
                0 <= t <= n * 9223372036854775807,
                n > 0,
        ;
    } else {
        assert((-t) / n <= 9223372036854775808) by (nonlinear_arith)
            requires
                0 <= -t <= n * 9223372036854775808,
                n > 0,
        ;
    }
}

impl Stats {
    /// The estimate for the pending builds: the sum of the mean recent merge
    /// time of each package with a history, and the packages without one.
    pub fn predict(&self, pending: &Vec<Pretend>) -> (r: Prediction)
        requires
            self.wf(),
        ensures
            r.total == predict_total(
                self.merge_times.view(),
                pending@.map_values(|p: Pretend| p.ebuild@),
            ),
            r.unknown@.map_values(|s: String| s@) == unknown_of(
                self.merge_times.view(),
                pending@.map_values(|p: Pretend| p.ebuild@),
            ),
    {
        let ghost ps = pending@.map_values(|p: Pretend| p.ebuild@);
        let ghost times = self.merge_times.view();
        let mut total: i128 = 0;
        let mut unknown: Vec<String> = Vec::new();
        let mut i: usize = 0;
        let n = pending.len();
        while i < n
            invariant
                n == pending@.len(),
                self.wf(),
                times == self.merge_times.view(),
                ps == pending@.map_values(|p: Pretend| p.ebuild@),
                i <= pending@.len(),
                total == predict_total(times, ps.take(i as int)),
                -(i as int) * 9223372036854775808 <= total <= (i as int) * 9223372036854775808,
                unknown@.map_values(|s: String| s@) == unknown_of(times, ps.take(i as int)),
            decreases pending@.len() - i,
        {
            assert(ps.take(i + 1).drop_last() =~= ps.take(i as int));
            assert(ps.take(i + 1).last() == pending@[i as int].ebuild@);
            let name = pending[i].ebuild.as_str();
            let h = self.merge_times.get(name);
            let ghost before = unknown@;
            if h.len() > 0 {
                proof {
                    lemma_mean_bounds(h@);
                    assert((i + 1) * 9223372036854775808 <= two_64() * 9223372036854775808)
                        by (nonlinear_arith)
                        requires
                            i + 1 <= two_64(),
                    ;
                }
                total = total + mean(h) as i128;
            } else {
                unknown.push(String::from_str(name));
                let ghost now = unknown@.map_values(|s: String| s@);
                assert(now =~= before.map_values(|s: String| s@).push(name@));
            }
            i += 1;
        }
        assert(ps.take(pending@.len() as int) =~= ps);
        Prediction { total, unknown }
    }
}

// ---------------------------------------------------------------------------
// Grouping by calendar span
// ---------------------------------------------------------------------------
/// The calendar bucket that events fall into, for grouped statistics.
pub struct Buckets {
    pub span: Timespan,
    pub offset: Offset,
    /// The start of the next bucket, once a first event has been seen.
    pub next: Option<i64>,
}

impl Buckets {
    pub fn new(span: Timespan, offset: Offset) -> (r: Buckets)
        ensures
            r.span == span,
            r.offset == offset,
            r.next is None,
    {
        Buckets { span, offset, next: None }
    }

    /// Whether the event at `ts` opens a new bucket: it is the first event,
    /// or it is at or after the start of the next bucket. A new bucket ends
    /// at the next span boundary after `ts`.
    pub fn advance(&mut self, ts: i64) -> (r: bool)
        requires
            span_range(ts as int, old(self).offset.secs as int),
        ensures
            final(self).span == old(self).span,
            final(self).offset == old(self).offset,
            r == match old(self).next {
                None => true,
                Some(n) => ts >= n,
            },
            r ==> final(self).next == Some(
                next_spec(old(self).span, ts as int, old(self).offset.secs as int) as i64,
            ),
            !r ==> final(self).next == old(self).next,
    {
        let opens = match self.next {
            None => true,
            Some(n) => ts >= n,
        };
        if opens {
            self.next = Some(self.span.next(ts, self.offset));
        }
        opens
    }
}

// ---------------------------------------------------------------------------
// Totals
// ---------------------------------------------------------------------------
/// `t / n` rounded toward zero.
pub open spec fn trunc_div(t: int, n: int) -> int {
    if t >= 0 {
        t / n
    } else {
        -((-t) / n)
    }
}

/// The number and sum of all durations of one kind.
pub struct Totals {
    pub count: u64,
    pub sum: i128,
}

impl Totals {
    /// The sum stays within what `count` durations can add up to.
    pub open spec fn wf(&self) -> bool {
        -(self.count as int) * 9223372036854775808 <= self.sum <= (self.count as int)
            * 9223372036854775807
    }

    pub fn new() -> (r: Totals)
        ensures
            r.wf(),
            r.count == 0 && r.sum == 0,
    {
        Totals { count: 0, sum: 0 }
    }

    /// Count one more duration; at the largest count, nothing changes.
    pub fn add(&mut self, d: i64)
        requires
            old(self).wf(),
        ensures
            final(self).wf(),
            old(self).count < u64::MAX ==> final(self).count == old(self).count + 1
                && final(self).sum == old(self).sum + d,
            old(self).count == u64::MAX ==> *final(self) == *old(self),
    {
        if self.count < u64::MAX {
            proof {
                assert((self.count as int + 1) * 9223372036854775808 < i128::MAX)
                    by (nonlinear_arith)
                    requires
                        self.count < u64::MAX,
                ;
            }
            self.count = self.count + 1;
            self.sum = self.sum + d as i128;
        }
    }

    /// The mean duration rounded toward zero, none without durations.
    pub fn average(&self) -> (r: Option<i64>)
        requires
            self.wf(),
        ensures
            self.count == 0 ==> r is None,
            self.count > 0 ==> r == Some(trunc_div(self.sum as int, self.count as int) as i64),
    {
        if self.count == 0 {
            return None;
        }
        let n = self.count as i128;
        let ghost ti = self.sum as int;
        let ghost ni = self.count as int;
        let q: i128 = if self.sum >= 0 {
            proof {
                assert(ti / ni <= 9223372036854775807) by (nonlinear_arith)
                    requires
                        0 <= ti <= ni * 9223372036854775807,
                        ni > 0,
                ;
            }
            self.sum / n
        } else {
            proof {
                assert((-ti) / ni <= 9223372036854775808) by (nonlinear_arith)
                    requires
                        0 <= -ti <= ni * 9223372036854775808,
                        ni > 0,
                ;
            }
            -((-self.sum) / n)
        };
        Some(q as i64)
    }
}

// ---------------------------------------------------------------------------
// Pairing keys of log lines
// ---------------------------------------------------------------------------
/// The log text of a merge start: `>>> emerge (N of M) atom to /`.
pub open spec fn start_line(n: Seq<char>, m: Seq<char>, a: Seq<char>) -> Seq<char> {
    joined(seq![">>>"@, "emerge"@, seq!['('] + n, "of"@, m + seq![')'], a, "to"@, "/"@])
}

/// The log text of a merge stop: `::: completed emerge (N of M) atom to /`.
pub open spec fn stop_line(n: Seq<char>, m: Seq<char>, a: Seq<char>) -> Seq<char> {
    joined(
        seq![":::"@, "completed"@, "emerge"@, seq!['('] + n, "of"@, m + seq![')'], a, "to"@, "/"@],
    )
}

proof fn lemma_atom_parts(a: Seq<char>)
    requires
        atom_split(a) is Some,
    ensures
        a == atom_split(a)->Some_0.0 + seq!['-'] + atom_split(a)->Some_0.1,
        is_word(a) ==> is_word(atom_split(a)->Some_0.1),
{
    let i = choose|i: int| is_first_split(a, i);
    assert(a =~= a.take(i) + seq!['-'] + a.skip(i + 1));
    if is_word(a) {
        assert forall|j: int| 0 <= j < a.skip(i + 1).len() implies !is_ascii_white(
            #[trigger] a.skip(i + 1)[j],
        ) by {
            assert(a.skip(i + 1)[j] == a[i + 1 + j]);
        }
    }
}

proof fn lemma_iter_injective(n1: Seq<char>, m1: Seq<char>, n2: Seq<char>, m2: Seq<char>)
    requires
        all_digits(m1),
        all_digits(m2),
    ensures
        (m1 + seq![')'] + n1 == m2 + seq![')'] + n2) <==> (m1 == m2 && n1 == n2),
{
    let x = m1 + seq![')'] + n1;
    let y = m2 + seq![')'] + n2;
    if x == y {
        if m1.len() < m2.len() {
            assert(x[m1.len() as int] == ')');
            assert(y[m1.len() as int] == m2[m1.len() as int]);
        } else if m2.len() < m1.len() {
            assert(y[m2.len() as int] == ')');
            assert(x[m2.len() as int] == m1[m2.len() as int]);
        } else {
            assert(m1 =~= x.take(m1.len() as int));
            assert(m2 =~= y.take(m2.len() as int));
            assert(n1 =~= x.skip(m1.len() + 1int));
            assert(n2 =~= y.skip(m2.len() + 1int));
        }
    }
}

proof fn lemma_key_injective(v1: Seq<char>, i1: Seq<char>, v2: Seq<char>, i2: Seq<char>)
    requires
        is_word(v1),
        is_word(v2),
    ensures
        (merge_key(v1, i1) == merge_key(v2, i2)) <==> (v1 == v2 && i1 == i2),
{
    let x = merge_key(v1, i1);
    let y = merge_key(v2, i2);
    if x == y {
        if v1.len() < v2.len() {
            assert(x[v1.len() as int] == ' ');
            assert(y[v1.len() as int] == v2[v1.len() as int]);
        } else if v2.len() < v1.len() {
            assert(y[v2.len() as int] == ' ');
            assert(x[v2.len() as int] == v1[v2.len() as int]);
        } else {
            assert(v1 =~= x.take(v1.len() as int));
            assert(v2 =~= y.take(v2.len() as int));
            assert(i1 =~= x.skip(v1.len() + 1int));
            assert(i2 =~= y.skip(v2.len() + 1int));
        }
    }
}

/// A merge stop pairs with a merge start (same package and same key) exactly
/// when the two lines name the same atom and the same batch position `N of M`.
/// An atom is one token of the line, so it holds no whitespace: with a space
/// inside, only its first part would be read as the atom.
#[verifier::rlimit(100)]
pub proof fn lemma_pairing_keys(
    t1: i64,
    n1: Seq<char>,
    m1: Seq<char>,
    a1: Seq<char>,
    t2: i64,
    n2: Seq<char>,
    m2: Seq<char>,
    a2: Seq<char>,
)
    requires
        n1.len() > 0 && all_digits(n1),
        m1.len() > 0 && all_digits(m1),
        n2.len() > 0 && all_digits(n2),
        m2.len() > 0 && all_digits(m2),
        is_word(a1) && atom_split(a1) is Some,
        is_word(a2) && atom_split(a2) is Some,
    ensures
        start_event(t1, start_line(n1, m1, a1)) matches Some(s) && stop_event(
            t2,
            stop_line(n2, m2, a2),
        ) matches Some(p) && ((s.ebuild() == p.ebuild() && merge_key(s.version(), s.iter())
            == merge_key(p.version(), p.iter())) <==> (a1 == a2 && n1 == n2 && m1 == m2)),
{
    reveal_strlit(">>>");
    reveal_strlit("emerge");
    reveal_strlit("of");
    reveal_strlit("to");
    reveal_strlit("/");
    reveal_strlit(":::");
    reveal_strlit("completed");
    reveal_strlit(">>> emer");
    reveal_strlit("::: comp");
    let ws1 = seq![">>>"@, "emerge"@, seq!['('] + n1, "of"@, m1 + seq![')'], a1, "to"@, "/"@];
    let ws2 = seq![
        ":::"@,
        "completed"@,
        "emerge"@,
        seq!['('] + n2,
        "of"@,
        m2 + seq![')'],
        a2,
        "to"@,
        "/"@,
    ];
    assert forall|i: int| 0 <= i < ws1.len() implies is_word(#[trigger] ws1[i]) by {
        if i == 2 {
            assert(is_word(seq!['('] + n1));
        } else if i == 4 {
            assert(is_word(m1 + seq![')']));
        }
    }
    assert forall|i: int| 0 <= i < ws2.len() implies is_word(#[trigger] ws2[i]) by {
        if i == 3 {
            assert(is_word(seq!['('] + n2));
        } else if i == 5 {
            assert(is_word(m2 + seq![')']));
        }
    }
    lemma_tokens_joined(ws1);
    lemma_tokens_joined(ws2);
    lemma_joined_prefix(ws1, 2);
    lemma_joined_prefix(ws2, 2);
    let l1 = start_line(n1, m1, a1);
    let l2 = stop_line(n2, m2, a2);
    reveal_strlit(">>> emerge");
    reveal_strlit("::: completed");
    assert(ws1.take(2).drop_last() =~= seq![">>>"@]);
    assert(joined(seq![">>>"@]) == ">>>"@);
    assert(joined(ws1.take(2)) == ">>>"@ + seq![' '] + "emerge"@);
    assert(joined(ws1.take(2)) =~= ">>> emerge"@);
    assert(ws2.take(2).drop_last() =~= seq![":::"@]);
    assert(joined(seq![":::"@]) == ":::"@);
    assert(joined(ws2.take(2)) == ":::"@ + seq![' '] + "completed"@);
    assert(joined(ws2.take(2)) =~= "::: completed"@);
    assert(has_prefix(l1, ">>> emer"@)) by {
        reveal_strlit(">>> emerge");
        assert(l1.take(10) =~= ">>> emerge"@);
        assert(l1.take(8) =~= ">>> emer"@);
    }
    assert(has_prefix(l2, "::: comp"@)) by {
        reveal_strlit("::: completed");
        assert(l2.take(13) =~= "::: completed"@);
        assert(l2.take(8) =~= "::: comp"@);
    }
    let (e1, v1) = atom_split(a1)->Some_0;
    let (e2, v2) = atom_split(a2)->Some_0;
    lemma_atom_parts(a1);
    lemma_atom_parts(a2);
    assert((seq!['('] + n1).drop_first() =~= n1);
    assert((seq!['('] + n2).drop_first() =~= n2);
    let it1 = m1 + seq![')'] + n1;
    let it2 = m2 + seq![')'] + n2;
    assert(tokens(l1)[4] + tokens(l1)[2].drop_first() =~= it1);
    assert(tokens(l2)[5] + tokens(l2)[3].drop_first() =~= it2);
    lemma_iter_injective(n1, m1, n2, m2);
    lemma_key_injective(v1, it1, v2, it2);
    if e1 == e2 && v1 == v2 {
        assert(a1 == a2);
    }
}

} // verus!
