//! Turning the lines of a build log into typed, timestamped events.
use vstd::prelude::*;
use vstd::string::*;
use crate::text::{
    chars_of, digit, ends_with, has_prefix, i64_of, is_digit, parse_i64, same_chars, skip_white,
    starts_with, token_spans, tokens, trim_start,
};

verus! {

// ---------------------------------------------------------------------------
// Atom splitting
// ---------------------------------------------------------------------------
/// `a[i]` is a `-` with a non-empty left side and a digit right after it.
pub open spec fn is_split_at(a: Seq<char>, i: int) -> bool {
    0 < i && i + 1 < a.len() && a[i] == '-' && is_digit(a[i + 1])
}

/// `i` is the leftmost place where `a` splits.
pub open spec fn is_first_split(a: Seq<char>, i: int) -> bool {
    is_split_at(a, i) && forall|j: int| 0 <= j < i ==> !is_split_at(a, j)
}

/// `category/name-version` split into `category/name` and `version` at the
/// leftmost `-` that a digit follows.
pub open spec fn atom_split(a: Seq<char>) -> Option<(Seq<char>, Seq<char>)> {
    if exists|i: int| is_first_split(a, i) {
        let i = choose|i: int| is_first_split(a, i);
        Some((a.take(i), a.skip(i + 1)))
    } else {
        None
    }
}

proof fn lemma_first_split_unique(a: Seq<char>, i: int)
    requires
        is_first_split(a, i),
    ensures
        atom_split(a) == Some((a.take(i), a.skip(i + 1))),
{
    let k = choose|k: int| is_first_split(a, k);
    assert(is_first_split(a, k));
    if k < i {
        assert(!is_split_at(a, k));
    }
    if i < k {
        assert(!is_split_at(a, i));
    }
}

/// Split `"category/name-version"` into `"category/name"` and `"version"`.
pub fn split_atom(atom: &str) -> (r: Option<(&str, &str)>)
    ensures
        match r {
            Some((p, v)) => atom_split(atom@) == Some((p@, v@)),
            None => atom_split(atom@) is None,
        },
{
    let cs = chars_of(atom);
    let n = cs.len();
    if n < 2 {
        assert forall|j: int| !is_first_split(cs@, j) by {}
        return None;
    }
    let mut i: usize = 1;
    while i < n - 1
        invariant
            2 <= n,
            1 <= i <= n - 1,
            n == cs@.len(),
            cs@ == atom@,
            forall|j: int| 0 <= j < i ==> !is_split_at(cs@, j),
        decreases n - i,
    {
        if cs[i] == '-' && digit(cs[i + 1]) {
            assert(is_first_split(cs@, i as int));
            proof {
                lemma_first_split_unique(cs@, i as int);
            }
            return Some((atom.substring_char(0, i), atom.substring_char(i + 1, n)));
        }
        i += 1;
    }
    assert forall|j: int| !is_first_split(cs@, j) by {
        if 0 <= j < i {
        } else {
            assert(!is_split_at(cs@, j));
        }
    }
    None
}

/// A package and a version that an atom can be made of: a non-empty package
/// in which no `-` is followed by a digit, and a version that starts with a digit.
pub open spec fn is_atom_pair(pkg: Seq<char>, ver: Seq<char>) -> bool {
    &&& pkg.len() > 0
    &&& ver.len() > 0
    &&& is_digit(ver[0])
    &&& forall|i: int|
        0 <= i < pkg.len() - 1 ==> !(pkg[i] == '-' && is_digit(#[trigger] pkg[i + 1]))
}

/// Splitting undoes joining: for a legal pair, splitting `pkg + "-" + ver`
/// gives back `pkg` and `ver`.
pub proof fn lemma_split_atom_concat(pkg: Seq<char>, ver: Seq<char>)
    requires
        is_atom_pair(pkg, ver),
    ensures
        atom_split(pkg + seq!['-'] + ver) == Some((pkg, ver)),
{
    let a = pkg + seq!['-'] + ver;
    let n = pkg.len() as int;
    assert(a[n] == '-');
    assert(a[n + 1] == ver[0]);
    assert forall|j: int| 0 <= j < n implies !is_split_at(a, j) by {
        if j < n - 1 {
            assert(a[j + 1] == pkg[j + 1]);
            assert(a[j] == pkg[j]);
        } else {
            assert(a[j + 1] == '-');
        }
    }
    assert(is_first_split(a, n));
    lemma_first_split_unique(a, n);
    assert(a.take(n) =~= pkg);
    assert(a.skip(n + 1) =~= ver);
}

// ---------------------------------------------------------------------------
// Filters
// ---------------------------------------------------------------------------
/// Which classes of events to report.
pub struct Show {
    pub merge: bool,
    pub unmerge: bool,
    pub sync: bool,
    pub pkg: bool,
    pub tot: bool,
}

impl Show {
    /// Merges are parsed when asked for directly or through per-package or total statistics.
    pub open spec fn merges(&self) -> bool {
        self.merge || self.pkg || self.tot
    }

    /// Unmerges are parsed when asked for directly or through per-package or total statistics.
    pub open spec fn unmerges(&self) -> bool {
        self.unmerge || self.pkg || self.tot
    }
}

impl Default for Show {
    fn default() -> (r: Show)
        ensures
            !r.merge && !r.unmerge && !r.sync && !r.pkg && !r.tot,
    {
        Show { merge: false, unmerge: false, sync: false, pkg: false, tot: false }
    }
}

/// The closed interval `[min, max]` of accepted timestamps.
pub struct FilterTs {
    pub min: i64,
    pub max: i64,
}

impl FilterTs {
    pub open spec fn admits(&self, ts: int) -> bool {
        self.min <= ts <= self.max
    }

    /// Whether `ts` lies in the interval, both ends included.
    pub fn matches(&self, ts: i64) -> (r: bool)
        ensures
            r == self.admits(ts as int),
    {
        self.min <= ts && ts <= self.max
    }
}

/// The timestamp filter for optional bounds; a missing bound is the widest value.
pub fn filter_ts_fn(min: Option<i64>, max: Option<i64>) -> (r: FilterTs)
    ensures
        r.min == (match min {
            Some(a) => a,
            None => i64::MIN,
        }),
        r.max == (match max {
            Some(b) => b,
            None => i64::MAX,
        }),
{
    let mi = match min {
        Some(a) => a,
        None => i64::MIN,
    };
    let ma = match max {
        Some(b) => b,
        None => i64::MAX,
    };
    FilterTs { min: mi, max: ma }
}

/// The regex crate's compiled regex, held here as an opaque value.
#[verifier::external_type_specification]
#[verifier::external_body]
pub struct ExRegex(regex::Regex);

/// Whether `p` is a pattern that the regex crate compiles.
pub uninterp spec fn regex_compiles(p: Seq<char>) -> bool;

/// Whether `text` matches the pattern `p` compiled with case-insensitive
/// matching, as the regex crate decides.
pub uninterp spec fn nocase_match(p: Seq<char>, text: Seq<char>) -> bool;

/// A regex compiled with case-insensitive matching, with the pattern it was
/// compiled from.
pub struct NocaseRegex {
    re: regex::Regex,
    pattern: Ghost<Seq<char>>,
}

/// Relies on `regex::RegexBuilder::build`, with case-insensitive matching on:
/// it fails exactly on patterns that the crate does not compile. The value
/// returned holds the compiled regex and, as its pattern, `p` itself; no
/// other code builds a `NocaseRegex`.
#[verifier::external_body]
fn build_regex_nocase(p: &str) -> (r: Result<NocaseRegex, String>)
    ensures
        r is Ok <==> regex_compiles(p@),
        r matches Ok(x) ==> x.pattern() == p@,
{
    match regex::RegexBuilder::new(p).case_insensitive(true).build() {
        Ok(re) => Ok(NocaseRegex { re, pattern: Ghost(p@) }),
        Err(e) => Err(e.to_string()),
    }
}

/// Relies on `regex::Regex::is_match`: whether `s` matches the compiled
/// regex, which `build_regex_nocase` compiled from `r.pattern()` with
/// case-insensitive matching.
#[verifier::external_body]
fn regex_is_match(r: &NocaseRegex, s: &str) -> (b: bool)
    ensures
        b == nocase_match(r.pattern(), s@),
{
    r.re.is_match(s)
}

impl NocaseRegex {
    /// The pattern this regex was compiled from.
    pub closed spec fn pattern(&self) -> Seq<char> {
        self.pattern@
    }

    /// Compile `p` with case-insensitive matching; an invalid pattern is an error.
    pub fn new(p: &str) -> (r: Result<NocaseRegex, String>)
        ensures
            r is Ok <==> regex_compiles(p@),
            r matches Ok(x) ==> x.pattern() == p@,
    {
        build_regex_nocase(p)
    }

    /// Whether `s` matches, ignoring case.
    pub fn is_match(&self, s: &str) -> (b: bool)
        ensures
            b == nocase_match(self.pattern(), s@),
    {
        regex_is_match(self, s)
    }
}

/// The package filter, chosen once from the user's search.
pub enum FilterPkg {
    /// No filter.
    True,
    /// The whole `category/name` equals `e`.
    Eq { e: String },
    /// The `category/name` ends with `e`, which is `"/" + name`.
    Ends { e: String },
    /// The `category/name` matches a case-insensitive regex.
    Re { r: NocaseRegex },
}

impl FilterPkg {
    /// What the filter answers for the package `s`.
    pub open spec fn admits(&self, s: Seq<char>) -> bool {
        match self {
            FilterPkg::True => true,
            FilterPkg::Eq { e } => s == e@,
            FilterPkg::Ends { e } => e@.len() <= s.len() && s.skip(s.len() - e@.len()) == e@,
            FilterPkg::Re { r } => nocase_match(r.pattern(), s),
        }
    }

    /// Whether the package `s` passes the filter.
    pub fn matches(&self, s: &str) -> (r: bool)
        ensures
            r == self.admits(s@),
    {
        match self {
            FilterPkg::True => true,
            FilterPkg::Eq { e } => {
                let cs = chars_of(s);
                same_chars(&cs, e.as_str())
            },
            FilterPkg::Ends { e } => {
                let cs = chars_of(s);
                let es = chars_of(e.as_str());
                ends_with(&cs, &es)
            },
            FilterPkg::Re { r } => r.is_match(s),
        }
    }
}

/// Whether `c` occurs in `s`.
fn contains_char(s: &str, c: char) -> (r: bool)
    ensures
        r == s@.contains(c),
{
    let cs = chars_of(s);
    let mut i: usize = 0;
    while i < cs.len()
        invariant
            i <= cs@.len(),
            cs@ == s@,
            forall|j: int| 0 <= j < i ==> cs@[j] != c,
        decreases cs@.len() - i,
    {
        if cs[i] == c {
            return true;
        }
        i += 1;
    }
    false
}

/// The package filter for an optional search: none, exact (on the whole
/// `category/name` when the search holds a `/`, else on the name), or a
/// case-insensitive regex. An invalid regex is an error.
pub fn filter_pkg_fn(package: Option<&str>, exact: bool) -> (r: Result<FilterPkg, String>)
    ensures
        match package {
            None => r matches Ok(FilterPkg::True),
            Some(p) => if exact && p@.contains('/') {
                r matches Ok(FilterPkg::Eq { e }) && e@ == p@
            } else if exact {
                r matches Ok(FilterPkg::Ends { e }) && e@ == seq!['/'] + p@
            } else {
                (r is Ok <==> regex_compiles(p@)) && (r is Ok ==> (r matches Ok(
                    FilterPkg::Re { r: x },
                ) && x.pattern() == p@))
            },
        },
{
    match package {
        None => Ok(FilterPkg::True),
        Some(p) => {
            if exact && contains_char(p, '/') {
                Ok(FilterPkg::Eq { e: p.to_owned() })
            } else if exact {
                let mut e = String::from_str("/");
                proof {
                    reveal_strlit("/");
                }
                e.append(p);
                Ok(FilterPkg::Ends { e })
            } else {
                match NocaseRegex::new(p) {
                    Ok(r) => Ok(FilterPkg::Re { r }),
                    Err(m) => Err(m),
                }
            }
        },
    }
}

// ---------------------------------------------------------------------------
// Events
// ---------------------------------------------------------------------------
/// An event of the build log.
pub enum Hist {
    /// Merge started (might never complete).
    MergeStart { ts: i64, ebuild: String, version: String, iter: String },
    /// Merge completed.
    MergeStop { ts: i64, ebuild: String, version: String, iter: String },
    /// Unmerge started (might never complete).
    UnmergeStart { ts: i64, ebuild: String, version: String },
    /// Unmerge completed.
    UnmergeStop { ts: i64, ebuild: String, version: String },
    /// Sync started (might never complete).
    SyncStart { ts: i64 },
    /// Sync completed.
    SyncStop { ts: i64 },
}

/// The value of a `Hist`, with its strings as character sequences.
pub enum HistV {
    MergeStart { ts: i64, ebuild: Seq<char>, version: Seq<char>, iter: Seq<char> },
    MergeStop { ts: i64, ebuild: Seq<char>, version: Seq<char>, iter: Seq<char> },
    UnmergeStart { ts: i64, ebuild: Seq<char>, version: Seq<char> },
    UnmergeStop { ts: i64, ebuild: Seq<char>, version: Seq<char> },
    SyncStart { ts: i64 },
    SyncStop { ts: i64 },
}

impl HistV {
    pub open spec fn ts(self) -> i64 {
        match self {
            HistV::MergeStart { ts, .. } => ts,
            HistV::MergeStop { ts, .. } => ts,
            HistV::UnmergeStart { ts, .. } => ts,
            HistV::UnmergeStop { ts, .. } => ts,
            HistV::SyncStart { ts } => ts,
            HistV::SyncStop { ts } => ts,
        }
    }

    /// Merges and unmerges name a package; syncs do not.
    pub open spec fn has_pkg(self) -> bool {
        !(self is SyncStart || self is SyncStop)
    }

    pub open spec fn is_merge(self) -> bool {
        self is MergeStart || self is MergeStop
    }

    pub open spec fn ebuild(self) -> Seq<char> {
        match self {
            HistV::MergeStart { ebuild, .. } => ebuild,
            HistV::MergeStop { ebuild, .. } => ebuild,
            HistV::UnmergeStart { ebuild, .. } => ebuild,
            HistV::UnmergeStop { ebuild, .. } => ebuild,
            _ => Seq::empty(),
        }
    }

    pub open spec fn version(self) -> Seq<char> {
        match self {
            HistV::MergeStart { version, .. } => version,
            HistV::MergeStop { version, .. } => version,
            HistV::UnmergeStart { version, .. } => version,
            HistV::UnmergeStop { version, .. } => version,
            _ => Seq::empty(),
        }
    }

    pub open spec fn iter(self) -> Seq<char> {
        match self {
            HistV::MergeStart { iter, .. } => iter,
            HistV::MergeStop { iter, .. } => iter,
            _ => Seq::empty(),
        }
    }
}

impl View for Hist {
    type V = HistV;

    open spec fn view(&self) -> HistV {
        match self {
            Hist::MergeStart { ts, ebuild, version, iter } => HistV::MergeStart {
                ts: *ts,
                ebuild: ebuild@,
                version: version@,
                iter: iter@,
            },
            Hist::MergeStop { ts, ebuild, version, iter } => HistV::MergeStop {
                ts: *ts,
                ebuild: ebuild@,
                version: version@,
                iter: iter@,
            },
            Hist::UnmergeStart { ts, ebuild, version } => HistV::UnmergeStart {
                ts: *ts,
                ebuild: ebuild@,
                version: version@,
            },
            Hist::UnmergeStop { ts, ebuild, version } => HistV::UnmergeStop {
                ts: *ts,
                ebuild: ebuild@,
                version: version@,
            },
            Hist::SyncStart { ts } => HistV::SyncStart { ts: *ts },
            Hist::SyncStop { ts } => HistV::SyncStop { ts: *ts },
        }
    }
}

impl Hist {
    /// The `category/name` of a merge or unmerge.
    pub fn ebuild(&self) -> (r: &str)
        requires
            self@.has_pkg(),
        ensures
            r@ == self@.ebuild(),
    {
        match self {
            Hist::MergeStart { ebuild, .. } => ebuild.as_str(),
            Hist::MergeStop { ebuild, .. } => ebuild.as_str(),
            Hist::UnmergeStart { ebuild, .. } => ebuild.as_str(),
            Hist::UnmergeStop { ebuild, .. } => ebuild.as_str(),
            Hist::SyncStart { .. } => "",
            Hist::SyncStop { .. } => "",
        }
    }

    /// The version of a merge or unmerge.
    pub fn version(&self) -> (r: &str)
        requires
            self@.has_pkg(),
        ensures
            r@ == self@.version(),
    {
        match self {
            Hist::MergeStart { version, .. } => version.as_str(),
            Hist::MergeStop { version, .. } => version.as_str(),
            Hist::UnmergeStart { version, .. } => version.as_str(),
            Hist::UnmergeStop { version, .. } => version.as_str(),
            Hist::SyncStart { .. } => "",
            Hist::SyncStop { .. } => "",
        }
    }

    /// `category/name-version` of a merge or unmerge.
    pub fn ebuild_version(&self) -> (r: String)
        requires
            self@.has_pkg(),
        ensures
            r@ == self@.ebuild() + seq!['-'] + self@.version(),
    {
        let mut r = String::from_str(self.ebuild());
        proof {
            reveal_strlit("-");
        }
        r.append("-");
        r.append(self.version());
        r
    }

    /// The batch position `"total)current"` of a merge.
    pub fn iter(&self) -> (r: &str)
        requires
            self@.is_merge(),
        ensures
            r@ == self@.iter(),
    {
        match self {
            Hist::MergeStart { iter, .. } => iter.as_str(),
            Hist::MergeStop { iter, .. } => iter.as_str(),
            _ => "",
        }
    }

    /// The timestamp of the event.
    pub fn ts(&self) -> (r: i64)
        ensures
            r == self@.ts(),
    {
        match self {
            Hist::MergeStart { ts, .. } => *ts,
            Hist::MergeStop { ts, .. } => *ts,
            Hist::UnmergeStart { ts, .. } => *ts,
            Hist::UnmergeStop { ts, .. } => *ts,
            Hist::SyncStart { ts } => *ts,
            Hist::SyncStop { ts } => *ts,
        }
    }
}

// ---------------------------------------------------------------------------
// Line parsing
// ---------------------------------------------------------------------------
/// The index of the first `c` in `s`.
pub open spec fn index_of(s: Seq<char>, c: char) -> Option<int>
    decreases s.len(),
{
    if s.len() == 0 {
        None
    } else {
        match index_of(s.drop_last(), c) {
            Some(i) => Some(i),
            None => if s.last() == c {
                Some(s.len() - 1)
            } else {
                None
            },
        }
    }
}

proof fn lemma_index_of_prefix(s: Seq<char>, c: char, k: int)
    requires
        0 <= k <= s.len(),
        index_of(s.take(k), c) is Some,
    ensures
        index_of(s, c) == index_of(s.take(k), c),
    decreases s.len() - k,
{
    if k == s.len() {
        assert(s.take(k) =~= s);
    } else {
        assert(s.take(k + 1).drop_last() =~= s.take(k));
        lemma_index_of_prefix(s, c, k + 1);
    }
}

/// The index of the first `c` in `cs`.
fn find_char(cs: &Vec<char>, c: char) -> (r: Option<usize>)
    ensures
        match r {
            Some(i) => index_of(cs@, c) == Some(i as int) && i < cs@.len(),
            None => index_of(cs@, c) is None,
        },
{
    let mut i: usize = 0;
    while i < cs.len()
        invariant
            i <= cs@.len(),
            index_of(cs@.take(i as int), c) is None,
        decreases cs@.len() - i,
    {
        assert(cs@.take(i + 1).drop_last() =~= cs@.take(i as int));
        if cs[i] == c {
            proof {
                lemma_index_of_prefix(cs@, c, i + 1);
            }
            return Some(i);
        }
        i += 1;
    }
    assert(cs@.take(cs@.len() as int) =~= cs@);
    None
}

/// A log line split at its first `:` into the timestamp before it and the
/// text after it, without leading whitespace.
pub open spec fn ts_split(l: Seq<char>) -> Option<(i64, Seq<char>)> {
    match index_of(l, ':') {
        Some(i) => match i64_of(l.take(i)) {
            Some(t) => Some((t, trim_start(l.skip(i + 1)))),
            None => None,
        },
        None => None,
    }
}

/// The timestamp of a log line and the rest of it, if the timestamp parses
/// and passes the filter.
pub fn parse_ts<'a>(line: &'a str, filter_ts: &FilterTs) -> (r: Option<(i64, &'a str)>)
    ensures
        match r {
            Some((t, rest)) => ts_split(line@) == Some((t, rest@)) && filter_ts.admits(t as int),
            None => match ts_split(line@) {
                Some((t, _)) => !filter_ts.admits(t as int),
                None => true,
            },
        },
{
    let cs = chars_of(line);
    let i = match find_char(&cs, ':') {
        Some(i) => i,
        None => return None,
    };
    let ts = match parse_i64(line.substring_char(0, i)) {
        Some(t) => t,
        None => return None,
    };
    if !filter_ts.matches(ts) {
        return None;
    }
    let a = skip_white(&cs, i + 1);
    assert(cs@.skip(a as int) =~= cs@.subrange(a as int, cs@.len() as int));
    Some((ts, line.substring_char(a, cs.len())))
}

/// The package, version and batch position of a merge line, whose tokens
/// `a` and `b` hold `"(N"` and `"M)"` and token `c` the atom.
pub open spec fn merge_fields(l: Seq<char>, a: int, b: int, c: int) -> Option<
    (Seq<char>, Seq<char>, Seq<char>),
> {
    let t = tokens(l);
    if c < t.len() {
        match atom_split(t[c]) {
            Some((e, v)) => Some((e, v, t[b] + t[a].drop_first())),
            None => None,
        }
    } else {
        None
    }
}

fn merge_fields_of(line: &str, a: usize, b: usize, c: usize) -> (r: Option<
    (String, String, String),
>)
    requires
        a < c,
        b < c,
    ensures
        match r {
            Some((e, v, it)) => merge_fields(line@, a as int, b as int, c as int) == Some(
                (e@, v@, it@),
            ),
            None => merge_fields(line@, a as int, b as int, c as int) is None,
        },
{
    let cs = chars_of(line);
    let sp = token_spans(&cs);
    if c >= sp.len() {
        return None;
    }
    let (c0, c1) = sp[c];
    let atom = line.substring_char(c0, c1);
    assert(atom@ == tokens(line@)[c as int]);
    match split_atom(atom) {
        None => None,
        Some((e, v)) => {
            let (a0, a1) = sp[a];
            let (b0, b1) = sp[b];
            let ta = line.substring_char(a0 + 1, a1);
            let tb = line.substring_char(b0, b1);
            assert(ta@ =~= tokens(line@)[a as int].drop_first());
            assert(tb@ =~= tokens(line@)[b as int]);
            let mut it = String::from_str(tb);
            it.append(ta);
            Some((String::from_str(e), String::from_str(v), it))
        },
    }
}

/// The value of an optional event.
pub open spec fn opt_view(r: Option<Hist>) -> Option<HistV> {
    match r {
        Some(h) => Some(h@),
        None => None,
    }
}

/// What a parser returns for the event `ev` under the package filter `f`:
/// nothing without an event; with one, that event when it names no package
/// or the filter admits its package, else nothing.
pub open spec fn filtered(f: &FilterPkg, ev: Option<HistV>, r: Option<Hist>) -> bool {
    opt_view(r) == match ev {
        Some(e) => if !e.has_pkg() || f.admits(e.ebuild()) {
            Some(e)
        } else {
            None
        },
        None => None,
    }
}

/// The event of a `">>> emerge (N of M) atom ..."` line.
pub open spec fn start_event(ts: i64, l: Seq<char>) -> Option<HistV> {
    if has_prefix(l, ">>> emer"@) {
        match merge_fields(l, 2, 4, 5) {
            Some((e, v, it)) => Some(HistV::MergeStart { ts, ebuild: e, version: v, iter: it }),
            None => None,
        }
    } else {
        None
    }
}

/// The event of a `"::: completed emerge (N of M) atom ..."` line.
pub open spec fn stop_event(ts: i64, l: Seq<char>) -> Option<HistV> {
    if has_prefix(l, "::: comp"@) {
        match merge_fields(l, 3, 5, 6) {
            Some((e, v, it)) => Some(HistV::MergeStop { ts, ebuild: e, version: v, iter: it }),
            None => None,
        }
    } else {
        None
    }
}

/// The event of a `"=== Unmerging... (atom)"` line.
pub open spec fn unmerge_start_event(ts: i64, l: Seq<char>) -> Option<HistV> {
    let t = tokens(l);
    if has_prefix(l, "=== Unmerging..."@) && t.len() > 2 && t[2].len() >= 2 && t[2][0] == '('
        && t[2].last() == ')' {
        match atom_split(t[2].subrange(1, t[2].len() - 1)) {
            Some((e, v)) => Some(HistV::UnmergeStart { ts, ebuild: e, version: v }),
            None => None,
        }
    } else {
        None
    }
}

/// The event of a `">>> unmerge success: atom"` line.
pub open spec fn unmerge_stop_event(ts: i64, l: Seq<char>) -> Option<HistV> {
    let t = tokens(l);
    if has_prefix(l, ">>> unmerge success"@) && t.len() > 3 {
        match atom_split(t[3]) {
            Some((e, v)) => Some(HistV::UnmergeStop { ts, ebuild: e, version: v }),
            None => None,
        }
    } else {
        None
    }
}

/// The event of a `"=== sync"` line.
pub open spec fn sync_start_event(ts: i64, l: Seq<char>) -> Option<HistV> {
    if l == "=== sync"@ {
        Some(HistV::SyncStart { ts })
    } else {
        None
    }
}

/// The event of a `"=== Sync completed ..."` line.
pub open spec fn sync_stop_event(ts: i64, l: Seq<char>) -> Option<HistV> {
    if has_prefix(l, "=== Sync completed"@) {
        Some(HistV::SyncStop { ts })
    } else {
        None
    }
}

/// A merge start, from the text after the timestamp.
pub fn parse_start(enabled: bool, ts: i64, line: &str, filter_pkg: &FilterPkg) -> (r: Option<Hist>)
    ensures
        !enabled ==> r is None,
        enabled ==> filtered(filter_pkg, start_event(ts, line@), r),
{
    let cs = chars_of(line);
    if !enabled || !starts_with(&cs, ">>> emer") {
        return None;
    }
    match merge_fields_of(line, 2, 4, 5) {
        None => None,
        Some((ebuild, version, iter)) => {
            if !filter_pkg.matches(ebuild.as_str()) {
                return None;
            }
            Some(Hist::MergeStart { ts, ebuild, version, iter })
        },
    }
}

/// A merge stop, from the text after the timestamp.
pub fn parse_stop(enabled: bool, ts: i64, line: &str, filter_pkg: &FilterPkg) -> (r: Option<Hist>)
    ensures
        !enabled ==> r is None,
        enabled ==> filtered(filter_pkg, stop_event(ts, line@), r),
{
    let cs = chars_of(line);
    if !enabled || !starts_with(&cs, "::: comp") {
        return None;
    }
    match merge_fields_of(line, 3, 5, 6) {
        None => None,
        Some((ebuild, version, iter)) => {
            if !filter_pkg.matches(ebuild.as_str()) {
                return None;
            }
            Some(Hist::MergeStop { ts, ebuild, version, iter })
        },
    }
}

/// An unmerge start, from the text after the timestamp.
pub fn parse_unmergestart(enabled: bool, ts: i64, line: &str, filter_pkg: &FilterPkg) -> (r:
    Option<Hist>)
    ensures
        !enabled ==> r is None,
        enabled ==> filtered(filter_pkg, unmerge_start_event(ts, line@), r),
{
    let cs = chars_of(line);
    if !enabled || !starts_with(&cs, "=== Unmerging...") {
        return None;
    }
    let sp = token_spans(&cs);
    if sp.len() <= 2 {
        return None;
    }
    let (t0, t1) = sp[2];
    if t1 - t0 < 2 || cs[t0] != '(' || cs[t1 - 1] != ')' {
        return None;
    }
    assert(tokens(line@)[2] == cs@.subrange(t0 as int, t1 as int));
    let inner = line.substring_char(t0 + 1, t1 - 1);
    assert(inner@ =~= tokens(line@)[2].subrange(1, tokens(line@)[2].len() - 1));
    match split_atom(inner) {
        None => None,
        Some((e, v)) => {
            if !filter_pkg.matches(e) {
                return None;
            }
            let (ebuild, version) = (String::from_str(e), String::from_str(v));
            Some(Hist::UnmergeStart { ts, ebuild, version })
        },
    }
}

/// An unmerge stop, from the text after the timestamp.
pub fn parse_unmergestop(enabled: bool, ts: i64, line: &str, filter_pkg: &FilterPkg) -> (r:
    Option<Hist>)
    ensures
        !enabled ==> r is None,
        enabled ==> filtered(filter_pkg, unmerge_stop_event(ts, line@), r),
{
    let cs = chars_of(line);
    if !enabled || !starts_with(&cs, ">>> unmerge success") {
        return None;
    }
    let sp = token_spans(&cs);
    if sp.len() <= 3 {
        return None;
    }
    let (t0, t1) = sp[3];
    let atom = line.substring_char(t0, t1);
    assert(atom@ == tokens(line@)[3]);
    match split_atom(atom) {
        None => None,
        Some((e, v)) => {
            if !filter_pkg.matches(e) {
                return None;
            }
            let (ebuild, version) = (String::from_str(e), String::from_str(v));
            Some(Hist::UnmergeStop { ts, ebuild, version })
        },
    }
}

/// A sync start, from the text after the timestamp.
pub fn parse_syncstart(enabled: bool, ts: i64, line: &str) -> (r: Option<Hist>)
    ensures
        !enabled ==> r is None,
        enabled ==> opt_view(r) == sync_start_event(ts, line@),
{
    let cs = chars_of(line);
    if !enabled || !same_chars(&cs, "=== sync") {
        return None;
    }
    Some(Hist::SyncStart { ts })
}

/// A sync stop, from the text after the timestamp.
pub fn parse_syncstop(enabled: bool, ts: i64, line: &str) -> (r: Option<Hist>)
    ensures
        !enabled ==> r is None,
        enabled ==> opt_view(r) == sync_stop_event(ts, line@),
{
    let cs = chars_of(line);
    if !enabled || !starts_with(&cs, "=== Sync completed") {
        return None;
    }
    Some(Hist::SyncStop { ts })
}

/// The event that a line's text after the timestamp holds, among the classes
/// that `show` enables, before the package filter. The first test that
/// matches decides.
pub open spec fn line_event(ts: i64, l: Seq<char>, show: Show) -> Option<HistV> {
    if show.merges() && start_event(ts, l) is Some {
        start_event(ts, l)
    } else if show.merges() && stop_event(ts, l) is Some {
        stop_event(ts, l)
    } else if show.unmerges() && unmerge_start_event(ts, l) is Some {
        unmerge_start_event(ts, l)
    } else if show.unmerges() && unmerge_stop_event(ts, l) is Some {
        unmerge_stop_event(ts, l)
    } else if show.sync && sync_start_event(ts, l) is Some {
        sync_start_event(ts, l)
    } else if show.sync {
        sync_stop_event(ts, l)
    } else {
        None
    }
}

/// Each kind of line starts with its own characters, so at most one kind matches.
proof fn lemma_line_kinds(ts: i64, l: Seq<char>)
    ensures
        start_event(ts, l) is Some ==> l[0] == '>' && l[4] == 'e',
        stop_event(ts, l) is Some ==> l[0] == ':',
        unmerge_start_event(ts, l) is Some ==> l[0] == '=' && l[4] == 'U',
        unmerge_stop_event(ts, l) is Some ==> l[0] == '>' && l[4] == 'u',
        sync_start_event(ts, l) is Some ==> l[0] == '=' && l[4] == 's',
        sync_stop_event(ts, l) is Some ==> l[0] == '=' && l[4] == 'S',
{
    reveal_strlit(">>> emer");
    reveal_strlit("::: comp");
    reveal_strlit("=== Unmerging...");
    reveal_strlit(">>> unmerge success");
    reveal_strlit("=== sync");
    reveal_strlit("=== Sync completed");
    if start_event(ts, l) is Some {
        assert(l.take(8)[0] == l[0] && l.take(8)[4] == l[4]);
    }
    if stop_event(ts, l) is Some {
        assert(l.take(8)[0] == l[0]);
    }
    if unmerge_start_event(ts, l) is Some {
        assert(l.take(16)[0] == l[0] && l.take(16)[4] == l[4]);
    }
    if unmerge_stop_event(ts, l) is Some {
        assert(l.take(19)[0] == l[0] && l.take(19)[4] == l[4]);
    }
    if sync_stop_event(ts, l) is Some {
        assert(l.take(18)[0] == l[0] && l.take(18)[4] == l[4]);
    }
}

/// The event of a line's text after the timestamp, under the show mask and
/// package filter.
pub fn parse_event(ts: i64, line: &str, show: &Show, filter_pkg: &FilterPkg) -> (r: Option<Hist>)
    ensures
        filtered(filter_pkg, line_event(ts, line@, *show), r),
{
    proof {
        lemma_line_kinds(ts, line@);
    }
    let show_merge = show.merge || show.pkg || show.tot;
    let show_unmerge = show.unmerge || show.pkg || show.tot;
    if let Some(found) = parse_start(show_merge, ts, line, filter_pkg) {
        Some(found)
    } else if let Some(found) = parse_stop(show_merge, ts, line, filter_pkg) {
        Some(found)
    } else if let Some(found) = parse_unmergestart(show_unmerge, ts, line, filter_pkg) {
        Some(found)
    } else if let Some(found) = parse_unmergestop(show_unmerge, ts, line, filter_pkg) {
        Some(found)
    } else if let Some(found) = parse_syncstart(show.sync, ts, line) {
        Some(found)
    } else {
        parse_syncstop(show.sync, ts, line)
    }
}

// ---------------------------------------------------------------------------
// The event stream
// ---------------------------------------------------------------------------
/// The state of a pass over a build log: the filters, the show mask, and the
/// last timestamp seen (to notice clock jumps).
pub struct LogParser {
    pub filter_ts: FilterTs,
    pub filter_pkg: FilterPkg,
    pub show: Show,
    pub prev_ts: i64,
}

/// The event of a whole log line under the parser's filters, before the package filter.
pub open spec fn raw_event(p: &LogParser, l: Seq<char>) -> Option<HistV> {
    match ts_split(l) {
        Some((t, rest)) => if p.filter_ts.admits(t as int) {
            line_event(t, rest, p.show)
        } else {
            None
        },
        None => None,
    }
}

/// The event of a whole log line under the parser's filters.
pub open spec fn kept_event(p: &LogParser, l: Seq<char>) -> Option<HistV> {
    match raw_event(p, l) {
        Some(e) => if !e.has_pkg() || p.filter_pkg.admits(e.ebuild()) {
            Some(e)
        } else {
            None
        },
        None => None,
    }
}

/// The events of a sequence of lines, in line order.
pub open spec fn events_of(p: &LogParser, lines: Seq<Seq<char>>) -> Seq<HistV>
    decreases lines.len(),
{
    if lines.len() == 0 {
        Seq::empty()
    } else {
        events_of(p, lines.drop_last()) + match kept_event(p, lines.last()) {
            Some(e) => seq![e],
            None => Seq::empty(),
        }
    }
}


impl LogParser {
    /// The parser for the given bounds, show mask and package search; an
    /// invalid regex is an error.
    pub fn new(
        min_ts: Option<i64>,
        max_ts: Option<i64>,
        show: Show,
        search: Option<&str>,
        exact: bool,
    ) -> (r: Result<LogParser, String>)
        ensures
            r is Ok <==> (search is None || exact || regex_compiles(search->Some_0@)),
            r matches Ok(p) ==> {
                &&& p.filter_ts == filter_ts_fn_result(min_ts, max_ts)
                &&& p.show == show
                &&& p.prev_ts == 0
                &&& match search {
                    None => p.filter_pkg is True,
                    Some(q) => if exact && q@.contains('/') {
                        p.filter_pkg matches FilterPkg::Eq { e } && e@ == q@
                    } else if exact {
                        p.filter_pkg matches FilterPkg::Ends { e } && e@ == seq!['/'] + q@
                    } else {
                        p.filter_pkg matches FilterPkg::Re { r: x } && x.pattern() == q@
                    },
                }
            },
    {
        let filter_pkg = match filter_pkg_fn(search, exact) {
            Ok(f) => f,
            Err(e) => return Err(e),
        };
        Ok(LogParser { filter_ts: filter_ts_fn(min_ts, max_ts), filter_pkg, show, prev_ts: 0 })
    }

    /// Handle one log line: its event, if any passes the filters, and the
    /// previous timestamp when the clock went backwards.
    pub fn parse_line(&mut self, line: &str) -> (r: (Option<Hist>, Option<i64>))
        ensures
            final(self).filter_ts == old(self).filter_ts,
            final(self).filter_pkg == old(self).filter_pkg,
            final(self).show == old(self).show,
            filtered(&old(self).filter_pkg, raw_event(old(self), line@), r.0),
            match ts_split(line@) {
                Some((t, _)) => if old(self).filter_ts.admits(t as int) {
                    &&& final(self).prev_ts == t
                    &&& r.1 == (if old(self).prev_ts > t {
                        Some(old(self).prev_ts)
                    } else {
                        None
                    })
                } else {
                    final(self).prev_ts == old(self).prev_ts && r.1 is None
                },
                None => final(self).prev_ts == old(self).prev_ts && r.1 is None,
            },
    {
        match parse_ts(line, &self.filter_ts) {
            None => (None, None),
            Some((t, rest)) => {
                let jump = if self.prev_ts > t {
                    Some(self.prev_ts)
                } else {
                    None
                };
                self.prev_ts = t;
                (parse_event(t, rest, &self.show, &self.filter_pkg), jump)
            },
        }
    }

    /// The events of `lines`, in the order of the lines.
    pub fn parse_lines(&mut self, lines: &Vec<String>) -> (out: Vec<Hist>)
        ensures
            final(self).filter_ts == old(self).filter_ts,
            final(self).filter_pkg == old(self).filter_pkg,
            final(self).show == old(self).show,
            out@.map_values(|h: Hist| h@) == events_of(
                old(self),
                lines@.map_values(|s: String| s@),
            ),
    {
        let ghost init = *old(self);
        let ghost ls = lines@.map_values(|s: String| s@);
        let mut out: Vec<Hist> = Vec::new();
        let mut i: usize = 0;
        while i < lines.len()
            invariant
                i <= lines@.len(),
                ls == lines@.map_values(|s: String| s@),
                self.filter_ts == init.filter_ts,
                self.filter_pkg == init.filter_pkg,
                self.show == init.show,
                out@.map_values(|h: Hist| h@) == events_of(
                    &init,
                    ls.take(i as int),
                ),
            decreases lines@.len() - i,
        {
            let ghost before = out@;
            let (ev, _) = self.parse_line(lines[i].as_str());
            assert(ls.take(i + 1).drop_last() =~= ls.take(i as int));
            assert(ls.take(i + 1).last() == lines@[i as int]@);
            match ev {
                Some(h) => {
                    out.push(h);
                    assert(out@.map_values(|h: Hist| h@) =~= before.map_values(|h: Hist| h@).push(
                        out@.last()@,
                    ));
                },
                None => {},
            }
            i += 1;
        }
        assert(ls.take(lines@.len() as int) =~= ls);
        out
    }
}

/// The interval that `filter_ts_fn` builds from optional bounds.
pub open spec fn filter_ts_fn_result(min: Option<i64>, max: Option<i64>) -> FilterTs {
    FilterTs {
        min: match min {
            Some(a) => a,
            None => i64::MIN,
        },
        max: match max {
            Some(b) => b,
            None => i64::MAX,
        },
    }
}

// ---------------------------------------------------------------------------
// Dry-run output
// ---------------------------------------------------------------------------
/// A package that a dry run would build.
pub struct Pretend {
    pub ebuild: String,
    pub version: String,
}

/// A character that a version holds after its leading digit.
pub open spec fn is_version_char(c: char) -> bool {
    is_digit(c) || ('a' <= c && c <= 'z') || c == '.' || c == '_' || c == '-'
}

/// The length of the longest prefix of `s` made of version characters.
pub open spec fn version_run(s: Seq<char>) -> int
    decreases s.len(),
{
    if s.len() > 0 && is_version_char(s[0]) {
        1 + version_run(s.drop_first())
    } else {
        0
    }
}

/// The package and version of a dry-run line
/// `"[ebuild <flags>] <category/name>-<version>..."`: the flags are one or
/// more characters up to the first `]`; the name is the shortest run (without
/// a line break) that a `-` and a digit follow; the version is the longest
/// run of version characters after that `-`.
pub open spec fn pretend_of(l: Seq<char>) -> Option<(Seq<char>, Seq<char>)> {
    if has_prefix(l, "[ebuild"@) {
        match index_of(l.skip(7), ']') {
            Some(k0) => {
                let k = 7 + k0;
                if k0 >= 1 && k + 1 < l.len() && l[k + 1] == ' ' {
                    match atom_split(l.skip(k + 2)) {
                        Some((name, rest)) => if !name.contains('\n') {
                            Some((name, rest.take(version_run(rest))))
                        } else {
                            None
                        },
                        None => None,
                    }
                } else {
                    None
                }
            },
            None => None,
        }
    } else {
        None
    }
}

fn version_char(c: char) -> (r: bool)
    ensures
        r == is_version_char(c),
{
    digit(c) || ('a' <= c && c <= 'z') || c == '.' || c == '_' || c == '-'
}

/// The length of the run of version characters that begins `s`.
fn version_len(s: &Vec<char>) -> (r: usize)
    ensures
        r == version_run(s@),
        r <= s@.len(),
{
    let mut i: usize = 0;
    assert(s@.skip(0) =~= s@);
    while i < s.len() && version_char(s[i])
        invariant
            i <= s@.len(),
            version_run(s@) == i + version_run(s@.skip(i as int)),
        decreases s@.len() - i,
    {
        assert(s@.skip(i as int).drop_first() =~= s@.skip(i + 1));
        i += 1;
    }
    if i < s.len() {
        assert(s@.skip(i as int)[0] == s@[i as int]);
    } else {
        assert(s@.skip(i as int).len() == 0);
    }
    i
}

/// The package that a dry-run line names, if it is an `[ebuild ...]` line.
pub fn parse_pretend(line: &str) -> (r: Option<Pretend>)
    ensures
        match r {
            Some(p) => pretend_of(line@) == Some((p.ebuild@, p.version@)),
            None => pretend_of(line@) is None,
        },
{
    let cs = chars_of(line);
    let n = cs.len();
    proof {
        reveal_strlit("[ebuild");
    }
    if !starts_with(&cs, "[ebuild") {
        return None;
    }
    let tail = line.substring_char(7, n);
    let tcs = chars_of(tail);
    assert(tcs@ =~= cs@.skip(7));
    let k0 = match find_char(&tcs, ']') {
        Some(k0) => k0,
        None => return None,
    };
    let k = 7 + k0;
    if k0 < 1 || k + 1 >= n || cs[k + 1] != ' ' {
        return None;
    }
    let rest_all = line.substring_char(k + 2, n);
    assert(rest_all@ =~= cs@.skip(k + 2));
    match split_atom(rest_all) {
        None => None,
        Some((name, rest)) => {
            if contains_char(name, '\n') {
                return None;
            }
            let vcs = chars_of(rest);
            let m = version_len(&vcs);
            let version = rest.substring_char(0, m);
            assert(version@ =~= rest@.take(m as int));
            Some(Pretend { ebuild: String::from_str(name), version: String::from_str(version) })
        },
    }
}

/// Exact package search: with a `/`, the filter admits exactly the
/// `category/name` equal to the search; without one, exactly the packages
/// whose name (after the `/`) equals the search.
pub proof fn lemma_exact_filter(f: FilterPkg, q: Seq<char>, cat: Seq<char>, name: Seq<char>)
    requires
        !cat.contains('/'),
        !name.contains('/'),
        q.contains('/') ==> (f matches FilterPkg::Eq { e } && e@ == q),
        !q.contains('/') ==> (f matches FilterPkg::Ends { e } && e@ == seq!['/'] + q),
    ensures
        f.admits(cat + seq!['/'] + name) == if q.contains('/') {
            cat + seq!['/'] + name == q
        } else {
            name == q
        },
{
    let s = cat + seq!['/'] + name;
    if !q.contains('/') {
        let e = seq!['/'] + q;
        assert(f.admits(s) == (e.len() <= s.len() && s.skip(s.len() - e.len()) == e));
        if name == q {
            assert(s.skip(s.len() - e.len()) =~= e);
        }
        if e.len() <= s.len() && s.skip(s.len() - e.len()) == e {
            let k = s.len() - e.len();
            let c = cat.len() as int;
            if q.len() < name.len() {
                assert(s.skip(k)[0] == '/');
                assert(s[k] == name[k - c - 1]);
                assert(name.contains('/'));
            } else if q.len() > name.len() {
                let j = c - k;
                assert(s.skip(k)[j] == s[c]);
                assert(e[j] == q[j - 1]);
                assert(q.contains('/'));
            } else {
                assert forall|i: int| 0 <= i < q.len() implies name[i] == q[i] by {
                    assert(s.skip(k)[i + 1] == e[i + 1]);
                }
                assert(name =~= q);
            }
        }
    }
}

/// The time filter holds of every event emitted: its timestamp lies in the
/// interval, both ends included.
pub proof fn lemma_emitted_in_interval(p: &LogParser, l: Seq<char>)
    ensures
        raw_event(p, l) matches Some(e) ==> p.filter_ts.admits(e.ts() as int),
{
}

/// Events come out in line order: the events of two stretches of log, one
/// after the other, are the events of the first followed by those of the second.
pub proof fn lemma_events_in_line_order(p: &LogParser, a: Seq<Seq<char>>, b: Seq<Seq<char>>)
    ensures
        events_of(p, a + b) == events_of(p, a) + events_of(p, b),
    decreases b.len(),
{
    if b.len() == 0 {
        assert(a + b =~= a);
        assert(events_of(p, a) + events_of(p, b) =~= events_of(p, a));
    } else {
        lemma_events_in_line_order(p, a, b.drop_last());
        assert((a + b).drop_last() =~= a + b.drop_last());
        assert((a + b).last() == b.last());
        let tail = match kept_event(p, b.last()) {
            Some(e) => seq![e],
            None => Seq::<HistV>::empty(),
        };
        assert(events_of(p, a) + events_of(p, b.drop_last()) + tail =~= events_of(p, a) + (
        events_of(p, b.drop_last()) + tail));
    }
}

} // verus!
