//! The directory history: one row per directory, with how often and when
//! it was visited, and the queries that the tool answers from it.
use vstd::prelude::*;
use crate::ranking::{Key, key_gt, distinct_keys, top, top_indices, min_nat};
use crate::text::same_text;
use crate::time::{now, parse_rfc3339, utc_parse_nanos};

verus! {

/// One remembered directory. Instants are nanoseconds since the Unix epoch.
#[derive(Debug, Clone)]
pub struct DirEntry {
    pub path: String,
    pub visit_count: i64,
    pub last_visited: i64,
    pub first_visited: i64,
}

/// The value a `DirEntry` holds.
pub struct DirEntryView {
    pub path: Seq<char>,
    pub visit_count: i64,
    pub last_visited: i64,
    pub first_visited: i64,
}

impl View for DirEntry {
    type V = DirEntryView;

    open spec fn view(&self) -> DirEntryView {
        DirEntryView {
            path: self.path@,
            visit_count: self.visit_count,
            last_visited: self.last_visited,
            first_visited: self.first_visited,
        }
    }
}

impl DirEntry {
    /// A copy of this entry.
    pub fn duplicate(&self) -> (r: DirEntry)
        ensures
            r@ == self@,
    {
        DirEntry {
            path: self.path.clone(),
            visit_count: self.visit_count,
            last_visited: self.last_visited,
            first_visited: self.first_visited,
        }
    }
}

/// One recorded visit: the directory and the instant it was entered.
#[derive(Debug, Clone)]
pub struct Visit {
    pub path: String,
    pub at: i64,
}

/// The value a `Visit` holds.
pub struct VisitView {
    pub path: Seq<char>,
    pub at: i64,
}

impl View for Visit {
    type V = VisitView;

    open spec fn view(&self) -> VisitView {
        VisitView { path: self.path@, at: self.at }
    }
}

impl Visit {
    /// A copy of this visit.
    pub fn duplicate(&self) -> (r: Visit)
        ensures
            r@ == self@,
    {
        Visit { path: self.path.clone(), at: self.at }
    }
}

/// The values of a sequence of visits.
pub open spec fn visit_views(v: Seq<Visit>) -> Seq<VisitView> {
    Seq::new(v.len(), |i: int| v[i]@)
}

/// The visits, in order, without those to `p`.
pub open spec fn visits_without(vs: Seq<VisitView>, p: Seq<char>) -> Seq<VisitView>
    decreases vs.len(),
{
    if vs.len() == 0 {
        Seq::empty()
    } else if vs.last().path == p {
        visits_without(vs.drop_last(), p)
    } else {
        visits_without(vs.drop_last(), p).push(vs.last())
    }
}

/// The visits, in order, without those to any of the paths `ps`.
pub open spec fn visits_without_any(vs: Seq<VisitView>, ps: Seq<Seq<char>>) -> Seq<VisitView>
    decreases vs.len(),
{
    if vs.len() == 0 {
        Seq::empty()
    } else if ps.contains(vs.last().path) {
        visits_without_any(vs.drop_last(), ps)
    } else {
        visits_without_any(vs.drop_last(), ps).push(vs.last())
    }
}

/// How many of the visits are to `p`.
pub open spec fn visits_to(vs: Seq<VisitView>, p: Seq<char>) -> nat
    decreases vs.len(),
{
    if vs.len() == 0 {
        0
    } else {
        visits_to(vs.drop_last(), p) + if vs.last().path == p { 1nat } else { 0nat }
    }
}

/// The values of a sequence of entries.
pub open spec fn views(v: Seq<DirEntry>) -> Seq<DirEntryView> {
    Seq::new(v.len(), |i: int| v[i]@)
}

/// The entries at the given row numbers, in that order.
pub open spec fn pick(h: Seq<DirEntryView>, idx: Seq<usize>) -> Seq<DirEntryView> {
    Seq::new(idx.len(), |k: int| h[idx[k] as int])
}

/// No two entries share a path.
pub open spec fn distinct_paths(h: Seq<DirEntryView>) -> bool {
    forall|i: int, j: int|
        0 <= i < h.len() && 0 <= j < h.len() && i != j ==> #[trigger] h[i].path != #[trigger] h[j].path
}

// ---------------------------------------------------------------------
// Sort keys of the three orders the tool lists rows in
// ---------------------------------------------------------------------

/// Most recently visited first; among equal instants the later row first.
pub open spec fn recent_keys(h: Seq<DirEntryView>) -> Seq<Key> {
    Seq::new(h.len(), |i: int| (h[i].last_visited as i128, i as i128, 0i128, 0i128))
}

/// Most visited first, then most recently visited; then the later row.
pub open spec fn frequent_keys(h: Seq<DirEntryView>) -> Seq<Key> {
    Seq::new(h.len(), |i: int| (h[i].visit_count as i128, h[i].last_visited as i128, i as i128, 0i128))
}

/// Earliest first visit first; among equal instants the earlier row first.
pub open spec fn oldest_keys(h: Seq<DirEntryView>) -> Seq<Key> {
    Seq::new(h.len(), |i: int| ((-h[i].first_visited) as i128, (-i) as i128, 0i128, 0i128))
}

/// The first `limit` entries, most recently visited first.
pub open spec fn recent(h: Seq<DirEntryView>, limit: nat) -> Seq<DirEntryView> {
    pick(h, top(recent_keys(h), limit))
}

/// The first `limit` entries, most visited first.
pub open spec fn frequent(h: Seq<DirEntryView>, limit: nat) -> Seq<DirEntryView> {
    pick(h, top(frequent_keys(h), limit))
}

/// The first `limit` entries, earliest first visit first.
pub open spec fn oldest(h: Seq<DirEntryView>, limit: nat) -> Seq<DirEntryView> {
    pick(h, top(oldest_keys(h), limit))
}

// ---------------------------------------------------------------------
// Changes
// ---------------------------------------------------------------------

/// `i` is the first row whose path is `p`.
pub open spec fn is_first_match(h: Seq<DirEntryView>, p: Seq<char>, i: int) -> bool {
    &&& 0 <= i < h.len()
    &&& h[i].path == p
    &&& forall|k: int| 0 <= k < i ==> #[trigger] h[k].path != p
}

/// The first row whose path is `p`, or -1 when there is none.
pub open spec fn position(h: Seq<DirEntryView>, p: Seq<char>) -> int {
    if exists|i: int| is_first_match(h, p, i) {
        choose|i: int| is_first_match(h, p, i)
    } else {
        -1
    }
}

/// A visit count that cannot be raised further.
#[derive(Debug, Clone, Copy, PartialEq, Eq, Structural)]
pub enum AddError {
    VisitCountOverflow,
}

/// The entry of a first visit to `p` at `t`.
pub open spec fn first_visit(p: Seq<char>, t: i64) -> DirEntryView {
    DirEntryView { path: p, visit_count: 1, last_visited: t, first_visited: t }
}

/// The entry `e` after one more visit at `t`.
pub open spec fn revisit(e: DirEntryView, t: i64) -> DirEntryView {
    DirEntryView { visit_count: (e.visit_count + 1) as i64, last_visited: t, ..e }
}

/// Recording a visit to `p` at `t`: the row of `p` counts one more visit
/// and was last visited at `t`; a path not yet there gets a row of its own
/// with one visit, first and last at `t`. A count already at `i64::MAX`
/// cannot be raised.
pub open spec fn record_visit(h: Seq<DirEntryView>, p: Seq<char>, t: i64) -> Result<Seq<DirEntryView>, AddError> {
    let i = position(h, p);
    if i >= 0 {
        if h[i].visit_count >= i64::MAX {
            Err(AddError::VisitCountOverflow)
        } else {
            Ok(h.update(i, revisit(h[i], t)))
        }
    } else {
        Ok(h.push(first_visit(p, t)))
    }
}

/// `h` without the rows whose path is `p`.
pub open spec fn without_path(h: Seq<DirEntryView>, p: Seq<char>) -> Seq<DirEntryView>
    decreases h.len(),
{
    if h.len() == 0 {
        Seq::empty()
    } else if h.last().path == p {
        without_path(h.drop_last(), p)
    } else {
        without_path(h.drop_last(), p).push(h.last())
    }
}

/// The rows of `h` whose flag is set.
pub open spec fn kept(h: Seq<DirEntryView>, flags: Seq<bool>) -> Seq<DirEntryView>
    decreases h.len(),
{
    if h.len() == 0 || flags.len() == 0 {
        Seq::empty()
    } else if flags.last() {
        kept(h.drop_last(), flags.drop_last()).push(h.last())
    } else {
        kept(h.drop_last(), flags.drop_last())
    }
}

/// The paths of the rows of `h` whose flag is clear.
pub open spec fn dropped_paths(h: Seq<DirEntryView>, flags: Seq<bool>) -> Seq<Seq<char>>
    decreases h.len(),
{
    if h.len() == 0 || flags.len() == 0 {
        Seq::empty()
    } else if flags.last() {
        dropped_paths(h.drop_last(), flags.drop_last())
    } else {
        dropped_paths(h.drop_last(), flags.drop_last()).push(h.last().path)
    }
}

// ---------------------------------------------------------------------
// Statistics
// ---------------------------------------------------------------------

/// The sum of the visit counts.
pub open spec fn total_visits(h: Seq<DirEntryView>) -> int
    decreases h.len(),
{
    if h.len() == 0 {
        0
    } else {
        total_visits(h.drop_last()) + h.last().visit_count as int
    }
}

/// Every running total of the visit counts, row by row, fits an `i64`
/// (SQL's `SUM` fails as soon as one does not).
pub open spec fn sums_fit(h: Seq<DirEntryView>) -> bool {
    forall|k: int| 0 <= k <= h.len() ==> i64::MIN <= #[trigger] total_visits(h.take(k)) <= i64::MAX
}

/// A running total of the visit counts left the `i64` range.
#[derive(Debug, Clone, Copy, PartialEq, Eq, Structural)]
pub enum StatsError {
    TotalVisitsOverflow,
}

/// Summary figures of the history.
#[derive(Debug)]
pub struct Stats {
    pub total_directories: i64,
    pub total_visits: i64,
    pub most_visited: Option<DirEntry>,
    pub oldest_entry: Option<DirEntry>,
}

/// The first entry of a listing, if there is one.
pub open spec fn first_of(s: Seq<DirEntryView>) -> Option<DirEntryView> {
    if s.len() > 0 { Some(s[0]) } else { None }
}

/// The value an optional entry holds.
pub open spec fn opt_view(e: Option<DirEntry>) -> Option<DirEntryView> {
    match e {
        Some(x) => Some(x@),
        None => None,
    }
}

/// What the history holds: its rows, one per directory in the order the
/// rows were made, and the record of every visit, in the order they were
/// made.
#[verifier::ext_equal]
pub struct HistoryView {
    pub rows: Seq<DirEntryView>,
    pub visits: Seq<VisitView>,
}

/// Recording a visit to `p` at `t` (see `record_visit`): the rows change
/// as that says, and one record of the visit is added.
pub open spec fn add_visit(hv: HistoryView, p: Seq<char>, t: i64) -> Result<HistoryView, AddError> {
    match record_visit(hv.rows, p, t) {
        Ok(rows) => Ok(HistoryView { rows, visits: hv.visits.push(VisitView { path: p, at: t }) }),
        Err(e) => Err(e),
    }
}

/// Forgetting `p`: its rows go, and so do the records of its visits.
pub open spec fn forget_path(hv: HistoryView, p: Seq<char>) -> HistoryView {
    HistoryView { rows: without_path(hv.rows, p), visits: visits_without(hv.visits, p) }
}

/// Cleaning with one flag per row: the rows whose flag is clear go, and so
/// do the records of visits to their paths.
pub open spec fn clean_flags(hv: HistoryView, flags: Seq<bool>) -> HistoryView {
    HistoryView {
        rows: kept(hv.rows, flags),
        visits: visits_without_any(hv.visits, dropped_paths(hv.rows, flags)),
    }
}

/// The directory history: one row per directory, in the order the rows
/// were made, and the record of every visit.
pub struct History {
    entries: Vec<DirEntry>,
    visits: Vec<Visit>,
}

impl View for History {
    type V = HistoryView;

    closed spec fn view(&self) -> HistoryView {
        HistoryView { rows: views(self.entries@), visits: visit_views(self.visits@) }
    }
}

proof fn lemma_visit_views_push(v: Seq<Visit>, e: Visit)
    ensures
        visit_views(v.push(e)) == visit_views(v).push(e@),
{
    assert(visit_views(v.push(e)) =~= visit_views(v).push(e@));
}

proof fn lemma_views_push(v: Seq<DirEntry>, e: DirEntry)
    ensures
        views(v.push(e)) == views(v).push(e@),
{
    assert(views(v.push(e)) =~= views(v).push(e@));
}

/// Whether one of `ps` is the text `p`.
fn contains_text(ps: &Vec<String>, p: &str) -> (r: bool)
    ensures
        r == ps@.map_values(|x: String| x@).contains(p@),
{
    let ghost m = ps@.map_values(|x: String| x@);
    let mut i: usize = 0;
    while i < ps.len()
        invariant
            i <= ps.len(),
            m == ps@.map_values(|x: String| x@),
            forall|k: int| 0 <= k < i ==> #[trigger] m[k] != p@,
        decreases ps.len() - i,
    {
        if same_text(ps[i].as_str(), p) {
            assert(m[i as int] == p@);
            return true;
        }
        i = i + 1;
    }
    false
}

/// Finds the first row whose path is `p`.
fn find_path(entries: &Vec<DirEntry>, p: &str) -> (r: Option<usize>)
    ensures
        match r {
            Some(i) => is_first_match(views(entries@), p@, i as int),
            None => forall|k: int| 0 <= k < entries@.len() ==> #[trigger] entries@[k].path@ != p@,
        },
        r is Some <==> position(views(entries@), p@) >= 0,
        r matches Some(i) ==> position(views(entries@), p@) == i,
{
    let ghost h = views(entries@);
    let mut i: usize = 0;
    while i < entries.len()
        invariant
            i <= entries.len(),
            h == views(entries@),
            forall|k: int| 0 <= k < i ==> #[trigger] entries@[k].path@ != p@,
        decreases entries.len() - i,
    {
        if same_text(entries[i].path.as_str(), p) {
            proof {
                assert forall|k: int| 0 <= k < i implies #[trigger] h[k].path != p@ by {
                    assert(h[k] == entries@[k]@);
                }
                assert(is_first_match(h, p@, i as int));
                let j = position(h, p@);
                assert(is_first_match(h, p@, j));
                assert(j == i) by {
                    if j < i {
                        assert(h[j].path != p@);
                    } else if j > i {
                        assert(h[i as int].path != p@);
                    }
                }
            }
            return Some(i);
        }
        i = i + 1;
    }
    proof {
        if exists|j: int| is_first_match(h, p@, j) {
            let j = choose|j: int| is_first_match(h, p@, j);
            assert(h[j] == entries@[j]@);
            assert(false);
        }
    }
    None
}

impl History {
    /// An empty history.
    pub fn new() -> (h: History)
        ensures
            h@.rows == Seq::<DirEntryView>::empty(),
            h@.visits == Seq::<VisitView>::empty(),
    {
        let h = History { entries: Vec::new(), visits: Vec::new() };
        assert(h@.rows =~= Seq::<DirEntryView>::empty());
        assert(h@.visits =~= Seq::<VisitView>::empty());
        h
    }

    /// A history of the given rows, in the given order, with no visit
    /// records.
    pub fn from_entries(entries: Vec<DirEntry>) -> (h: History)
        ensures
            h@.rows == views(entries@),
            h@.visits == Seq::<VisitView>::empty(),
    {
        let h = History { entries, visits: Vec::new() };
        assert(h@.visits =~= Seq::<VisitView>::empty());
        h
    }

    /// A history of the given rows and visit records, each in the given
    /// order.
    pub fn from_parts(entries: Vec<DirEntry>, visits: Vec<Visit>) -> (h: History)
        ensures
            h@.rows == views(entries@),
            h@.visits == visit_views(visits@),
    {
        History { entries, visits }
    }

    /// The rows, in order.
    pub fn entries(&self) -> (r: &Vec<DirEntry>)
        ensures
            views(r@) == self@.rows,
    {
        &self.entries
    }

    /// The visit records, in order.
    pub fn visits(&self) -> (r: &Vec<Visit>)
        ensures
            visit_views(r@) == self@.visits,
    {
        &self.visits
    }

    /// The number of rows.
    pub fn len(&self) -> (n: usize)
        ensures
            n == self@.rows.len(),
    {
        self.entries.len()
    }

    /// Records a visit to `path` at instant `now` (see `add_visit`), and
    /// returns the row of `path` as it now stands.
    pub fn add_at(&mut self, path: &str, now: i64) -> (r: Result<DirEntry, AddError>)
        ensures
            match add_visit(old(self)@, path@, now) {
                Ok(hv) => {
                    &&& final(self)@ == hv
                    &&& r matches Ok(e) && e@ == hv.rows[position(hv.rows, path@)] && e@.path == path@
                },
                Err(err) => final(self)@ == old(self)@ && r == Err::<DirEntry, AddError>(err),
            },
            distinct_paths(old(self)@.rows) ==> distinct_paths(final(self)@.rows),
    {
        let ghost h0 = self@.rows;
        let ghost v0 = self@.visits;
        match find_path(&self.entries, path) {
            Some(i) => {
                let count = self.entries[i].visit_count;
                if count == i64::MAX {
                    return Err(AddError::VisitCountOverflow);
                }
                let e = DirEntry {
                    path: self.entries[i].path.clone(),
                    visit_count: count + 1,
                    last_visited: now,
                    first_visited: self.entries[i].first_visited,
                };
                let result = e.duplicate();
                let ghost old_entries = self.entries@;
                self.entries.set(i, e);
                self.record(path, now);
                proof {
                    let h1 = h0.update(i as int, revisit(h0[i as int], now));
                    assert(self@.rows =~= h1);
                    assert(is_first_match(h1, path@, i as int)) by {
                        assert forall|k: int| 0 <= k < i implies #[trigger] h1[k].path != path@ by {
                            assert(h1[k] == h0[k]);
                        }
                    }
                    let j = position(h1, path@);
                    assert(is_first_match(h1, path@, j));
                    assert(j == i) by {
                        if j < i {
                            assert(h1[j].path != path@);
                        } else if j > i {
                            assert(h1[i as int].path != path@);
                        }
                    }
                    if distinct_paths(h0) {
                        assert forall|a: int, b: int|
                            0 <= a < h1.len() && 0 <= b < h1.len() && a != b implies #[trigger] h1[a].path != #[trigger] h1[b].path by {
                            assert(h1[a].path == h0[a].path);
                            assert(h1[b].path == h0[b].path);
                        }
                    }
                }
                Ok(result)
            },
            None => {
                let e = DirEntry {
                    path: String::from_str(path),
                    visit_count: 1,
                    last_visited: now,
                    first_visited: now,
                };
                let result = e.duplicate();
                let ghost old_entries = self.entries@;
                self.entries.push(e);
                self.record(path, now);
                proof {
                    lemma_views_push(old_entries, e);
                    let h1 = h0.push(first_visit(path@, now));
                    assert(self@.rows =~= h1);
                    let n = h0.len() as int;
                    assert(is_first_match(h1, path@, n)) by {
                        assert forall|k: int| 0 <= k < n implies #[trigger] h1[k].path != path@ by {
                            assert(h1[k] == h0[k]);
                            assert(h0[k] == old_entries[k]@);
                        }
                    }
                    let j = position(h1, path@);
                    assert(is_first_match(h1, path@, j));
                    assert(j == n) by {
                        if j < n {
                            assert(h1[j].path != path@);
                        }
                    }
                    if distinct_paths(h0) {
                        assert forall|a: int, b: int|
                            0 <= a < h1.len() && 0 <= b < h1.len() && a != b implies #[trigger] h1[a].path != #[trigger] h1[b].path by {
                            if a < n && b < n {
                                assert(h1[a] == h0[a]);
                                assert(h1[b] == h0[b]);
                            } else if a < n {
                                assert(h1[a] == h0[a]);
                                assert(h0[a] == old_entries[a]@);
                            } else {
                                assert(h1[b] == h0[b]);
                                assert(h0[b] == old_entries[b]@);
                            }
                        }
                    }
                }
                Ok(result)
            },
        }
    }

    /// Records a visit to `path` at the current instant (never before the
    /// Unix epoch).
    pub fn add(&mut self, path: &str) -> (r: Result<DirEntry, AddError>)
        ensures
            exists|t: i64|
                t >= 0 && match #[trigger] add_visit(old(self)@, path@, t) {
                    Ok(hv) => {
                        &&& final(self)@ == hv
                        &&& r matches Ok(e) && e@ == hv.rows[position(hv.rows, path@)]
                    },
                    Err(err) => final(self)@ == old(self)@ && r == Err::<DirEntry, AddError>(err),
                },
            distinct_paths(old(self)@.rows) ==> distinct_paths(final(self)@.rows),
    {
        let t = now();
        self.add_at(path, t)
    }

    /// Adds a record of a visit to `path` at `now`, leaving the rows as
    /// they are.
    fn record(&mut self, path: &str, now: i64)
        ensures
            final(self).entries@ == old(self).entries@,
            final(self)@.visits == old(self)@.visits.push(VisitView { path: path@, at: now }),
    {
        let v = Visit { path: String::from_str(path), at: now };
        proof { lemma_visit_views_push(self.visits@, v); }
        self.visits.push(v);
    }

    /// Removes every row whose path is `path`, and every record of a visit
    /// to it.
    pub fn forget(&mut self, path: &str)
        ensures
            final(self)@ == forget_path(old(self)@, path@),
            distinct_paths(old(self)@.rows) ==> distinct_paths(final(self)@.rows),
    {
        let ghost h0 = self@.rows;
        let ghost v0 = self@.visits;
        let mut out: Vec<DirEntry> = Vec::new();
        let mut i: usize = 0;
        while i < self.entries.len()
            invariant
                i <= self.entries.len(),
                h0 == views(self.entries@),
                views(out@) == without_path(h0.take(i as int), path@),
            decreases self.entries.len() - i,
        {
            assert(h0.take(i + 1).drop_last() == h0.take(i as int));
            assert(h0.take(i + 1).last() == self.entries@[i as int]@);
            if !same_text(self.entries[i].path.as_str(), path) {
                let e = self.entries[i].duplicate();
                proof { lemma_views_push(out@, e); }
                out.push(e);
            }
            i = i + 1;
        }
        assert(h0.take(h0.len() as int) == h0);
        let mut vout: Vec<Visit> = Vec::new();
        let mut j: usize = 0;
        while j < self.visits.len()
            invariant
                j <= self.visits.len(),
                v0 == visit_views(self.visits@),
                visit_views(vout@) == visits_without(v0.take(j as int), path@),
            decreases self.visits.len() - j,
        {
            assert(v0.take(j + 1).drop_last() == v0.take(j as int));
            assert(v0.take(j + 1).last() == self.visits@[j as int]@);
            if !same_text(self.visits[j].path.as_str(), path) {
                let v = self.visits[j].duplicate();
                proof { lemma_visit_views_push(vout@, v); }
                vout.push(v);
            }
            j = j + 1;
        }
        assert(v0.take(v0.len() as int) == v0);
        self.entries = out;
        self.visits = vout;
        proof { lemma_without_path_keeps(h0, path@); }
    }

    /// Removes the rows whose flag in `exists` is clear, and every record of
    /// a visit to their paths, and returns those paths, in row order.
    pub fn clean_with(&mut self, exists: &Vec<bool>) -> (removed: Vec<String>)
        requires
            exists@.len() == old(self)@.rows.len(),
        ensures
            final(self)@ == clean_flags(old(self)@, exists@),
            removed@.map_values(|p: String| p@) == dropped_paths(old(self)@.rows, exists@),
    {
        let ghost h0 = self@.rows;
        let ghost v0 = self@.visits;
        let mut out: Vec<DirEntry> = Vec::new();
        let mut removed: Vec<String> = Vec::new();
        let mut i: usize = 0;
        while i < self.entries.len()
            invariant
                i <= self.entries.len(),
                exists@.len() == self.entries.len(),
                h0 == views(self.entries@),
                views(out@) == kept(h0.take(i as int), exists@.take(i as int)),
                removed@.map_values(|p: String| p@) == dropped_paths(h0.take(i as int), exists@.take(i as int)),
            decreases self.entries.len() - i,
        {
            assert(h0.take(i + 1).drop_last() == h0.take(i as int));
            assert(h0.take(i + 1).last() == self.entries@[i as int]@);
            assert(exists@.take(i + 1).drop_last() == exists@.take(i as int));
            assert(exists@.take(i + 1).last() == exists@[i as int]);
            if exists[i] {
                let e = self.entries[i].duplicate();
                proof { lemma_views_push(out@, e); }
                out.push(e);
            } else {
                let p = self.entries[i].path.clone();
                let ghost before = removed@;
                removed.push(p);
                assert(removed@.map_values(|p: String| p@) =~= before.map_values(|p: String| p@).push(p@));
            }
            i = i + 1;
        }
        assert(h0.take(h0.len() as int) == h0);
        assert(exists@.take(exists@.len() as int) == exists@);
        let ghost gone = removed@.map_values(|p: String| p@);
        let mut vout: Vec<Visit> = Vec::new();
        let mut j: usize = 0;
        while j < self.visits.len()
            invariant
                j <= self.visits.len(),
                v0 == visit_views(self.visits@),
                gone == removed@.map_values(|p: String| p@),
                visit_views(vout@) == visits_without_any(v0.take(j as int), gone),
            decreases self.visits.len() - j,
        {
            assert(v0.take(j + 1).drop_last() == v0.take(j as int));
            assert(v0.take(j + 1).last() == self.visits@[j as int]@);
            if !contains_text(&removed, self.visits[j].path.as_str()) {
                let v = self.visits[j].duplicate();
                proof { lemma_visit_views_push(vout@, v); }
                vout.push(v);
            }
            j = j + 1;
        }
        assert(v0.take(v0.len() as int) == v0);
        self.entries = out;
        self.visits = vout;
        removed
    }

    /// Removes the rows of directories that no longer exist and returns
    /// their paths, in row order: `probe` tells whether a path exists, and is
    /// asked once per row, about that row's own path; the rows for which it
    /// answers `false` go.
    pub fn clean<F: Fn(&str) -> bool>(&mut self, probe: F) -> (removed: Vec<String>)
        requires
            forall|s: &str| probe.requires((s,)),
        ensures
            exists|flags: Seq<bool>|
                #![trigger clean_flags(old(self)@, flags)]
                probed(probe, old(self)@.rows, flags) && final(self)@ == clean_flags(old(self)@, flags)
                    && removed@.map_values(|p: String| p@) == dropped_paths(old(self)@.rows, flags),
    {
        let ghost h = self@.rows;
        let mut flags: Vec<bool> = Vec::new();
        let mut i: usize = 0;
        while i < self.entries.len()
            invariant
                i <= self.entries.len(),
                h == views(self.entries@),
                forall|s: &str| probe.requires((s,)),
                flags@.len() == i,
                forall|k: int| 0 <= k < i ==> probe_answer(probe, h[k].path, #[trigger] flags@[k]),
            decreases self.entries.len() - i,
        {
            let p = self.entries[i].path.as_str();
            let b = probe(p);
            let ghost before = flags@;
            flags.push(b);
            proof {
                assert(p@ == h[i as int].path);
                assert forall|k: int| 0 <= k < i + 1 implies probe_answer(probe, h[k].path, #[trigger] flags@[k]) by {
                    if k < i {
                        assert(flags@[k] == before[k]);
                    } else {
                        assert(flags@[k] == b);
                        assert(probe.ensures((p,), b));
                    }
                }
            }
            i = i + 1;
        }
        let ghost f = flags@;
        let removed = self.clean_with(&flags);
        assert(probed(probe, h, f));
        removed
    }

}

/// `flags` holds, row by row, an answer that `probe` gives about that row's
/// own path.
pub open spec fn probed<F: Fn(&str) -> bool>(probe: F, h: Seq<DirEntryView>, flags: Seq<bool>) -> bool {
    &&& flags.len() == h.len()
    &&& forall|i: int| 0 <= i < flags.len() ==> probe_answer(probe, h[i].path, #[trigger] flags[i])
}

/// `b` is an answer that `probe` may give when asked about `path`.
pub open spec fn probe_answer<F: Fn(&str) -> bool>(probe: F, path: Seq<char>, b: bool) -> bool {
    exists|s: &str| s@ == path && #[trigger] probe.ensures((s,), b)
}

pub proof fn lemma_without_path_keeps(h: Seq<DirEntryView>, p: Seq<char>)
    ensures
        distinct_paths(h) ==> distinct_paths(without_path(h, p)),
        forall|i: int| 0 <= i < without_path(h, p).len() ==> h.contains(#[trigger] without_path(h, p)[i]),
    decreases h.len(),
{
    if h.len() > 0 {
        lemma_without_path_keeps(h.drop_last(), p);
        let w = without_path(h.drop_last(), p);
        assert forall|i: int| 0 <= i < without_path(h, p).len() implies h.contains(#[trigger] without_path(h, p)[i]) by {
            if i < w.len() {
                assert(h.drop_last().contains(w[i]));
                let k = choose|k: int| 0 <= k < h.drop_last().len() && h.drop_last()[k] == w[i];
                assert(h[k] == w[i]);
            } else {
                assert(without_path(h, p)[i] == h.last());
                assert(h[h.len() - 1] == h.last());
            }
        }
        if distinct_paths(h) {
            assert(distinct_paths(h.drop_last())) by {
                assert forall|a: int, b: int|
                    0 <= a < h.drop_last().len() && 0 <= b < h.drop_last().len() && a != b
                    implies #[trigger] h.drop_last()[a].path != #[trigger] h.drop_last()[b].path by {
                    assert(h.drop_last()[a] == h[a]);
                    assert(h.drop_last()[b] == h[b]);
                }
            }
            if h.last().path != p {
                let r = without_path(h, p);
                assert(r == w.push(h.last()));
                assert forall|a: int, b: int|
                    0 <= a < r.len() && 0 <= b < r.len() && a != b implies #[trigger] r[a].path != #[trigger] r[b].path by {
                    if a < w.len() && b < w.len() {
                        assert(r[a] == w[a]);
                        assert(r[b] == w[b]);
                    } else if a < w.len() {
                        assert(r[a] == w[a]);
                        assert(h.drop_last().contains(w[a]));
                        let k = choose|k: int| 0 <= k < h.drop_last().len() && h.drop_last()[k] == w[a];
                        assert(h[k] == w[a]);
                        assert(h[h.len() - 1] == r[b]);
                    } else {
                        assert(r[b] == w[b]);
                        assert(h.drop_last().contains(w[b]));
                        let k = choose|k: int| 0 <= k < h.drop_last().len() && h.drop_last()[k] == w[b];
                        assert(h[k] == w[b]);
                        assert(h[h.len() - 1] == r[a]);
                    }
                }
            }
        }
    }
}

fn recent_key_vec(entries: &Vec<DirEntry>) -> (keys: Vec<Key>)
    ensures
        keys@ == recent_keys(views(entries@)),
        distinct_keys(keys@),
{
    let ghost h = views(entries@);
    let mut keys: Vec<Key> = Vec::new();
    let mut i: usize = 0;
    while i < entries.len()
        invariant
            i <= entries.len(),
            h == views(entries@),
            keys@ == recent_keys(h).take(i as int),
        decreases entries.len() - i,
    {
        keys.push((entries[i].last_visited as i128, i as i128, 0i128, 0i128));
        assert(keys@ =~= recent_keys(h).take(i + 1));
        i = i + 1;
    }
    assert(keys@ =~= recent_keys(h));
    keys
}

fn frequent_key_vec(entries: &Vec<DirEntry>) -> (keys: Vec<Key>)
    ensures
        keys@ == frequent_keys(views(entries@)),
        distinct_keys(keys@),
{
    let ghost h = views(entries@);
    let mut keys: Vec<Key> = Vec::new();
    let mut i: usize = 0;
    while i < entries.len()
        invariant
            i <= entries.len(),
            h == views(entries@),
            keys@ == frequent_keys(h).take(i as int),
        decreases entries.len() - i,
    {
        keys.push((entries[i].visit_count as i128, entries[i].last_visited as i128, i as i128, 0i128));
        assert(keys@ =~= frequent_keys(h).take(i + 1));
        i = i + 1;
    }
    assert(keys@ =~= frequent_keys(h));
    keys
}

fn oldest_key_vec(entries: &Vec<DirEntry>) -> (keys: Vec<Key>)
    ensures
        keys@ == oldest_keys(views(entries@)),
        distinct_keys(keys@),
{
    let ghost h = views(entries@);
    let mut keys: Vec<Key> = Vec::new();
    let mut i: usize = 0;
    while i < entries.len()
        invariant
            i <= entries.len(),
            h == views(entries@),
            keys@ == oldest_keys(h).take(i as int),
        decreases entries.len() - i,
    {
        keys.push((-(entries[i].first_visited as i128), -(i as i128), 0i128, 0i128));
        assert(keys@ =~= oldest_keys(h).take(i + 1));
        i = i + 1;
    }
    assert(keys@ =~= oldest_keys(h));
    keys
}

/// Copies of the rows at the given row numbers, in that order.
fn pick_entries(entries: &Vec<DirEntry>, idx: &Vec<usize>) -> (out: Vec<DirEntry>)
    requires
        forall|k: int| 0 <= k < idx@.len() ==> #[trigger] idx@[k] < entries@.len(),
    ensures
        views(out@) == pick(views(entries@), idx@),
{
    let ghost h = views(entries@);
    let mut out: Vec<DirEntry> = Vec::new();
    let mut k: usize = 0;
    while k < idx.len()
        invariant
            k <= idx.len(),
            h == views(entries@),
            forall|t: int| 0 <= t < idx@.len() ==> #[trigger] idx@[t] < entries@.len(),
            views(out@) == pick(h, idx@).take(k as int),
        decreases idx.len() - k,
    {
        let e = entries[idx[k]].duplicate();
        proof { lemma_views_push(out@, e); }
        out.push(e);
        assert(views(out@) =~= pick(h, idx@).take(k + 1));
        k = k + 1;
    }
    assert(pick(h, idx@).take(idx@.len() as int) =~= pick(h, idx@));
    out
}

impl History {
    /// The first `limit` rows (all, where there are fewer), most recently
    /// visited first.
    pub fn list_recent(&self, limit: usize) -> (res: Vec<DirEntry>)
        ensures
            views(res@) == recent(self@.rows, limit as nat),
            res@.len() == min_nat(limit as nat, self@.rows.len()),
            forall|i: int, j: int|
                0 <= i < j < res@.len() ==> #[trigger] res@[i].last_visited >= #[trigger] res@[j].last_visited,
    {
        let keys = recent_key_vec(&self.entries);
        let idx = top_indices(&keys, limit);
        let res = pick_entries(&self.entries, &idx);
        proof {
            let h = self@.rows;
            assert(views(res@).len() == res@.len());
            assert(pick(h, idx@).len() == idx@.len());
            assert forall|i: int, j: int|
                0 <= i < j < res@.len() implies #[trigger] res@[i].last_visited >= #[trigger] res@[j].last_visited by {
                assert(views(res@)[i] == res@[i]@);
                assert(views(res@)[j] == res@[j]@);
                assert(pick(h, idx@)[i] == h[idx@[i] as int]);
                assert(pick(h, idx@)[j] == h[idx@[j] as int]);
                assert(key_gt(keys@[idx@[i] as int], keys@[idx@[j] as int]));
            }
        }
        res
    }

    /// The first `limit` rows (all, where there are fewer), most visited
    /// first and, among equally often visited ones, most recently visited
    /// first.
    pub fn list_frequent(&self, limit: usize) -> (res: Vec<DirEntry>)
        ensures
            views(res@) == frequent(self@.rows, limit as nat),
            res@.len() == min_nat(limit as nat, self@.rows.len()),
            forall|i: int, j: int|
                0 <= i < j < res@.len() ==> {
                    ||| #[trigger] res@[i].visit_count > #[trigger] res@[j].visit_count
                    ||| (res@[i].visit_count == res@[j].visit_count && res@[i].last_visited >= res@[j].last_visited)
                },
    {
        let keys = frequent_key_vec(&self.entries);
        let idx = top_indices(&keys, limit);
        let res = pick_entries(&self.entries, &idx);
        proof {
            assert(views(res@).len() == res@.len());
            assert(pick(self@.rows, idx@).len() == idx@.len());
            assert forall|i: int, j: int| 0 <= i < j < res@.len() implies {
                ||| #[trigger] res@[i].visit_count > #[trigger] res@[j].visit_count
                ||| (res@[i].visit_count == res@[j].visit_count && res@[i].last_visited >= res@[j].last_visited)
            } by {
                assert(views(res@)[i] == res@[i]@);
                assert(views(res@)[j] == res@[j]@);
                assert(pick(self@.rows, idx@)[i] == self@.rows[idx@[i] as int]);
                assert(pick(self@.rows, idx@)[j] == self@.rows[idx@[j] as int]);
                assert(key_gt(keys@[idx@[i] as int], keys@[idx@[j] as int]));
            }
        }
        res
    }

    /// Every row, most recently visited first, up to ten thousand.
    pub fn all_entries(&self) -> (res: Vec<DirEntry>)
        ensures
            views(res@) == recent(self@.rows, 10000),
    {
        self.list_recent(10000)
    }

    /// The path of the directory `n` steps back in history: the row `n`
    /// places after the most recently visited one, if there is one.
    pub fn back(&self, n: usize) -> (r: Option<String>)
        ensures
            n < self@.rows.len() ==> (r matches Some(p) && p@ == recent(self@.rows, (n + 1) as nat)[n as int].path),
            n >= self@.rows.len() ==> r is None,
    {
        let off: usize = n;
        if off >= self.entries.len() {
            return None;
        }
        let keys = recent_key_vec(&self.entries);
        let idx = top_indices(&keys, off + 1);
        let j = idx[off];
        let p = self.entries[j].path.clone();
        proof {
            assert(recent(self@.rows, (off + 1) as nat)[off as int] == self@.rows[j as int]);
            assert(self@.rows[j as int] == self.entries@[j as int]@);
        }
        Some(p)
    }

    /// The number of rows, the sum of their visit counts, the most visited
    /// row and the row first visited earliest. Fails where a running total
    /// of the visit counts leaves the `i64` range.
    pub fn stats(&self) -> (r: Result<Stats, StatsError>)
        requires
            self@.rows.len() <= i64::MAX,
        ensures
            r is Ok <==> sums_fit(self@.rows),
            r matches Ok(st) ==> {
                &&& st.total_directories == self@.rows.len()
                &&& st.total_visits == total_visits(self@.rows)
                &&& opt_view(st.most_visited) == first_of(frequent(self@.rows, 1))
                &&& opt_view(st.oldest_entry) == first_of(oldest(self@.rows, 1))
            },
            r matches Err(e) ==> e == StatsError::TotalVisitsOverflow,
    {
        let ghost h = self@.rows;
        let mut acc: i64 = 0;
        let mut i: usize = 0;
        assert(total_visits(h.take(0)) == 0) by {
            assert(h.take(0) =~= Seq::<DirEntryView>::empty());
        }
        while i < self.entries.len()
            invariant
                i <= self.entries.len(),
                h == views(self.entries@),
                acc == total_visits(h.take(i as int)),
                forall|k: int| 0 <= k <= i ==> i64::MIN <= #[trigger] total_visits(h.take(k)) <= i64::MAX,
            decreases self.entries.len() - i,
        {
            assert(h.take(i + 1).drop_last() == h.take(i as int));
            assert(h.take(i + 1).last() == self.entries@[i as int]@);
            let s: i128 = acc as i128 + self.entries[i].visit_count as i128;
            if s > i64::MAX as i128 || s < i64::MIN as i128 {
                assert(!sums_fit(h)) by {
                    assert(!(i64::MIN <= total_visits(h.take(i + 1)) <= i64::MAX));
                }
                return Err(StatsError::TotalVisitsOverflow);
            }
            acc = s as i64;
            i = i + 1;
        }
        assert(h.take(h.len() as int) == h);
        let most = self.list_frequent(1);
        let most_visited = if most.len() > 0 { Some(most[0].duplicate()) } else { None };
        let keys = oldest_key_vec(&self.entries);
        let idx = top_indices(&keys, 1);
        let oldest_rows = pick_entries(&self.entries, &idx);
        let oldest_entry = if oldest_rows.len() > 0 { Some(oldest_rows[0].duplicate()) } else { None };
        proof {
            if most.len() > 0 {
                assert(views(most@)[0] == most@[0]@);
            }
            if oldest_rows.len() > 0 {
                assert(views(oldest_rows@)[0] == oldest_rows@[0]@);
            }
        }
        Ok(Stats {
            total_directories: self.entries.len() as i64,
            total_visits: acc,
            most_visited,
            oldest_entry,
        })
    }
}

/// An instant read back from its stored RFC 3339 text; text that does not
/// parse reads as the current instant (never before the Unix epoch).
fn stored_instant(text: &str) -> (t: i64)
    ensures
        utc_parse_nanos(text@) matches Some(u) ==> t == u,
        utc_parse_nanos(text@) is None ==> t >= 0,
{
    match parse_rfc3339(text) {
        Some(t) => t,
        None => now(),
    }
}

/// An entry read back from stored text: the path and visit count as
/// stored, and each instant parsed from its RFC 3339 text; an instant whose
/// text does not parse reads as the current instant.
pub fn entry_from_row(path: String, visit_count: i64, last_visited: &str, first_visited: &str) -> (e: DirEntry)
    ensures
        e.path == path,
        e.visit_count == visit_count,
        utc_parse_nanos(last_visited@) matches Some(t) ==> e.last_visited == t,
        utc_parse_nanos(last_visited@) is None ==> e.last_visited >= 0,
        utc_parse_nanos(first_visited@) matches Some(t) ==> e.first_visited == t,
        utc_parse_nanos(first_visited@) is None ==> e.first_visited >= 0,
{
    let last = stored_instant(last_visited);
    let first = stored_instant(first_visited);
    DirEntry { path, visit_count, last_visited: last, first_visited: first }
}

/// A visit record read back from stored text: the path as stored, and the
/// instant parsed from its RFC 3339 text; text that does not parse reads as
/// the current instant.
pub fn visit_from_row(path: String, timestamp: &str) -> (v: Visit)
    ensures
        v.path == path,
        utc_parse_nanos(timestamp@) matches Some(t) ==> v.at == t,
        utc_parse_nanos(timestamp@) is None ==> v.at >= 0,
{
    Visit { path, at: stored_instant(timestamp) }
}

} // verus!
