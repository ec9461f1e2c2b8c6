//! The interactive picker: the history entries, a fuzzy query that filters
//! and ranks them, and the highlighted line; and what each key press does.
use vstd::prelude::*;
use fuzzy_matcher::FuzzyMatcher;
use crate::history::{DirEntry, DirEntryView, views};
use crate::ranking::{Key, top, top_indices};
use crate::render::{entry_picker_row, picker_line};
use crate::text::{pop_char, push_char, push_str};

verus! {

/// The score that fuzzy-matcher's skim matcher in its default configuration
/// (`SkimMatcherV2::default().fuzzy_match(choice, pattern)`) gives `choice`
/// for `pattern`; `None` where `pattern` does not match.
pub uninterp spec fn skim_score(choice: Seq<char>, pattern: Seq<char>) -> Option<i64>;

/// Calls `fuzzy_matcher::skim::SkimMatcherV2::default().fuzzy_match`; the
/// result is named by `skim_score`.
#[verifier::external_body]
fn fuzzy_score(choice: &str, pattern: &str) -> (r: Option<i64>)
    ensures
        r == skim_score(choice@, pattern@),
{
    fuzzy_matcher::skim::SkimMatcherV2::default().fuzzy_match(choice, pattern)
}

/// The rows that have a score, each with its row number and score, in row order.
pub open spec fn scored(scores: Seq<Option<i64>>) -> Seq<(usize, i64)>
    decreases scores.len(),
{
    if scores.len() == 0 {
        Seq::empty()
    } else {
        let rest = scored(scores.drop_last());
        match scores.last() {
            Some(sc) => rest.push(((scores.len() - 1) as usize, sc)),
            None => rest,
        }
    }
}

/// Higher score first; among equal scores the earlier row first.
pub open spec fn score_keys(m: Seq<(usize, i64)>) -> Seq<Key> {
    Seq::new(m.len(), |k: int| (m[k].1 as i128, (-m[k].0) as i128, 0i128, 0i128))
}

/// The row numbers of the rows that have a score, best score first and,
/// among equal scores, in row order (a stable sort by descending score).
pub open spec fn score_order(scores: Seq<Option<i64>>) -> Seq<usize> {
    let m = scored(scores);
    let t = top(score_keys(m), m.len());
    Seq::new(t.len(), |k: int| m[t[k] as int].0)
}

/// The score of every entry for query `q`.
pub open spec fn query_scores(h: Seq<DirEntryView>, q: Seq<char>) -> Seq<Option<i64>> {
    Seq::new(h.len(), |i: int| skim_score(h[i].path, q))
}

/// The row numbers the picker shows for query `q`: every row, in order,
/// for an empty query; else the rows that match, best score first, and
/// among equal scores in row order.
pub open spec fn filter_order(h: Seq<DirEntryView>, q: Seq<char>) -> Seq<usize> {
    if q.len() == 0 {
        Seq::new(h.len(), |i: int| i as usize)
    } else {
        score_order(query_scores(h, q))
    }
}

/// What the picker holds.
pub struct PickerView {
    pub entries: Seq<DirEntryView>,
    pub filtered: Seq<usize>,
    pub query: Seq<char>,
    pub selected: Option<usize>,
}

/// The picker for `entries` and `query`, freshly filtered: the first line
/// highlighted, if there is one.
pub open spec fn refiltered(entries: Seq<DirEntryView>, query: Seq<char>) -> PickerView {
    let f = filter_order(entries, query);
    PickerView { entries, filtered: f, query, selected: if f.len() > 0 { Some(0usize) } else { None } }
}

/// The highlight moved by `delta` lines, held within the shown lines.
pub open spec fn moved(v: PickerView, delta: int) -> PickerView {
    if v.filtered.len() == 0 {
        v
    } else {
        let cur: int = match v.selected {
            Some(s) => s as int,
            None => 0,
        };
        let t = cur + delta;
        let last = v.filtered.len() - 1;
        let next = if t < 0 { 0 } else if t > last { last } else { t };
        PickerView { selected: Some(next as usize), ..v }
    }
}

/// The path of the highlighted line.
pub open spec fn highlighted_path(v: PickerView) -> Option<Seq<char>> {
    match v.selected {
        Some(i) => if i < v.filtered.len() {
            Some(v.entries[v.filtered[i as int] as int].path)
        } else {
            None
        },
        None => None,
    }
}

/// `line` is the picker line of `e`, `width` columns wide, seen from some
/// home directory at some instant.
pub open spec fn picker_row_of(line: Seq<char>, e: DirEntryView, width: int) -> bool {
    exists|home: Option<Seq<char>>, t: i64| t >= 0 && line == entry_picker_row(e, home, t as int, width)
}

/// The picker invariant: every shown line is an entry, no entry is shown
/// twice, and a line is highlighted exactly when there is one, and then
/// one of the shown lines.
pub open spec fn picker_ok(v: PickerView) -> bool {
    &&& forall|k: int| 0 <= k < v.filtered.len() ==> #[trigger] v.filtered[k] < v.entries.len()
    &&& v.filtered.len() <= v.entries.len()
    &&& forall|a: int, b: int|
        0 <= a < v.filtered.len() && 0 <= b < v.filtered.len() && a != b
            ==> #[trigger] v.filtered[a] != #[trigger] v.filtered[b]
    &&& (v.selected is Some <==> v.filtered.len() > 0)
    &&& (v.selected matches Some(s) ==> s < v.filtered.len())
}

/// A key as the picker reads it.
#[derive(Debug, Clone, Copy, PartialEq, Eq, Structural)]
pub enum KeyCode {
    Esc,
    Enter,
    Up,
    Down,
    Tab,
    BackTab,
    Backspace,
    Char(char),
    Other,
}

/// A key event: the key, whether Control was held, and whether it is a
/// press (rather than a release or repeat).
#[derive(Debug, Clone, Copy, PartialEq, Eq, Structural)]
pub struct KeyInput {
    pub code: KeyCode,
    pub ctrl: bool,
    pub press: bool,
}

/// What follows a key press: go on, or leave with the picked path (or none).
#[derive(Debug)]
pub enum PickerStep {
    Continue,
    Done(Option<String>),
}

/// The view of a `PickerStep`.
pub enum StepView {
    Continue,
    Done(Option<Seq<char>>),
}

pub open spec fn step_view(s: PickerStep) -> StepView {
    match s {
        PickerStep::Continue => StepView::Continue,
        PickerStep::Done(Some(p)) => StepView::Done(Some(p@)),
        PickerStep::Done(None) => StepView::Done(None),
    }
}

/// The picker and the outcome after key event `k`: releases and repeats
/// are ignored; Esc leaves with nothing; Enter leaves with the highlighted
/// path; Up, Shift-Tab and Ctrl-K move up a line; Down, Tab and Ctrl-J move
/// down; Backspace drops the last query character and any other character
/// is added to the query, each refiltering.
pub open spec fn after_key(v: PickerView, k: KeyInput) -> (PickerView, StepView) {
    if !k.press {
        (v, StepView::Continue)
    } else {
        match k.code {
            KeyCode::Esc => (v, StepView::Done(None)),
            KeyCode::Enter => (v, StepView::Done(highlighted_path(v))),
            KeyCode::Up | KeyCode::BackTab => (moved(v, -1), StepView::Continue),
            KeyCode::Down | KeyCode::Tab => (moved(v, 1), StepView::Continue),
            KeyCode::Char(c) => if c == 'k' && k.ctrl {
                (moved(v, -1), StepView::Continue)
            } else if c == 'j' && k.ctrl {
                (moved(v, 1), StepView::Continue)
            } else {
                (refiltered(v.entries, v.query.push(c)), StepView::Continue)
            },
            KeyCode::Backspace => (
                refiltered(v.entries, if v.query.len() > 0 { v.query.drop_last() } else { v.query }),
                StepView::Continue,
            ),
            KeyCode::Other => (v, StepView::Continue),
        }
    }
}

/// The shown lines (row numbers of the entries, in order) and the position
/// of the highlighted one among them; they change together.
struct Shown {
    filtered: Vec<usize>,
    selected: Option<usize>,
}

/// The interactive picker.
pub struct TuiPicker {
    entries: Vec<DirEntry>,
    shown: Shown,
    query: String,
}

impl View for TuiPicker {
    type V = PickerView;

    closed spec fn view(&self) -> PickerView {
        PickerView {
            entries: views(self.entries@),
            filtered: self.shown.filtered@,
            query: self.query@,
            selected: self.shown.selected,
        }
    }
}

proof fn lemma_scored(scores: Seq<Option<i64>>)
    requires
        scores.len() <= usize::MAX,
    ensures
        scored(scores).len() <= scores.len(),
        forall|k: int| 0 <= k < scored(scores).len() ==> (#[trigger] scored(scores)[k]).0 < scores.len(),
        forall|a: int, b: int|
            0 <= a < b < scored(scores).len() ==> (#[trigger] scored(scores)[a]).0 < (#[trigger] scored(scores)[b]).0,
    decreases scores.len(),
{
    if scores.len() > 0 {
        lemma_scored(scores.drop_last());
        let rest = scored(scores.drop_last());
        match scores.last() {
            Some(sc) => {
                let m = rest.push(((scores.len() - 1) as usize, sc));
                assert(scored(scores) == m);
                assert forall|a: int, b: int| 0 <= a < b < m.len() implies (#[trigger] m[a]).0 < (#[trigger] m[b]).0 by {
                    assert(m[a] == rest[a]);
                    if b < rest.len() {
                        assert(m[b] == rest[b]);
                    }
                }
                assert forall|k: int| 0 <= k < m.len() implies (#[trigger] m[k]).0 < scores.len() by {
                    if k < rest.len() {
                        assert(m[k] == rest[k]);
                    }
                }
            },
            None => {},
        }
    }
}

/// The row numbers of the rows that have a score, best score first and,
/// among equal scores, in row order.
pub fn order_by_score(scores: &Vec<Option<i64>>) -> (order: Vec<usize>)
    ensures
        order@ == score_order(scores@),
        order@.len() <= scores@.len(),
        forall|k: int| 0 <= k < order@.len() ==> #[trigger] order@[k] < scores@.len(),
        forall|a: int, b: int|
            0 <= a < order@.len() && 0 <= b < order@.len() && a != b ==> #[trigger] order@[a] != #[trigger] order@[b],
{
    let n = scores.len();
    let mut m: Vec<(usize, i64)> = Vec::new();
    let mut i: usize = 0;
    while i < n
        invariant
            i <= n,
            n == scores@.len(),
            m@ == scored(scores@.take(i as int)),
        decreases n - i,
    {
        let ghost si = scores@.take(i + 1);
        assert(si.drop_last() =~= scores@.take(i as int));
        assert(si.last() == scores@[i as int]);
        match scores[i] {
            Some(sc) => {
                m.push((i, sc));
            },
            None => {},
        }
        i = i + 1;
    }
    assert(scores@.take(n as int) =~= scores@);
    proof { lemma_scored(scores@); }
    let mut keys: Vec<Key> = Vec::new();
    let mut k: usize = 0;
    while k < m.len()
        invariant
            k <= m.len(),
            keys@ == score_keys(m@).take(k as int),
        decreases m.len() - k,
    {
        keys.push((m[k].1 as i128, -(m[k].0 as i128), 0i128, 0i128));
        assert(keys@ =~= score_keys(m@).take(k + 1));
        k = k + 1;
    }
    assert(keys@ =~= score_keys(m@));
    proof {
        assert forall|a: int, b: int|
            0 <= a < keys@.len() && 0 <= b < keys@.len() && a != b implies #[trigger] keys@[a] != #[trigger] keys@[b] by {
            if a < b {
                assert(m@[a].0 < m@[b].0);
            } else {
                assert(m@[b].0 < m@[a].0);
            }
        }
    }
    let t = top_indices(&keys, m.len());
    let mut order: Vec<usize> = Vec::new();
    let mut j: usize = 0;
    while j < t.len()
        invariant
            j <= t.len(),
            t@.len() == m@.len(),
            forall|r: int| 0 <= r < t@.len() ==> #[trigger] t@[r] < m@.len(),
            order@ == Seq::new(j as nat, |r: int| m@[t@[r] as int].0),
        decreases t.len() - j,
    {
        order.push(m[t[j]].0);
        assert(order@ =~= Seq::new((j + 1) as nat, |r: int| m@[t@[r] as int].0));
        j = j + 1;
    }
    proof {
        assert(order@ =~= score_order(scores@));
        assert forall|r: int| 0 <= r < order@.len() implies #[trigger] order@[r] < n by {
            assert(order@[r] == m@[t@[r] as int].0);
        }
        assert forall|a: int, b: int|
            0 <= a < order@.len() && 0 <= b < order@.len() && a != b
            implies #[trigger] order@[a] != #[trigger] order@[b] by {
            assert(order@[a] == m@[t@[a] as int].0);
            assert(order@[b] == m@[t@[b] as int].0);
            if a < b {
                assert(crate::ranking::key_gt(keys@[t@[a] as int], keys@[t@[b] as int]));
            } else {
                assert(crate::ranking::key_gt(keys@[t@[b] as int], keys@[t@[a] as int]));
            }
            assert(t@[a] != t@[b]);
            if t@[a] < t@[b] {
                assert(m@[t@[a] as int].0 < m@[t@[b] as int].0);
            } else {
                assert(m@[t@[b] as int].0 < m@[t@[a] as int].0);
            }
        }
    }
    order
}

/// The lines shown for `query` over `entries`, the first highlighted.
fn filter_entries(entries: &Vec<DirEntry>, query: &String) -> (shown: Shown)
    ensures
        shown.filtered@ == filter_order(views(entries@), query@),
        shown.selected == refiltered(views(entries@), query@).selected,
        picker_ok(refiltered(views(entries@), query@)),
{
    let ghost h = views(entries@);
    let ghost q = query@;
    let n = entries.len();
    let mut filtered: Vec<usize> = Vec::new();
    if query.as_str().is_empty() {
        proof { assert(q.len() == 0) by { assert(query@.len() == 0); } }
        let mut i: usize = 0;
        while i < n
            invariant
                i <= n,
                n == entries@.len(),
                filtered@ == Seq::new(i as nat, |k: int| k as usize),
            decreases n - i,
        {
            filtered.push(i);
            assert(filtered@ =~= Seq::new((i + 1) as nat, |k: int| k as usize));
            i = i + 1;
        }
        proof {
            assert(h.len() == n);
            assert(filtered@ =~= filter_order(h, q));
            assert forall|a: int, b: int|
                0 <= a < filtered@.len() && 0 <= b < filtered@.len() && a != b
                implies #[trigger] filtered@[a] != #[trigger] filtered@[b] by {
                assert(filtered@[a] == a as usize);
                assert(filtered@[b] == b as usize);
            }
        }
    } else {
        proof { assert(q.len() > 0); }
        let mut scores: Vec<Option<i64>> = Vec::new();
        let mut i: usize = 0;
        while i < n
            invariant
                i <= n,
                n == entries@.len(),
                h == views(entries@),
                q == query@,
                scores@ == query_scores(h, q).take(i as int),
            decreases n - i,
        {
            proof { assert(h[i as int] == entries@[i as int]@); }
            scores.push(fuzzy_score(entries[i].path.as_str(), query.as_str()));
            assert(scores@ =~= query_scores(h, q).take(i + 1));
            i = i + 1;
        }
        assert(scores@ =~= query_scores(h, q));
        filtered = order_by_score(&scores);
    }
    let selected = if filtered.len() == 0 { None } else { Some(0) };
    Shown { filtered, selected }
}

impl TuiPicker {
    /// What every picker keeps (see `picker_ok`).
    #[verifier::type_invariant]
    spec fn inv(&self) -> bool {
        picker_ok(self@)
    }

    /// Rebuilds the shown lines from the query and highlights the first.
    fn update_filter(&mut self)
        ensures
            final(self)@ == refiltered(old(self)@.entries, old(self)@.query),
            final(self).entries@ == old(self).entries@,
    {
        let shown = filter_entries(&self.entries, &self.query);
        self.shown = shown;
        proof {
            assert(self@ =~= refiltered(views(self.entries@), self.query@));
        }
    }

    /// A picker over `entries`, with the query pre-filled from
    /// `initial_query` (empty where there is none).
    pub fn new(entries: Vec<DirEntry>, initial_query: Option<String>) -> (p: TuiPicker)
        ensures
            p@ == refiltered(
                views(entries@),
                match initial_query {
                    Some(q) => q@,
                    None => Seq::<char>::empty(),
                },
            ),
            picker_ok(p@),
    {
        let query = match initial_query {
            Some(q) => q,
            None => String::new(),
        };
        let shown = filter_entries(&entries, &query);
        let p = TuiPicker { entries, shown, query };
        assert(p@ =~= refiltered(views(p.entries@), p.query@));
        p
    }

    /// Moves the highlight by `delta` lines, held within the shown lines.
    pub fn move_selection(&mut self, delta: i32)
        requires
            old(self)@.filtered.len() <= i32::MAX,
            (match old(self)@.selected {
                Some(s) => s as int,
                None => 0,
            }) + delta <= i32::MAX,
        ensures
            final(self)@ == moved(old(self)@, delta as int),
            picker_ok(final(self)@),
    {
        proof { use_type_invariant(&*self); }
        if self.shown.filtered.len() == 0 {
            return;
        }
        let cur: usize = match self.shown.selected {
            Some(s) => s,
            None => 0,
        };
        let t: i64 = cur as i64 + delta as i64;
        let last: i64 = self.shown.filtered.len() as i64 - 1;
        let next: i64 = if t < 0 { 0 } else if t > last { last } else { t };
        self.shown.selected = Some(next as usize);
        proof { use_type_invariant(&*self); }
    }

    /// The path of the highlighted line.
    pub fn selected_path(&self) -> (r: Option<String>)
        ensures
            crate::render::opt_text(r) == highlighted_path(self@),
    {
        proof { use_type_invariant(self); }
        match self.shown.selected {
            Some(i) => {
                if i < self.shown.filtered.len() {
                    let idx = self.shown.filtered[i];
                    proof { assert(views(self.entries@)[idx as int] == self.entries@[idx as int]@); }
                    Some(self.entries[idx].path.clone())
                } else {
                    None
                }
            },
            None => None,
        }
    }

    /// Handles one key event (see `after_key`).
    pub fn handle_key(&mut self, key: KeyInput) -> (step: PickerStep)
        requires
            old(self)@.entries.len() <= i32::MAX,
        ensures
            (final(self)@, step_view(step)) == after_key(old(self)@, key),
            picker_ok(final(self)@),
            final(self)@.entries == old(self)@.entries,
    {
        proof { use_type_invariant(&*self); }
        let step = if !key.press {
            PickerStep::Continue
        } else {
            match key.code {
                KeyCode::Esc => PickerStep::Done(None),
                KeyCode::Enter => PickerStep::Done(self.selected_path()),
                KeyCode::Up | KeyCode::BackTab => {
                    self.move_selection(-1);
                    PickerStep::Continue
                },
                KeyCode::Down | KeyCode::Tab => {
                    self.move_selection(1);
                    PickerStep::Continue
                },
                KeyCode::Char(c) => {
                    if c == 'k' && key.ctrl {
                        self.move_selection(-1);
                    } else if c == 'j' && key.ctrl {
                        self.move_selection(1);
                    } else {
                        let mut q = self.query.clone();
                        push_char(&mut q, c);
                        self.query = q;
                        self.update_filter();
                    }
                    PickerStep::Continue
                },
                KeyCode::Backspace => {
                    let mut q = self.query.clone();
                    let _ = pop_char(&mut q);
                    self.query = q;
                    self.update_filter();
                    PickerStep::Continue
                },
                KeyCode::Other => PickerStep::Continue,
            }
        };
        proof { use_type_invariant(&*self); }
        step
    }

    /// The query typed so far.
    pub fn query(&self) -> (q: &str)
        ensures
            q@ == self@.query,
    {
        self.query.as_str()
    }

    /// The position, among the shown lines, of the highlighted one, if any.
    pub fn selected(&self) -> (s: Option<usize>)
        ensures
            s == self@.selected,
    {
        self.shown.selected
    }

    /// The search bar text: "> " and the query.
    pub fn search_line(&self) -> (s: String)
        ensures
            s@ == "> "@ + self@.query,
    {
        let mut s = String::new();
        push_str(&mut s, "> ");
        push_str(&mut s, self.query.as_str());
        s
    }

    /// The shown lines, `width` columns wide, in order: each is the picker
    /// line of its entry, seen from some home at some instant (the user's,
    /// at the time of the call).
    pub fn lines(&self, width: usize) -> (out: Vec<String>)
        ensures
            out@.len() == self@.filtered.len(),
            forall|k: int|
                0 <= k < out@.len() ==> picker_row_of(
                    (#[trigger] out@[k])@,
                    self@.entries[self@.filtered[k] as int],
                    width as int,
                ),
    {
        proof { use_type_invariant(self); }
        let mut out: Vec<String> = Vec::new();
        let mut k: usize = 0;
        while k < self.shown.filtered.len()
            invariant
                picker_ok(self@),
                k <= self.shown.filtered.len(),
                out@.len() == k,
                forall|r: int|
                    0 <= r < k ==> picker_row_of(
                        (#[trigger] out@[r])@,
                        views(self.entries@)[self.shown.filtered@[r] as int],
                        width as int,
                    ),
            decreases self.shown.filtered.len() - k,
        {
            let idx = self.shown.filtered[k];
            let line = picker_line(&self.entries[idx], width);
            let ghost before = out@;
            out.push(line);
            proof {
                assert(views(self.entries@)[idx as int] == self.entries@[idx as int]@);
                assert forall|r: int|
                    0 <= r < k + 1 implies picker_row_of(
                        (#[trigger] out@[r])@,
                        views(self.entries@)[self.shown.filtered@[r] as int],
                        width as int,
                    ) by {
                    if r < k {
                        assert(out@[r] == before[r]);
                    } else {
                        assert(out@[r] == line);
                    }
                }
            }
            k = k + 1;
        }
        out
    }
}

/// Typing a character and then pressing Backspace leaves the picker as
/// it was before the character, freshly filtered (the highlight back on the
/// first line).
pub proof fn law_backspace_undoes_typing(v: PickerView, c: char)
    ensures
        ({
            let typed = after_key(v, KeyInput { code: KeyCode::Char(c), ctrl: false, press: true }).0;
            after_key(typed, KeyInput { code: KeyCode::Backspace, ctrl: false, press: true }).0
                == refiltered(v.entries, v.query)
        }),
{
    assert(v.query.push(c).drop_last() =~= v.query);
}

/// Keys that only move the highlight, and Esc and Enter, leave the query
/// and the shown lines as they were.
pub proof fn law_navigation_keeps_lines(v: PickerView, k: KeyInput)
    requires
        match k.code {
            KeyCode::Char(_) | KeyCode::Backspace => false,
            _ => true,
        },
    ensures
        after_key(v, k).0.filtered == v.filtered,
        after_key(v, k).0.query == v.query,
        after_key(v, k).0.entries == v.entries,
{
}

} // verus!
