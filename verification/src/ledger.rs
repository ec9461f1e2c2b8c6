//! What holds of the visit records across the operations: each row counts
//! exactly the visits recorded to its path, and no record outlives its row.
use vstd::prelude::*;
use crate::history::{
    HistoryView, VisitView, add_visit, clean_flags, distinct_paths, dropped_paths, first_visit, forget_path, kept,
    lemma_without_path_keeps, position, record_visit, revisit, visits_to, visits_without, visits_without_any,
    without_path, total_visits, DirEntryView,
};
use crate::laws::{
    law_add_keeps_rows_ok, law_clean_keeps_all_when_all_exist, law_clean_keeps_rows_ok, law_forget_keeps_rows_ok,
    law_forget_removes,
    lemma_forget_undoes_record, lemma_position, none_after, rows_ok,
};

verus! {

/// Some row has path `p`.
pub open spec fn has_row(h: Seq<DirEntryView>, p: Seq<char>) -> bool {
    exists|i: int| 0 <= i < h.len() && (#[trigger] h[i]).path == p
}

/// The history is well kept: its rows are (see `rows_ok`), each row's
/// visit count is the number of visits recorded to its path, and every
/// visit record belongs to a row.
pub open spec fn ledger_ok(hv: HistoryView) -> bool {
    &&& rows_ok(hv.rows)
    &&& forall|i: int| 0 <= i < hv.rows.len() ==> (#[trigger] hv.rows[i]).visit_count == visits_to(hv.visits, hv.rows[i].path)
    &&& forall|j: int| 0 <= j < hv.visits.len() ==> has_row(hv.rows, (#[trigger] hv.visits[j]).path)
}

proof fn lemma_visits_to_push(vs: Seq<VisitView>, v: VisitView, q: Seq<char>)
    ensures
        visits_to(vs.push(v), q) == visits_to(vs, q) + if v.path == q { 1int } else { 0int },
{
    assert(vs.push(v).drop_last() =~= vs);
}

proof fn lemma_visits_to_none(vs: Seq<VisitView>, p: Seq<char>)
    requires
        forall|j: int| 0 <= j < vs.len() ==> (#[trigger] vs[j]).path != p,
    ensures
        visits_to(vs, p) == 0,
        visits_without(vs, p) == vs,
    decreases vs.len(),
{
    if vs.len() > 0 {
        assert(vs.last() == vs[vs.len() - 1]);
        lemma_visits_to_none(vs.drop_last(), p);
        assert(vs.drop_last().push(vs.last()) =~= vs);
    }
}

proof fn lemma_visits_without(vs: Seq<VisitView>, p: Seq<char>)
    ensures
        forall|q: Seq<char>| q != p ==> #[trigger] visits_to(visits_without(vs, p), q) == visits_to(vs, q),
        forall|k: int| 0 <= k < visits_without(vs, p).len() ==> (#[trigger] visits_without(vs, p)[k]).path != p
            && vs.contains(visits_without(vs, p)[k]),
    decreases vs.len(),
{
    if vs.len() > 0 {
        lemma_visits_without(vs.drop_last(), p);
        let w = visits_without(vs.drop_last(), p);
        let r = visits_without(vs, p);
        assert forall|q: Seq<char>| q != p implies #[trigger] visits_to(r, q) == visits_to(vs, q) by {
            assert(visits_to(w, q) == visits_to(vs.drop_last(), q));
            if vs.last().path != p {
                lemma_visits_to_push(w, vs.last(), q);
            }
        }
        assert forall|k: int| 0 <= k < r.len() implies (#[trigger] r[k]).path != p && vs.contains(r[k]) by {
            if k < w.len() {
                assert(r[k] == w[k]);
                assert(vs.drop_last().contains(w[k]));
                let x = choose|x: int| 0 <= x < vs.drop_last().len() && vs.drop_last()[x] == w[k];
                assert(vs[x] == w[k]);
            } else {
                assert(r[k] == vs.last());
                assert(vs[vs.len() - 1] == vs.last());
            }
        }
    }
}

proof fn lemma_visits_without_any(vs: Seq<VisitView>, ps: Seq<Seq<char>>)
    ensures
        forall|q: Seq<char>| !ps.contains(q) ==> #[trigger] visits_to(visits_without_any(vs, ps), q) == visits_to(vs, q),
        forall|k: int| 0 <= k < visits_without_any(vs, ps).len() ==> !ps.contains(
            (#[trigger] visits_without_any(vs, ps)[k]).path,
        ) && vs.contains(visits_without_any(vs, ps)[k]),
    decreases vs.len(),
{
    if vs.len() > 0 {
        lemma_visits_without_any(vs.drop_last(), ps);
        let w = visits_without_any(vs.drop_last(), ps);
        let r = visits_without_any(vs, ps);
        assert forall|q: Seq<char>| !ps.contains(q) implies #[trigger] visits_to(r, q) == visits_to(vs, q) by {
            assert(visits_to(w, q) == visits_to(vs.drop_last(), q));
            if !ps.contains(vs.last().path) {
                lemma_visits_to_push(w, vs.last(), q);
            }
        }
        assert forall|k: int| 0 <= k < r.len() implies !ps.contains((#[trigger] r[k]).path) && vs.contains(r[k]) by {
            if k < w.len() {
                assert(r[k] == w[k]);
                assert(vs.drop_last().contains(w[k]));
                let x = choose|x: int| 0 <= x < vs.drop_last().len() && vs.drop_last()[x] == w[k];
                assert(vs[x] == w[k]);
            } else {
                assert(r[k] == vs.last());
                assert(vs[vs.len() - 1] == vs.last());
            }
        }
    }
}

/// Which rows a clean keeps and which paths it reports: a row stays exactly
/// where its flag is set, and a path is reported only as that of a row
/// whose flag is clear.
proof fn lemma_clean_split(h: Seq<DirEntryView>, f: Seq<bool>)
    requires
        f.len() == h.len(),
    ensures
        forall|i: int| 0 <= i < h.len() && f[i] ==> #[trigger] kept(h, f).contains(h[i]),
        forall|i: int| 0 <= i < h.len() && !f[i] ==> dropped_paths(h, f).contains(#[trigger] h[i].path),
        forall|k: int| 0 <= k < kept(h, f).len() ==> exists|i: int| 0 <= i < h.len() && f[i] && h[i] == #[trigger] kept(h, f)[k],
        forall|q: Seq<char>| #[trigger] dropped_paths(h, f).contains(q) ==> exists|i: int| 0 <= i < h.len() && !f[i] && h[i].path == q,
    decreases h.len(),
{
    if h.len() > 0 {
        let h0 = h.drop_last();
        let f0 = f.drop_last();
        lemma_clean_split(h0, f0);
        let w = kept(h0, f0);
        let d = dropped_paths(h0, f0);
        let r = kept(h, f);
        let e = dropped_paths(h, f);
        let n = h.len() - 1;
        assert(f.last() == f[n]);
        assert(h.last() == h[n]);
        assert forall|i: int| 0 <= i < h.len() && f[i] implies #[trigger] r.contains(h[i]) by {
            if i < n {
                assert(h0[i] == h[i] && f0[i] == f[i]);
                assert(w.contains(h[i]));
                let x = choose|x: int| 0 <= x < w.len() && w[x] == h[i];
                assert(r[x] == w[x]);
            } else {
                assert(r[r.len() - 1] == h[n]);
            }
        }
        assert forall|i: int| 0 <= i < h.len() && !f[i] implies e.contains(#[trigger] h[i].path) by {
            if i < n {
                assert(h0[i] == h[i] && f0[i] == f[i]);
                assert(d.contains(h[i].path));
                let x = choose|x: int| 0 <= x < d.len() && d[x] == h[i].path;
                assert(e[x] == d[x]);
            } else {
                assert(e[e.len() - 1] == h[n].path);
            }
        }
        assert forall|k: int| 0 <= k < r.len() implies exists|i: int| 0 <= i < h.len() && f[i] && h[i] == #[trigger] r[k] by {
            if k < w.len() {
                assert(r[k] == w[k]);
                let i = choose|i: int| 0 <= i < h0.len() && f0[i] && h0[i] == #[trigger] w[k];
                assert(h[i] == h0[i] && f[i] == f0[i]);
            } else {
                assert(r[k] == h[n]);
            }
        }
        assert forall|q: Seq<char>| #[trigger] e.contains(q) implies exists|i: int| 0 <= i < h.len() && !f[i] && h[i].path == q by {
            let x = choose|x: int| 0 <= x < e.len() && e[x] == q;
            if x < d.len() {
                assert(e[x] == d[x]);
                assert(d.contains(q));
                let i = choose|i: int| 0 <= i < h0.len() && !f0[i] && h0[i].path == q;
                assert(h[i] == h0[i] && f[i] == f0[i]);
            } else {
                assert(e[x] == h[n].path);
            }
        }
    }
}

/// Recording a visit, at an instant no earlier than any stored one, keeps
/// the history well kept: the row of the path counts the one record added.
pub proof fn law_add_keeps_ledger(hv: HistoryView, p: Seq<char>, t: i64)
    requires
        ledger_ok(hv),
        none_after(hv.rows, t),
    ensures
        add_visit(hv, p, t) matches Ok(h2) ==> ledger_ok(h2) && none_after(h2.rows, t),
{
    let h = hv.rows;
    let vs = hv.visits;
    let vp = VisitView { path: p, at: t };
    law_add_keeps_rows_ok(h, p, t);
    lemma_position(h, p);
    let i = position(h, p);
    if record_visit(h, p, t) is Ok {
        let h2 = record_visit(h, p, t)->Ok_0;
        let vs2 = vs.push(vp);
        if i >= 0 {
            assert(h2 == h.update(i, revisit(h[i], t)));
            assert forall|k: int| 0 <= k < h2.len() implies (#[trigger] h2[k]).visit_count == visits_to(vs2, h2[k].path) by {
                lemma_visits_to_push(vs, vp, h2[k].path);
                if k != i {
                    assert(h2[k] == h[k]);
                    assert(h[k].path != h[i].path);
                }
            }
            assert forall|j: int| 0 <= j < vs2.len() implies has_row(h2, (#[trigger] vs2[j]).path) by {
                if j < vs.len() {
                    assert(vs2[j] == vs[j]);
                    assert(has_row(h, vs[j].path));
                    let x = choose|x: int| 0 <= x < h.len() && (#[trigger] h[x]).path == vs[j].path;
                    assert(h2[x].path == h[x].path);
                } else {
                    assert(h2[i].path == p);
                }
            }
        } else {
            let n = h.len() as int;
            assert(h2 == h.push(first_visit(p, t)));
            assert forall|j: int| 0 <= j < vs.len() implies (#[trigger] vs[j]).path != p by {
                assert(has_row(h, vs[j].path));
            }
            lemma_visits_to_none(vs, p);
            assert forall|k: int| 0 <= k < h2.len() implies (#[trigger] h2[k]).visit_count == visits_to(vs2, h2[k].path) by {
                lemma_visits_to_push(vs, vp, h2[k].path);
                if k < n {
                    assert(h2[k] == h[k]);
                }
            }
            assert forall|j: int| 0 <= j < vs2.len() implies has_row(h2, (#[trigger] vs2[j]).path) by {
                if j < vs.len() {
                    assert(vs2[j] == vs[j]);
                    assert(has_row(h, vs[j].path));
                    let x = choose|x: int| 0 <= x < h.len() && (#[trigger] h[x]).path == vs[j].path;
                    assert(h2[x] == h[x]);
                } else {
                    assert(h2[n].path == p);
                }
            }
        }
    }
}

/// Forgetting a path keeps the history well kept.
pub proof fn law_forget_keeps_ledger(hv: HistoryView, p: Seq<char>)
    requires
        ledger_ok(hv),
    ensures
        ledger_ok(forget_path(hv, p)),
{
    let h = hv.rows;
    let vs = hv.visits;
    let h2 = without_path(h, p);
    let vs2 = visits_without(vs, p);
    law_forget_keeps_rows_ok(h, p);
    lemma_without_path_keeps(h, p);
    law_forget_removes(h, p);
    lemma_visits_without(vs, p);
    assert forall|k: int| 0 <= k < h2.len() implies (#[trigger] h2[k]).visit_count == visits_to(vs2, h2[k].path) by {
        assert(h.contains(h2[k]));
        let x = choose|x: int| 0 <= x < h.len() && h[x] == h2[k];
        assert(h2[k].path != p);
        assert(visits_to(vs2, h2[k].path) == visits_to(vs, h2[k].path));
    }
    assert forall|j: int| 0 <= j < vs2.len() implies has_row(h2, (#[trigger] vs2[j]).path) by {
        assert(vs.contains(vs2[j]));
        let x = choose|x: int| 0 <= x < vs.len() && vs[x] == vs2[j];
        assert(has_row(h, vs[x].path));
        let y = choose|y: int| 0 <= y < h.len() && (#[trigger] h[y]).path == vs[x].path;
        assert(h[y].path != p);
        assert(h2.contains(h[y]));
        let z = choose|z: int| 0 <= z < h2.len() && h2[z] == h[y];
        assert(h2[z].path == vs2[j].path);
    }
}

/// Cleaning keeps the history well kept, whatever the disk answers: the
/// rows that stay keep all their visit records, and the records of the
/// rows that go go with them.
pub proof fn law_clean_keeps_ledger(hv: HistoryView, f: Seq<bool>)
    requires
        ledger_ok(hv),
        f.len() == hv.rows.len(),
    ensures
        ledger_ok(clean_flags(hv, f)),
{
    let h = hv.rows;
    let vs = hv.visits;
    let ps = dropped_paths(h, f);
    let h2 = kept(h, f);
    let vs2 = visits_without_any(vs, ps);
    law_clean_keeps_rows_ok(h, f);
    lemma_clean_split(h, f);
    lemma_visits_without_any(vs, ps);
    assert forall|k: int| 0 <= k < h2.len() implies (#[trigger] h2[k]).visit_count == visits_to(vs2, h2[k].path) by {
        let i = choose|i: int| 0 <= i < h.len() && f[i] && h[i] == #[trigger] h2[k];
        if ps.contains(h[i].path) {
            let i2 = choose|i2: int| 0 <= i2 < h.len() && !f[i2] && h[i2].path == h[i].path;
            assert(distinct_paths(h));
            assert(i2 != i);
        }
        assert(visits_to(vs2, h[i].path) == visits_to(vs, h[i].path));
    }
    assert forall|j: int| 0 <= j < vs2.len() implies has_row(h2, (#[trigger] vs2[j]).path) by {
        assert(vs.contains(vs2[j]));
        let x = choose|x: int| 0 <= x < vs.len() && vs[x] == vs2[j];
        assert(has_row(h, vs[x].path));
        let y = choose|y: int| 0 <= y < h.len() && (#[trigger] h[y]).path == vs[x].path;
        if !f[y] {
            assert(ps.contains(h[y].path));
        }
        assert(h2.contains(h[y]));
        let z = choose|z: int| 0 <= z < h2.len() && h2[z] == h[y];
        assert(h2[z].path == vs2[j].path);
    }
}

/// Forgetting a path undoes every recorded visit to it: recording a visit
/// and then forgetting the path leaves what forgetting alone leaves, rows
/// and visit records alike.
pub proof fn law_forget_undoes_add(hv: HistoryView, p: Seq<char>, t: i64)
    ensures
        add_visit(hv, p, t) matches Ok(h2) ==> forget_path(h2, p) == forget_path(hv, p),
{
    lemma_forget_undoes_record(hv.rows, p, t);
    let vs = hv.visits;
    let vp = VisitView { path: p, at: t };
    assert(vs.push(vp).drop_last() =~= vs);
    assert(visits_without(vs.push(vp), p) == visits_without(vs, p));
}

/// On a well-kept history, recording the first visit to a path and then
/// forgetting it gives back the history as it was, rows and visit records
/// alike.
pub proof fn law_forget_undoes_first_add(hv: HistoryView, p: Seq<char>, t: i64)
    requires
        ledger_ok(hv),
        !has_row(hv.rows, p),
    ensures
        add_visit(hv, p, t) matches Ok(h2) && forget_path(h2, p) == hv,
{
    let h = hv.rows;
    let vs = hv.visits;
    lemma_position(h, p);
    if position(h, p) >= 0 {
        assert(h[position(h, p)].path == p);
    }
    law_forget_undoes_add(hv, p, t);
    assert forall|j: int| 0 <= j < vs.len() implies (#[trigger] vs[j]).path != p by {
        assert(has_row(h, vs[j].path));
    }
    lemma_visits_to_none(vs, p);
    lemma_without_path_none(h, p);
}

proof fn lemma_without_path_none(h: Seq<DirEntryView>, p: Seq<char>)
    requires
        !has_row(h, p),
    ensures
        without_path(h, p) == h,
    decreases h.len(),
{
    if h.len() > 0 {
        assert(h.last() == h[h.len() - 1]);
        assert(!has_row(h.drop_last(), p)) by {
            if has_row(h.drop_last(), p) {
                let x = choose|x: int| 0 <= x < h.drop_last().len() && (#[trigger] h.drop_last()[x]).path == p;
                assert(h[x] == h.drop_last()[x]);
            }
        }
        lemma_without_path_none(h.drop_last(), p);
        assert(h.drop_last().push(h.last()) =~= h);
    }
}

/// The visits recorded to the paths of the rows, row by row.
pub open spec fn counted(h: Seq<DirEntryView>, vs: Seq<VisitView>) -> int
    decreases h.len(),
{
    if h.len() == 0 {
        0
    } else {
        counted(h.drop_last(), vs) + visits_to(vs, h.last().path)
    }
}

proof fn lemma_distinct_drop_last(h: Seq<DirEntryView>)
    requires
        h.len() > 0,
        distinct_paths(h),
    ensures
        distinct_paths(h.drop_last()),
        !has_row(h.drop_last(), h.last().path),
{
    let h0 = h.drop_last();
    assert forall|a: int, b: int| 0 <= a < h0.len() && 0 <= b < h0.len() && a != b
        implies #[trigger] h0[a].path != #[trigger] h0[b].path by {
        assert(h0[a] == h[a] && h0[b] == h[b]);
    }
    if has_row(h0, h.last().path) {
        let x = choose|x: int| 0 <= x < h0.len() && (#[trigger] h0[x]).path == h.last().path;
        assert(h[x] == h0[x]);
        assert(h[h.len() - 1] == h.last());
    }
}

proof fn lemma_counted_empty(h: Seq<DirEntryView>)
    ensures
        counted(h, Seq::empty()) == 0,
    decreases h.len(),
{
    if h.len() > 0 {
        lemma_counted_empty(h.drop_last());
    }
}

proof fn lemma_counted_push(h: Seq<DirEntryView>, vs: Seq<VisitView>, v: VisitView)
    requires
        distinct_paths(h),
    ensures
        counted(h, vs.push(v)) == counted(h, vs) + if has_row(h, v.path) { 1int } else { 0int },
    decreases h.len(),
{
    if h.len() > 0 {
        let h0 = h.drop_last();
        lemma_distinct_drop_last(h);
        lemma_counted_push(h0, vs, v);
        lemma_visits_to_push(vs, v, h.last().path);
        assert(h.last() == h[h.len() - 1]);
        if has_row(h, v.path) {
            let x = choose|x: int| 0 <= x < h.len() && (#[trigger] h[x]).path == v.path;
            if x < h0.len() {
                assert(h0[x] == h[x]);
            }
        }
        if has_row(h0, v.path) {
            let x = choose|x: int| 0 <= x < h0.len() && (#[trigger] h0[x]).path == v.path;
            assert(h[x] == h0[x]);
        }
    }
}

proof fn lemma_counted_all(h: Seq<DirEntryView>, vs: Seq<VisitView>)
    requires
        distinct_paths(h),
        forall|j: int| 0 <= j < vs.len() ==> has_row(h, (#[trigger] vs[j]).path),
    ensures
        counted(h, vs) == vs.len(),
    decreases vs.len(),
{
    if vs.len() == 0 {
        lemma_counted_empty(h);
        assert(vs =~= Seq::<VisitView>::empty());
    } else {
        let vs0 = vs.drop_last();
        assert forall|j: int| 0 <= j < vs0.len() implies has_row(h, (#[trigger] vs0[j]).path) by {
            assert(vs0[j] == vs[j]);
        }
        lemma_counted_all(h, vs0);
        lemma_counted_push(h, vs0, vs.last());
        assert(vs.last() == vs[vs.len() - 1]);
        assert(vs0.push(vs.last()) =~= vs);
    }
}

proof fn lemma_total_is_counted(h: Seq<DirEntryView>, vs: Seq<VisitView>)
    requires
        forall|i: int| 0 <= i < h.len() ==> (#[trigger] h[i]).visit_count == visits_to(vs, h[i].path),
    ensures
        total_visits(h) == counted(h, vs),
    decreases h.len(),
{
    if h.len() > 0 {
        let h0 = h.drop_last();
        assert forall|i: int| 0 <= i < h0.len() implies (#[trigger] h0[i]).visit_count == visits_to(vs, h0[i].path) by {
            assert(h0[i] == h[i]);
        }
        lemma_total_is_counted(h0, vs);
        assert(h.last() == h[h.len() - 1]);
    }
}

/// On a well-kept history the visit counts of the rows add up to the
/// number of visit records: the statistics' total is the number of visits
/// recorded.
pub proof fn law_total_is_every_record(hv: HistoryView)
    requires
        ledger_ok(hv),
    ensures
        total_visits(hv.rows) == hv.visits.len(),
{
    lemma_total_is_counted(hv.rows, hv.visits);
    lemma_counted_all(hv.rows, hv.visits);
}

/// A new, empty history is well kept.
pub proof fn law_empty_is_ledger_ok()
    ensures
        ledger_ok(HistoryView { rows: Seq::empty(), visits: Seq::empty() }),
{
}

proof fn lemma_visits_without_none(vs: Seq<VisitView>, ps: Seq<Seq<char>>)
    requires
        ps.len() == 0,
    ensures
        visits_without_any(vs, ps) == vs,
    decreases vs.len(),
{
    if vs.len() > 0 {
        lemma_visits_without_none(vs.drop_last(), ps);
        assert(vs.drop_last().push(vs.last()) =~= vs);
    }
}

/// Cleaning twice with the disk unchanged: where the second clean hears,
/// about each remaining row's path, what the first heard about that path,
/// it removes nothing, reports nothing and leaves every visit record.
pub proof fn law_second_clean_changes_nothing(hv: HistoryView, f: Seq<bool>, g: Seq<bool>)
    requires
        f.len() == hv.rows.len(),
        g.len() == kept(hv.rows, f).len(),
        forall|i: int, j: int|
            0 <= i < g.len() && 0 <= j < hv.rows.len() && (#[trigger] kept(hv.rows, f)[i]).path == (#[trigger] hv.rows[j]).path
                ==> g[i] == f[j],
    ensures
        clean_flags(clean_flags(hv, f), g) == clean_flags(hv, f),
        dropped_paths(kept(hv.rows, f), g).len() == 0,
{
    let h = hv.rows;
    let k = kept(h, f);
    lemma_clean_split(h, f);
    assert forall|i: int| 0 <= i < g.len() implies #[trigger] g[i] by {
        let x = choose|x: int| 0 <= x < h.len() && f[x] && h[x] == #[trigger] k[i];
        assert(k[i].path == h[x].path);
    }
    law_clean_keeps_all_when_all_exist(k, g);
    let c = clean_flags(hv, f);
    lemma_visits_without_none(c.visits, dropped_paths(k, g));
}

} // verus!
