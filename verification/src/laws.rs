//! What holds of the history across its operations.
use vstd::prelude::*;
use crate::history::{
    AddError,
    DirEntryView, first_of, first_visit, frequent, frequent_keys, is_first_match, kept, dropped_paths, oldest,
    distinct_paths, lemma_without_path_keeps, oldest_keys, pick, position, recent, recent_keys, record_visit, revisit, total_visits, without_path,
};
use crate::ranking::{distinct_keys, key_gt, lemma_top_covers, lemma_top_is_top, lemma_top_prefix, min_nat, top};

verus! {

proof fn lemma_keys_distinct(h: Seq<DirEntryView>)
    requires
        h.len() <= usize::MAX,
    ensures
        distinct_keys(recent_keys(h)),
        distinct_keys(frequent_keys(h)),
        distinct_keys(oldest_keys(h)),
{
    assert forall|i: int, j: int|
        0 <= i < recent_keys(h).len() && 0 <= j < recent_keys(h).len() && i != j implies #[trigger] recent_keys(h)[i]
        != #[trigger] recent_keys(h)[j] by {
        assert(recent_keys(h)[i].1 == i as i128);
        assert(recent_keys(h)[j].1 == j as i128);
    }
    assert forall|i: int, j: int|
        0 <= i < frequent_keys(h).len() && 0 <= j < frequent_keys(h).len() && i != j implies #[trigger] frequent_keys(h)[i]
        != #[trigger] frequent_keys(h)[j] by {
        assert(frequent_keys(h)[i].2 == i as i128);
        assert(frequent_keys(h)[j].2 == j as i128);
    }
    assert forall|i: int, j: int|
        0 <= i < oldest_keys(h).len() && 0 <= j < oldest_keys(h).len() && i != j implies #[trigger] oldest_keys(h)[i]
        != #[trigger] oldest_keys(h)[j] by {
        assert(oldest_keys(h)[i].1 == (-i) as i128);
        assert(oldest_keys(h)[j].1 == (-j) as i128);
    }
}

/// A shorter listing is the beginning of a longer one: listing `a` rows
/// shows the first `a` rows that listing `b >= a` rows shows, in both orders.
pub proof fn law_listing_prefix(h: Seq<DirEntryView>, a: nat, b: nat)
    requires
        h.len() <= usize::MAX,
        a <= b,
    ensures
        recent(h, a) == recent(h, b).take(recent(h, a).len() as int),
        frequent(h, a) == frequent(h, b).take(frequent(h, a).len() as int),
        recent(h, a).len() == min_nat(a, h.len()),
        frequent(h, a).len() == min_nat(a, h.len()),
{
    lemma_keys_distinct(h);
    lemma_top_prefix(recent_keys(h), a, b);
    lemma_top_prefix(frequent_keys(h), a, b);
    lemma_top_is_top(recent_keys(h), b);
    lemma_top_is_top(frequent_keys(h), b);
    let ra = top(recent_keys(h), a);
    let rb = top(recent_keys(h), b);
    assert(ra.len() <= rb.len());
    assert forall|k: int| 0 <= k < ra.len() implies ra[k] == rb[k] by {
        assert(rb.take(ra.len() as int)[k] == rb[k]);
    }
    assert(recent(h, a) =~= recent(h, b).take(recent(h, a).len() as int));
    let fa = top(frequent_keys(h), a);
    let fb = top(frequent_keys(h), b);
    assert(fa.len() <= fb.len());
    assert forall|k: int| 0 <= k < fa.len() implies fa[k] == fb[k] by {
        assert(fb.take(fa.len() as int)[k] == fb[k]);
    }
    assert(frequent(h, a) =~= frequent(h, b).take(frequent(h, a).len() as int));
}

/// Going back `n` steps gives the path on line `n` (counting from 0) of
/// any recent-first listing long enough to show it.
pub proof fn law_back_is_nth_recent(h: Seq<DirEntryView>, n: nat, limit: nat)
    requires
        h.len() <= usize::MAX,
        n < h.len(),
        n < limit,
    ensures
        recent(h, n + 1)[n as int] == recent(h, limit)[n as int],
        n < recent(h, limit).len(),
{
    law_listing_prefix(h, n + 1, limit);
    law_listing_prefix(h, limit, limit);
    assert(recent(h, n + 1)[n as int] == recent(h, limit).take(recent(h, n + 1).len() as int)[n as int]);
}

/// Every row of a recent-first listing was visited no earlier than any row
/// it leaves out, and the most visited row of the statistics has a visit
/// count no row exceeds; the oldest entry was first visited no later than
/// any other.
pub proof fn law_extremes(h: Seq<DirEntryView>, limit: nat)
    requires
        h.len() <= usize::MAX,
    ensures
        forall|k: int, j: int|
            0 <= k < recent(h, limit).len() && 0 <= j < h.len() && !recent(h, limit).contains(h[j])
                ==> #[trigger] recent(h, limit)[k].last_visited >= #[trigger] h[j].last_visited,
        first_of(frequent(h, 1)) matches Some(e) ==> forall|j: int|
            0 <= j < h.len() ==> e.visit_count >= #[trigger] h[j].visit_count,
        first_of(oldest(h, 1)) matches Some(e) ==> forall|j: int|
            0 <= j < h.len() ==> e.first_visited <= #[trigger] h[j].first_visited,
        (h.len() > 0) == (first_of(frequent(h, 1)) is Some),
        (h.len() > 0) == (first_of(oldest(h, 1)) is Some),
{
    lemma_keys_distinct(h);
    lemma_top_is_top(recent_keys(h), limit);
    lemma_top_is_top(frequent_keys(h), 1);
    lemma_top_is_top(oldest_keys(h), 1);
    let rt = top(recent_keys(h), limit);
    assert forall|k: int, j: int|
        0 <= k < recent(h, limit).len() && 0 <= j < h.len() && !recent(h, limit).contains(h[j])
        implies #[trigger] recent(h, limit)[k].last_visited >= #[trigger] h[j].last_visited by {
        let ju = j as usize;
        assert(ju as int == j);
        if rt.contains(ju) {
            let r = choose|r: int| 0 <= r < rt.len() && rt[r] == ju;
            assert(recent(h, limit)[r] == h[j]);
            assert(false);
        }
        assert(key_gt(recent_keys(h)[rt[k] as int], recent_keys(h)[ju as int]));
        assert(recent(h, limit)[k] == h[rt[k] as int]);
    }
    let ft = top(frequent_keys(h), 1);
    if h.len() > 0 {
        assert(ft.len() == 1);
        assert forall|j: int| 0 <= j < h.len() implies frequent(h, 1)[0].visit_count >= #[trigger] h[j].visit_count by {
            let ju = j as usize;
            assert(ju as int == j);
            assert(frequent(h, 1)[0] == h[ft[0] as int]);
            if ju != ft[0] {
                assert(!ft.contains(ju));
                assert(key_gt(frequent_keys(h)[ft[0] as int], frequent_keys(h)[ju as int]));
            }
        }
        let ot = top(oldest_keys(h), 1);
        assert(ot.len() == 1);
        assert forall|j: int| 0 <= j < h.len() implies oldest(h, 1)[0].first_visited <= #[trigger] h[j].first_visited by {
            let ju = j as usize;
            assert(ju as int == j);
            assert(oldest(h, 1)[0] == h[ot[0] as int]);
            if ju != ot[0] {
                assert(!ot.contains(ju));
                assert(key_gt(oldest_keys(h)[ot[0] as int], oldest_keys(h)[ju as int]));
            }
        }
    }
}

proof fn lemma_without_path_update(h: Seq<DirEntryView>, p: Seq<char>, i: int, e: DirEntryView)
    requires
        0 <= i < h.len(),
        h[i].path == p,
        e.path == p,
    ensures
        without_path(h.update(i, e), p) == without_path(h, p),
    decreases h.len(),
{
    let u = h.update(i, e);
    if i == h.len() - 1 {
        assert(u.drop_last() =~= h.drop_last());
    } else {
        assert(u.drop_last() =~= h.drop_last().update(i, e));
        lemma_without_path_update(h.drop_last(), p, i, e);
        assert(u.last() == h.last());
    }
}

/// The rows that recording a visit to a path and then forgetting it leave
/// are those that forgetting alone leaves.
pub proof fn lemma_forget_undoes_record(h: Seq<DirEntryView>, p: Seq<char>, t: i64)
    ensures
        record_visit(h, p, t) matches Ok(h2) ==> without_path(h2, p) == without_path(h, p),
{
    lemma_position(h, p);
    let i = position(h, p);
    if i >= 0 {
        if h[i].visit_count < i64::MAX {
            lemma_without_path_update(h, p, i, revisit(h[i], t));
        }
    } else {
        let h2 = h.push(first_visit(p, t));
        assert(h2.drop_last() =~= h);
    }
}

/// After forgetting a path no row has it, and every row with another path
/// stays, in order.
pub proof fn law_forget_removes(h: Seq<DirEntryView>, p: Seq<char>)
    ensures
        forall|k: int| 0 <= k < without_path(h, p).len() ==> (#[trigger] without_path(h, p)[k]).path != p,
        forall|k: int| 0 <= k < h.len() && h[k].path != p ==> without_path(h, p).contains(#[trigger] h[k]),
    decreases h.len(),
{
    if h.len() > 0 {
        law_forget_removes(h.drop_last(), p);
        let w = without_path(h.drop_last(), p);
        let r = without_path(h, p);
        assert forall|k: int| 0 <= k < r.len() implies (#[trigger] r[k]).path != p by {
            if k < w.len() {
                assert(r[k] == w[k]);
            }
        }
        assert forall|k: int| 0 <= k < h.len() && h[k].path != p implies r.contains(#[trigger] h[k]) by {
            if k < h.len() - 1 {
                assert(h.drop_last()[k] == h[k]);
                assert(w.contains(h[k]));
                let x = choose|x: int| 0 <= x < w.len() && w[x] == h[k];
                assert(r[x] == h[k]);
            } else {
                assert(r[r.len() - 1] == h[k]);
            }
        }
    }
}

proof fn lemma_total_update(h: Seq<DirEntryView>, i: int, e: DirEntryView)
    requires
        0 <= i < h.len(),
    ensures
        total_visits(h.update(i, e)) == total_visits(h) - h[i].visit_count + e.visit_count,
    decreases h.len(),
{
    let u = h.update(i, e);
    if i == h.len() - 1 {
        assert(u.drop_last() =~= h.drop_last());
    } else {
        assert(u.drop_last() =~= h.drop_last().update(i, e));
        lemma_total_update(h.drop_last(), i, e);
    }
}

/// Every recorded visit adds exactly one to the total of visits.
pub proof fn law_add_counts_one_visit(h: Seq<DirEntryView>, p: Seq<char>, t: i64)
    ensures
        record_visit(h, p, t) matches Ok(h2) ==> total_visits(h2) == total_visits(h) + 1,
{
    lemma_position(h, p);
    let i = position(h, p);
    if i >= 0 {
        if h[i].visit_count < i64::MAX {
            lemma_total_update(h, i, revisit(h[i], t));
        }
    } else {
        let h2 = h.push(first_visit(p, t));
        assert(h2.drop_last() =~= h);
    }
}

/// Where some row has path `p`, a first one does.
proof fn lemma_first_match_exists(h: Seq<DirEntryView>, p: Seq<char>, k: int)
    requires
        0 <= k < h.len(),
        h[k].path == p,
    ensures
        position(h, p) >= 0,
        is_first_match(h, p, position(h, p)),
    decreases k,
{
    if exists|j: int| 0 <= j < k && #[trigger] h[j].path == p {
        let j = choose|j: int| 0 <= j < k && #[trigger] h[j].path == p;
        lemma_first_match_exists(h, p, j);
    } else {
        assert(is_first_match(h, p, k));
    }
}

/// Where no row has path `p`, `position` says so; where one does, it
/// names the first.
pub proof fn lemma_position(h: Seq<DirEntryView>, p: Seq<char>)
    ensures
        position(h, p) >= 0 ==> is_first_match(h, p, position(h, p)),
        position(h, p) < 0 ==> forall|k: int| 0 <= k < h.len() ==> #[trigger] h[k].path != p,
{
    if position(h, p) < 0 {
        assert forall|k: int| 0 <= k < h.len() implies #[trigger] h[k].path != p by {
            if h[k].path == p {
                lemma_first_match_exists(h, p, k);
            }
        }
    }
}

/// Recording a visit to `p` leaves a row with path `p` that was last
/// visited then, counts one visit more than before (or one, for a new
/// path), and adds a row only for a path not there before.
pub proof fn law_add_keeps_one_row(h: Seq<DirEntryView>, p: Seq<char>, t: i64)
    ensures
        record_visit(h, p, t) matches Ok(h2) ==> {
            &&& position(h2, p) >= 0
            &&& h2[position(h2, p)].last_visited == t
            &&& h2.len() == if position(h, p) >= 0 { h.len() } else { h.len() + 1 }
            &&& h2[position(h2, p)].visit_count == if position(h, p) >= 0 { h[position(h, p)].visit_count + 1 } else { 1 }
        },
{
    lemma_position(h, p);
    let i = position(h, p);
    if i >= 0 {
        if h[i].visit_count < i64::MAX {
            let h2 = h.update(i, revisit(h[i], t));
            assert forall|k: int| 0 <= k < i implies #[trigger] h2[k].path != p by {
                assert(h2[k] == h[k]);
            }
            assert(is_first_match(h2, p, i));
            lemma_position(h2, p);
            let j = position(h2, p);
            assert(j == i) by {
                if j < i { assert(h2[j].path != p); } else if j > i { assert(h2[i].path != p); }
            }
        }
    } else {
        let h2 = h.push(first_visit(p, t));
        let n = h.len() as int;
        assert forall|k: int| 0 <= k < n implies #[trigger] h2[k].path != p by {
            assert(h2[k] == h[k]);
        }
        assert(is_first_match(h2, p, n));
        lemma_position(h2, p);
        let j = position(h2, p);
        assert(j == n) by {
            if j < n { assert(h2[j].path != p); }
        }
    }
}

proof fn lemma_clean_sizes(h: Seq<DirEntryView>, f: Seq<bool>)
    requires
        f.len() == h.len(),
    ensures
        kept(h, f).len() + dropped_paths(h, f).len() == h.len(),
    decreases h.len(),
{
    if h.len() > 0 {
        lemma_clean_sizes(h.drop_last(), f.drop_last());
    }
}

/// Cleaning keeps the rows of existing directories and reports the others:
/// the kept rows and the reported paths together number the rows before.
pub proof fn law_clean_partitions(h: Seq<DirEntryView>, f: Seq<bool>)
    requires
        f.len() == h.len(),
    ensures
        kept(h, f).len() + dropped_paths(h, f).len() == h.len(),
{
    lemma_clean_sizes(h, f);
}

/// A visit recorded at an instant later than every earlier visit makes its
/// directory the most recent one: the first line of a recent-first listing,
/// and what going back zero steps gives.
pub proof fn law_visit_is_most_recent(h: Seq<DirEntryView>, p: Seq<char>, t: i64)
    requires
        h.len() < usize::MAX,
        forall|i: int| 0 <= i < h.len() ==> #[trigger] h[i].last_visited < t,
    ensures
        record_visit(h, p, t) matches Ok(h2) ==> recent(h2, 1).len() == 1 && recent(h2, 1)[0].path == p,
{
    lemma_position(h, p);
    if let Ok(h2) = record_visit(h, p, t) {
        law_add_keeps_one_row(h, p, t);
        let r = position(h2, p);
        lemma_position(h2, p);
        assert(h2.len() <= usize::MAX);
        lemma_keys_distinct(h2);
        lemma_top_is_top(recent_keys(h2), 1);
        let tp = top(recent_keys(h2), 1);
        assert(tp.len() == 1);
        // every row other than `r` was last visited before `t`
        assert forall|j: int| 0 <= j < h2.len() && j != r implies #[trigger] h2[j].last_visited < t by {
            let i = position(h, p);
            if i >= 0 {
                assert(h2 == h.update(i, revisit(h[i], t)));
                assert(r == i);
                assert(h2[j] == h[j]);
            } else {
                assert(h2 == h.push(first_visit(p, t)));
                assert(r == h.len());
                assert(h2[j] == h[j]);
            }
        }
        let w = tp[0];
        if w as int != r {
            let ru = r as usize;
            assert(ru as int == r);
            assert(!tp.contains(ru));
            assert(key_gt(recent_keys(h2)[w as int], recent_keys(h2)[r]));
            assert(h2[w as int].last_visited < t);
            assert(false);
        }
        assert(recent(h2, 1)[0] == h2[r]);
    }
}

/// `l` is `h` reordered: each row of `h` stands in `l` exactly once.
pub open spec fn is_reordering(l: Seq<DirEntryView>, h: Seq<DirEntryView>) -> bool {
    exists|perm: Seq<usize>|
        #![trigger pick(h, perm)]
        {
            &&& perm.len() == h.len()
            &&& forall|k: int| 0 <= k < perm.len() ==> #[trigger] perm[k] < h.len()
            &&& forall|a: int, b: int| 0 <= a < perm.len() && 0 <= b < perm.len() && a != b ==> #[trigger] perm[a] != #[trigger] perm[b]
            &&& l == pick(h, perm)
        }
}

/// Listings long enough for every row show every row exactly once: the
/// most-recent and the most-visited listing are both the history reordered.
pub proof fn law_full_listings_reorder_rows(h: Seq<DirEntryView>, limit: nat)
    requires
        h.len() <= usize::MAX,
        limit >= h.len(),
    ensures
        is_reordering(recent(h, limit), h),
        is_reordering(frequent(h, limit), h),
{
    lemma_keys_distinct(h);
    lemma_top_covers(recent_keys(h), limit);
    lemma_top_covers(frequent_keys(h), limit);
    lemma_top_is_top(recent_keys(h), limit);
    lemma_top_is_top(frequent_keys(h), limit);
    let r = top(recent_keys(h), limit);
    let f = top(frequent_keys(h), limit);
    assert forall|a: int, b: int| 0 <= a < r.len() && 0 <= b < r.len() && a != b implies #[trigger] r[a] != #[trigger] r[b] by {
        if a < b {
            assert(key_gt(recent_keys(h)[r[a] as int], recent_keys(h)[r[b] as int]));
        } else {
            assert(key_gt(recent_keys(h)[r[b] as int], recent_keys(h)[r[a] as int]));
        }
    }
    assert forall|a: int, b: int| 0 <= a < f.len() && 0 <= b < f.len() && a != b implies #[trigger] f[a] != #[trigger] f[b] by {
        if a < b {
            assert(key_gt(frequent_keys(h)[f[a] as int], frequent_keys(h)[f[b] as int]));
        } else {
            assert(key_gt(frequent_keys(h)[f[b] as int], frequent_keys(h)[f[a] as int]));
        }
    }
    assert(recent(h, limit) == pick(h, r));
    assert(frequent(h, limit) == pick(h, f));
}

/// Picking the rows of `h` in the order `f` reorders picking them in the
/// order `r`, where `r` takes every row once and `f` takes no row twice.
proof fn lemma_pick_reorders(h: Seq<DirEntryView>, r: Seq<usize>, f: Seq<usize>)
    requires
        h.len() <= usize::MAX,
        r.len() == h.len(),
        f.len() == h.len(),
        forall|k: int| 0 <= k < r.len() ==> #[trigger] r[k] < h.len(),
        forall|k: int| 0 <= k < f.len() ==> #[trigger] f[k] < h.len(),
        forall|a: int, b: int| 0 <= a < f.len() && 0 <= b < f.len() && a != b ==> #[trigger] f[a] != #[trigger] f[b],
        forall|j: usize| j < h.len() ==> #[trigger] r.contains(j),
    ensures
        is_reordering(pick(h, f), pick(h, r)),
{
    let n = h.len();
    let perm = Seq::new(n, |k: int| (choose|m: int| 0 <= m < n && r[m] == f[k]) as usize);
    assert forall|k: int| 0 <= k < n implies 0 <= #[trigger] perm[k] < n && r[perm[k] as int] == f[k] by {
        assert(r.contains(f[k]));
        let m = choose|m: int| 0 <= m < n && r[m] == f[k];
        assert(perm[k] == m as usize);
        assert(m as usize as int == m);
    }
    assert forall|a: int, b: int| 0 <= a < perm.len() && 0 <= b < perm.len() && a != b implies #[trigger] perm[a] != #[trigger] perm[b] by {
        assert(r[perm[a] as int] == f[a]);
        assert(r[perm[b] as int] == f[b]);
    }
    let l = pick(h, r);
    assert(pick(h, f) =~= pick(l, perm)) by {
        assert forall|k: int| 0 <= k < n implies pick(h, f)[k] == pick(l, perm)[k] by {
            assert(r[perm[k] as int] == f[k]);
        }
    }
}

/// Listings long enough for every row show the same rows, each once, in
/// both orders: the most-visited listing reorders the most-recent one, and
/// the other way round.
pub proof fn law_full_listings_reorder_each_other(h: Seq<DirEntryView>, limit: nat)
    requires
        h.len() <= usize::MAX,
        limit >= h.len(),
    ensures
        is_reordering(frequent(h, limit), recent(h, limit)),
        is_reordering(recent(h, limit), frequent(h, limit)),
{
    lemma_keys_distinct(h);
    lemma_top_covers(recent_keys(h), limit);
    lemma_top_covers(frequent_keys(h), limit);
    lemma_top_is_top(recent_keys(h), limit);
    lemma_top_is_top(frequent_keys(h), limit);
    let r = top(recent_keys(h), limit);
    let f = top(frequent_keys(h), limit);
    assert forall|a: int, b: int| 0 <= a < r.len() && 0 <= b < r.len() && a != b implies #[trigger] r[a] != #[trigger] r[b] by {
        if a < b {
            assert(key_gt(recent_keys(h)[r[a] as int], recent_keys(h)[r[b] as int]));
        } else {
            assert(key_gt(recent_keys(h)[r[b] as int], recent_keys(h)[r[a] as int]));
        }
    }
    assert forall|a: int, b: int| 0 <= a < f.len() && 0 <= b < f.len() && a != b implies #[trigger] f[a] != #[trigger] f[b] by {
        if a < b {
            assert(key_gt(frequent_keys(h)[f[a] as int], frequent_keys(h)[f[b] as int]));
        } else {
            assert(key_gt(frequent_keys(h)[f[b] as int], frequent_keys(h)[f[a] as int]));
        }
    }
    lemma_pick_reorders(h, r, f);
    lemma_pick_reorders(h, f, r);
}

/// The rows are well kept: no path has two rows, every row counts at least
/// one visit, and no row was first visited after its last visit.
pub open spec fn rows_ok(h: Seq<DirEntryView>) -> bool {
    &&& distinct_paths(h)
    &&& forall|i: int| 0 <= i < h.len() ==> (#[trigger] h[i]).visit_count >= 1 && h[i].first_visited <= h[i].last_visited
}

/// No row was last visited after `t`.
pub open spec fn none_after(h: Seq<DirEntryView>, t: i64) -> bool {
    forall|i: int| 0 <= i < h.len() ==> (#[trigger] h[i]).last_visited <= t
}

/// Recording a visit at an instant no earlier than any stored one keeps
/// the rows well kept (a clock that does not go back).
pub proof fn law_add_keeps_rows_ok(h: Seq<DirEntryView>, p: Seq<char>, t: i64)
    requires
        rows_ok(h),
        none_after(h, t),
    ensures
        record_visit(h, p, t) matches Ok(h2) ==> rows_ok(h2) && none_after(h2, t),
{
    lemma_position(h, p);
    let i = position(h, p);
    if i >= 0 {
        if h[i].visit_count < i64::MAX {
            let h2 = h.update(i, revisit(h[i], t));
            assert forall|a: int, b: int|
                0 <= a < h2.len() && 0 <= b < h2.len() && a != b implies #[trigger] h2[a].path != #[trigger] h2[b].path by {
                assert(h2[a].path == h[a].path);
                assert(h2[b].path == h[b].path);
            }
            assert forall|k: int| 0 <= k < h2.len() implies (#[trigger] h2[k]).visit_count >= 1 && h2[k].first_visited
                <= h2[k].last_visited by {
                if k != i {
                    assert(h2[k] == h[k]);
                } else {
                    assert(h[i].first_visited <= h[i].last_visited);
                }
            }
            assert forall|k: int| 0 <= k < h2.len() implies (#[trigger] h2[k]).last_visited <= t by {
                if k != i {
                    assert(h2[k] == h[k]);
                }
            }
        }
    } else {
        let h2 = h.push(first_visit(p, t));
        let n = h.len() as int;
        assert forall|a: int, b: int|
            0 <= a < h2.len() && 0 <= b < h2.len() && a != b implies #[trigger] h2[a].path != #[trigger] h2[b].path by {
            if a < n && b < n {
                assert(h2[a] == h[a]);
                assert(h2[b] == h[b]);
            } else if a < n {
                assert(h2[a] == h[a]);
            } else {
                assert(h2[b] == h[b]);
            }
        }
        assert forall|k: int| 0 <= k < h2.len() implies (#[trigger] h2[k]).visit_count >= 1 && h2[k].first_visited
            <= h2[k].last_visited by {
            if k < n {
                assert(h2[k] == h[k]);
            }
        }
        assert forall|k: int| 0 <= k < h2.len() implies (#[trigger] h2[k]).last_visited <= t by {
            if k < n {
                assert(h2[k] == h[k]);
            }
        }
    }
}

/// Forgetting a path keeps the rows well kept.
pub proof fn law_forget_keeps_rows_ok(h: Seq<DirEntryView>, p: Seq<char>)
    requires
        rows_ok(h),
    ensures
        rows_ok(without_path(h, p)),
{
    lemma_without_path_keeps(h, p);
    let w = without_path(h, p);
    assert forall|k: int| 0 <= k < w.len() implies (#[trigger] w[k]).visit_count >= 1 && w[k].first_visited
        <= w[k].last_visited by {
        assert(h.contains(w[k]));
        let j = choose|j: int| 0 <= j < h.len() && h[j] == w[k];
        assert(h[j].visit_count >= 1);
    }
}

proof fn lemma_kept_keeps(h: Seq<DirEntryView>, f: Seq<bool>)
    ensures
        distinct_paths(h) ==> distinct_paths(kept(h, f)),
        forall|i: int| 0 <= i < kept(h, f).len() ==> h.contains(#[trigger] kept(h, f)[i]),
    decreases h.len(),
{
    if h.len() > 0 && f.len() > 0 {
        lemma_kept_keeps(h.drop_last(), f.drop_last());
        let w = kept(h.drop_last(), f.drop_last());
        let r = kept(h, f);
        assert forall|i: int| 0 <= i < r.len() implies h.contains(#[trigger] r[i]) by {
            if i < w.len() {
                assert(r[i] == w[i]);
                assert(h.drop_last().contains(w[i]));
                let k = choose|k: int| 0 <= k < h.drop_last().len() && h.drop_last()[k] == w[i];
                assert(h[k] == w[i]);
            } else {
                assert(r[i] == h.last());
                assert(h[h.len() - 1] == h.last());
            }
        }
        if distinct_paths(h) {
            assert(distinct_paths(h.drop_last())) by {
                assert forall|a: int, b: int|
                    0 <= a < h.drop_last().len() && 0 <= b < h.drop_last().len() && a != b
                    implies #[trigger] h.drop_last()[a].path != #[trigger] h.drop_last()[b].path by {
                    assert(h.drop_last()[a] == h[a]);
                    assert(h.drop_last()[b] == h[b]);
                }
            }
            if f.last() {
                assert(r == w.push(h.last()));
                assert forall|a: int, b: int|
                    0 <= a < r.len() && 0 <= b < r.len() && a != b implies #[trigger] r[a].path != #[trigger] r[b].path by {
                    if a < w.len() && b < w.len() {
                        assert(r[a] == w[a]);
                        assert(r[b] == w[b]);
                    } else if a < w.len() {
                        assert(r[a] == w[a]);
                        assert(h.drop_last().contains(w[a]));
                        let k = choose|k: int| 0 <= k < h.drop_last().len() && h.drop_last()[k] == w[a];
                        assert(h[k] == w[a]);
                        assert(h[h.len() - 1] == r[b]);
                    } else {
                        assert(r[b] == w[b]);
                        assert(h.drop_last().contains(w[b]));
                        let k = choose|k: int| 0 <= k < h.drop_last().len() && h.drop_last()[k] == w[b];
                        assert(h[k] == w[b]);
                        assert(h[h.len() - 1] == r[a]);
                    }
                }
            }
        }
    }
}

/// Cleaning keeps the rows well kept, whatever the disk answers.
pub proof fn law_clean_keeps_rows_ok(h: Seq<DirEntryView>, f: Seq<bool>)
    requires
        rows_ok(h),
    ensures
        rows_ok(kept(h, f)),
{
    lemma_kept_keeps(h, f);
    let w = kept(h, f);
    assert forall|k: int| 0 <= k < w.len() implies (#[trigger] w[k]).visit_count >= 1 && w[k].first_visited
        <= w[k].last_visited by {
        assert(h.contains(w[k]));
        let j = choose|j: int| 0 <= j < h.len() && h[j] == w[k];
        assert(h[j].visit_count >= 1);
    }
}

/// Where every directory is still found, cleaning keeps every row and
/// reports nothing: a second clean with nothing changed on disk removes
/// nothing.
pub proof fn law_clean_keeps_all_when_all_exist(h: Seq<DirEntryView>, f: Seq<bool>)
    requires
        f.len() == h.len(),
        forall|i: int| 0 <= i < f.len() ==> #[trigger] f[i],
    ensures
        kept(h, f) == h,
        dropped_paths(h, f).len() == 0,
    decreases h.len(),
{
    if h.len() > 0 {
        assert(f.last() == f[f.len() - 1]);
        law_clean_keeps_all_when_all_exist(h.drop_last(), f.drop_last());
        assert(h.drop_last().push(h.last()) =~= h);
    }
}

/// Recording visits to `ps[0]`, `ps[1]`, ... at instants `ts[0]`, `ts[1]`,
/// ... in turn, stopping at the first refusal.
pub open spec fn record_visits(h: Seq<DirEntryView>, ps: Seq<Seq<char>>, ts: Seq<i64>) -> Result<Seq<DirEntryView>, AddError>
    decreases ps.len(),
{
    if ps.len() == 0 || ts.len() == 0 {
        Ok(h)
    } else {
        match record_visits(h, ps.drop_last(), ts.drop_last()) {
            Ok(h1) => record_visit(h1, ps.last(), ts.last()),
            Err(e) => Err(e),
        }
    }
}

proof fn lemma_visits_from_empty(ps: Seq<Seq<char>>, ts: Seq<i64>)
    requires
        ps.len() == ts.len(),
        ps.len() < i64::MAX,
    ensures
        record_visits(Seq::empty(), ps, ts) is Ok,
        ({
            let h = record_visits(Seq::empty(), ps, ts)->Ok_0;
            &&& total_visits(h) == ps.len()
            &&& distinct_paths(h)
            &&& h.len() <= ps.len()
            &&& forall|i: int| 0 <= i < h.len() ==> 1 <= (#[trigger] h[i]).visit_count <= ps.len()
            &&& forall|p: Seq<char>| ps.contains(p) <==> exists|i: int| 0 <= i < h.len() && (#[trigger] h[i]).path == p
        }),
    decreases ps.len(),
{
    if ps.len() == 0 {
        let h = Seq::<DirEntryView>::empty();
        assert(record_visits(Seq::empty(), ps, ts) == Ok::<Seq<DirEntryView>, AddError>(h));
    } else {
        let ps0 = ps.drop_last();
        let ts0 = ts.drop_last();
        lemma_visits_from_empty(ps0, ts0);
        let h1 = record_visits(Seq::empty(), ps0, ts0)->Ok_0;
        let p = ps.last();
        let t = ts.last();
        lemma_position(h1, p);
        law_add_counts_one_visit(h1, p, t);
        law_add_keeps_one_row(h1, p, t);
        let i = position(h1, p);
        if i >= 0 {
            assert(h1[i].visit_count <= ps0.len());
        }
        assert(record_visits(Seq::empty(), ps, ts) == record_visit(h1, p, t));
        let h = record_visit(h1, p, t)->Ok_0;
        if i >= 0 {
            assert(h == h1.update(i, revisit(h1[i], t)));
            assert forall|a: int, b: int|
                0 <= a < h.len() && 0 <= b < h.len() && a != b implies #[trigger] h[a].path != #[trigger] h[b].path by {
                assert(h[a].path == h1[a].path);
                assert(h[b].path == h1[b].path);
            }
            assert forall|k: int| 0 <= k < h.len() implies 1 <= (#[trigger] h[k]).visit_count <= ps.len() by {
                if k != i {
                    assert(h[k] == h1[k]);
                }
            }
            assert forall|q: Seq<char>| ps.contains(q) <==> exists|k: int| 0 <= k < h.len() && (#[trigger] h[k]).path == q by {
                if ps.contains(q) {
                    let j = choose|j: int| 0 <= j < ps.len() && ps[j] == q;
                    if j < ps0.len() {
                        assert(ps0[j] == q);
                        assert(ps0.contains(q));
                        let k = choose|k: int| 0 <= k < h1.len() && (#[trigger] h1[k]).path == q;
                        assert(h[k].path == h1[k].path);
                    } else {
                        assert(h[i].path == p);
                    }
                }
                if exists|k: int| 0 <= k < h.len() && (#[trigger] h[k]).path == q {
                    let k = choose|k: int| 0 <= k < h.len() && (#[trigger] h[k]).path == q;
                    assert(h[k].path == h1[k].path);
                    assert(ps0.contains(q));
                    let j = choose|j: int| 0 <= j < ps0.len() && ps0[j] == q;
                    assert(ps[j] == q);
                }
            }
        } else {
            assert(h == h1.push(first_visit(p, t)));
            let n = h1.len() as int;
            assert forall|a: int, b: int|
                0 <= a < h.len() && 0 <= b < h.len() && a != b implies #[trigger] h[a].path != #[trigger] h[b].path by {
                if a < n && b < n {
                    assert(h[a] == h1[a]);
                    assert(h[b] == h1[b]);
                } else if a < n {
                    assert(h[a] == h1[a]);
                } else {
                    assert(h[b] == h1[b]);
                }
            }
            assert forall|k: int| 0 <= k < h.len() implies 1 <= (#[trigger] h[k]).visit_count <= ps.len() by {
                if k < n {
                    assert(h[k] == h1[k]);
                }
            }
            assert forall|q: Seq<char>| ps.contains(q) <==> exists|k: int| 0 <= k < h.len() && (#[trigger] h[k]).path == q by {
                if ps.contains(q) {
                    let j = choose|j: int| 0 <= j < ps.len() && ps[j] == q;
                    if j < ps0.len() {
                        assert(ps0[j] == q);
                        assert(ps0.contains(q));
                        let k = choose|k: int| 0 <= k < h1.len() && (#[trigger] h1[k]).path == q;
                        assert(h[k] == h1[k]);
                    } else {
                        assert(h[n].path == p);
                    }
                }
                if exists|k: int| 0 <= k < h.len() && (#[trigger] h[k]).path == q {
                    let k = choose|k: int| 0 <= k < h.len() && (#[trigger] h[k]).path == q;
                    if k < n {
                        assert(h[k] == h1[k]);
                        assert(ps0.contains(q));
                        let j = choose|j: int| 0 <= j < ps0.len() && ps0[j] == q;
                        assert(ps[j] == q);
                    } else {
                        assert(ps[ps.len() - 1] == q);
                    }
                }
            }
        }
    }
}

/// Recording `k` visits on an empty history never fails for want of
/// counting room, and leaves `k` visits in all, one row per distinct path
/// visited (so at least as many visits as rows).
pub proof fn law_visits_from_empty(ps: Seq<Seq<char>>, ts: Seq<i64>)
    requires
        ps.len() == ts.len(),
        ps.len() < i64::MAX,
    ensures
        record_visits(Seq::empty(), ps, ts) matches Ok(h) && {
            &&& total_visits(h) == ps.len()
            &&& distinct_paths(h)
            &&& h.len() == ps.to_set().len()
            &&& total_visits(h) >= h.len()
        },
{
    lemma_visits_from_empty(ps, ts);
    let h = record_visits(Seq::empty(), ps, ts)->Ok_0;
    let hp = h.map_values(|e: DirEntryView| e.path);
    assert forall|a: int, b: int| 0 <= a < hp.len() && 0 <= b < hp.len() && a != b implies hp[a] != hp[b] by {
        assert(h[a].path != h[b].path);
    }
    assert(hp.no_duplicates());
    hp.unique_seq_to_set();
    assert forall|q: Seq<char>| hp.to_set().contains(q) <==> ps.to_set().contains(q) by {
        if hp.to_set().contains(q) {
            let k = choose|k: int| 0 <= k < hp.len() && hp[k] == q;
            assert(h[k].path == q);
        }
        if ps.to_set().contains(q) {
            assert(ps.contains(q));
            let k = choose|k: int| 0 <= k < h.len() && (#[trigger] h[k]).path == q;
            assert(hp[k] == q);
        }
    }
    assert(hp.to_set() =~= ps.to_set());
}

} // verus!
