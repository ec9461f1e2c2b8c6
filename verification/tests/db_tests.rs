use trod::history::{visit_from_row, AddError, DirEntry, History, StatsError, Visit};

const MS: i64 = 1_000_000;

fn test_db() -> History {
    History::new()
}

#[test]
fn test_add_directory() {
    let mut db = test_db();
    db.add("/home/user/projects").unwrap();

    let dirs = db.list_recent(10);
    assert_eq!(dirs.len(), 1);
    assert_eq!(dirs[0].path, "/home/user/projects");
    assert_eq!(dirs[0].visit_count, 1);
}

#[test]
fn test_add_directory_twice_increments_count() {
    let mut db = test_db();
    db.add("/home/user/projects").unwrap();
    db.add("/home/user/projects").unwrap();

    let dirs = db.list_recent(10);
    assert_eq!(dirs.len(), 1);
    assert_eq!(dirs[0].visit_count, 2);
}

#[test]
fn test_list_recent_ordering() {
    let mut db = test_db();
    let t0 = 1_700_000_000_000 * MS;
    db.add_at("/first", t0).unwrap();
    db.add_at("/second", t0 + 10 * MS).unwrap();

    let dirs = db.list_recent(10);
    assert_eq!(dirs[0].path, "/second");
    assert_eq!(dirs[1].path, "/first");
}

#[test]
fn test_forget_directory() {
    let mut db = test_db();
    db.add("/home/user/projects").unwrap();
    db.forget("/home/user/projects");

    let dirs = db.list_recent(10);
    assert_eq!(dirs.len(), 0);
}

#[test]
fn test_list_frequent_ordering() {
    let mut db = test_db();
    db.add("/rare").unwrap();
    db.add("/common").unwrap();
    db.add("/common").unwrap();
    db.add("/common").unwrap();

    let dirs = db.list_frequent(10);
    assert_eq!(dirs[0].path, "/common");
    assert_eq!(dirs[1].path, "/rare");
}

#[test]
fn test_clean_removes_nonexistent() {
    let mut db = test_db();
    db.add("/this/path/does/not/exist/at/all").unwrap();
    let removed = db.clean(|p: &str| std::path::Path::new(p).exists());
    assert_eq!(removed.len(), 1);

    let dirs = db.list_recent(10);
    assert_eq!(dirs.len(), 0);
}

#[test]
fn test_stats() {
    let mut db = test_db();
    db.add("/a").unwrap();
    db.add("/b").unwrap();
    db.add("/a").unwrap();

    let stats = db.stats().unwrap();
    assert_eq!(stats.total_directories, 2);
    assert_eq!(stats.total_visits, 3);
}

#[test]
fn test_back_returns_nth_previous() {
    let mut db = test_db();
    let t0 = 1_700_000_000_000 * MS;
    db.add_at("/first", t0).unwrap();
    db.add_at("/second", t0 + 10 * MS).unwrap();
    db.add_at("/third", t0 + 20 * MS).unwrap();

    // back(1) = second most recent
    let path = db.back(1);
    assert_eq!(path, Some("/second".to_string()));

    let path = db.back(2);
    assert_eq!(path, Some("/first".to_string()));

    let path = db.back(10);
    assert_eq!(path, None);
}

fn entry(path: &str, visit_count: i64, last: i64, first: i64) -> DirEntry {
    DirEntry { path: path.to_string(), visit_count, last_visited: last, first_visited: first }
}

fn paths(v: &[DirEntry]) -> Vec<String> {
    v.iter().map(|e| e.path.clone()).collect()
}

#[test]
fn add_at_records_first_and_later_visits() {
    let mut h = History::new();
    let e = h.add_at("/a", 100).unwrap();
    assert_eq!((e.visit_count, e.first_visited, e.last_visited), (1, 100, 100));
    let e = h.add_at("/a", 250).unwrap();
    assert_eq!((e.visit_count, e.first_visited, e.last_visited), (2, 100, 250));
    assert_eq!(h.len(), 1);
    h.add_at("/b", 300).unwrap();
    assert_eq!(h.len(), 2);
    assert_eq!(paths(h.entries()), vec!["/a", "/b"]);
}

#[test]
fn add_at_refuses_count_overflow() {
    let mut h = History::from_entries(vec![entry("/a", i64::MAX, 5, 1)]);
    assert_eq!(h.add_at("/a", 9).unwrap_err(), AddError::VisitCountOverflow);
    assert_eq!(h.entries()[0].visit_count, i64::MAX);
    assert_eq!(h.entries()[0].last_visited, 5);
}

#[test]
fn add_updates_only_first_duplicate_row() {
    let mut h = History::from_entries(vec![entry("/a", 1, 5, 5), entry("/a", 7, 6, 6)]);
    h.add_at("/a", 10).unwrap();
    assert_eq!(h.entries()[0].visit_count, 2);
    assert_eq!(h.entries()[0].last_visited, 10);
    assert_eq!(h.entries()[1].visit_count, 7);
}

#[test]
fn forget_removes_every_row_of_the_path_and_keeps_others() {
    let mut h = History::from_entries(vec![entry("/a", 1, 5, 5), entry("/b", 2, 6, 6), entry("/a", 3, 7, 7)]);
    h.forget("/a");
    assert_eq!(paths(h.entries()), vec!["/b"]);
    h.forget("/zzz");
    assert_eq!(paths(h.entries()), vec!["/b"]);
}

#[test]
fn forget_undoes_add() {
    let mut h = History::from_entries(vec![entry("/a", 1, 5, 5), entry("/b", 2, 6, 6)]);
    let mut g = History::from_entries(vec![entry("/a", 1, 5, 5), entry("/b", 2, 6, 6)]);
    h.add_at("/b", 50).unwrap();
    h.forget("/b");
    g.forget("/b");
    assert_eq!(paths(h.entries()), paths(g.entries()));
    assert_eq!(h.entries()[0].visit_count, g.entries()[0].visit_count);
}

#[test]
fn each_add_counts_one_visit() {
    let mut h = History::new();
    h.add_at("/x", 1).unwrap();
    h.add_at("/y", 2).unwrap();
    h.add_at("/x", 3).unwrap();
    assert_eq!(h.stats().unwrap().total_visits, 3);
}

#[test]
fn clean_with_keeps_flagged_rows() {
    let mut h = History::from_entries(vec![entry("/a", 1, 1, 1), entry("/b", 1, 2, 2), entry("/c", 1, 3, 3)]);
    let removed = h.clean_with(&vec![true, false, false]);
    assert_eq!(removed, vec!["/b".to_string(), "/c".to_string()]);
    assert_eq!(paths(h.entries()), vec!["/a"]);
}

#[test]
fn recent_ties_put_the_later_row_first() {
    let h = History::from_entries(vec![entry("/a", 1, 7, 1), entry("/b", 1, 7, 1), entry("/c", 1, 3, 1)]);
    assert_eq!(paths(&h.list_recent(10)), vec!["/b", "/a", "/c"]);
    assert_eq!(paths(&h.list_recent(2)), vec!["/b", "/a"]);
    assert_eq!(paths(&h.list_recent(0)), Vec::<String>::new());
}

#[test]
fn limit_beyond_i64_lists_everything() {
    let h = History::from_entries(vec![entry("/a", 1, 1, 1), entry("/b", 1, 2, 1)]);
    assert_eq!(h.list_recent(usize::MAX).len(), 2);
    assert_eq!(h.list_frequent((i64::MAX as usize) + 1).len(), 2);
}

#[test]
fn frequent_breaks_ties_by_recency() {
    let h = History::from_entries(vec![
        entry("/old", 3, 10, 1),
        entry("/new", 3, 20, 1),
        entry("/top", 9, 5, 1),
        entry("/low", 1, 99, 1),
    ]);
    assert_eq!(paths(&h.list_frequent(10)), vec!["/top", "/new", "/old", "/low"]);
}

#[test]
fn back_is_nth_line_of_recent_listing() {
    let h = History::from_entries(vec![entry("/a", 1, 30, 1), entry("/b", 1, 10, 1), entry("/c", 1, 20, 1)]);
    let listing = h.list_recent(10);
    for n in 0..3 {
        assert_eq!(h.back(n), Some(listing[n].path.clone()));
    }
    assert_eq!(h.back(3), None);
}

#[test]
fn back_beyond_the_history_gives_nothing() {
    let h = History::from_entries(vec![entry("/a", 1, 30, 1), entry("/b", 1, 10, 1)]);
    assert_eq!(h.back(2), None);
    assert_eq!(h.back((i64::MAX as usize) + 1), None);
    assert_eq!(h.back(usize::MAX), None);
}

#[test]
fn clean_asks_about_each_rows_own_path() {
    let mut h = History::from_entries(vec![entry("/keep", 1, 1, 1), entry("/drop", 1, 2, 2), entry("/keep2", 1, 3, 3)]);
    let removed = h.clean(|p: &str| p.starts_with("/keep"));
    assert_eq!(removed, vec!["/drop".to_string()]);
    assert_eq!(paths(h.entries()), vec!["/keep", "/keep2"]);
}

#[test]
fn stats_pick_most_visited_and_oldest() {
    let h = History::from_entries(vec![
        entry("/a", 2, 30, 20),
        entry("/b", 5, 10, 15),
        entry("/c", 1, 40, 15),
    ]);
    let s = h.stats().unwrap();
    assert_eq!(s.total_directories, 3);
    assert_eq!(s.total_visits, 8);
    assert_eq!(s.most_visited.unwrap().path, "/b");
    assert_eq!(s.oldest_entry.unwrap().path, "/b");
}

#[test]
fn stats_of_empty_history() {
    let s = History::new().stats().unwrap();
    assert_eq!((s.total_directories, s.total_visits), (0, 0));
    assert!(s.most_visited.is_none());
    assert!(s.oldest_entry.is_none());
}

#[test]
fn stats_fail_when_total_overflows() {
    let h = History::from_entries(vec![entry("/a", i64::MAX, 1, 1), entry("/b", 1, 2, 2)]);
    assert_eq!(h.stats().unwrap_err(), StatsError::TotalVisitsOverflow);
}

#[test]
fn all_entries_lists_recent_first() {
    let h = History::from_entries(vec![entry("/a", 1, 1, 1), entry("/b", 1, 2, 1)]);
    assert_eq!(paths(&h.all_entries()), vec!["/b", "/a"]);
}

#[test]
fn entry_from_row_parses_instants() {
    let e = trod::history::entry_from_row(
        "/p".to_string(),
        4,
        "1970-01-01T00:00:01.5+00:00",
        "1970-01-01T01:00:00+01:00",
    );
    assert_eq!(e.path, "/p");
    assert_eq!(e.visit_count, 4);
    assert_eq!(e.last_visited, 1_500_000_000);
    assert_eq!(e.first_visited, 0);
}

#[test]
fn entry_from_row_reads_bad_text_as_now() {
    let before = trod::time::now();
    let e = trod::history::entry_from_row("/p".to_string(), 1, "garbage", "2001-02-03T04:05:06+00:00");
    assert!(e.last_visited >= before);
    assert_eq!(e.first_visited, 981_173_106_000_000_000);
}

#[test]
fn shorter_listing_is_prefix_of_longer() {
    let h = History::from_entries(vec![
        entry("/a", 4, 30, 1),
        entry("/b", 1, 50, 1),
        entry("/c", 9, 10, 1),
        entry("/d", 2, 40, 1),
    ]);
    let short = paths(&h.list_recent(2));
    let long = paths(&h.list_recent(4));
    assert_eq!(short, long[..2].to_vec());
    let short = paths(&h.list_frequent(3));
    let long = paths(&h.list_frequent(10));
    assert_eq!(short, long[..3].to_vec());
}

#[test]
fn listed_rows_are_newer_than_unlisted_ones() {
    let h = History::from_entries(vec![
        entry("/a", 1, 30, 1),
        entry("/b", 1, 50, 1),
        entry("/c", 1, 10, 1),
        entry("/d", 1, 40, 1),
    ]);
    let listed = h.list_recent(2);
    let oldest_listed = listed.iter().map(|e| e.last_visited).min().unwrap();
    for e in h.entries() {
        if !listed.iter().any(|l| l.path == e.path) {
            assert!(e.last_visited <= oldest_listed);
        }
    }
}

#[test]
fn clean_keeps_and_reports_every_row_once() {
    let mut h = History::from_entries(vec![
        entry("/a", 1, 1, 1),
        entry("/b", 1, 2, 2),
        entry("/c", 1, 3, 3),
        entry("/d", 1, 4, 4),
    ]);
    let removed = h.clean_with(&vec![false, true, false, true]);
    assert_eq!(removed.len() + h.len(), 4);
    assert_eq!(paths(h.entries()), vec!["/b", "/d"]);
}

#[test]
fn latest_visit_is_most_recent() {
    let mut h = History::from_entries(vec![entry("/a", 5, 30, 1), entry("/b", 1, 50, 1)]);
    h.add_at("/a", 60).unwrap();
    assert_eq!(h.list_recent(1)[0].path, "/a");
    assert_eq!(h.back(0), Some("/a".to_string()));
    h.add_at("/new", 70).unwrap();
    assert_eq!(h.back(0), Some("/new".to_string()));
    assert_eq!(h.back(1), Some("/a".to_string()));
}

#[test]
fn full_listings_are_reorderings_of_each_other() {
    let h = History::from_entries(vec![
        entry("/a", 4, 30, 1),
        entry("/b", 1, 50, 1),
        entry("/c", 9, 10, 1),
        entry("/d", 2, 40, 1),
    ]);
    let mut r = paths(&h.list_recent(100));
    let mut f = paths(&h.list_frequent(4));
    assert_eq!(r.len(), 4);
    r.sort();
    f.sort();
    assert_eq!(r, f);
    assert_eq!(r, vec!["/a", "/b", "/c", "/d"]);
}

#[test]
fn visits_from_empty_count_rows_and_visits() {
    let mut h = History::new();
    let ps = ["/x", "/y", "/x", "/z", "/x", "/y"];
    for (i, p) in ps.iter().enumerate() {
        h.add_at(p, 10 * i as i64).unwrap();
    }
    let s = h.stats().unwrap();
    assert_eq!(s.total_visits, 6);
    assert_eq!(s.total_directories, 3);
    for e in h.entries() {
        assert!(e.visit_count >= 1);
        assert!(e.first_visited <= e.last_visited);
    }
    h.forget("/y");
    let removed = h.clean(|_p: &str| true);
    assert!(removed.is_empty());
    assert_eq!(h.len(), 2);
}

fn visit_list(h: &History) -> Vec<(String, i64)> {
    h.visits().iter().map(|v| (v.path.clone(), v.at)).collect()
}

#[test]
fn add_records_one_visit_each_time() {
    let mut h = History::new();
    h.add_at("/a", 100).unwrap();
    h.add_at("/b", 200).unwrap();
    h.add_at("/a", 300).unwrap();
    assert_eq!(
        visit_list(&h),
        vec![("/a".to_string(), 100), ("/b".to_string(), 200), ("/a".to_string(), 300)]
    );
}

#[test]
fn refused_add_records_no_visit() {
    let mut h = History::from_parts(vec![entry("/a", i64::MAX, 5, 1)], vec![Visit { path: "/a".to_string(), at: 5 }]);
    assert_eq!(h.add_at("/a", 9).unwrap_err(), AddError::VisitCountOverflow);
    assert_eq!(visit_list(&h), vec![("/a".to_string(), 5)]);
}

#[test]
fn forget_drops_the_visit_records_of_the_path() {
    let mut h = History::new();
    h.add_at("/a", 1).unwrap();
    h.add_at("/b", 2).unwrap();
    h.add_at("/a", 3).unwrap();
    h.forget("/a");
    assert_eq!(paths(h.entries()), vec!["/b"]);
    assert_eq!(visit_list(&h), vec![("/b".to_string(), 2)]);
}

#[test]
fn forget_undoes_a_first_add_with_its_record() {
    let mut h = History::new();
    h.add_at("/a", 1).unwrap();
    h.add_at("/b", 2).unwrap();
    let rows_before = paths(h.entries());
    let visits_before = visit_list(&h);
    h.add_at("/c", 3).unwrap();
    assert_eq!(visit_list(&h).len(), 3);
    h.forget("/c");
    assert_eq!(paths(h.entries()), rows_before);
    assert_eq!(visit_list(&h), visits_before);
}

#[test]
fn clean_drops_the_visit_records_of_removed_rows() {
    let mut h = History::new();
    h.add_at("/gone", 1).unwrap();
    h.add_at("/here", 2).unwrap();
    h.add_at("/gone", 3).unwrap();
    let removed = h.clean(|p: &str| p == "/here");
    assert_eq!(removed, vec!["/gone".to_string()]);
    assert_eq!(paths(h.entries()), vec!["/here"]);
    assert_eq!(visit_list(&h), vec![("/here".to_string(), 2)]);
}

#[test]
fn visit_counts_match_the_records() {
    let mut h = History::new();
    for (p, t) in [("/x", 1), ("/y", 2), ("/x", 3), ("/z", 4), ("/x", 5)] {
        h.add_at(p, t).unwrap();
    }
    h.forget("/z");
    for e in h.entries() {
        let n = h.visits().iter().filter(|v| v.path == e.path).count() as i64;
        assert_eq!(e.visit_count, n);
    }
    assert_eq!(h.stats().unwrap().total_visits, h.visits().len() as i64);
}

#[test]
fn visit_from_row_parses_or_reads_now() {
    let v = visit_from_row("/p".to_string(), "1970-01-01T00:00:02+00:00");
    assert_eq!((v.path.as_str(), v.at), ("/p", 2_000_000_000));
    let before = trod::time::now();
    let v = visit_from_row("/p".to_string(), "garbage");
    assert!(v.at >= before);
}

#[test]
fn full_listings_hold_the_same_rows() {
    let h = History::from_entries(vec![
        entry("/a", 4, 30, 1),
        entry("/b", 9, 10, 2),
        entry("/c", 1, 50, 3),
        entry("/d", 4, 40, 4),
    ]);
    let key = |e: &DirEntry| (e.path.clone(), e.visit_count, e.last_visited, e.first_visited);
    let mut recent: Vec<_> = h.list_recent(10).iter().map(key).collect();
    let mut frequent: Vec<_> = h.list_frequent(10).iter().map(key).collect();
    assert_eq!(paths(&h.list_recent(10)), vec!["/c", "/d", "/a", "/b"]);
    assert_eq!(paths(&h.list_frequent(10)), vec!["/b", "/d", "/a", "/c"]);
    recent.sort();
    frequent.sort();
    assert_eq!(recent, frequent);
}

#[test]
fn second_clean_with_unchanged_disk_removes_nothing() {
    let mut h = History::new();
    h.add_at("/gone", 1).unwrap();
    h.add_at("/here", 2).unwrap();
    h.add_at("/also", 3).unwrap();
    let exists = |p: &str| p != "/gone";
    assert_eq!(h.clean(exists), vec!["/gone".to_string()]);
    let rows = paths(h.entries());
    let visits = visit_list(&h);
    assert!(h.clean(exists).is_empty());
    assert_eq!(paths(h.entries()), rows);
    assert_eq!(visit_list(&h), visits);
}
