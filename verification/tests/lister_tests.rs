use dirxfer::lister::{
    base_name, dst_and_tmp_paths, get_file_age, join_path, keep_path, keep_path_given_match,
    keep_status, route_entries, route_status, should_skip_existing, ListOptions, NameFilter, Route,
    FILE_NOT_A_FILE, FILE_TOO_OLD, FILE_TOO_YOUNG, SRC_FILE_NOT_CHANGED,
};
use dirxfer::track::Tracker;
use dirxfer::vfs::{FileStatus, FileType};

fn st(size: u64, mtime: u64) -> FileStatus {
    FileStatus { file_type: FileType::Regular, size, mtime }
}

fn dir_st(mtime: u64) -> FileStatus {
    FileStatus { file_type: FileType::Directory, size: 0, mtime }
}

fn empty_tracker() -> Tracker {
    Tracker::new(&vec![], None, 1_000_000, 1_000_000).unwrap()
}

fn opts(max_age: u64, min_age: u64) -> ListOptions {
    ListOptions {
        include_dot_files: false,
        disable_overwrite: true,
        dry_run: false,
        add_all_to_tracker: false,
        queue_as_found: false,
        max_age,
        min_age,
    }
}

#[test]
fn base_name_variants() {
    assert_eq!(base_name("/src/dir/a.txt"), "a.txt");
    assert_eq!(base_name("a.txt"), "a.txt");
    assert_eq!(base_name("/src/dir/"), "");
    assert_eq!(base_name(""), "");
}

#[test]
fn join_path_adds_one_slash() {
    assert_eq!(join_path("/dst", "a.txt"), "/dst/a.txt");
    assert_eq!(join_path("/dst/", "a.txt"), "/dst/a.txt");
    assert_eq!(join_path("", "a.txt"), "/a.txt");
}

#[test]
fn dst_and_tmp_path_names() {
    let (dst, tmp) = dst_and_tmp_paths("/dst", "/src/a.txt");
    assert_eq!(dst, "/dst/a.txt");
    assert_eq!(tmp, "/dst/.tmpa.txt");
}

#[test]
fn regex_filter_really_matches() {
    // a filter that handed back its argument unchanged could not tell these apart
    let f = NameFilter::new(r"\.log$").unwrap();
    let t = empty_tracker();
    assert!(keep_path(&f, false, true, &"/s/x.log".to_string(), &t).unwrap());
    assert!(!keep_path(&f, false, true, &"/s/x.tmp".to_string(), &t).unwrap());
    let anchored = NameFilter::new(r"^a").unwrap();
    assert!(keep_path(&anchored, false, true, &"/s/a.txt".to_string(), &t).unwrap());
    assert!(!keep_path(&anchored, false, true, &"/s/b.txt".to_string(), &t).unwrap());
}

#[test]
fn bad_pattern_is_rejected() {
    assert!(NameFilter::new("(").is_err());
}

#[test]
fn dot_files_excluded_by_default() {
    let f = NameFilter::new(r"\.log$").unwrap();
    let t = empty_tracker();
    let hidden = "/s/.hidden.log".to_string();
    assert!(!keep_path(&f, false, true, &hidden, &t).unwrap());
    assert!(keep_path(&f, true, true, &hidden, &t).unwrap());
}

#[test]
fn tracked_path_rejected_when_overwrite_disabled() {
    let f = NameFilter::new(".*").unwrap();
    let mut t = empty_tracker();
    let p = "/s/a.txt".to_string();
    t.xferred(&p, st(1, 1));
    assert!(!keep_path(&f, false, true, &p, &t).unwrap());
    // with overwriting enabled the path filter lets it through
    assert!(keep_path(&f, false, false, &p, &t).unwrap());
}

#[test]
fn keep_path_given_match_decision_table() {
    assert!(keep_path_given_match(true, "a.txt", false, true, false));
    assert!(!keep_path_given_match(false, "a.txt", false, true, false));
    assert!(!keep_path_given_match(true, "", false, true, false));
    assert!(!keep_path_given_match(true, ".a", false, true, false));
    assert!(keep_path_given_match(true, ".a", true, true, false));
    assert!(!keep_path_given_match(true, "a.txt", false, true, true));
    assert!(keep_path_given_match(true, "a.txt", false, false, true));
}

#[test]
fn file_age_clamps_future_mtimes() {
    assert_eq!(get_file_age(100, &st(1, 40)), 60);
    assert_eq!(get_file_age(100, &st(1, 100)), 0);
    assert_eq!(get_file_age(100, &st(1, 150)), 0);
}

#[test]
fn keep_status_age_window() {
    // now = 100_000; ages 5s / 300s / 18000s against min 60s, max 3600s
    let t = empty_tracker();
    let now = 100_000u64;
    let young = st(1, now - 5);
    let right = st(1, now - 300);
    let old = st(1, now - 18_000);
    let p = "/s/f".to_string();
    assert_eq!(keep_status(&t, &p, young, now, 3600, 60, true), FILE_TOO_YOUNG);
    assert_eq!(keep_status(&t, &p, right, now, 3600, 60, true), 0);
    assert_eq!(keep_status(&t, &p, old, now, 3600, 60, true), FILE_TOO_OLD);
    assert_eq!(keep_status(&t, &p, dir_st(now), now, 3600, 60, true), FILE_NOT_A_FILE);
}

#[test]
fn keep_status_unchanged_only_in_overwrite_mode() {
    let mut t = empty_tracker();
    let now = 100_000u64;
    let p = "/s/f".to_string();
    let seen = st(10, now - 300);
    t.xferred(&p, seen);
    assert_eq!(keep_status(&t, &p, seen, now, 3600, 0, false), SRC_FILE_NOT_CHANGED);
    // a size change makes it eligible again
    assert_eq!(keep_status(&t, &p, st(11, now - 300), now, 3600, 0, false), 0);
    // with overwriting disabled the tracker is not consulted here
    assert_eq!(keep_status(&t, &p, seen, now, 3600, 0, true), 0);
}

#[test]
fn route_status_maps_flags() {
    let t = empty_tracker();
    let now = 100_000u64;
    let p = "/s/f".to_string();
    assert_eq!(route_status(&t, &p, st(1, now - 300), now, 3600, 60, true), Route::Transfer);
    assert_eq!(route_status(&t, &p, st(1, now - 5), now, 3600, 60, true), Route::TooYoung);
    assert_eq!(
        route_status(&t, &p, st(1, now - 18_000), now, 3600, 60, true),
        Route::NeverTransfer
    );
    assert_eq!(route_status(&t, &p, dir_st(now), now, 3600, 60, true), Route::NeverTransfer);
}

#[test]
fn route_entries_empty_listing() {
    let mut t = empty_tracker();
    let out = route_entries(&opts(3600, 60), &vec![], 100_000, &mut t);
    assert_eq!(out.to_transfer.len(), 0);
    assert_eq!(out.never2xfer, 0);
    assert_eq!(out.too_young, 0);
    assert_eq!(out.unchanged, 0);
    assert_eq!(t.num_entries(), 0);
}

#[test]
fn route_entries_splits_by_age() {
    let mut t = empty_tracker();
    let now = 100_000u64;
    let entries = vec![
        ("/s/young".to_string(), st(1, now - 5)),
        ("/s/right".to_string(), st(2, now - 300)),
        ("/s/old".to_string(), st(3, now - 18_000)),
        ("/s/dir".to_string(), dir_st(now - 300)),
    ];
    let out = route_entries(&opts(3600, 60), &entries, now, &mut t);
    assert_eq!(out.to_transfer.len(), 1);
    assert_eq!(out.to_transfer[0].0, "/s/right");
    assert_eq!(out.never2xfer, 2);
    assert_eq!(out.too_young, 1);
    assert_eq!(out.unchanged, 0);
    // add_all_to_tracker was off: nothing was remembered
    assert_eq!(t.num_entries(), 0);
}

#[test]
fn route_entries_records_never_transfer_entries() {
    let mut t = empty_tracker();
    let now = 100_000u64;
    let mut o = opts(3600, 60);
    o.add_all_to_tracker = true;
    let entries = vec![
        ("/s/old".to_string(), st(3, now - 18_000)),
        ("/s/right".to_string(), st(2, now - 300)),
    ];
    let out = route_entries(&o, &entries, now, &mut t);
    assert_eq!(out.never2xfer, 1);
    assert_eq!(out.to_transfer.len(), 1);
    assert!(t.path_exists_in_tracker(&"/s/old".to_string()));
    assert!(!t.path_exists_in_tracker(&"/s/right".to_string()));
}

#[test]
fn second_run_transfers_nothing() {
    // idempotence: after recording a run's transfers, the next listing of the
    // same files yields no work
    let f = NameFilter::new(".*").unwrap();
    let mut t = empty_tracker();
    let now = 100_000u64;
    let paths = vec!["/s/a".to_string(), "/s/b".to_string()];
    let kept = dirxfer::lister::filter_paths(&f, false, true, &paths, &t).unwrap();
    assert_eq!(kept.len(), 2);
    for p in &kept {
        t.xferred(p, st(1, now - 300));
    }
    let kept2 = dirxfer::lister::filter_paths(&f, false, true, &paths, &t).unwrap();
    assert_eq!(kept2.len(), 0);
}

#[test]
fn each_eligible_path_queued_once() {
    let mut t = empty_tracker();
    let now = 100_000u64;
    let entries = vec![
        ("/s/a".to_string(), st(1, now - 300)),
        ("/s/b".to_string(), st(2, now - 400)),
        ("/s/c".to_string(), st(3, now - 500)),
    ];
    let out = route_entries(&opts(3600, 60), &entries, now, &mut t);
    let mut queued: Vec<&str> = out.to_transfer.iter().map(|(p, _)| p.as_str()).collect();
    queued.sort();
    assert_eq!(queued, vec!["/s/a", "/s/b", "/s/c"]);
    queued.dedup();
    assert_eq!(queued.len(), 3);
}

#[test]
fn skip_existing_only_when_overwrite_disabled() {
    assert!(should_skip_existing(true, true));
    assert!(!should_skip_existing(true, false));
    assert!(!should_skip_existing(false, true));
    assert!(!should_skip_existing(false, false));
}
