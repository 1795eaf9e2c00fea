use dirxfer::track::{Track, TrackDelta, TrackError, TrackParseError, Tracker};
use dirxfer::vfs::{FileStatus, FileType};

fn st(size: u64, mtime: u64) -> FileStatus {
    FileStatus { file_type: FileType::Regular, size, mtime }
}

fn reload(lines: Vec<String>, now: u64, max_track_age: u64) -> Tracker {
    let joined: String = lines.concat();
    let stripped: Vec<String> = joined.lines().map(|l| l.to_string()).collect();
    Tracker::new(&stripped, None, now, max_track_age).unwrap()
}

#[test]
fn parse_good_line() {
    let t = Track::from_str("a.txt\u{0}100\u{0}1024").unwrap();
    assert_eq!(t.src_path, "a.txt");
    assert_eq!(t.lastmod, 100);
    assert_eq!(t.size, 1024);
}

#[test]
fn parse_empty_path() {
    let t = Track::from_str("\u{0}1\u{0}2").unwrap();
    assert_eq!(t.src_path, "");
    assert_eq!(t.lastmod, 1);
    assert_eq!(t.size, 2);
}

#[test]
fn parse_missing_fields() {
    assert_eq!(Track::from_str("a.txt").unwrap_err(), TrackParseError::MissingField);
    assert_eq!(Track::from_str("a.txt\u{0}100").unwrap_err(), TrackParseError::MissingField);
    assert_eq!(Track::from_str("").unwrap_err(), TrackParseError::MissingField);
}

#[test]
fn parse_extra_field() {
    assert_eq!(
        Track::from_str("a\u{0}1\u{0}2\u{0}3").unwrap_err(),
        TrackParseError::ExtraField
    );
}

#[test]
fn parse_bad_numbers() {
    assert_eq!(Track::from_str("a\u{0}x\u{0}2").unwrap_err(), TrackParseError::BadNumber);
    assert_eq!(Track::from_str("a\u{0}1\u{0}").unwrap_err(), TrackParseError::BadNumber);
    assert_eq!(Track::from_str("a\u{0}\u{0}2").unwrap_err(), TrackParseError::BadNumber);
    // a value beyond u64 is unparsable, not wrapped
    assert_eq!(
        Track::from_str("a\u{0}99999999999999999999\u{0}2").unwrap_err(),
        TrackParseError::BadNumber
    );
}

#[test]
fn parse_bad_path() {
    assert_eq!(
        Track::from_str("a\nb\u{0}1\u{0}2").unwrap_err(),
        TrackParseError::BadPath
    );
}

#[test]
fn write_renders_record_line() {
    let t = Track::from_sftp_entry(&"a.txt".to_string(), st(1024, 100));
    assert_eq!(t.write(), "a.txt\u{0}100\u{0}1024\n");
}

#[test]
fn write_then_parse_round_trips() {
    let t = Track::from_sftp_entry(&"some file.bin".to_string(), st(7, 99));
    let line = t.write();
    let body = line.strip_suffix('\n').unwrap();
    let back = Track::from_str(body).unwrap();
    assert_eq!(back.src_path, "some file.bin");
    assert_eq!(back.lastmod, 99);
    assert_eq!(back.size, 7);
}

#[test]
fn from_just_path_zeroes_status() {
    let t = Track::from_just_path(&"p".to_string());
    assert_eq!(t.src_path, "p");
    assert_eq!(t.lastmod, 0);
    assert_eq!(t.size, 0);
}

#[test]
fn new_empty_tracker() {
    let t = Tracker::new(&vec![], None, 1000, 1000).unwrap();
    assert_eq!(t.num_entries(), 0);
}

#[test]
fn new_loads_snapshot() {
    let snap = vec!["a\u{0}100\u{0}1".to_string(), "b\u{0}100\u{0}2".to_string()];
    let t = Tracker::new(&snap, None, 100, 100).unwrap();
    assert_eq!(t.num_entries(), 2);
    assert!(t.path_exists_in_tracker(&"a".to_string()));
    assert!(t.path_exists_in_tracker(&"b".to_string()));
    assert!(!t.path_exists_in_tracker(&"c".to_string()));
}

#[test]
fn new_wal_overrides_snapshot() {
    let snap = vec!["a\u{0}50\u{0}10".to_string()];
    let wal = vec!["a\u{0}60\u{0}20".to_string()];
    let t = Tracker::new(&snap, Some(&wal), 100, 100).unwrap();
    assert_eq!(t.num_entries(), 1);
    assert!(matches!(t.check(&"a".to_string(), st(20, 60)), TrackDelta::Equal));
}

#[test]
fn new_prunes_old_records() {
    // cutoff is 100 - 10 = 90: a record from 80 is pruned, one from 95 stays
    let snap = vec!["old\u{0}80\u{0}1".to_string(), "new\u{0}95\u{0}1".to_string()];
    let t = Tracker::new(&snap, None, 100, 10).unwrap();
    assert_eq!(t.num_entries(), 1);
    assert!(t.path_exists_in_tracker(&"new".to_string()));
    assert!(!t.path_exists_in_tracker(&"old".to_string()));
}

#[test]
fn new_rejects_corrupt_snapshot() {
    let snap = vec!["not a record".to_string()];
    assert_eq!(
        Tracker::new(&snap, None, 100, 100).unwrap_err(),
        TrackError::CorruptSnapshot
    );
}

#[test]
fn new_rejects_corrupt_wal() {
    let snap = vec!["a\u{0}50\u{0}10".to_string()];
    let wal = vec!["garbage".to_string()];
    assert_eq!(
        Tracker::new(&snap, Some(&wal), 100, 100).unwrap_err(),
        TrackError::CorruptWal
    );
}

#[test]
fn new_keeps_going_past_malformed_lines() {
    let snap = vec!["broken".to_string(), "a\u{0}50\u{0}10".to_string()];
    let t = Tracker::new(&snap, None, 100, 100).unwrap();
    assert_eq!(t.num_entries(), 1);
}

#[test]
fn check_reports_deltas() {
    let mut t = Tracker::new(&vec![], None, 100, 100).unwrap();
    t.xferred(&"a".to_string(), st(10, 50));
    assert!(matches!(t.check(&"missing".to_string(), st(1, 1)), TrackDelta::Absent));
    assert!(matches!(t.check(&"a".to_string(), st(11, 50)), TrackDelta::SizeChange));
    assert!(matches!(t.check(&"a".to_string(), st(10, 51)), TrackDelta::LastModChange));
    assert!(matches!(t.check(&"a".to_string(), st(10, 50)), TrackDelta::Equal));
}

#[test]
fn inserts_replace_by_path_identity() {
    let mut t = Tracker::new(&vec![], None, 100, 100).unwrap();
    t.xferred(&"a".to_string(), st(1, 1));
    t.xferred(&"a".to_string(), st(2, 2));
    assert_eq!(t.num_entries(), 1);
    assert!(matches!(t.check(&"a".to_string(), st(2, 2)), TrackDelta::Equal));
    // the in-memory-only insert replaces too: identity is the path alone
    t.insert_path_and_status(&"a".to_string(), st(3, 3));
    assert_eq!(t.num_entries(), 1);
    assert!(matches!(t.check(&"a".to_string(), st(3, 3)), TrackDelta::Equal));
    t.insert_path_and_status(&"b".to_string(), st(4, 4));
    assert!(matches!(t.check(&"b".to_string(), st(4, 4)), TrackDelta::Equal));
}

#[test]
fn insert_path_records_bare_path() {
    let mut t = Tracker::new(&vec![], None, 100, 100).unwrap();
    t.insert_path(&"p".to_string());
    assert!(t.path_exists_in_tracker(&"p".to_string()));
    assert!(matches!(t.check(&"p".to_string(), st(0, 0)), TrackDelta::Equal));
    // a bare-path insert replaces an earlier full record
    t.xferred(&"q".to_string(), st(5, 5));
    t.insert_path(&"q".to_string());
    assert!(matches!(t.check(&"q".to_string(), st(0, 0)), TrackDelta::Equal));
}

#[test]
fn commit_snapshot_round_trips() {
    let mut t = Tracker::new(&vec![], None, 1000, 1000).unwrap();
    t.xferred(&"a".to_string(), st(1, 500));
    t.xferred(&"b".to_string(), st(2, 600));
    t.xferred(&"a".to_string(), st(3, 700));
    let lines = t.commit();
    assert_eq!(lines.len(), 2);
    // reloading with a cutoff below every mtime restores the same set
    let back = reload(lines, 1000, 1000);
    assert_eq!(back.num_entries(), 2);
    assert!(matches!(back.check(&"a".to_string(), st(3, 700)), TrackDelta::Equal));
    assert!(matches!(back.check(&"b".to_string(), st(2, 600)), TrackDelta::Equal));
}

#[test]
fn wal_line_recovers_after_crash() {
    // a run begins from a committed snapshot
    let mut t = Tracker::new(&vec![], None, 1000, 1000).unwrap();
    for (p, m) in [("f1", 500), ("f2", 510), ("f3", 520)] {
        t.xferred(&p.to_string(), st(1, m));
    }
    let snapshot = t.commit();
    // a later run records three more transfers in the log, then crashes
    let mut run2 = reload(snapshot.clone(), 1000, 1000);
    let mut wal_lines: Vec<String> = vec![];
    for (p, m) in [("f4", 530), ("f5", 540), ("f3", 990)] {
        let rec = Track::from_sftp_entry(&p.to_string(), st(2, m));
        wal_lines.push(rec.write());
        run2.xferred(&p.to_string(), st(2, m));
    }
    // recovery: the snapshot plus the flushed log lines hold every record
    let joined_snap: String = snapshot.concat();
    let snap_stripped: Vec<String> = joined_snap.lines().map(|l| l.to_string()).collect();
    let joined_wal: String = wal_lines.concat();
    let wal_stripped: Vec<String> = joined_wal.lines().map(|l| l.to_string()).collect();
    let recovered = Tracker::new(&snap_stripped, Some(&wal_stripped), 1000, 1000).unwrap();
    assert_eq!(recovered.num_entries(), 5);
    // the log's later record for f3 wins over the snapshot's
    assert!(matches!(recovered.check(&"f3".to_string(), st(2, 990)), TrackDelta::Equal));
    assert!(matches!(recovered.check(&"f4".to_string(), st(2, 530)), TrackDelta::Equal));
}

#[test]
fn mtime_zero_is_pruned_even_without_age_limit() {
    // the load cutoff keeps strictly younger records only, so a record with
    // mtime zero never survives a reload, whatever the tracking age
    let snap = vec!["p\u{0}0\u{0}1".to_string(), "q\u{0}1\u{0}1".to_string()];
    let t = Tracker::new(&snap, None, 0, u64::MAX).unwrap();
    assert!(!t.path_exists_in_tracker(&"p".to_string()));
    assert!(t.path_exists_in_tracker(&"q".to_string()));
}
