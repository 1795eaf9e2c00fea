//! The durable tracker: records of already-transferred files, their on-disk
//! line format, the in-memory set, and the laws that tie the two together.
//!
//! On disk a record is one line: `path NUL mtime NUL size LF`, with the two
//! numbers in decimal. The snapshot file and the write-ahead log both consist
//! of such lines. The library works on lines as strings; opening, reading and
//! renaming the files themselves is the caller's side of the split.

use vstd::prelude::*;
use vstd::string::*;
use crate::text::{
    dec_seq, dec_val, find_from, is_digit, lemma_dec_seq_val, lemma_find_from_is,
    lemma_find_from_none, find_char, parse_u64_dec, string_push, u64_to_dec, valid_dec_u64,
};
use crate::vfs::FileStatus;

verus! {

/// A path can stand in a record only if it holds neither the NUL field
/// separator nor the newline record terminator.
pub open spec fn valid_track_path(p: Seq<char>) -> bool {
    forall|i: int| 0 <= i < p.len() ==> #[trigger] p[i] != '\0' && p[i] != '\n'
}

/// Checks that a path can be written as a record field.
pub fn is_valid_track_path(s: &str) -> (r: bool)
    ensures
        r == valid_track_path(s@),
{
    let len = s.unicode_len();
    let mut i: usize = 0;
    while i < len
        invariant
            i <= len,
            len == s@.len(),
            forall|k: int| 0 <= k < i ==> #[trigger] s@[k] != '\0' && s@[k] != '\n',
        decreases len - i,
    {
        let c = s.get_char(i);
        if c == '\0' || c == '\n' {
            return false;
        }
        i += 1;
    }
    true
}

/// The mtime and size of a tracked file, as the tracker remembers them.
#[derive(Clone, Copy, Debug, PartialEq, Eq, Structural)]
pub struct TrackInfo {
    pub lastmod: u64,
    pub size: u64,
}

/// One tracker record: a source path and the status observed when the file
/// was transferred. Identity is the path alone.
#[derive(Debug)]
pub struct Track {
    pub src_path: String,
    pub lastmod: u64,
    pub size: u64,
}

impl Track {
    /// The value half of the record.
    pub open spec fn info(&self) -> TrackInfo {
        TrackInfo { lastmod: self.lastmod, size: self.size }
    }
}

/// A record as it stands inside its line: path, NUL, mtime, NUL, size.
pub open spec fn record_body(p: Seq<char>, lastmod: u64, size: u64) -> Seq<char> {
    p + seq!['\0'] + dec_seq(lastmod as nat) + seq!['\0'] + dec_seq(size as nat)
}

/// A full record line, newline terminator included.
pub open spec fn track_line(p: Seq<char>, lastmod: u64, size: u64) -> Seq<char> {
    record_body(p, lastmod, size).push('\n')
}

/// The three NUL-separated fields of a line, if it has exactly three.
pub open spec fn record_fields(s: Seq<char>) -> Option<(Seq<char>, Seq<char>, Seq<char>)> {
    match find_from(s, 0, '\0') {
        Option::None => Option::None,
        Option::Some(i) => match find_from(s, i + 1, '\0') {
            Option::None => Option::None,
            Option::Some(j) => if find_from(s, j + 1, '\0') is Some {
                Option::None
            } else {
                Option::Some(
                    (s.subrange(0, i), s.subrange(i + 1, j), s.subrange(j + 1, s.len() as int)),
                )
            },
        },
    }
}

/// Fewer than two NUL separators in the line.
pub open spec fn missing_nul(s: Seq<char>) -> bool {
    match find_from(s, 0, '\0') {
        Option::None => true,
        Option::Some(i) => find_from(s, i + 1, '\0') is None,
    }
}

/// More than two NUL separators in the line.
pub open spec fn extra_nul(s: Seq<char>) -> bool {
    match find_from(s, 0, '\0') {
        Option::None => false,
        Option::Some(i) => match find_from(s, i + 1, '\0') {
            Option::None => false,
            Option::Some(j) => find_from(s, j + 1, '\0') is Some,
        },
    }
}

/// What a record line (without its newline) denotes, if well formed.
pub open spec fn parse_record(s: Seq<char>) -> Option<(Seq<char>, u64, u64)> {
    match record_fields(s) {
        Option::None => Option::None,
        Option::Some(f) => if valid_track_path(f.0) && valid_dec_u64(f.1) && valid_dec_u64(f.2) {
            Option::Some((f.0, dec_val(f.1) as u64, dec_val(f.2) as u64))
        } else {
            Option::None
        },
    }
}

/// Why a line failed to parse as a record.
#[derive(Clone, Copy, Debug, PartialEq, Eq, Structural)]
pub enum TrackParseError {
    MissingField,
    ExtraField,
    BadPath,
    BadNumber,
}

impl Track {
    /// Parses one record line (without its newline terminator).
    pub fn from_str(s: &str) -> (r: Result<Track, TrackParseError>)
        ensures
            r is Ok <==> parse_record(s@) is Some,
            r matches Ok(t) ==> parse_record(s@) == Some((t.src_path@, t.lastmod, t.size)),
            (r matches Err(e) && e == TrackParseError::MissingField) <==> missing_nul(s@),
            (r matches Err(e) && e == TrackParseError::ExtraField) <==> extra_nul(s@),
            (r matches Err(e) && e == TrackParseError::BadPath) <==> (record_fields(s@) matches Some(
                f,
            ) && !valid_track_path(f.0)),
            (r matches Err(e) && e == TrackParseError::BadNumber) <==> (record_fields(s@) matches Some(
                f,
            ) && valid_track_path(f.0) && !(valid_dec_u64(f.1) && valid_dec_u64(f.2))),
    {
        let len = s.unicode_len();
        let i = match find_char(s, 0, '\0') {
            None => {
                return Err(TrackParseError::MissingField);
            },
            Some(i) => i,
        };
        let j = match find_char(s, i + 1, '\0') {
            None => {
                return Err(TrackParseError::MissingField);
            },
            Some(j) => j,
        };
        match find_char(s, j + 1, '\0') {
            Some(_) => {
                return Err(TrackParseError::ExtraField);
            },
            None => {},
        }
        let f1 = s.substring_char(0, i);
        let f2 = s.substring_char(i + 1, j);
        let f3 = s.substring_char(j + 1, len);
        if !is_valid_track_path(f1) {
            return Err(TrackParseError::BadPath);
        }
        let lastmod = match parse_u64_dec(f2) {
            None => {
                return Err(TrackParseError::BadNumber);
            },
            Some(v) => v,
        };
        let size = match parse_u64_dec(f3) {
            None => {
                return Err(TrackParseError::BadNumber);
            },
            Some(v) => v,
        };
        Ok(Track { src_path: f1.to_owned(), lastmod, size })
    }

    /// Builds the record for a listed or transferred file.
    pub fn from_sftp_entry(path: &String, filestat: FileStatus) -> (t: Track)
        ensures
            t.src_path@ == path@,
            t.lastmod == filestat.mtime,
            t.size == filestat.size,
    {
        Track { src_path: path.clone(), lastmod: filestat.mtime, size: filestat.size }
    }

    /// A record that stands for a bare path, with no observed status.
    pub fn from_just_path(path: &String) -> (t: Track)
        ensures
            t.src_path@ == path@,
            t.lastmod == 0,
            t.size == 0,
    {
        Track { src_path: path.clone(), lastmod: 0, size: 0 }
    }

    /// Renders the record as its full on-disk line, newline included.
    pub fn write(&self) -> (line: String)
        ensures
            line@ == track_line(self.src_path@, self.lastmod, self.size),
    {
        let mut out: String = self.src_path.clone();
        string_push(&mut out, '\0');
        let m = u64_to_dec(self.lastmod);
        out.append(m.as_str());
        string_push(&mut out, '\0');
        let z = u64_to_dec(self.size);
        out.append(z.as_str());
        string_push(&mut out, '\n');
        proof {
            assert(out@ =~= track_line(self.src_path@, self.lastmod, self.size));
        }
        out
    }
}

/// How an observed file status compares with the tracked record of its path.
#[derive(Clone, Copy, Debug, PartialEq, Eq, Structural)]
pub enum TrackDelta {
    Equal,
    Absent,
    SizeChange,
    LastModChange,
}

/// No two records share a path.
pub open spec fn distinct_paths(s: Seq<Track>) -> bool {
    forall|a: int, b: int|
        0 <= a < b < s.len() ==> #[trigger] s[a].src_path@ != #[trigger] s[b].src_path@
}

/// Every record's path can be written as a record line.
pub open spec fn valid_paths(s: Seq<Track>) -> bool {
    forall|a: int| 0 <= a < s.len() ==> valid_track_path(#[trigger] s[a].src_path@)
}

/// The mapping a sequence of records denotes: a later record wins over an
/// earlier one with the same path.
pub open spec fn map_of(s: Seq<Track>) -> Map<Seq<char>, TrackInfo>
    decreases s.len(),
{
    if s.len() == 0 {
        Map::empty()
    } else {
        map_of(s.drop_last()).insert(s.last().src_path@, s.last().info())
    }
}

pub proof fn lemma_map_of_contains(s: Seq<Track>, p: Seq<char>)
    ensures
        map_of(s).contains_key(p) <==> exists|k: int|
            0 <= k < s.len() && #[trigger] s[k].src_path@ == p,
    decreases s.len(),
{
    if s.len() > 0 {
        let sub = s.drop_last();
        lemma_map_of_contains(sub, p);
        if s.last().src_path@ == p {
            assert(s[s.len() - 1].src_path@ == p);
        } else {
            assert(forall|k: int| 0 <= k < sub.len() ==> #[trigger] sub[k] == s[k]);
            if map_of(sub).contains_key(p) {
                let k = choose|k: int| 0 <= k < sub.len() && #[trigger] sub[k].src_path@ == p;
                assert(s[k].src_path@ == p);
            }
            if exists|k: int| 0 <= k < s.len() && #[trigger] s[k].src_path@ == p {
                let k = choose|k: int| 0 <= k < s.len() && #[trigger] s[k].src_path@ == p;
                assert(k < sub.len());
                assert(sub[k].src_path@ == p);
            }
        }
    }
}

pub proof fn lemma_map_of_index(s: Seq<Track>, k: int)
    requires
        distinct_paths(s),
        0 <= k < s.len(),
    ensures
        map_of(s).contains_key(s[k].src_path@),
        map_of(s)[s[k].src_path@] == s[k].info(),
    decreases s.len(),
{
    if k < s.len() - 1 {
        let sub = s.drop_last();
        assert(forall|a: int| 0 <= a < sub.len() ==> #[trigger] sub[a] == s[a]);
        lemma_map_of_index(sub, k);
        assert(s.last().src_path@ != s[k].src_path@);
    }
}

pub proof fn lemma_map_of_len(s: Seq<Track>)
    requires
        distinct_paths(s),
    ensures
        map_of(s).dom().finite(),
        map_of(s).dom().len() == s.len(),
    decreases s.len(),
{
    if s.len() == 0 {
        assert(map_of(s).dom() =~= Set::<Seq<char>>::empty());
    } else {
        let sub = s.drop_last();
        assert(forall|a: int| 0 <= a < sub.len() ==> #[trigger] sub[a] == s[a]);
        lemma_map_of_len(sub);
        lemma_map_of_contains(sub, s.last().src_path@);
        assert(forall|k: int|
            0 <= k < sub.len() ==> #[trigger] sub[k].src_path@ != s.last().src_path@);
        assert(!map_of(sub).contains_key(s.last().src_path@));
        assert(map_of(s).dom() =~= map_of(sub).dom().insert(s.last().src_path@));
    }
}

pub proof fn lemma_map_of_update(s: Seq<Track>, k: int, t: Track)
    requires
        distinct_paths(s),
        0 <= k < s.len(),
        s[k].src_path@ == t.src_path@,
    ensures
        map_of(s.update(k, t)) =~= map_of(s).insert(t.src_path@, t.info()),
    decreases s.len(),
{
    let s2 = s.update(k, t);
    if k == s.len() - 1 {
        assert(s2.drop_last() =~= s.drop_last());
        assert(s2.last() == t);
    } else {
        let sub = s.drop_last();
        assert(forall|a: int| 0 <= a < sub.len() ==> #[trigger] sub[a] == s[a]);
        assert(s2.drop_last() =~= sub.update(k, t));
        assert(s2.last() == s.last());
        lemma_map_of_update(sub, k, t);
        assert(s.last().src_path@ != t.src_path@);
        assert(map_of(s2) =~= map_of(s).insert(t.src_path@, t.info()));
    }
}

/// The in-memory tracker: the set of transferred files, keyed by path.
///
/// Reading and writing the snapshot and write-ahead-log files is the caller's
/// side of the split: the tracker takes their lines and hands back the lines
/// to append or rewrite.
#[derive(Debug)]
pub struct Tracker {
    entries: Vec<Track>,
}

impl View for Tracker {
    type V = Map<Seq<char>, TrackInfo>;

    open spec fn view(&self) -> Map<Seq<char>, TrackInfo> {
        map_of(self.records())
    }
}

impl Tracker {
    /// The records in their internal order.
    pub closed spec fn records(&self) -> Seq<Track> {
        self.entries@
    }

    /// Paths are unique, and each can be written as a record line.
    pub open spec fn wf(&self) -> bool {
        distinct_paths(self.records()) && valid_paths(self.records())
    }

    fn find_index(&self, path: &str) -> (r: Option<usize>)
        ensures
            r matches Some(i) ==> i < self.records().len() && self.records()[i as int].src_path@
                == path@,
            r is None ==> forall|k: int|
                0 <= k < self.records().len() ==> #[trigger] self.records()[k].src_path@ != path@,
    {
        let n = self.entries.len();
        let mut i: usize = 0;
        while i < n
            invariant
                i <= n,
                n == self.entries@.len(),
                forall|k: int| 0 <= k < i ==> #[trigger] self.entries@[k].src_path@ != path@,
            decreases n - i,
        {
            if crate::text::str_is(self.entries[i].src_path.as_str(), path) {
                return Some(i);
            }
            i += 1;
        }
        None
    }

    /// Inserts the record, replacing any record with the same path.
    fn upsert(&mut self, t: Track)
        requires
            old(self).wf(),
            valid_track_path(t.src_path@),
        ensures
            final(self).wf(),
            final(self)@ == old(self)@.insert(t.src_path@, t.info()),
    {
        let ghost s0 = self.entries@;
        match self.find_index(t.src_path.as_str()) {
            Some(i) => {
                proof {
                    lemma_map_of_update(s0, i as int, t);
                }
                self.entries[i] = t;
                proof {
                    assert(forall|a: int|
                        0 <= a < self.entries@.len() ==> #[trigger] self.entries@[a].src_path@
                            == s0[a].src_path@);
                }
            },
            None => {
                self.entries.push(t);
                proof {
                    assert(self.entries@.drop_last() =~= s0);
                    assert(self.entries@.last() == t);
                    assert(forall|a: int| 0 <= a < s0.len() ==> #[trigger] self.entries@[a] == s0[a]);
                }
            },
        }
    }

    /// How many files the tracker holds.
    pub fn num_entries(&self) -> (n: usize)
        requires
            self.wf(),
        ensures
            n == self@.dom().len(),
    {
        proof {
            lemma_map_of_len(self.records());
        }
        self.entries.len()
    }

    /// Whether a path is already tracked, by path alone.
    pub fn path_exists_in_tracker(&self, path: &String) -> (r: bool)
        requires
            self.wf(),
        ensures
            r == self@.contains_key(path@),
    {
        proof {
            lemma_map_of_contains(self.records(), path@);
        }
        match self.find_index(path.as_str()) {
            Some(_) => true,
            None => false,
        }
    }

    /// How an observed status compares with the tracked record for the path.
    pub fn check(&self, path: &String, filestat: FileStatus) -> (d: TrackDelta)
        requires
            self.wf(),
        ensures
            match d {
                TrackDelta::Absent => !self@.contains_key(path@),
                TrackDelta::SizeChange => self@.contains_key(path@) && self@[path@].size
                    != filestat.size,
                TrackDelta::LastModChange => self@.contains_key(path@) && self@[path@].size
                    == filestat.size && self@[path@].lastmod != filestat.mtime,
                TrackDelta::Equal => self@.contains_key(path@) && self@[path@].size
                    == filestat.size && self@[path@].lastmod == filestat.mtime,
            },
    {
        proof {
            lemma_map_of_contains(self.records(), path@);
        }
        match self.find_index(path.as_str()) {
            None => TrackDelta::Absent,
            Some(i) => {
                proof {
                    lemma_map_of_index(self.records(), i as int);
                }
                let e = &self.entries[i];
                if e.size != filestat.size {
                    TrackDelta::SizeChange
                } else if e.lastmod != filestat.mtime {
                    TrackDelta::LastModChange
                } else {
                    TrackDelta::Equal
                }
            },
        }
    }

    /// Records a transferred file, replacing any older record for the path.
    ///
    /// The caller must first have appended the record's line — the one
    /// `Track::from_sftp_entry(path, filestat).write()` renders — to the
    /// write-ahead log and flushed it; only then is the file recorded here.
    pub fn xferred(&mut self, path: &String, filestat: FileStatus)
        requires
            old(self).wf(),
            valid_track_path(path@),
        ensures
            final(self).wf(),
            final(self)@ == old(self)@.insert(
                path@,
                TrackInfo { lastmod: filestat.mtime, size: filestat.size },
            ),
    {
        let t = Track::from_sftp_entry(path, filestat);
        self.upsert(t);
    }

    /// Remembers a listed file in memory only, so later runs skip it. A
    /// record's identity is its path alone: the new record replaces any
    /// record the path had.
    pub fn insert_path_and_status(&mut self, path: &String, filestat: FileStatus)
        requires
            old(self).wf(),
            valid_track_path(path@),
        ensures
            final(self).wf(),
            final(self)@ == old(self)@.insert(
                path@,
                TrackInfo { lastmod: filestat.mtime, size: filestat.size },
            ),
    {
        let t = Track::from_sftp_entry(path, filestat);
        self.upsert(t);
    }

    /// Remembers a bare path with no observed status, replacing any record
    /// the path had.
    pub fn insert_path(&mut self, path: &String)
        requires
            old(self).wf(),
            valid_track_path(path@),
        ensures
            final(self).wf(),
            final(self)@ == old(self)@.insert(path@, TrackInfo { lastmod: 0, size: 0 }),
    {
        let t = Track::from_just_path(path);
        self.upsert(t);
    }
}

/// The age cutoff for loading: records whose mtime is at or below it are
/// pruned. A tracking age longer than the clock saturates to zero.
pub open spec fn age_cutoff(now: u64, max_track_age: u64) -> u64 {
    if max_track_age <= now {
        (now - max_track_age) as u64
    } else {
        0
    }
}

/// Replaying record lines over a mapping: every line that parses and whose
/// mtime survives the cutoff inserts its record; a later line wins.
pub open spec fn replay(
    m: Map<Seq<char>, TrackInfo>,
    lines: Seq<Seq<char>>,
    cutoff: u64,
) -> Map<Seq<char>, TrackInfo>
    decreases lines.len(),
{
    if lines.len() == 0 {
        m
    } else {
        let prev = replay(m, lines.drop_last(), cutoff);
        match parse_record(lines.last()) {
            Option::Some(rec) => if rec.1 > cutoff {
                prev.insert(rec.0, TrackInfo { lastmod: rec.1, size: rec.2 })
            } else {
                prev
            },
            Option::None => prev,
        }
    }
}

/// How many of the lines parse as records.
pub open spec fn parsed_count(lines: Seq<Seq<char>>) -> nat
    decreases lines.len(),
{
    if lines.len() == 0 {
        0
    } else {
        parsed_count(lines.drop_last()) + if parse_record(lines.last()) is Some {
            1nat
        } else {
            0nat
        }
    }
}

/// The view of an optional write-ahead log.
pub open spec fn wal_view(w: Option<&Vec<String>>) -> Seq<Seq<char>> {
    match w {
        Option::Some(v) => v.deep_view(),
        Option::None => Seq::empty(),
    }
}

/// What loading yields from a snapshot and a write-ahead log: the snapshot
/// replayed first, the log replayed on top of it.
pub open spec fn load_map(
    snap: Seq<Seq<char>>,
    wal: Seq<Seq<char>>,
    cutoff: u64,
) -> Map<Seq<char>, TrackInfo> {
    replay(replay(Map::empty(), snap, cutoff), wal, cutoff)
}

/// Why loading the tracker failed.
#[derive(Clone, Copy, Debug, PartialEq, Eq, Structural)]
pub enum TrackError {
    CorruptSnapshot,
    CorruptWal,
}

impl Tracker {
    /// Replays record lines into the set, counting the lines that parse.
    fn load_lines(&mut self, lines: &Vec<String>, cutoff: u64) -> (count: usize)
        requires
            old(self).wf(),
        ensures
            final(self).wf(),
            final(self)@ == replay(old(self)@, lines.deep_view(), cutoff),
            count == parsed_count(lines.deep_view()),
    {
        let n = lines.len();
        let mut count: usize = 0;
        let mut i: usize = 0;
        while i < n
            invariant
                i <= n,
                n == lines@.len(),
                self.wf(),
                self@ == replay(old(self)@, lines.deep_view().take(i as int), cutoff),
                count == parsed_count(lines.deep_view().take(i as int)),
                count <= i,
            decreases n - i,
        {
            proof {
                let dv = lines.deep_view();
                assert(dv.take(i + 1).drop_last() =~= dv.take(i as int));
                assert(dv.take(i + 1).last() == dv[i as int]);
                assert(dv[i as int] == lines@[i as int]@);
            }
            match Track::from_str(lines[i].as_str()) {
                Err(_) => {},
                Ok(t) => {
                    count += 1;
                    if t.lastmod > cutoff {
                        proof {
                            assert(valid_track_path(t.src_path@));
                        }
                        self.upsert(t);
                    }
                },
            }
            i += 1;
        }
        proof {
            assert(lines.deep_view().take(n as int) =~= lines.deep_view());
        }
        count
    }

    /// Builds the tracker from the lines of the snapshot file and, when a
    /// non-empty write-ahead log was found, the lines of that log. Lines are
    /// handed in as a line reader yields them, without their newlines. A file
    /// that has lines but not one parsable record is rejected as corrupt.
    pub fn new(
        snapshot_lines: &Vec<String>,
        wal_lines: Option<&Vec<String>>,
        now: u64,
        max_track_age: u64,
    ) -> (r: Result<Tracker, TrackError>)
        ensures
            ({
                let snap = snapshot_lines.deep_view();
                let wal = wal_view(wal_lines);
                let snap_bad = snap.len() > 0 && parsed_count(snap) == 0;
                let wal_bad = wal.len() > 0 && parsed_count(wal) == 0;
                &&& (r is Ok <==> !snap_bad && !(!snap_bad && wal_bad))
                &&& ((r matches Err(e) && e == TrackError::CorruptSnapshot) <==> snap_bad)
                &&& ((r matches Err(e) && e == TrackError::CorruptWal) <==> (!snap_bad && wal_bad))
                &&& (r matches Ok(t) ==> t.wf() && t@ == load_map(
                    snap,
                    wal,
                    age_cutoff(now, max_track_age),
                ))
            }),
    {
        let cutoff: u64 = if max_track_age <= now {
            now - max_track_age
        } else {
            0
        };
        let mut t = Tracker { entries: Vec::new() };
        proof {
            assert(t.records() =~= Seq::<Track>::empty());
            assert(t@ =~= Map::<Seq<char>, TrackInfo>::empty());
        }
        let c1 = t.load_lines(snapshot_lines, cutoff);
        if snapshot_lines.len() > 0 && c1 == 0 {
            return Err(TrackError::CorruptSnapshot);
        }
        match wal_lines {
            Some(w) => {
                let c2 = t.load_lines(w, cutoff);
                if w.len() > 0 && c2 == 0 {
                    return Err(TrackError::CorruptWal);
                }
            },
            None => {
                proof {
                    assert(replay(t@, Seq::empty(), cutoff) == t@);
                }
            },
        }
        Ok(t)
    }

    /// Renders the whole set as snapshot lines, one full record line per
    /// entry. The caller writes them to a sibling temporary file, renames it
    /// over the snapshot, and only then deletes the write-ahead log.
    pub fn commit(&self) -> (lines: Vec<String>)
        requires
            self.wf(),
        ensures
            lines@.len() == self.records().len(),
            forall|k: int|
                0 <= k < lines@.len() ==> (#[trigger] lines@[k])@ == track_line(
                    self.records()[k].src_path@,
                    self.records()[k].lastmod,
                    self.records()[k].size,
                ),
    {
        let n = self.entries.len();
        let mut out: Vec<String> = Vec::new();
        let mut i: usize = 0;
        while i < n
            invariant
                i <= n,
                n == self.entries@.len(),
                out@.len() == i,
                forall|k: int|
                    0 <= k < i ==> (#[trigger] out@[k])@ == track_line(
                        self.entries@[k].src_path@,
                        self.entries@[k].lastmod,
                        self.entries@[k].size,
                    ),
            decreases n - i,
        {
            let line = self.entries[i].write();
            out.push(line);
            i += 1;
        }
        out
    }
}

/// A record line, stripped of its newline as a line reader strips it, parses
/// back to exactly the record it was written from.
pub proof fn lemma_record_round_trip(p: Seq<char>, lastmod: u64, size: u64)
    requires
        valid_track_path(p),
    ensures
        track_line(p, lastmod, size).drop_last() == record_body(p, lastmod, size),
        parse_record(record_body(p, lastmod, size)) == Some((p, lastmod, size)),
{
    let d1 = dec_seq(lastmod as nat);
    let d2 = dec_seq(size as nat);
    lemma_dec_seq_val(lastmod as nat);
    lemma_dec_seq_val(size as nat);
    let body = record_body(p, lastmod, size);
    assert(track_line(p, lastmod, size).drop_last() =~= body);
    let i = p.len() as int;
    let j = i + 1 + d1.len() as int;
    assert(body.len() == p.len() + 1 + d1.len() + 1 + d2.len());
    assert(body[i] == '\0');
    assert(body[j] == '\0');
    assert(forall|k: int| 0 <= k < i ==> body[k] == p[k]);
    assert(forall|k: int| i + 1 <= k < j ==> body[k] == d1[k - i - 1]);
    assert(forall|k: int| j + 1 <= k < body.len() ==> body[k] == d2[k - j - 1]);
    assert(forall|k: int| 0 <= k < i ==> body[k] != '\0');
    assert(forall|c: char| is_digit(c) ==> c != '\0') by {
        assert('\0' as u32 == 0);
        assert('0' as u32 == 48);
    }
    assert(forall|k: int| i + 1 <= k < j ==> body[k] != '\0') by {
        assert(forall|k: int| 0 <= k < d1.len() ==> is_digit(#[trigger] d1[k]));
    }
    assert(forall|k: int| j + 1 <= k < body.len() ==> body[k] != '\0') by {
        assert(forall|k: int| 0 <= k < d2.len() ==> is_digit(#[trigger] d2[k]));
    }
    lemma_find_from_is(body, 0, '\0', i);
    lemma_find_from_is(body, i + 1, '\0', j);
    lemma_find_from_none(body, j + 1, '\0');
    assert(body.subrange(0, i) =~= p);
    assert(body.subrange(i + 1, j) =~= d1);
    assert(body.subrange(j + 1, body.len() as int) =~= d2);
}

/// Line `j` sets path `p` when replayed: it parses to a record for `p` whose
/// mtime survives the cutoff.
pub open spec fn line_sets(lines: Seq<Seq<char>>, j: int, p: Seq<char>, cutoff: u64) -> bool {
    0 <= j < lines.len() && match parse_record(lines[j]) {
        Option::Some(rec) => rec.0 == p && rec.1 > cutoff,
        Option::None => false,
    }
}

/// The last line that sets a path decides that path's record.
pub proof fn lemma_replay_sets(
    m0: Map<Seq<char>, TrackInfo>,
    lines: Seq<Seq<char>>,
    cutoff: u64,
    i: int,
    p: Seq<char>,
    lm: u64,
    sz: u64,
)
    requires
        0 <= i < lines.len(),
        parse_record(lines[i]) == Some((p, lm, sz)),
        lm > cutoff,
        forall|j: int| i < j < lines.len() ==> !line_sets(lines, j, p, cutoff),
    ensures
        replay(m0, lines, cutoff).contains_key(p),
        replay(m0, lines, cutoff)[p] == (TrackInfo { lastmod: lm, size: sz }),
    decreases lines.len(),
{
    let sub = lines.drop_last();
    assert(forall|k: int| 0 <= k < sub.len() ==> #[trigger] sub[k] == lines[k]);
    if i == lines.len() - 1 {
        assert(line_sets(lines, i, p, cutoff));
    } else {
        assert(!line_sets(lines, lines.len() - 1, p, cutoff));
        assert forall|j: int| i < j < sub.len() implies !line_sets(sub, j, p, cutoff) by {
            assert(sub[j] == lines[j]);
            assert(!line_sets(lines, j, p, cutoff));
        }
        lemma_replay_sets(m0, sub, cutoff, i, p, lm, sz);
    }
}

/// Lines none of which set a path leave that path's record alone.
pub proof fn lemma_replay_frame(
    m0: Map<Seq<char>, TrackInfo>,
    lines: Seq<Seq<char>>,
    cutoff: u64,
    p: Seq<char>,
)
    requires
        forall|j: int| 0 <= j < lines.len() ==> !line_sets(lines, j, p, cutoff),
    ensures
        replay(m0, lines, cutoff).contains_key(p) == m0.contains_key(p),
        m0.contains_key(p) ==> replay(m0, lines, cutoff)[p] == m0[p],
    decreases lines.len(),
{
    if lines.len() > 0 {
        let sub = lines.drop_last();
        assert(forall|k: int| 0 <= k < sub.len() ==> #[trigger] sub[k] == lines[k]);
        assert(!line_sets(lines, lines.len() - 1, p, cutoff));
        assert forall|j: int| 0 <= j < sub.len() implies !line_sets(sub, j, p, cutoff) by {
            assert(sub[j] == lines[j]);
            assert(!line_sets(lines, j, p, cutoff));
        }
        lemma_replay_frame(m0, sub, cutoff, p);
    }
}

/// A line that sets a path leaves it present, whatever follows.
pub proof fn lemma_replay_contains(
    m0: Map<Seq<char>, TrackInfo>,
    lines: Seq<Seq<char>>,
    cutoff: u64,
    i: int,
    p: Seq<char>,
)
    requires
        line_sets(lines, i, p, cutoff),
    ensures
        replay(m0, lines, cutoff).contains_key(p),
    decreases lines.len(),
{
    if i < lines.len() - 1 {
        let sub = lines.drop_last();
        assert(sub[i] == lines[i]);
        assert(line_sets(sub, i, p, cutoff));
        lemma_replay_contains(m0, sub, cutoff, i, p);
    }
}

/// Replaying lines never drops a path.
pub proof fn lemma_replay_grows(
    m0: Map<Seq<char>, TrackInfo>,
    lines: Seq<Seq<char>>,
    cutoff: u64,
    p: Seq<char>,
)
    requires
        m0.contains_key(p),
    ensures
        replay(m0, lines, cutoff).contains_key(p),
    decreases lines.len(),
{
    if lines.len() > 0 {
        lemma_replay_grows(m0, lines.drop_last(), cutoff, p);
    }
}

/// Law: every record of either input whose mtime survives the age cutoff has
/// its path present in the loaded set.
pub proof fn lemma_load_record_present(
    snap: Seq<Seq<char>>,
    wal: Seq<Seq<char>>,
    cutoff: u64,
    i: int,
    p: Seq<char>,
    in_wal: bool,
)
    requires
        in_wal ==> line_sets(wal, i, p, cutoff),
        !in_wal ==> line_sets(snap, i, p, cutoff),
    ensures
        load_map(snap, wal, cutoff).contains_key(p),
{
    if in_wal {
        lemma_replay_contains(replay(Map::empty(), snap, cutoff), wal, cutoff, i, p);
    } else {
        lemma_replay_contains(Map::empty(), snap, cutoff, i, p);
        lemma_replay_grows(replay(Map::empty(), snap, cutoff), wal, cutoff, p);
    }
}

/// Law: a write-ahead-log record that survives the age cutoff, and after
/// which the log holds no later record for the same path, stands in the
/// loaded set with exactly its logged status — whatever the snapshot says:
/// the log wins over the snapshot.
pub proof fn lemma_load_wal_wins(
    snap: Seq<Seq<char>>,
    wal: Seq<Seq<char>>,
    cutoff: u64,
    i: int,
    p: Seq<char>,
    lm: u64,
    sz: u64,
)
    requires
        0 <= i < wal.len(),
        parse_record(wal[i]) == Some((p, lm, sz)),
        lm > cutoff,
        forall|j: int| i < j < wal.len() ==> !line_sets(wal, j, p, cutoff),
    ensures
        load_map(snap, wal, cutoff).contains_key(p),
        load_map(snap, wal, cutoff)[p] == (TrackInfo { lastmod: lm, size: sz }),
{
    lemma_replay_sets(replay(Map::empty(), snap, cutoff), wal, cutoff, i, p, lm, sz);
}

/// Law: a snapshot record that survives the age cutoff, is the snapshot's
/// last record for its path, and has no write-ahead-log record for that path,
/// stands in the loaded set with its snapshot status.
pub proof fn lemma_load_snapshot_kept(
    snap: Seq<Seq<char>>,
    wal: Seq<Seq<char>>,
    cutoff: u64,
    i: int,
    p: Seq<char>,
    lm: u64,
    sz: u64,
)
    requires
        0 <= i < snap.len(),
        parse_record(snap[i]) == Some((p, lm, sz)),
        lm > cutoff,
        forall|j: int| i < j < snap.len() ==> !line_sets(snap, j, p, cutoff),
        forall|j: int| 0 <= j < wal.len() ==> !line_sets(wal, j, p, cutoff),
    ensures
        load_map(snap, wal, cutoff).contains_key(p),
        load_map(snap, wal, cutoff)[p] == (TrackInfo { lastmod: lm, size: sz }),
{
    lemma_replay_sets(Map::empty(), snap, cutoff, i, p, lm, sz);
    lemma_replay_frame(replay(Map::empty(), snap, cutoff), wal, cutoff, p);
}

/// Law: the crash model. Once a transfer's record line stands at the end of
/// the write-ahead log — and `xferred` is called only after it does — a
/// reload sees that transfer, whatever the snapshot and the earlier log lines
/// hold.
pub proof fn lemma_wal_record_recovered(
    snap: Seq<Seq<char>>,
    wal: Seq<Seq<char>>,
    cutoff: u64,
    p: Seq<char>,
    lm: u64,
    sz: u64,
)
    requires
        valid_track_path(p),
        lm > cutoff,
    ensures
        load_map(snap, wal.push(record_body(p, lm, sz)), cutoff).contains_key(p),
        load_map(snap, wal.push(record_body(p, lm, sz)), cutoff)[p] == (TrackInfo {
            lastmod: lm,
            size: sz,
        }),
{
    lemma_record_round_trip(p, lm, sz);
    let wal2 = wal.push(record_body(p, lm, sz));
    assert(wal2.drop_last() =~= wal);
    assert(wal2.last() == record_body(p, lm, sz));
}

/// The mapping after a sequence of recorded transfers: each call inserts its
/// record, as `Tracker::xferred` ensures.
pub open spec fn apply_xfers(
    m: Map<Seq<char>, TrackInfo>,
    ops: Seq<(Seq<char>, TrackInfo)>,
) -> Map<Seq<char>, TrackInfo>
    decreases ops.len(),
{
    if ops.len() == 0 {
        m
    } else {
        apply_xfers(m, ops.drop_last()).insert(ops.last().0, ops.last().1)
    }
}

/// Law: after any sequence of recorded transfers, a path that was recorded
/// maps to the status of its most recent recording.
pub proof fn lemma_xferred_last(
    m0: Map<Seq<char>, TrackInfo>,
    ops: Seq<(Seq<char>, TrackInfo)>,
    i: int,
)
    requires
        0 <= i < ops.len(),
        forall|j: int| i < j < ops.len() ==> (#[trigger] ops[j]).0 != ops[i].0,
    ensures
        apply_xfers(m0, ops).contains_key(ops[i].0),
        apply_xfers(m0, ops)[ops[i].0] == ops[i].1,
    decreases ops.len(),
{
    let sub = ops.drop_last();
    assert(forall|k: int| 0 <= k < sub.len() ==> #[trigger] sub[k] == ops[k]);
    if i < ops.len() - 1 {
        lemma_xferred_last(m0, sub, i);
    }
}

/// Law: a path never recorded keeps whatever record it had before.
pub proof fn lemma_xferred_frame(
    m0: Map<Seq<char>, TrackInfo>,
    ops: Seq<(Seq<char>, TrackInfo)>,
    p: Seq<char>,
)
    requires
        forall|j: int| 0 <= j < ops.len() ==> (#[trigger] ops[j]).0 != p,
    ensures
        apply_xfers(m0, ops).contains_key(p) == m0.contains_key(p),
        m0.contains_key(p) ==> apply_xfers(m0, ops)[p] == m0[p],
    decreases ops.len(),
{
    if ops.len() > 0 {
        let sub = ops.drop_last();
        assert(forall|k: int| 0 <= k < sub.len() ==> #[trigger] sub[k] == ops[k]);
        lemma_xferred_frame(m0, sub, p);
    }
}

/// The mapping restricted to records young enough to survive the cutoff.
pub open spec fn prune(m: Map<Seq<char>, TrackInfo>, cutoff: u64) -> Map<Seq<char>, TrackInfo> {
    Map::new(|p: Seq<char>| m.contains_key(p) && m[p].lastmod > cutoff, |p: Seq<char>| m[p])
}

/// The record bodies of a sequence of records, in order.
pub open spec fn record_lines(s: Seq<Track>) -> Seq<Seq<char>> {
    s.map_values(|tr: Track| record_body(tr.src_path@, tr.lastmod, tr.size))
}

/// Law: a committed snapshot, read back line by line, reproduces exactly the
/// records young enough to survive the age cutoff. `Tracker::commit` renders
/// `record_lines` of its records, each with one newline appended.
pub proof fn lemma_snapshot_round_trip(s: Seq<Track>, cutoff: u64)
    requires
        distinct_paths(s),
        valid_paths(s),
    ensures
        replay(Map::empty(), record_lines(s), cutoff) =~= prune(map_of(s), cutoff),
    decreases s.len(),
{
    let lines = record_lines(s);
    if s.len() == 0 {
        assert(replay(Map::empty(), lines, cutoff) =~= prune(map_of(s), cutoff));
    } else {
        let sub = s.drop_last();
        assert(forall|k: int| 0 <= k < sub.len() ==> #[trigger] sub[k] == s[k]);
        lemma_snapshot_round_trip(sub, cutoff);
        let last = s.last();
        let p = last.src_path@;
        assert(valid_track_path(p));
        lemma_record_round_trip(p, last.lastmod, last.size);
        assert(lines.drop_last() =~= record_lines(sub));
        assert(lines.last() == record_body(p, last.lastmod, last.size));
        lemma_map_of_contains(sub, p);
        assert(forall|k: int| 0 <= k < sub.len() ==> #[trigger] sub[k].src_path@ != p);
        assert(!map_of(sub).contains_key(p));
        if last.lastmod > cutoff {
            assert(replay(Map::empty(), lines, cutoff) =~= prune(map_of(s), cutoff));
        } else {
            assert(replay(Map::empty(), lines, cutoff) =~= prune(map_of(s), cutoff));
        }
    }
}

/// Law: the lines `commit` renders, stripped of their newlines as a line
/// reader strips them, load back to exactly the records young enough to
/// survive the age cutoff: the snapshot holds the in-memory set, one record
/// per path.
pub proof fn lemma_commit_round_trip(t: &Tracker, lines: Seq<Seq<char>>, cutoff: u64)
    requires
        t.wf(),
        lines.len() == t.records().len(),
        forall|k: int|
            0 <= k < lines.len() ==> #[trigger] lines[k] == track_line(
                t.records()[k].src_path@,
                t.records()[k].lastmod,
                t.records()[k].size,
            ),
    ensures
        replay(Map::empty(), lines.map_values(|l: Seq<char>| l.drop_last()), cutoff) =~= prune(
            t@,
            cutoff,
        ),
{
    let stripped = lines.map_values(|l: Seq<char>| l.drop_last());
    assert forall|k: int| 0 <= k < stripped.len() implies #[trigger] stripped[k] == record_lines(
        t.records(),
    )[k] by {
        let tr = t.records()[k];
        assert(valid_track_path(tr.src_path@));
        lemma_record_round_trip(tr.src_path@, tr.lastmod, tr.size);
    }
    assert(stripped =~= record_lines(t.records()));
    lemma_snapshot_round_trip(t.records(), cutoff);
}

/// Law: with an age cutoff below every record's mtime nothing is pruned, and
/// loading a committed snapshot restores the tracker's mapping exactly.
pub proof fn lemma_snapshot_identity(t: &Tracker, cutoff: u64)
    requires
        t.wf(),
        forall|p: Seq<char>| t@.contains_key(p) ==> (#[trigger] t@[p]).lastmod > cutoff,
    ensures
        replay(Map::empty(), record_lines(t.records()), cutoff) =~= t@,
{
    lemma_snapshot_round_trip(t.records(), cutoff);
    assert(prune(t@, cutoff) =~= t@);
}

} // verus!
