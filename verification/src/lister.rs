//! The listing-and-filter pipeline: which listed files are eligible for
//! transfer, which are never to be transferred, and which wait for a later
//! run. Reading the directory itself, and statting files, happens outside;
//! this module takes the listed names and statuses and decides.

use vstd::prelude::*;
use vstd::string::*;
use vstd::utf8::encode_utf8;
use crate::text::string_push;
use crate::track::{valid_track_path, TrackDelta, TrackInfo, Tracker};
use crate::vfs::{FileStatus, FileType};

verus! {

/// The final path component: everything after the last slash, the whole path
/// when it has no slash, and empty when the path ends in a slash.
pub open spec fn base_name_of(p: Seq<char>) -> Seq<char>
    decreases p.len(),
{
    if p.len() == 0 {
        p
    } else if p.last() == '/' {
        Seq::empty()
    } else {
        base_name_of(p.drop_last()).push(p.last())
    }
}

proof fn lemma_base_name_after_slash(p: Seq<char>, k: int)
    requires
        0 <= k < p.len(),
        p[k] == '/',
        forall|j: int| k < j < p.len() ==> p[j] != '/',
    ensures
        base_name_of(p) == p.subrange(k + 1, p.len() as int),
    decreases p.len(),
{
    if k == p.len() - 1 {
        assert(base_name_of(p) =~= p.subrange(k + 1, p.len() as int));
    } else {
        let sub = p.drop_last();
        assert(forall|j: int| 0 <= j < sub.len() ==> #[trigger] sub[j] == p[j]);
        lemma_base_name_after_slash(sub, k);
        assert(base_name_of(p) =~= p.subrange(k + 1, p.len() as int));
    }
}

proof fn lemma_base_name_no_slash(p: Seq<char>)
    requires
        forall|j: int| 0 <= j < p.len() ==> p[j] != '/',
    ensures
        base_name_of(p) == p,
    decreases p.len(),
{
    if p.len() > 0 {
        let sub = p.drop_last();
        assert(forall|j: int| 0 <= j < sub.len() ==> #[trigger] sub[j] == p[j]);
        lemma_base_name_no_slash(sub);
        assert(base_name_of(p) =~= p);
    }
}

/// The final path component of a path.
pub fn base_name(s: &str) -> (r: &str)
    ensures
        r@ == base_name_of(s@),
{
    let len = s.unicode_len();
    let mut j: usize = len;
    while j > 0
        invariant
            j <= len,
            len == s@.len(),
            forall|k: int| j <= k < len ==> s@[k] != '/',
        decreases j,
    {
        if s.get_char(j - 1) == '/' {
            proof {
                lemma_base_name_after_slash(s@, j - 1);
            }
            return s.substring_char(j, len);
        }
        j -= 1;
    }
    proof {
        lemma_base_name_no_slash(s@);
        assert(s@.subrange(0, len as int) =~= s@);
    }
    s.substring_char(0, len)
}

/// A directory path joined with an entry name: one slash between them, none
/// doubled.
pub open spec fn joined_path(dir: Seq<char>, name: Seq<char>) -> Seq<char> {
    if dir.len() > 0 && dir.last() == '/' {
        dir + name
    } else {
        dir + seq!['/'] + name
    }
}

/// Joins a directory path and an entry name.
pub fn join_path(dir: &str, name: &str) -> (r: String)
    ensures
        r@ == joined_path(dir@, name@),
{
    let dlen = dir.unicode_len();
    let mut out: String = dir.to_owned();
    if dlen == 0 || dir.get_char(dlen - 1) != '/' {
        string_push(&mut out, '/');
    }
    out.append(name);
    proof {
        assert(out@ =~= joined_path(dir@, name@));
    }
    out
}

/// The destination and temporary paths of a transfer: the source's base name
/// under the destination directory, and the same prefixed with `.tmp`.
pub fn dst_and_tmp_paths(dst_base: &str, src_path: &str) -> (r: (String, String))
    ensures
        r.0@ == joined_path(dst_base@, base_name_of(src_path@)),
        r.1@ == joined_path(dst_base@, seq!['.', 't', 'm', 'p'] + base_name_of(src_path@)),
{
    let name = base_name(src_path);
    let dst = join_path(dst_base, name);
    let mut tmp_name: String = ".tmp".to_owned();
    proof {
        reveal_strlit(".tmp");
        assert(tmp_name@ =~= seq!['.', 't', 'm', 'p']);
    }
    tmp_name.append(name);
    let tmp = join_path(dst_base, tmp_name.as_str());
    (dst, tmp)
}

/// What a PCRE2 pattern matches: a function of the pattern and the subject
/// bytes alone.
pub uninterp spec fn regex_match(pattern: Seq<char>, subject: Seq<u8>) -> bool;

/// Whether PCRE2 accepts a pattern: with the options fixed by the library's
/// one constructor, a function of the pattern alone.
pub uninterp spec fn regex_accepts(pattern: Seq<char>) -> bool;

#[verifier::external_type_specification]
#[verifier::external_body]
pub struct ExRegex(pcre2::bytes::Regex);

#[verifier::external_type_specification]
#[verifier::external_body]
pub struct ExPcreError(pcre2::Error);

/// A compiled filename filter. The compiled regex always stems from the
/// stored pattern: `NameFilter::new` is the only constructor.
#[derive(Debug)]
pub struct NameFilter {
    pattern: String,
    re: pcre2::bytes::Regex,
}

impl NameFilter {
    /// The pattern this filter was compiled from.
    pub closed spec fn pattern(&self) -> Seq<char> {
        self.pattern@
    }

    /// Relies on pcre2::bytes::Regex::new: compiles the pattern with the
    /// default options, succeeding exactly on the patterns the engine
    /// accepts, or reports the pattern fault.
    #[verifier::external_body]
    pub fn new(pattern: &str) -> (r: Result<NameFilter, pcre2::Error>)
        ensures
            r is Ok <==> regex_accepts(pattern@),
            r matches Ok(f) ==> f.pattern() == pattern@,
    {
        match pcre2::bytes::Regex::new(pattern) {
            Ok(re) => Ok(NameFilter { pattern: pattern.to_owned(), re }),
            Err(e) => Err(e),
        }
    }
}

/// Relies on pcre2::bytes::Regex::is_match: whether a compiled pattern
/// matches given subject bytes is a function of the pattern and the subject
/// alone. An error is a fault of the regex engine, never a non-match.
#[verifier::external_body]
fn regex_is_match(f: &NameFilter, subject: &Vec<u8>) -> (r: Result<bool, pcre2::Error>)
    ensures
        r matches Ok(b) ==> b == regex_match(f.pattern(), subject@),
{
    f.re.is_match(subject.as_slice())
}

/// The regex engine failed while matching. Carries no verdict on the subject.
#[derive(Clone, Copy, Debug, PartialEq, Eq, Structural)]
pub struct RegexFault;

/// The path filter's decision, given the regex's verdict on the base name:
/// keep a named, matching file, unless it is an excluded dot file or the
/// tracker already holds it and overwriting is disabled.
pub open spec fn keep_path_spec(
    matched: bool,
    name: Seq<char>,
    include_dot_files: bool,
    disable_overwrite: bool,
    in_tracker: bool,
) -> bool {
    &&& name.len() > 0
    &&& matched
    &&& !(name[0] == '.' && !include_dot_files)
    &&& !(disable_overwrite && in_tracker)
}

/// The path filter's decision from the regex verdict and the plain facts of
/// the path: the part of `keep_path` that stands after the regex call.
pub fn keep_path_given_match(
    matched: bool,
    name: &str,
    include_dot_files: bool,
    disable_overwrite: bool,
    in_tracker: bool,
) -> (r: bool)
    ensures
        r == keep_path_spec(matched, name@, include_dot_files, disable_overwrite, in_tracker),
{
    let len = name.unicode_len();
    if len == 0 {
        return false;
    }
    if !matched {
        return false;
    }
    if name.get_char(0) == '.' && !include_dot_files {
        return false;
    }
    if disable_overwrite && in_tracker {
        return false;
    }
    true
}

/// Whether a listed path passes the name filter: the regex verdict on the
/// base name's bytes, the dot-file rule, and the tracker-membership rule.
pub open spec fn path_filter_spec(
    m: Map<Seq<char>, TrackInfo>,
    pattern: Seq<char>,
    p: Seq<char>,
    include_dot_files: bool,
    disable_overwrite: bool,
) -> bool {
    keep_path_spec(
        regex_match(pattern, encode_utf8(base_name_of(p))),
        base_name_of(p),
        include_dot_files,
        disable_overwrite,
        m.contains_key(p),
    )
}

/// Applies the path filter to one path. An error is a regex-engine fault; no
/// path is kept or rejected on its account.
pub fn keep_path(
    filter: &NameFilter,
    include_dot_files: bool,
    disable_overwrite: bool,
    path: &String,
    tracker: &Tracker,
) -> (r: Result<bool, RegexFault>)
    requires
        tracker.wf(),
    ensures
        r matches Ok(b) ==> b == path_filter_spec(
            tracker@,
            filter.pattern(),
            path@,
            include_dot_files,
            disable_overwrite,
        ),
{
    let name = base_name(path.as_str());
    let bytes = name.as_bytes_vec();
    let matched = match regex_is_match(filter, &bytes) {
        Err(_) => {
            return Err(RegexFault);
        },
        Ok(m) => m,
    };
    let in_tracker = if disable_overwrite {
        tracker.path_exists_in_tracker(path)
    } else {
        false
    };
    Ok(keep_path_given_match(matched, name, include_dot_files, disable_overwrite, in_tracker))
}

/// A file's age at the clock reading `now`, zero when its mtime lies in the
/// future.
pub open spec fn file_age(now: u64, mtime: u64) -> u64 {
    if mtime <= now {
        (now - mtime) as u64
    } else {
        0
    }
}

/// A file's age in seconds; a future mtime counts as age zero.
pub fn get_file_age(now: u64, filestat: &FileStatus) -> (age: u64)
    ensures
        age == file_age(now, filestat.mtime),
{
    if filestat.mtime <= now {
        now - filestat.mtime
    } else {
        0
    }
}

pub const FILE_TOO_OLD: u32 = 1;

pub const FILE_TOO_YOUNG: u32 = 2;

pub const FILE_NOT_A_FILE: u32 = 4;

pub const SRC_FILE_NOT_CHANGED: u32 = 8;

/// What the status filter reports for a file: a single flag, or zero when the
/// file is eligible for transfer.
pub open spec fn keep_status_spec(
    m: Map<Seq<char>, TrackInfo>,
    path: Seq<char>,
    st: FileStatus,
    now: u64,
    max_age: u64,
    min_age: u64,
    disable_overwrite: bool,
) -> u32 {
    if st.file_type != FileType::Regular {
        FILE_NOT_A_FILE
    } else if file_age(now, st.mtime) > max_age {
        FILE_TOO_OLD
    } else if file_age(now, st.mtime) < min_age {
        FILE_TOO_YOUNG
    } else if !disable_overwrite && m.contains_key(path) && m[path].size == st.size
        && m[path].lastmod == st.mtime {
        SRC_FILE_NOT_CHANGED
    } else {
        0
    }
}

/// Classifies a file by its observed status against the age window and, when
/// overwriting is enabled, against the tracker's record.
pub fn keep_status(
    tracker: &Tracker,
    path: &String,
    filestatus: FileStatus,
    now: u64,
    max_age: u64,
    min_age: u64,
    disable_overwrite: bool,
) -> (k: u32)
    requires
        tracker.wf(),
    ensures
        k == keep_status_spec(tracker@, path@, filestatus, now, max_age, min_age, disable_overwrite),
{
    if filestatus.file_type == FileType::Regular {
        let age = get_file_age(now, &filestatus);
        if age > max_age {
            FILE_TOO_OLD
        } else if age < min_age {
            FILE_TOO_YOUNG
        } else if !disable_overwrite {
            match tracker.check(path, filestatus) {
                TrackDelta::Equal => SRC_FILE_NOT_CHANGED,
                _ => 0,
            }
        } else {
            0
        }
    } else {
        FILE_NOT_A_FILE
    }
}

/// Where a listed entry goes.
#[derive(Clone, Copy, Debug, PartialEq, Eq, Structural)]
pub enum Route {
    /// Eligible: enqueue it for the transfer workers.
    Transfer,
    /// A directory, or too old: never to be transferred, recordable so later
    /// runs skip it.
    NeverTransfer,
    /// Too young: drop it, a later run will reconsider it.
    TooYoung,
    /// Tracked with the same size and mtime: nothing to do.
    Unchanged,
}

/// Which way the status filter routes an entry.
pub open spec fn route_spec(
    m: Map<Seq<char>, TrackInfo>,
    path: Seq<char>,
    st: FileStatus,
    now: u64,
    max_age: u64,
    min_age: u64,
    disable_overwrite: bool,
) -> Route {
    if st.file_type != FileType::Regular {
        Route::NeverTransfer
    } else if file_age(now, st.mtime) > max_age {
        Route::NeverTransfer
    } else if file_age(now, st.mtime) < min_age {
        Route::TooYoung
    } else if !disable_overwrite && m.contains_key(path) && m[path].size == st.size
        && m[path].lastmod == st.mtime {
        Route::Unchanged
    } else {
        Route::Transfer
    }
}

/// Routes one entry by the status filter's flags.
pub fn route_status(
    tracker: &Tracker,
    path: &String,
    st: FileStatus,
    now: u64,
    max_age: u64,
    min_age: u64,
    disable_overwrite: bool,
) -> (r: Route)
    requires
        tracker.wf(),
    ensures
        r == route_spec(tracker@, path@, st, now, max_age, min_age, disable_overwrite),
{
    let k = keep_status(tracker, path, st, now, max_age, min_age, disable_overwrite);
    proof {
        assert((0u32 & 4u32) == 0 && (0u32 & 1u32) == 0 && (0u32 & 2u32) == 0 && (0u32 & 8u32) == 0
            && (1u32 & 4u32) == 0 && (1u32 & 1u32) != 0 && (2u32 & 4u32) == 0 && (2u32 & 1u32) == 0
            && (2u32 & 2u32) != 0 && (4u32 & 4u32) != 0 && (8u32 & 4u32) == 0 && (8u32 & 1u32) == 0
            && (8u32 & 2u32) == 0 && (8u32 & 8u32) != 0) by (bit_vector);
    }
    if k & FILE_NOT_A_FILE != 0 || k & FILE_TOO_OLD != 0 {
        Route::NeverTransfer
    } else if k & FILE_TOO_YOUNG != 0 {
        Route::TooYoung
    } else if k & SRC_FILE_NOT_CHANGED != 0 {
        Route::Unchanged
    } else {
        Route::Transfer
    }
}

/// The options the listing pipeline reads.
#[derive(Clone, Copy, Debug)]
pub struct ListOptions {
    pub include_dot_files: bool,
    pub disable_overwrite: bool,
    pub dry_run: bool,
    pub add_all_to_tracker: bool,
    pub queue_as_found: bool,
    pub max_age: u64,
    pub min_age: u64,
}

/// The paths that pass the path filter, in their listed order.
pub open spec fn kept_paths(
    m: Map<Seq<char>, TrackInfo>,
    pattern: Seq<char>,
    paths: Seq<String>,
    include_dot_files: bool,
    disable_overwrite: bool,
) -> Seq<String>
    decreases paths.len(),
{
    if paths.len() == 0 {
        Seq::empty()
    } else {
        let rest = kept_paths(m, pattern, paths.drop_last(), include_dot_files, disable_overwrite);
        if path_filter_spec(m, pattern, paths.last()@, include_dot_files, disable_overwrite) {
            rest.push(paths.last())
        } else {
            rest
        }
    }
}

/// Applies the path filter to every listed path, keeping the survivors in
/// order. An error is a regex-engine fault on some path.
pub fn filter_paths(
    filter: &NameFilter,
    include_dot_files: bool,
    disable_overwrite: bool,
    paths: &Vec<String>,
    tracker: &Tracker,
) -> (r: Result<Vec<String>, RegexFault>)
    requires
        tracker.wf(),
    ensures
        r matches Ok(kept) ==> kept@ == kept_paths(
            tracker@,
            filter.pattern(),
            paths@,
            include_dot_files,
            disable_overwrite,
        ),
{
    let n = paths.len();
    let mut kept: Vec<String> = Vec::new();
    let mut i: usize = 0;
    while i < n
        invariant
            i <= n,
            n == paths@.len(),
            tracker.wf(),
            kept@ == kept_paths(
                tracker@,
                filter.pattern(),
                paths@.take(i as int),
                include_dot_files,
                disable_overwrite,
            ),
        decreases n - i,
    {
        proof {
            assert(paths@.take(i + 1).drop_last() =~= paths@.take(i as int));
            assert(paths@.take(i + 1).last() == paths@[i as int]);
        }
        match keep_path(filter, include_dot_files, disable_overwrite, &paths[i], tracker) {
            Err(e) => {
                return Err(e);
            },
            Ok(true) => {
                kept.push(paths[i].clone());
            },
            Ok(false) => {},
        }
        i += 1;
    }
    proof {
        assert(paths@.take(n as int) =~= paths@);
    }
    Ok(kept)
}

/// The entries the status filter routes a given way, in their listed order.
pub open spec fn routed_list(
    m: Map<Seq<char>, TrackInfo>,
    entries: Seq<(String, FileStatus)>,
    now: u64,
    max_age: u64,
    min_age: u64,
    disable_overwrite: bool,
    which: Route,
) -> Seq<(String, FileStatus)>
    decreases entries.len(),
{
    if entries.len() == 0 {
        Seq::empty()
    } else {
        let rest = routed_list(
            m,
            entries.drop_last(),
            now,
            max_age,
            min_age,
            disable_overwrite,
            which,
        );
        let e = entries.last();
        if route_spec(m, e.0@, e.1, now, max_age, min_age, disable_overwrite) == which {
            rest.push((e.0, e.1))
        } else {
            rest
        }
    }
}

/// The never-transfer entries folded into the tracker: each record replaces
/// whatever its path had, identity being the path alone.
pub open spec fn insert_all(
    m: Map<Seq<char>, TrackInfo>,
    items: Seq<(String, FileStatus)>,
) -> Map<Seq<char>, TrackInfo>
    decreases items.len(),
{
    if items.len() == 0 {
        m
    } else {
        let e = items.last();
        insert_all(m, items.drop_last()).insert(e.0@, TrackInfo { lastmod: e.1.mtime, size: e.1.size })
    }
}

/// What one listing pass produced.
pub struct ListOutcome {
    /// The eligible entries, to be handed to the transfer workers.
    pub to_transfer: Vec<(String, FileStatus)>,
    /// How many entries are never to be transferred.
    pub never2xfer: usize,
    /// How many entries were too young this run.
    pub too_young: usize,
    /// How many entries the tracker already holds unchanged.
    pub unchanged: usize,
}

/// Routes every listed entry by its status: collects the eligible ones for
/// the workers, counts the rest, and — when so configured — remembers the
/// never-transfer entries in the tracker so later runs skip them.
pub fn route_entries(
    opts: &ListOptions,
    entries: &Vec<(String, FileStatus)>,
    now: u64,
    tracker: &mut Tracker,
) -> (out: ListOutcome)
    requires
        old(tracker).wf(),
        forall|k: int|
            0 <= k < entries@.len() ==> valid_track_path((#[trigger] entries@[k]).0@),
    ensures
        final(tracker).wf(),
        out.to_transfer@ == routed_list(
            old(tracker)@,
            entries@,
            now,
            opts.max_age,
            opts.min_age,
            opts.disable_overwrite,
            Route::Transfer,
        ),
        out.never2xfer == routed_list(
            old(tracker)@,
            entries@,
            now,
            opts.max_age,
            opts.min_age,
            opts.disable_overwrite,
            Route::NeverTransfer,
        ).len(),
        out.too_young == routed_list(
            old(tracker)@,
            entries@,
            now,
            opts.max_age,
            opts.min_age,
            opts.disable_overwrite,
            Route::TooYoung,
        ).len(),
        out.unchanged == routed_list(
            old(tracker)@,
            entries@,
            now,
            opts.max_age,
            opts.min_age,
            opts.disable_overwrite,
            Route::Unchanged,
        ).len(),
        final(tracker)@ == if opts.add_all_to_tracker {
            insert_all(
                old(tracker)@,
                routed_list(
                    old(tracker)@,
                    entries@,
                    now,
                    opts.max_age,
                    opts.min_age,
                    opts.disable_overwrite,
                    Route::NeverTransfer,
                ),
            )
        } else {
            old(tracker)@
        },
{
    let ghost m0 = tracker@;
    let n = entries.len();
    let mut to_transfer: Vec<(String, FileStatus)> = Vec::new();
    let mut never: Vec<(String, FileStatus)> = Vec::new();
    let mut too_young: usize = 0;
    let mut unchanged: usize = 0;
    let mut i: usize = 0;
    while i < n
        invariant
            i <= n,
            n == entries@.len(),
            *tracker == *old(tracker),
            tracker.wf(),
            m0 == tracker@,
            too_young <= i,
            unchanged <= i,
            to_transfer@ == routed_list(
                m0,
                entries@.take(i as int),
                now,
                opts.max_age,
                opts.min_age,
                opts.disable_overwrite,
                Route::Transfer,
            ),
            never@ == routed_list(
                m0,
                entries@.take(i as int),
                now,
                opts.max_age,
                opts.min_age,
                opts.disable_overwrite,
                Route::NeverTransfer,
            ),
            too_young == routed_list(
                m0,
                entries@.take(i as int),
                now,
                opts.max_age,
                opts.min_age,
                opts.disable_overwrite,
                Route::TooYoung,
            ).len(),
            unchanged == routed_list(
                m0,
                entries@.take(i as int),
                now,
                opts.max_age,
                opts.min_age,
                opts.disable_overwrite,
                Route::Unchanged,
            ).len(),
        decreases n - i,
    {
        proof {
            assert(entries@.take(i + 1).drop_last() =~= entries@.take(i as int));
            assert(entries@.take(i + 1).last() == entries@[i as int]);
        }
        let path = &entries[i].0;
        let st = entries[i].1;
        let r = route_status(tracker, path, st, now, opts.max_age, opts.min_age,
            opts.disable_overwrite);
        match r {
            Route::Transfer => {
                to_transfer.push((path.clone(), st));
            },
            Route::NeverTransfer => {
                never.push((path.clone(), st));
            },
            Route::TooYoung => {
                too_young += 1;
            },
            Route::Unchanged => {
                unchanged += 1;
            },
        }
        i += 1;
    }
    proof {
        assert(entries@.take(n as int) =~= entries@);
    }
    let never_count = never.len();
    if opts.add_all_to_tracker {
        let ghost never_full = never@;
        proof {
            assert(forall|k: int|
                0 <= k < never_full.len() ==> valid_track_path(
                    (#[trigger] never_full[k]).0@,
                )) by {
                lemma_routed_list_from_entries(
                    m0,
                    entries@,
                    now,
                    opts.max_age,
                    opts.min_age,
                    opts.disable_overwrite,
                    Route::NeverTransfer,
                );
            }
        }
        let mut j: usize = 0;
        while j < never_count
            invariant
                j <= never_count,
                never_count == never@.len(),
                never@ == never_full,
                forall|k: int|
                    0 <= k < never_full.len() ==> valid_track_path((#[trigger] never_full[k]).0@),
                tracker.wf(),
                tracker@ == insert_all(m0, never@.take(j as int)),
            decreases never_count - j,
        {
            proof {
                assert(never@.take(j + 1).drop_last() =~= never@.take(j as int));
                assert(never@.take(j + 1).last() == never@[j as int]);
            }
            tracker.insert_path_and_status(&never[j].0, never[j].1);
            j += 1;
        }
        proof {
            assert(never@.take(never_count as int) =~= never@);
        }
    }
    ListOutcome { to_transfer, never2xfer: never_count, too_young, unchanged }
}

/// Whether a transfer worker skips a file because the destination already has
/// one under its name: only when overwriting is disabled.
pub fn should_skip_existing(dst_exists: bool, disable_overwrite: bool) -> (r: bool)
    ensures
        r == (dst_exists && disable_overwrite),
{
    dst_exists && disable_overwrite
}

/// Every routed entry is one of the listed entries.
pub proof fn lemma_routed_list_from_entries(
    m: Map<Seq<char>, TrackInfo>,
    entries: Seq<(String, FileStatus)>,
    now: u64,
    max_age: u64,
    min_age: u64,
    disable_overwrite: bool,
    which: Route,
)
    ensures
        forall|k: int|
            0 <= k < routed_list(m, entries, now, max_age, min_age, disable_overwrite, which).len()
                ==> exists|j: int|
                0 <= j < entries.len() && (#[trigger] routed_list(
                    m,
                    entries,
                    now,
                    max_age,
                    min_age,
                    disable_overwrite,
                    which,
                )[k]).0 == (#[trigger] entries[j]).0 && routed_list(
                    m,
                    entries,
                    now,
                    max_age,
                    min_age,
                    disable_overwrite,
                    which,
                )[k].1 == entries[j].1,
    decreases entries.len(),
{
    if entries.len() > 0 {
        let sub = entries.drop_last();
        assert(forall|j: int| 0 <= j < sub.len() ==> #[trigger] sub[j] == entries[j]);
        lemma_routed_list_from_entries(m, sub, now, max_age, min_age, disable_overwrite, which);
        let rsub = routed_list(m, sub, now, max_age, min_age, disable_overwrite, which);
        let rall = routed_list(m, entries, now, max_age, min_age, disable_overwrite, which);
        assert forall|k: int| 0 <= k < rall.len() implies exists|j: int|
            0 <= j < entries.len() && (#[trigger] rall[k]).0 == (#[trigger] entries[j]).0
                && rall[k].1 == entries[j].1 by {
            if k < rsub.len() {
                assert(rall[k] == rsub[k]);
                let j = choose|j: int|
                    0 <= j < sub.len() && (#[trigger] rsub[k]).0 == (#[trigger] sub[j]).0
                        && rsub[k].1 == sub[j].1;
                assert(0 <= j < entries.len() && rall[k].0 == entries[j].0 && rall[k].1
                    == entries[j].1);
            } else {
                let j = entries.len() - 1;
                assert(rall[k].0 == entries[j].0 && rall[k].1 == entries[j].1);
            }
        }
    }
}

/// No two listing entries name the same path, as holds of one directory's
/// listing.
pub open spec fn distinct_entry_paths(entries: Seq<(String, FileStatus)>) -> bool {
    forall|a: int, b: int|
        0 <= a < b < entries.len() ==> (#[trigger] entries[a]).0@ != (#[trigger] entries[b]).0@
}

/// Law, first half: every entry routed for transfer is enqueued — its path
/// stands in the work list.
pub proof fn lemma_eligible_path_queued(
    m: Map<Seq<char>, TrackInfo>,
    entries: Seq<(String, FileStatus)>,
    now: u64,
    max_age: u64,
    min_age: u64,
    disable_overwrite: bool,
    j: int,
)
    requires
        0 <= j < entries.len(),
        route_spec(m, entries[j].0@, entries[j].1, now, max_age, min_age, disable_overwrite)
            == Route::Transfer,
    ensures
        exists|k: int|
            0 <= k < routed_list(
                m,
                entries,
                now,
                max_age,
                min_age,
                disable_overwrite,
                Route::Transfer,
            ).len() && (#[trigger] routed_list(
                m,
                entries,
                now,
                max_age,
                min_age,
                disable_overwrite,
                Route::Transfer,
            )[k]).0@ == entries[j].0@,
    decreases entries.len(),
{
    let rall = routed_list(m, entries, now, max_age, min_age, disable_overwrite, Route::Transfer);
    if j == entries.len() - 1 {
        assert(rall[rall.len() - 1].0@ == entries[j].0@);
    } else {
        let sub = entries.drop_last();
        assert(sub[j] == entries[j]);
        lemma_eligible_path_queued(m, sub, now, max_age, min_age, disable_overwrite, j);
        let rsub = routed_list(m, sub, now, max_age, min_age, disable_overwrite, Route::Transfer);
        let k = choose|k: int| 0 <= k < rsub.len() && (#[trigger] rsub[k]).0@ == entries[j].0@;
        assert(rall[k].0@ == entries[j].0@);
    }
}

/// Law, second half: the work list holds each path at most once when the
/// listing's paths are distinct. That each enqueued item then reaches exactly
/// one worker is the work channel's delivery discipline, outside the library.
pub proof fn lemma_queued_paths_distinct(
    m: Map<Seq<char>, TrackInfo>,
    entries: Seq<(String, FileStatus)>,
    now: u64,
    max_age: u64,
    min_age: u64,
    disable_overwrite: bool,
)
    requires
        distinct_entry_paths(entries),
    ensures
        distinct_entry_paths(
            routed_list(m, entries, now, max_age, min_age, disable_overwrite, Route::Transfer),
        ),
    decreases entries.len(),
{
    if entries.len() > 0 {
        let sub = entries.drop_last();
        assert(forall|j: int| 0 <= j < sub.len() ==> #[trigger] sub[j] == entries[j]);
        lemma_queued_paths_distinct(m, sub, now, max_age, min_age, disable_overwrite);
        lemma_routed_list_from_entries(
            m,
            sub,
            now,
            max_age,
            min_age,
            disable_overwrite,
            Route::Transfer,
        );
        let rsub = routed_list(m, sub, now, max_age, min_age, disable_overwrite, Route::Transfer);
        let rall = routed_list(
            m,
            entries,
            now,
            max_age,
            min_age,
            disable_overwrite,
            Route::Transfer,
        );
        if rall.len() > rsub.len() {
            let last = entries.last();
            assert forall|a: int| 0 <= a < rsub.len() implies (#[trigger] rsub[a]).0@ != last.0@ by {
                let j = choose|j: int|
                    0 <= j < sub.len() && (#[trigger] rsub[a]).0 == (#[trigger] sub[j]).0
                        && rsub[a].1 == sub[j].1;
                assert(entries[j].0@ != entries[entries.len() - 1].0@);
            }
            assert forall|a: int, b: int|
                0 <= a < b < rall.len() implies (#[trigger] rall[a]).0@ != (
            #[trigger] rall[b]).0@ by {
                if b < rsub.len() {
                    assert(rall[a] == rsub[a] && rall[b] == rsub[b]);
                } else {
                    assert(rall[b] == (last.0, last.1));
                    assert(rall[a] == rsub[a]);
                }
            }
        }
    }
}

/// Law: with overwriting disabled, a path the tracker already holds never
/// passes the path filter, so it is never enqueued again.
pub proof fn lemma_tracked_never_requeued(
    m: Map<Seq<char>, TrackInfo>,
    pattern: Seq<char>,
    paths: Seq<String>,
    include_dot_files: bool,
    p: Seq<char>,
)
    requires
        m.contains_key(p),
    ensures
        forall|k: int|
            0 <= k < kept_paths(m, pattern, paths, include_dot_files, true).len() ==> (
            #[trigger] kept_paths(m, pattern, paths, include_dot_files, true)[k])@ != p,
    decreases paths.len(),
{
    if paths.len() > 0 {
        let sub = paths.drop_last();
        lemma_tracked_never_requeued(m, pattern, sub, include_dot_files, p);
        let rsub = kept_paths(m, pattern, sub, include_dot_files, true);
        let rall = kept_paths(m, pattern, paths, include_dot_files, true);
        assert forall|k: int| 0 <= k < rall.len() implies (#[trigger] rall[k])@ != p by {
            if k < rsub.len() {
                assert(rall[k] == rsub[k]);
            } else {
                assert(rall[k] == paths.last());
                assert(path_filter_spec(m, pattern, paths.last()@, include_dot_files, true));
                assert(!(m.contains_key(paths.last()@)) || !true);
            }
        }
    }
}

} // verus!
