//! Option-value parsing: durations like `90m`, sizes like `64k`, octal
//! permission bits, log levels, and the URL shape check. Command-line
//! plumbing itself lives outside; these functions give each option value its
//! exact meaning.

use vstd::prelude::*;
use vstd::string::*;
use crate::text::{all_digits, dec_val, is_digit, parse_u64_dec, str_is};

verus! {

/// Why an option value was rejected.
#[derive(Clone, Copy, Debug, PartialEq, Eq, Structural)]
pub enum OptError {
    /// The value does not follow the option's grammar.
    Malformed,
    /// The value follows the grammar but does not fit its integer type.
    Overflow,
}

/// Seconds per duration unit letter.
pub open spec fn unit_secs(c: char) -> Option<u64> {
    if c == 's' {
        Some(1u64)
    } else if c == 'm' {
        Some(60u64)
    } else if c == 'h' {
        Some(3600u64)
    } else if c == 'd' {
        Some(86400u64)
    } else if c == 'w' {
        Some(604800u64)
    } else {
        None
    }
}

/// Bytes per size unit letter.
pub open spec fn unit_bytes(c: char) -> Option<u64> {
    if c == 'k' || c == 'K' {
        Some(1024u64)
    } else if c == 'm' || c == 'M' {
        Some(1048576u64)
    } else if c == 'g' || c == 'G' {
        Some(1073741824u64)
    } else if c == 't' || c == 'T' {
        Some(1099511627776u64)
    } else if c == 'p' || c == 'P' {
        Some(1125899906842624u64)
    } else {
        None
    }
}

/// Where the digit run that starts at `from` ends.
pub open spec fn digit_run(s: Seq<char>, from: int) -> int
    decreases s.len() - from,
{
    if from < 0 || from >= s.len() || !is_digit(s[from]) {
        from
    } else {
        digit_run(s, from + 1)
    }
}

pub proof fn lemma_digit_run(s: Seq<char>, from: int)
    requires
        0 <= from <= s.len(),
    ensures
        from <= digit_run(s, from) <= s.len(),
        forall|k: int| from <= k < digit_run(s, from) ==> is_digit(#[trigger] s[k]),
        digit_run(s, from) < s.len() ==> !is_digit(s[digit_run(s, from)]),
    decreases s.len() - from,
{
    if from < s.len() && is_digit(s[from]) {
        lemma_digit_run(s, from + 1);
    }
}

pub proof fn lemma_digit_run_is(s: Seq<char>, from: int, end: int)
    requires
        0 <= from <= end <= s.len(),
        forall|k: int| from <= k < end ==> is_digit(#[trigger] s[k]),
        end < s.len() ==> !is_digit(s[end]),
    ensures
        digit_run(s, from) == end,
    decreases end - from,
{
    if from < end {
        lemma_digit_run_is(s, from + 1, end);
    }
}

/// The value of a number-with-units string read from position `from`: digit
/// runs, each scaled by the unit letter that follows it, summed; a trailing
/// bare run counts as is. The value is unbounded; fitting the integer type is
/// the parser's business.
pub open spec fn suffixed_value(s: Seq<char>, from: int, unit: spec_fn(char) -> Option<u64>) ->
    Option<nat>
    decreases s.len() - from,
    via suffixed_value_decreases
{
    if from < 0 || from > s.len() {
        None
    } else if from == s.len() {
        Some(0)
    } else {
        let end = digit_run(s, from);
        if end == from {
            None
        } else {
            let v = dec_val(s.subrange(from, end));
            if end == s.len() {
                Some(v)
            } else {
                match unit(s[end]) {
                    Option::None => None,
                    Option::Some(mul) => match suffixed_value(s, end + 1, unit) {
                        Option::None => None,
                        Option::Some(rest) => Some((v * mul + rest) as nat),
                    },
                }
            }
        }
    }
}

#[via_fn]
proof fn suffixed_value_decreases(s: Seq<char>, from: int, unit: spec_fn(char) -> Option<u64>) {
    if 0 <= from && from < s.len() {
        lemma_digit_run(s, from);
    }
}

/// The seconds a duration string denotes, if well formed.
pub open spec fn duration_value_from(s: Seq<char>, from: int) -> Option<nat> {
    suffixed_value(s, from, |c: char| unit_secs(c))
}

/// The seconds a duration string denotes, if well formed.
pub open spec fn duration_value(s: Seq<char>) -> Option<nat> {
    duration_value_from(s, 0)
}

/// The bytes a size string denotes, if well formed.
pub open spec fn size_value_from(s: Seq<char>, from: int) -> Option<nat> {
    suffixed_value(s, from, |c: char| unit_bytes(c))
}

/// The bytes a size string denotes, if well formed.
pub open spec fn size_value(s: Seq<char>) -> Option<nat> {
    size_value_from(s, 0)
}

/// The duration unit letter's factor.
fn unit_secs_exec(c: char) -> (r: Option<u64>)
    ensures
        r == unit_secs(c),
{
    match c {
        's' => Some(1),
        'm' => Some(60),
        'h' => Some(3600),
        'd' => Some(86400),
        'w' => Some(604800),
        _ => None,
    }
}

/// The size unit letter's factor.
fn unit_bytes_exec(c: char) -> (r: Option<u64>)
    ensures
        r == unit_bytes(c),
{
    match c {
        'k' | 'K' => Some(1024),
        'm' | 'M' => Some(1048576),
        'g' | 'G' => Some(1073741824),
        't' | 'T' => Some(1099511627776),
        'p' | 'P' => Some(1125899906842624),
        _ => None,
    }
}

/// Scans the digit run starting at `from`.
fn scan_digit_run(s: &str, from: usize) -> (end: usize)
    requires
        from <= s@.len(),
    ensures
        end == digit_run(s@, from as int),
        from <= end <= s@.len(),
{
    let len = s.unicode_len();
    let mut end: usize = from;
    while end < len
        invariant
            from <= end <= len,
            len == s@.len(),
            forall|k: int| from <= k < end ==> is_digit(#[trigger] s@[k]),
        decreases len - end,
    {
        let c = s.get_char(end);
        if c < '0' || c > '9' {
            proof {
                lemma_digit_run_is(s@, from as int, end as int);
            }
            return end;
        }
        end += 1;
    }
    proof {
        lemma_digit_run_is(s@, from as int, len as int);
    }
    end
}

fn parse_duration_from(s: &str, from: usize) -> (r: Result<u64, OptError>)
    requires
        from <= s@.len(),
    ensures
        r matches Ok(v) ==> duration_value_from(s@, from as int) == Some(v as nat),
        (r matches Err(e) && e == OptError::Malformed) <==> duration_value_from(
            s@,
            from as int,
        ) is None,
        (r matches Err(e) && e == OptError::Overflow) <==> (duration_value_from(s@, from as int)
            matches Some(n) && n > u64::MAX),
    decreases s@.len() - from,
{
    let len = s.unicode_len();
    if from == len {
        return Ok(0);
    }
    let end = scan_digit_run(s, from);
    if end == from {
        return Err(OptError::Malformed);
    }
    let num_str = s.substring_char(from, end);
    let v_opt = parse_u64_dec(num_str);
    proof {
        lemma_digit_run(s@, from as int);
        assert(num_str@.len() > 0 && all_digits(num_str@));
    }
    if end == len {
        return match v_opt {
            Some(v) => Ok(v),
            None => Err(OptError::Overflow),
        };
    }
    let c = s.get_char(end);
    let mul = match unit_secs_exec(c) {
        None => {
            return Err(OptError::Malformed);
        },
        Some(m) => m,
    };
    let rest = match parse_duration_from(s, end + 1) {
        Err(e) => {
            proof {
                if e == OptError::Overflow {
                    let ghost vn = dec_val(num_str@);
                    let ghost rn = duration_value_from(s@, end + 1).unwrap();
                    assert(vn * mul + rn > u64::MAX) by (nonlinear_arith)
                        requires
                            rn > u64::MAX,
                            vn >= 0,
                            mul >= 1,
                    ;
                }
            }
            return Err(e);
        },
        Ok(rest) => rest,
    };
    let v = match v_opt {
        None => {
            proof {
                let ghost vn = dec_val(num_str@);
                let ghost rn = duration_value_from(s@, end + 1).unwrap();
                assert(vn * mul + rn > u64::MAX) by (nonlinear_arith)
                    requires
                        vn > u64::MAX,
                        rn >= 0,
                        mul >= 1,
                ;
            }
            return Err(OptError::Overflow);
        },
        Some(v) => v,
    };
    let scaled = match v.checked_mul(mul) {
        None => {
            proof {
                let ghost vn = dec_val(num_str@);
                let ghost rn = duration_value_from(s@, end + 1).unwrap();
                assert(vn * mul + rn > u64::MAX) by (nonlinear_arith)
                    requires
                        vn * mul > u64::MAX,
                        rn >= 0,
                ;
            }
            return Err(OptError::Overflow);
        },
        Some(x) => x,
    };
    match scaled.checked_add(rest) {
        None => Err(OptError::Overflow),
        Some(t) => Ok(t),
    }
}

fn parse_size_from(s: &str, from: usize) -> (r: Result<u64, OptError>)
    requires
        from <= s@.len(),
    ensures
        r matches Ok(v) ==> size_value_from(s@, from as int) == Some(v as nat),
        (r matches Err(e) && e == OptError::Malformed) <==> size_value_from(
            s@,
            from as int,
        ) is None,
        (r matches Err(e) && e == OptError::Overflow) <==> (size_value_from(s@, from as int)
            matches Some(n) && n > u64::MAX),
    decreases s@.len() - from,
{
    let len = s.unicode_len();
    if from == len {
        return Ok(0);
    }
    let end = scan_digit_run(s, from);
    if end == from {
        return Err(OptError::Malformed);
    }
    let num_str = s.substring_char(from, end);
    let v_opt = parse_u64_dec(num_str);
    proof {
        lemma_digit_run(s@, from as int);
        assert(num_str@.len() > 0 && all_digits(num_str@));
    }
    if end == len {
        return match v_opt {
            Some(v) => Ok(v),
            None => Err(OptError::Overflow),
        };
    }
    let c = s.get_char(end);
    let mul = match unit_bytes_exec(c) {
        None => {
            return Err(OptError::Malformed);
        },
        Some(m) => m,
    };
    let rest = match parse_size_from(s, end + 1) {
        Err(e) => {
            proof {
                if e == OptError::Overflow {
                    let ghost vn = dec_val(num_str@);
                    let ghost rn = size_value_from(s@, end + 1).unwrap();
                    assert(vn * mul + rn > u64::MAX) by (nonlinear_arith)
                        requires
                            rn > u64::MAX,
                            vn >= 0,
                            mul >= 1,
                    ;
                }
            }
            return Err(e);
        },
        Ok(rest) => rest,
    };
    let v = match v_opt {
        None => {
            proof {
                let ghost vn = dec_val(num_str@);
                let ghost rn = size_value_from(s@, end + 1).unwrap();
                assert(vn * mul + rn > u64::MAX) by (nonlinear_arith)
                    requires
                        vn > u64::MAX,
                        rn >= 0,
                        mul >= 1,
                ;
            }
            return Err(OptError::Overflow);
        },
        Some(v) => v,
    };
    let scaled = match v.checked_mul(mul) {
        None => {
            proof {
                let ghost vn = dec_val(num_str@);
                let ghost rn = size_value_from(s@, end + 1).unwrap();
                assert(vn * mul + rn > u64::MAX) by (nonlinear_arith)
                    requires
                        vn * mul > u64::MAX,
                        rn >= 0,
                ;
            }
            return Err(OptError::Overflow);
        },
        Some(x) => x,
    };
    match scaled.checked_add(rest) {
        None => Err(OptError::Overflow),
        Some(t) => Ok(t),
    }
}

/// Parses a duration such as `90s`, `5m30s` or `2h` into whole seconds; a
/// bare number is seconds.
pub fn to_duration(s: &str) -> (r: Result<u64, OptError>)
    ensures
        r matches Ok(v) ==> duration_value(s@) == Some(v as nat),
        (r matches Err(e) && e == OptError::Malformed) <==> duration_value(s@) is None,
        (r matches Err(e) && e == OptError::Overflow) <==> (duration_value(s@) matches Some(n) && n
            > u64::MAX),
{
    parse_duration_from(s, 0)
}

/// Parses a size such as `64k`, `1M512k` or `2g` into bytes; a bare number is
/// bytes.
pub fn to_size_u64(s: &str) -> (r: Result<u64, OptError>)
    ensures
        r matches Ok(v) ==> size_value(s@) == Some(v as nat),
        (r matches Err(e) && e == OptError::Malformed) <==> size_value(s@) is None,
        (r matches Err(e) && e == OptError::Overflow) <==> (size_value(s@) matches Some(n) && n
            > u64::MAX),
{
    parse_size_from(s, 0)
}

/// Parses a size into bytes that fit a usize.
pub fn to_size_usize(s: &str) -> (r: Result<usize, OptError>)
    ensures
        r matches Ok(v) ==> size_value(s@) == Some(v as nat),
        (r matches Err(e) && e == OptError::Malformed) <==> size_value(s@) is None,
        (r matches Err(e) && e == OptError::Overflow) <==> (size_value(s@) matches Some(n) && n
            > usize::MAX),
{
    match to_size_u64(s) {
        Err(e) => Err(e),
        Ok(v) => {
            if v <= usize::MAX as u64 {
                Ok(v as usize)
            } else {
                Err(OptError::Overflow)
            }
        },
    }
}

/// An octal digit.
pub open spec fn is_oct(c: char) -> bool {
    '0' as u32 <= c as u32 && c as u32 <= '7' as u32
}

pub open spec fn all_oct(s: Seq<char>) -> bool {
    forall|i: int| 0 <= i < s.len() ==> is_oct(#[trigger] s[i])
}

/// The numeric value of a sequence of octal digit characters.
pub open spec fn oct_val(s: Seq<char>) -> nat
    decreases s.len(),
{
    if s.len() == 0 {
        0
    } else {
        oct_val(s.drop_last()) * 8 + (s.last() as u32 - '0' as u32) as nat
    }
}

proof fn lemma_oct_val_prefix(s: Seq<char>, i: int)
    requires
        0 <= i <= s.len(),
    ensures
        oct_val(s.take(i)) <= oct_val(s),
    decreases s.len() - i,
{
    if i == s.len() {
        assert(s.take(i) =~= s);
    } else {
        lemma_oct_val_prefix(s, i + 1);
        assert(s.take(i + 1).drop_last() =~= s.take(i));
    }
}

/// Parses octal permission bits such as `777`.
pub fn to_perm(s: &str) -> (r: Result<u32, OptError>)
    ensures
        r matches Ok(v) ==> s@.len() > 0 && all_oct(s@) && v == oct_val(s@),
        (r matches Err(e) && e == OptError::Malformed) <==> (s@.len() == 0 || !all_oct(s@)),
        (r matches Err(e) && e == OptError::Overflow) <==> (s@.len() > 0 && all_oct(s@) && oct_val(
            s@,
        ) > u32::MAX),
{
    let len = s.unicode_len();
    if len == 0 {
        return Err(OptError::Malformed);
    }
    let mut i: usize = 0;
    while i < len
        invariant
            0 <= i <= len,
            len == s@.len(),
            all_oct(s@.take(i as int)),
        decreases len - i,
    {
        let c = s.get_char(i);
        if c < '0' || c > '7' {
            assert(!is_oct(s@[i as int]));
            return Err(OptError::Malformed);
        }
        proof {
            assert(s@.take(i + 1).drop_last() =~= s@.take(i as int));
            assert(s@.take(i + 1).last() == s@[i as int]);
        }
        i += 1;
    }
    proof {
        assert(s@.take(len as int) =~= s@);
    }
    let mut acc: u32 = 0;
    let mut i: usize = 0;
    while i < len
        invariant
            0 <= i <= len,
            len == s@.len(),
            all_oct(s@),
            acc == oct_val(s@.take(i as int)),
        decreases len - i,
    {
        let c = s.get_char(i);
        let d: u32 = c as u32 - '0' as u32;
        proof {
            assert(s@.take(i + 1).drop_last() =~= s@.take(i as int));
            assert(s@.take(i + 1).last() == s@[i as int]);
        }
        let next: Option<u32> = match acc.checked_mul(8) {
            Some(t) => t.checked_add(d),
            None => None,
        };
        match next {
            None => {
                proof {
                    assert(oct_val(s@.take(i + 1)) > u32::MAX);
                    lemma_oct_val_prefix(s@, i + 1);
                }
                return Err(OptError::Overflow);
            },
            Some(v) => {
                acc = v;
            },
        }
        i += 1;
    }
    proof {
        assert(s@.take(len as int) =~= s@);
    }
    Ok(acc)
}

/// Compiles the filename pattern, folding the regex engine's own report of a
/// bad pattern into the library's error: it succeeds exactly on the patterns
/// the engine accepts.
pub fn to_regex(s: &str) -> (r: Result<crate::lister::NameFilter, OptError>)
    ensures
        r is Ok <==> crate::lister::regex_accepts(s@),
        r matches Ok(f) ==> f.pattern() == s@,
        r matches Err(e) ==> e == OptError::Malformed,
{
    match crate::lister::NameFilter::new(s) {
        Ok(f) => Ok(f),
        Err(_) => Err(OptError::Malformed),
    }
}

/// A logging verbosity level.
#[derive(Clone, Copy, Debug, PartialEq, Eq, Structural)]
pub enum LogLevel {
    Off,
    Error,
    Warn,
    Info,
    Debug,
    Trace,
}

/// The level a spelling denotes: each level by its word or its first letter.
pub open spec fn log_level_of(s: Seq<char>) -> Option<LogLevel> {
    if s == "off"@ || s == "o"@ {
        Some(LogLevel::Off)
    } else if s == "error"@ || s == "e"@ {
        Some(LogLevel::Error)
    } else if s == "warn"@ || s == "w"@ {
        Some(LogLevel::Warn)
    } else if s == "info"@ || s == "i"@ {
        Some(LogLevel::Info)
    } else if s == "debug"@ || s == "d"@ {
        Some(LogLevel::Debug)
    } else if s == "trace"@ || s == "t"@ {
        Some(LogLevel::Trace)
    } else {
        None
    }
}

/// Parses a log level spelling.
pub fn to_log_level(s: &str) -> (r: Result<LogLevel, OptError>)
    ensures
        r matches Ok(l) ==> log_level_of(s@) == Some(l),
        r is Err <==> log_level_of(s@) is None,
{
    if str_is(s, "off") || str_is(s, "o") {
        Ok(LogLevel::Off)
    } else if str_is(s, "error") || str_is(s, "e") {
        Ok(LogLevel::Error)
    } else if str_is(s, "warn") || str_is(s, "w") {
        Ok(LogLevel::Warn)
    } else if str_is(s, "info") || str_is(s, "i") {
        Ok(LogLevel::Info)
    } else if str_is(s, "debug") || str_is(s, "d") {
        Ok(LogLevel::Debug)
    } else if str_is(s, "trace") || str_is(s, "t") {
        Ok(LogLevel::Trace)
    } else {
        Err(OptError::Malformed)
    }
}

/// The parts of a source or destination URL that the shape check reads. The
/// URL parser itself stays outside the library and hands these in.
#[derive(Debug, Clone)]
pub struct UrlParts {
    pub scheme: String,
    pub username: String,
    pub port: Option<u16>,
    pub path: String,
}

/// Why a URL was rejected.
#[derive(Clone, Copy, Debug, PartialEq, Eq, Structural)]
pub enum UrlError {
    /// Neither `sftp` nor `file`.
    BadScheme,
    /// An `sftp` URL must set its port explicitly.
    MissingPort,
    /// An `sftp` URL must set its username explicitly.
    MissingUsername,
}

/// Accepts `file` URLs, and `sftp` URLs that set a port and a username.
pub fn check_url(u: &UrlParts) -> (r: Result<(), UrlError>)
    ensures
        r is Ok <==> (u.scheme@ == "file"@ || (u.scheme@ == "sftp"@ && u.port is Some
            && u.username@.len() > 0)),
        (r matches Err(e) && e == UrlError::MissingPort) <==> (u.scheme@ == "sftp"@
            && u.port is None),
        (r matches Err(e) && e == UrlError::MissingUsername) <==> (u.scheme@ == "sftp"@
            && u.port is Some && u.username@.len() == 0),
        (r matches Err(e) && e == UrlError::BadScheme) <==> (u.scheme@ != "sftp"@ && u.scheme@
            != "file"@),
{
    proof {
        reveal_strlit("sftp");
        reveal_strlit("file");
        assert("sftp"@[0] == 's' && "file"@[0] == 'f');
        assert("sftp"@ != "file"@);
    }
    if str_is(u.scheme.as_str(), "sftp") {
        if u.port.is_none() {
            return Err(UrlError::MissingPort);
        }
        if u.username.unicode_len() == 0 {
            return Err(UrlError::MissingUsername);
        }
        Ok(())
    } else if str_is(u.scheme.as_str(), "file") {
        Ok(())
    } else {
        Err(UrlError::BadScheme)
    }
}

} // verus!
