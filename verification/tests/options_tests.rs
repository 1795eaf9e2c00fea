use dirxfer::options::{
    check_url, to_duration, to_log_level, to_perm, to_size_u64, to_size_usize, LogLevel, OptError,
    UrlError, UrlParts,
};

#[test]
fn duration_bare_number_is_seconds() {
    assert_eq!(to_duration("90").unwrap(), 90);
    assert_eq!(to_duration("0").unwrap(), 0);
}

#[test]
fn duration_units_sum() {
    assert_eq!(to_duration("90s").unwrap(), 90);
    assert_eq!(to_duration("5m30s").unwrap(), 330);
    assert_eq!(to_duration("2h").unwrap(), 7200);
    assert_eq!(to_duration("1d").unwrap(), 86_400);
    assert_eq!(to_duration("1w1d1h1m1s").unwrap(), 604_800 + 86_400 + 3600 + 60 + 1);
    assert_eq!(to_duration("1m30").unwrap(), 90);
}

#[test]
fn duration_empty_is_zero() {
    assert_eq!(to_duration("").unwrap(), 0);
}

#[test]
fn duration_malformed() {
    assert_eq!(to_duration("m5").unwrap_err(), OptError::Malformed);
    assert_eq!(to_duration("5x").unwrap_err(), OptError::Malformed);
    assert_eq!(to_duration("5m3q").unwrap_err(), OptError::Malformed);
}

#[test]
fn duration_overflow() {
    assert_eq!(
        to_duration("99999999999999999999").unwrap_err(),
        OptError::Overflow
    );
    assert_eq!(to_duration("99999999999999999w").unwrap_err(), OptError::Overflow);
}

#[test]
fn size_units_scale() {
    assert_eq!(to_size_u64("64k").unwrap(), 64 * 1024);
    assert_eq!(to_size_u64("64K").unwrap(), 64 * 1024);
    assert_eq!(to_size_u64("1M512k").unwrap(), 1_048_576 + 512 * 1024);
    assert_eq!(to_size_u64("2g").unwrap(), 2 * 1_073_741_824);
    assert_eq!(to_size_u64("1T").unwrap(), 1_099_511_627_776);
    assert_eq!(to_size_u64("1p").unwrap(), 1_125_899_906_842_624);
    assert_eq!(to_size_u64("100").unwrap(), 100);
}

#[test]
fn size_malformed_and_overflow() {
    assert_eq!(to_size_u64("k1").unwrap_err(), OptError::Malformed);
    assert_eq!(to_size_u64("1z").unwrap_err(), OptError::Malformed);
    assert_eq!(
        to_size_u64("999999999999999999999k").unwrap_err(),
        OptError::Overflow
    );
}

#[test]
fn size_usize_matches_u64() {
    assert_eq!(to_size_usize("64k").unwrap(), 65_536usize);
    assert_eq!(to_size_usize("bad").unwrap_err(), OptError::Malformed);
}

#[test]
fn perm_parses_octal() {
    assert_eq!(to_perm("777").unwrap(), 0o777);
    assert_eq!(to_perm("644").unwrap(), 0o644);
    assert_eq!(to_perm("0").unwrap(), 0);
}

#[test]
fn perm_rejects_bad_digits_and_overflow() {
    assert_eq!(to_perm("8").unwrap_err(), OptError::Malformed);
    assert_eq!(to_perm("").unwrap_err(), OptError::Malformed);
    assert_eq!(to_perm("77777777777777").unwrap_err(), OptError::Overflow);
}

#[test]
fn log_levels_by_word_and_letter() {
    assert_eq!(to_log_level("off").unwrap(), LogLevel::Off);
    assert_eq!(to_log_level("o").unwrap(), LogLevel::Off);
    assert_eq!(to_log_level("error").unwrap(), LogLevel::Error);
    assert_eq!(to_log_level("e").unwrap(), LogLevel::Error);
    assert_eq!(to_log_level("warn").unwrap(), LogLevel::Warn);
    assert_eq!(to_log_level("w").unwrap(), LogLevel::Warn);
    assert_eq!(to_log_level("info").unwrap(), LogLevel::Info);
    assert_eq!(to_log_level("i").unwrap(), LogLevel::Info);
    assert_eq!(to_log_level("debug").unwrap(), LogLevel::Debug);
    assert_eq!(to_log_level("d").unwrap(), LogLevel::Debug);
    assert_eq!(to_log_level("trace").unwrap(), LogLevel::Trace);
    assert_eq!(to_log_level("t").unwrap(), LogLevel::Trace);
    assert!(to_log_level("loud").is_err());
}

fn url(scheme: &str, username: &str, port: Option<u16>) -> UrlParts {
    UrlParts {
        scheme: scheme.to_string(),
        username: username.to_string(),
        port,
        path: "/data".to_string(),
    }
}

#[test]
fn url_file_accepted() {
    assert!(check_url(&url("file", "", None)).is_ok());
}

#[test]
fn url_sftp_needs_port_and_username() {
    assert!(check_url(&url("sftp", "user", Some(22))).is_ok());
    assert_eq!(
        check_url(&url("sftp", "user", None)).unwrap_err(),
        UrlError::MissingPort
    );
    assert_eq!(
        check_url(&url("sftp", "", Some(22))).unwrap_err(),
        UrlError::MissingUsername
    );
}

#[test]
fn url_other_schemes_rejected() {
    assert_eq!(
        check_url(&url("http", "user", Some(80))).unwrap_err(),
        UrlError::BadScheme
    );
}
