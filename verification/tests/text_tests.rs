use dirxfer::text::{find_char, parse_u64_dec, str_is, to_err, u64_to_dec};

#[test]
fn str_is_compares_contents() {
    assert!(str_is("abc", "abc"));
    assert!(!str_is("abc", "abd"));
    assert!(!str_is("abc", "ab"));
    assert!(str_is("", ""));
}

#[test]
fn to_err_maps_option() {
    assert_eq!(to_err(Some(5), "nope"), Ok(5));
    assert_eq!(to_err::<u32, &str>(None, "nope"), Err("nope"));
}

#[test]
fn decimal_print_and_parse() {
    assert_eq!(u64_to_dec(0), "0");
    assert_eq!(u64_to_dec(42), "42");
    assert_eq!(u64_to_dec(u64::MAX), "18446744073709551615");
    assert_eq!(parse_u64_dec("0"), Some(0));
    assert_eq!(parse_u64_dec("18446744073709551615"), Some(u64::MAX));
    assert_eq!(parse_u64_dec("18446744073709551616"), None);
    assert_eq!(parse_u64_dec(""), None);
    assert_eq!(parse_u64_dec("12a"), None);
    for n in [0u64, 1, 9, 10, 12345, 4096] {
        assert_eq!(parse_u64_dec(&u64_to_dec(n)), Some(n));
    }
}

#[test]
fn find_char_scans_forward() {
    assert_eq!(find_char("a.b.c", 0, '.'), Some(1));
    assert_eq!(find_char("a.b.c", 2, '.'), Some(3));
    assert_eq!(find_char("a.b.c", 4, '.'), None);
    assert_eq!(find_char("", 0, '.'), None);
}

#[test]
fn to_regex_compiles_through_the_engine() {
    assert!(dirxfer::options::to_regex(".*").is_ok());
    assert_eq!(
        dirxfer::options::to_regex("(").unwrap_err(),
        dirxfer::options::OptError::Malformed
    );
}
