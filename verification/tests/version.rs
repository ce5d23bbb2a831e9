use cleandisk::version::parse_version;

#[test]
fn semantic_versions_compare_numerically_and_release_wins() {
    assert!(parse_version("1.10.0").unwrap() > parse_version("1.9.9").unwrap());
    assert_eq!(
        parse_version("1.2").unwrap(),
        parse_version("1.2.0").unwrap()
    );
    assert!(parse_version("2.0.0").unwrap() > parse_version("2.0.0-beta.1").unwrap());
}

#[test]
fn version_parts_are_parsed() {
    let v = parse_version("1.10.3-rc.2-x").unwrap();
    assert_eq!(v.numbers, vec![1, 10, 3]);
    assert_eq!(v.prerelease.as_deref(), Some("rc.2-x"));
    let plain = parse_version("+7.0").unwrap();
    assert_eq!(plain.numbers, vec![7, 0]);
    assert_eq!(plain.prerelease, None);
}

#[test]
fn malformed_versions_are_rejected() {
    assert!(parse_version("").is_none());
    assert!(parse_version("1..2").is_none());
    assert!(parse_version("1.x").is_none());
    assert!(parse_version("-1.0").is_none());
    assert!(parse_version("1.-2").is_none());
    assert!(parse_version("18446744073709551616").is_none());
    assert_eq!(parse_version("18446744073709551615").unwrap().numbers, vec![u64::MAX]);
}

#[test]
fn trailing_zeros_do_not_count() {
    assert_eq!(parse_version("3").unwrap(), parse_version("3.0.0.0").unwrap());
    assert!(parse_version("3.0.0.1").unwrap() > parse_version("3").unwrap());
}

#[test]
fn prerelease_tags_compare_by_bytes() {
    assert!(parse_version("1.0.0-beta").unwrap() > parse_version("1.0.0-alpha").unwrap());
    assert!(parse_version("1.0.0-beta.10").unwrap() < parse_version("1.0.0-beta.9").unwrap());
    assert!(parse_version("1.0.0").unwrap() > parse_version("1.0.0-zzz").unwrap());
}
