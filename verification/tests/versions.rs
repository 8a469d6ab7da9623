use shelv::shared::{compare_versions, version_notice, Version, VersionNotice, VersionResponse};
use std::cmp::Ordering;

#[test]
fn test_version_comparison() {
    let v = |v: &str| Version(v.to_string());
    let test_cases = [
        (v("1.2.2"), v("1.2.2"), Ordering::Equal),
        (v("1.2.3"), v("1.2.2"), Ordering::Greater),
        (v("1.3.2"), v("1.2.2"), Ordering::Greater),
        (v("2.0.0"), v("1.9.9"), Ordering::Greater),
        (v("1.2.1"), v("1.2.2"), Ordering::Less),
        (v("1.1.9"), v("1.2.0"), Ordering::Less),
        (v("1.9.9"), v("2.0.0"), Ordering::Less),
    ];
    for (a, b, expected) in test_cases {
        assert_eq!(compare_versions(&a, &b), expected);
    }
}

#[test]
fn only_shared_parts_are_compared() {
    let v = |v: &str| Version(v.to_string());
    assert_eq!(compare_versions(&v("1.2"), &v("1.2.5")), Ordering::Equal);
    assert_eq!(compare_versions(&v("10.0.0"), &v("9.0.0")), Ordering::Greater);
}

#[test]
fn update_notices() {
    let v = |v: &str| Version(v.to_string());
    let response = || VersionResponse {
        min_version: v("1.2.0"),
        latest_version: v("1.5.0"),
    };
    match version_notice(&v("1.1.0"), response()) {
        Some(VersionNotice::UpdateRequired(m)) => assert_eq!(m.0, "1.2.0"),
        other => panic!("unexpected {:?}", other),
    }
    match version_notice(&v("1.3.0"), response()) {
        Some(VersionNotice::UpdateAvailable(l)) => assert_eq!(l.0, "1.5.0"),
        other => panic!("unexpected {:?}", other),
    }
    assert!(version_notice(&v("1.5.0"), response()).is_none());
}
