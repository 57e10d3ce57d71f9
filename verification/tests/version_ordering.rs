use apt_downgrade::version::{compare_version_strings, PackageVersion, VersionOrdering};

fn cmp(a: &str, b: &str) -> VersionOrdering {
    compare_version_strings(a, b)
}

#[test]
fn test_epoch_dominance() {
    assert_eq!(cmp("1:1.0", "2.0"), VersionOrdering::Greater);
    assert_eq!(cmp("2.0", "1:1.0"), VersionOrdering::Less);
    assert_eq!(cmp("2:0.1", "1:9.9"), VersionOrdering::Greater);
}

#[test]
fn test_tilde_ordering() {
    assert_eq!(cmp("1.0~rc1", "1.0"), VersionOrdering::Less);
    assert_eq!(cmp("1.0~~", "1.0~"), VersionOrdering::Less);
    assert_eq!(cmp("1.0", "1.0~rc1"), VersionOrdering::Greater);
    assert_eq!(cmp("1.0~", "1.0~~"), VersionOrdering::Greater);
}

#[test]
fn test_numeric_runs_ignore_leading_zeros() {
    assert_eq!(cmp("1.09", "1.9"), VersionOrdering::Equal);
    assert_eq!(cmp("1.009", "1.9"), VersionOrdering::Equal);
    assert_eq!(cmp("1.010", "1.9"), VersionOrdering::Greater);
}

#[test]
fn test_revision_ordering() {
    assert_eq!(cmp("1.0-1", "1.0-2"), VersionOrdering::Less);
    assert_eq!(cmp("1.0-1", "1.0"), VersionOrdering::Greater);
    assert_eq!(cmp("1.0-1-2", "1.0-1-1"), VersionOrdering::Greater);
}

#[test]
fn test_letters_sort_below_other_characters() {
    assert_eq!(cmp("1.0a", "1.0+"), VersionOrdering::Less);
    assert_eq!(cmp("1.0Z", "1.0a"), VersionOrdering::Less);
    assert_eq!(cmp("1.0", "1.0a"), VersionOrdering::Less);
}

#[test]
fn test_longer_number_wins() {
    assert_eq!(cmp("10.0", "9.0"), VersionOrdering::Greater);
    assert_eq!(cmp("7.50.0", "7.60.0"), VersionOrdering::Less);
    assert_eq!(cmp("", "0"), VersionOrdering::Equal);
}

#[test]
fn test_package_version_compare_method() {
    let a = PackageVersion {
        string: "1.2.3.4".to_string(),
    };
    let b = PackageVersion {
        string: "4.3.2-a1".to_string(),
    };
    assert_eq!(a.compare(&b), VersionOrdering::Less);
    assert_eq!(b.compare(&a), VersionOrdering::Greater);
    assert_eq!(a.compare(&a), VersionOrdering::Equal);
    assert!(a == a.clone());
    assert!(a != b);
}

/// The comparator agrees with the reference Debian comparison on a
/// spread of version pairs.
#[test]
fn test_agrees_with_reference_comparison() {
    let versions = vec![
        "1.0", "1.0~rc1", "1.0~~", "1.0~", "2.0", "1:1.0", "1:0", "0:2.0", "1.09", "1.9",
        "1.0-1", "1.0-2", "1.0-1-1", "7.50.0", "7.60.0", "1.0a", "1.0+", "1.0Z", "10.0", "9.0",
        "0.9.9", "1.2.3.4", "4.3.2-a1", "2:0.1", "1.010", "1.0.0", "", "0", "a", "A", "+",
        "1.0~beta2", "1.0~beta10",
    ];
    for a in &versions {
        for b in &versions {
            let expected = deb_version::compare_versions(a, b);
            let got = compare_version_strings(a, b);
            let got_std = match got {
                VersionOrdering::Less => std::cmp::Ordering::Less,
                VersionOrdering::Equal => std::cmp::Ordering::Equal,
                VersionOrdering::Greater => std::cmp::Ordering::Greater,
            };
            assert_eq!(got_std, expected, "versions {:?} and {:?}", a, b);
        }
    }
}
