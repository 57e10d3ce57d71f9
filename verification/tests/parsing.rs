use apt_downgrade::model::{PackageDependency, PackageVersionConstaint, PackageVersionRelation};
use apt_downgrade::parse::{
    parse_apt_config, parse_cache_entry, parse_depends_output, parse_installed, parse_pool_entry,
    parse_pool_listing, pool_directory_from_hrefs, AptError,
};
use apt_downgrade::version::PackageVersion;

#[test]
fn test_parse_depends_relations() {
    let lines = vec![
        "Package: x".to_string(),
        "Depends: libc6 (>= 2.17), libssl1.1 (<< 1.2), exact (= 3.0), zlib1g".to_string(),
    ];
    let deps = parse_depends_output(&lines).unwrap();
    assert_eq!(deps.len(), 4);

    assert_eq!(deps[0].package_name, "libc6");
    assert_eq!(deps[0].version_constraints.len(), 1);
    assert_eq!(deps[0].version_constraints[0].version.string, "2.17");
    assert_eq!(
        deps[0].version_constraints[0].version_relation,
        PackageVersionRelation::SuperiorOrEqual
    );

    assert_eq!(deps[1].package_name, "libssl1.1");
    assert_eq!(deps[1].version_constraints[0].version.string, "1.2");
    assert_eq!(
        deps[1].version_constraints[0].version_relation,
        PackageVersionRelation::StrictlyInferior
    );

    assert_eq!(deps[2].version_constraints[0].version.string, "3.0");
    assert_eq!(
        deps[2].version_constraints[0].version_relation,
        PackageVersionRelation::Equal
    );

    assert_eq!(deps[3].package_name, "zlib1g");
    assert_eq!(
        deps[3].version_constraints[0].version_relation,
        PackageVersionRelation::Any
    );
    assert_eq!(deps[3].version_constraints[0].version.string, "");
}

#[test]
fn test_parse_depends_takes_first_alternative() {
    let lines = vec!["Depends: mailx | mail-transport-agent, libc6 (>= 2.4)".to_string()];
    let deps = parse_depends_output(&lines).unwrap();
    assert_eq!(deps.len(), 2);
    assert_eq!(deps[0].package_name, "mailx");
    assert_eq!(deps[1].package_name, "libc6");
}

#[test]
fn test_parse_depends_drops_epoch_prefix() {
    let lines = vec!["Depends: libx (= 1:2.3-4)".to_string()];
    let deps = parse_depends_output(&lines).unwrap();
    assert_eq!(deps[0].version_constraints[0].version.string, "2.3-4");
}

#[test]
fn test_parse_depends_missing_line_fails() {
    let lines = vec!["Package: x".to_string(), "Version: 1".to_string()];
    let e = parse_depends_output(&lines).unwrap_err();
    assert!(matches!(e, AptError::ParseFailure { .. }));
}

#[test]
fn test_parse_depends_bad_relation_fails() {
    let lines = vec!["Depends: x (~~ 1.0)".to_string()];
    let e = parse_depends_output(&lines).unwrap_err();
    assert!(matches!(e, AptError::ParseFailure { .. }));
}

#[test]
fn test_parse_installed_reads_all_fields() {
    let policy = vec![
        "curl:".to_string(),
        "  Installed: 1:7.60.0-1".to_string(),
        "  Candidate: 1:7.64.0-1".to_string(),
    ];
    let show = vec![
        "Package: curl".to_string(),
        "Architecture: amd64".to_string(),
        "Filename: pool/main/c/curl/curl_7.60.0-1_amd64.deb".to_string(),
    ];
    let p = parse_installed("curl", &policy, &show, "/var/cache/apt/archives/").unwrap();
    assert_eq!(p.name, "curl");
    // The epoch-like prefix up to the last colon is dropped.
    assert_eq!(p.version.string, "7.60.0-1");
    assert_eq!(p.arch, Some("amd64".to_string()));
    assert_eq!(
        p.filepath,
        Some("/var/cache/apt/archives/curl_7.60.0-1_amd64.deb".to_string())
    );
    assert_eq!(p.url, None);
}

#[test]
fn test_parse_installed_none_marker() {
    let policy = vec!["  Installed: (none)".to_string()];
    let show = vec![
        "Architecture: amd64".to_string(),
        "Filename: pool/x_1_amd64.deb".to_string(),
    ];
    assert!(parse_installed("x", &policy, &show, "/c/").is_none());
}

#[test]
fn test_parse_installed_missing_field() {
    let policy = vec!["  Installed: 1.0".to_string()];
    let show = vec!["Architecture: amd64".to_string()];
    assert!(parse_installed("x", &policy, &show, "/c/").is_none());
}

#[test]
fn test_parse_cache_entry_fields() {
    let p = parse_cache_entry("curl", "/var/cache/apt/archives/curl_7.50.0_amd64.deb").unwrap();
    assert_eq!(p.name, "curl");
    assert_eq!(p.version.string, "7.50.0");
    assert_eq!(p.arch, Some("amd64".to_string()));
    assert_eq!(
        p.filepath,
        Some("/var/cache/apt/archives/curl_7.50.0_amd64.deb".to_string())
    );
    assert_eq!(p.url, None);
}

#[test]
fn test_parse_cache_entry_unescapes_epoch() {
    // An escaped epoch is unescaped, then dropped with everything up to
    // the last colon.
    let p = parse_cache_entry("x", "/cache/x_1%3a2.0_all.deb").unwrap();
    assert_eq!(p.version.string, "2.0");
    assert_eq!(p.arch, Some("all".to_string()));
}

#[test]
fn test_parse_cache_entry_rejects_odd_names() {
    assert!(parse_cache_entry("x", "/cache/README").is_none());
}

#[test]
fn test_parse_pool_entry_filters() {
    let url = "http://ftp.debian.org/debian/pool/main/c/curl/";
    // An accepted architecture.
    let p = parse_pool_entry("curl", "amd64", url, "curl_7.64.0-4_amd64.deb").unwrap();
    assert_eq!(p.name, "curl");
    assert_eq!(p.version.string, "7.64.0-4");
    assert_eq!(p.arch, Some("amd64".to_string()));
    assert_eq!(p.filepath, None);
    assert_eq!(
        p.url,
        Some("http://ftp.debian.org/debian/pool/main/c/curl/curl_7.64.0-4_amd64.deb".to_string())
    );
    // The architecture-independent markers pass the filter.
    assert!(parse_pool_entry("curl", "amd64", url, "curl_1_all.deb").is_some());
    assert!(parse_pool_entry("curl", "amd64", url, "curl_1_any.deb").is_some());
    // A foreign architecture, another package and a non-artifact link
    // are dropped.
    assert!(parse_pool_entry("curl", "amd64", url, "curl_1_s390x.deb").is_none());
    assert!(parse_pool_entry("curl", "amd64", url, "wget_1_amd64.deb").is_none());
    assert!(parse_pool_entry("curl", "amd64", url, "curl_1_amd64.deb.asc").is_none());
}

#[test]
fn test_parse_pool_listing_keeps_order() {
    let hrefs = vec![
        "?C=N;O=D".to_string(),
        "curl_7.64.0-4_amd64.deb".to_string(),
        "curl_7.50.0_s390x.deb".to_string(),
        "curl_7.50.0_amd64.deb".to_string(),
    ];
    let packages = parse_pool_listing("curl", "amd64", "http://m/", &hrefs);
    let versions: Vec<String> = packages.iter().map(|p| p.version.string.clone()).collect();
    assert_eq!(versions, vec!["7.64.0-4", "7.50.0"]);
}

#[test]
fn test_pool_directory_from_hrefs() {
    let hrefs = vec![
        "/".to_string(),
        "https://www.debian.org/".to_string(),
        "http://ftp.debian.org/debian/pool/main/a/alsa-lib/libasound2_1.1.8-1_amd64.deb"
            .to_string(),
    ];
    let dir = pool_directory_from_hrefs(&hrefs).unwrap();
    assert_eq!(dir, "http://ftp.debian.org/debian/pool/main/a/alsa-lib/");
    assert!(pool_directory_from_hrefs(&vec!["/x".to_string()]).is_none());
}

#[test]
fn test_parse_apt_config() {
    let lines = vec![
        "CACHE_ROOT_DIR='var/cache/apt'".to_string(),
        "CACHE_ARCHIVE_SUBDIR='archives/'".to_string(),
        "ARCH='amd64'".to_string(),
    ];
    let env = parse_apt_config(&lines).unwrap();
    assert_eq!(env.arch, "amd64");
    assert_eq!(env.cache_dir, "/var/cache/apt/archives/");
}

#[test]
fn test_parse_apt_config_missing_line_fails() {
    let lines = vec!["CACHE_ROOT_DIR='var/cache/apt'".to_string()];
    let e = parse_apt_config(&lines).unwrap_err();
    assert!(matches!(e, AptError::ParseFailure { .. }));
}

#[test]
fn test_render_dependency() {
    let dependency = PackageDependency {
        package_name: "libcurl4".to_string(),
        version_constraints: vec![PackageVersionConstaint {
            version: PackageVersion {
                string: "7.40.0".to_string(),
            },
            version_relation: PackageVersionRelation::SuperiorOrEqual,
        }],
    };
    assert_eq!(dependency.render(), "libcurl4>=7.40.0");

    let bare = PackageDependency {
        package_name: "zlib1g".to_string(),
        version_constraints: vec![PackageVersionConstaint {
            version: PackageVersion {
                string: String::new(),
            },
            version_relation: PackageVersionRelation::Any,
        }],
    };
    assert_eq!(bare.render(), "zlib1g");
}
