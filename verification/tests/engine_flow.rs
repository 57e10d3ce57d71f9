use apt_downgrade::aggregate::aggregate_candidates;
use apt_downgrade::cache::{artifact_filename, temp_filename, ArtifactCache, IndexCache};
use apt_downgrade::engine::{build_install_cmdline, ResolutionDecision, ResolutionState};
use apt_downgrade::model::{
    Package, PackageDependency, PackageVersionConstaint, PackageVersionRelation,
};
use apt_downgrade::parse::{parse_cache_entry, parse_depends_output, parse_installed};
use apt_downgrade::select::resolve_dependency;
use apt_downgrade::version::PackageVersion;

fn named_pkg(name: &str, version: &str) -> Package {
    Package {
        name: name.to_string(),
        version: PackageVersion {
            string: version.to_string(),
        },
        arch: Some("amd64".to_string()),
        filepath: Some(format!("/cache/{}_{}_amd64.deb", name, version)),
        url: None,
    }
}

fn any_dep(name: &str) -> PackageDependency {
    PackageDependency {
        package_name: name.to_string(),
        version_constraints: vec![PackageVersionConstaint {
            version: PackageVersion {
                string: String::new(),
            },
            version_relation: PackageVersionRelation::Any,
        }],
    }
}

/// A diamond dependency graph is flattened with each node exactly once.
#[test]
fn test_worklist_diamond_dedup() {
    let mut state = ResolutionState::start(
        "a".to_string(),
        PackageVersion {
            string: "1".to_string(),
        },
    );
    // a depends on b and c; b and c both depend on the same d.
    let a = state.next_pending().unwrap();
    assert_eq!(a.package_name, "a");
    state.expand(named_pkg("a", "1"), vec![any_dep("b"), any_dep("c")]);

    let b = state.next_pending().unwrap();
    assert_eq!(b.package_name, "b");
    state.expand(named_pkg("b", "1"), vec![any_dep("d")]);

    let c = state.next_pending().unwrap();
    assert_eq!(c.package_name, "c");
    state.expand(named_pkg("c", "1"), vec![any_dep("d")]);

    let d1 = state.next_pending().unwrap();
    assert_eq!(d1.package_name, "d");
    let decision = state.decide(&named_pkg("d", "1"), &None);
    assert_eq!(decision, ResolutionDecision::Expand);
    state.expand(named_pkg("d", "1"), vec![]);

    // The second path to d finds it already planned.
    let d2 = state.next_pending().unwrap();
    assert_eq!(d2.package_name, "d");
    let decision = state.decide(&named_pkg("d", "1"), &None);
    assert_eq!(decision, ResolutionDecision::AlreadyPlanned);

    assert!(state.next_pending().is_none());
    let occurrences = state
        .install_set
        .iter()
        .filter(|p| p.name == "d")
        .count();
    assert_eq!(occurrences, 1);
    assert_eq!(state.install_set.len(), 4);
}

/// An already-installed package is never expanded, so nothing derived
/// from its dependencies is enqueued.
#[test]
fn test_worklist_installed_short_circuit() {
    let mut state = ResolutionState::start(
        "a".to_string(),
        PackageVersion {
            string: "1".to_string(),
        },
    );
    let _ = state.next_pending().unwrap();
    let installed = Some(named_pkg("a", "1"));
    let decision = state.decide(&named_pkg("a", "1"), &installed);
    assert_eq!(decision, ResolutionDecision::AlreadyInstalled);
    // The driver skips the node entirely: the queue stays empty and the
    // install set stays empty.
    assert!(state.next_pending().is_none());
    assert_eq!(state.install_set.len(), 0);
}

/// Materializing the same URL twice performs exactly one fetch.
#[test]
fn test_artifact_cache_idempotent() {
    let url = "http://ftp.debian.org/debian/pool/main/c/curl/curl_7.50.0_amd64.deb";
    let filename = artifact_filename(url);
    assert_eq!(filename, "curl_7.50.0_amd64.deb");
    assert_eq!(temp_filename(&filename), "curl_7.50.0_amd64.deb.tmp");

    let mut cache = ArtifactCache::new();
    // First materialize: the file is not on disk, so it is fetched once.
    assert!(cache.needs_fetch(&filename, false));
    cache.record_present(filename.clone());
    // Second materialize for the same URL: no fetch, with or without a
    // fresh look at the disk.
    assert!(!cache.needs_fetch(&filename, false));
    assert!(!cache.needs_fetch(&filename, true));
}

/// An index page is fetched at most once per run.
#[test]
fn test_index_cache_memoizes() {
    let mut memo = IndexCache::new();
    let url = "http://ftp.debian.org/debian/pool/main/c/curl/".to_string();
    assert!(memo.get(&url).is_none());
    memo.put(url.clone(), "<html>listing</html>".to_string());
    assert_eq!(memo.get(&url), Some("<html>listing</html>".to_string()));
}

/// The downgrade scenario end to end: downgrading curl to a version in
/// the local cache leaves an installed libcurl4 alone, and the emitted
/// command references the local artifact.
#[test]
fn test_end_to_end_downgrade() {
    let cache_dir = "/var/cache/apt/archives/";

    let mut state = ResolutionState::start(
        "curl".to_string(),
        PackageVersion {
            string: "7.50.0".to_string(),
        },
    );

    // First node: curl = 7.50.0.  Not installed; one local candidate.
    let dep = state.next_pending().unwrap();
    assert_eq!(dep.package_name, "curl");
    let local = vec![
        parse_cache_entry("curl", "/var/cache/apt/archives/curl_7.50.0_amd64.deb").unwrap(),
    ];
    // The remote source is unreachable: local-only candidates.
    let candidates = aggregate_candidates(local, None);
    let resolved = resolve_dependency(&dep, candidates, &None).unwrap();
    assert_eq!(resolved.version.string, "7.50.0");
    assert_eq!(state.decide(&resolved, &None), ResolutionDecision::Expand);
    let metadata = vec![
        "Package: curl".to_string(),
        "Version: 7.50.0".to_string(),
        "Depends: libcurl4 (>= 7.40.0)".to_string(),
    ];
    let deps = parse_depends_output(&metadata).unwrap();
    assert_eq!(deps.len(), 1);
    assert_eq!(deps[0].package_name, "libcurl4");
    state.expand(resolved, deps);

    // Second node: libcurl4 >= 7.40.0.  Installed at 7.60.0, which
    // satisfies the constraint, so the node is skipped unexpanded.
    let dep = state.next_pending().unwrap();
    assert_eq!(dep.package_name, "libcurl4");
    let policy = vec!["  Installed: 7.60.0".to_string()];
    let show = vec![
        "Filename: pool/main/c/curl/libcurl4_7.60.0_amd64.deb".to_string(),
        "Architecture: amd64".to_string(),
    ];
    let installed = parse_installed("libcurl4", &policy, &show, cache_dir);
    assert!(installed.is_some());
    let local = vec![
        parse_cache_entry(
            "libcurl4",
            "/var/cache/apt/archives/libcurl4_7.60.0_amd64.deb",
        )
        .unwrap(),
    ];
    let candidates = aggregate_candidates(local, None);
    let resolved = resolve_dependency(&dep, candidates, &installed).unwrap();
    assert_eq!(resolved.version.string, "7.60.0");
    assert_eq!(
        state.decide(&resolved, &installed),
        ResolutionDecision::AlreadyInstalled
    );

    // Done: only curl is installed, from its local artifact.
    assert!(state.next_pending().is_none());
    assert_eq!(state.install_set.len(), 1);
    let cmd = build_install_cmdline(state.install_set);
    assert_eq!(
        cmd,
        vec![
            "apt-get",
            "install",
            "-V",
            "--no-install-recommends",
            "/var/cache/apt/archives/curl_7.50.0_amd64.deb"
        ]
    );
}
