use apt_downgrade::aggregate::{aggregate_candidates, merge_candidates, sort_candidates_descending};
use apt_downgrade::engine::build_install_cmdline;
use apt_downgrade::model::{
    Package, PackageDependency, PackageVersionConstaint, PackageVersionRelation,
};
use apt_downgrade::select::resolve_dependency;
use apt_downgrade::version::PackageVersion;

#[test]
fn test_build_install_cmdline() {
    let packages: Vec<Package> = vec![
        Package {
            name: "package1".to_string(),
            version: PackageVersion {
                string: "1.2.3.4".to_string(),
            },
            arch: None,
            filepath: Some("/p1".to_string()),
            url: None,
        },
        Package {
            name: "package2".to_string(),
            version: PackageVersion {
                string: "4.3.2-a1".to_string(),
            },
            arch: None,
            filepath: Some("/p2".to_string()),
            url: None,
        },
    ];
    assert_eq!(
        build_install_cmdline(packages),
        vec![
            "apt-get",
            "install",
            "-V",
            "--no-install-recommends",
            "/p1",
            "/p2"
        ]
    );
}

#[test]
fn test_resolve_dependency() {
    let candidates = vec![
        Package {
            name: "p1".to_string(),
            version: PackageVersion {
                string: "1.0.3".to_string(),
            },
            arch: None,
            filepath: None,
            url: None,
        },
        Package {
            name: "p1".to_string(),
            version: PackageVersion {
                string: "1.0.2".to_string(),
            },
            arch: None,
            filepath: None,
            url: None,
        },
        Package {
            name: "p1".to_string(),
            version: PackageVersion {
                string: "1.0.1".to_string(),
            },
            arch: None,
            filepath: None,
            url: None,
        },
        Package {
            name: "p1".to_string(),
            version: PackageVersion {
                string: "1.0.0".to_string(),
            },
            arch: None,
            filepath: None,
            url: None,
        },
        Package {
            name: "p1".to_string(),
            version: PackageVersion {
                string: "0.9.9".to_string(),
            },
            arch: None,
            filepath: None,
            url: None,
        },
    ];

    //
    // Any
    //

    let dependency = PackageDependency {
        package_name: candidates[0].name.clone(),
        version_constraints: vec![PackageVersionConstaint {
            version: candidates[0].version.clone(),
            version_relation: PackageVersionRelation::Any,
        }],
    };
    let installed_package = None;
    assert_eq!(
        resolve_dependency(&dependency, candidates.clone(), &installed_package),
        Some(candidates[0].clone())
    );

    let installed_package = Some(candidates[3].clone());
    assert_eq!(
        resolve_dependency(&dependency, candidates.clone(), &installed_package),
        Some(candidates[3].clone())
    );

    //
    // StrictlyInferior
    //

    let dependency = PackageDependency {
        package_name: candidates[1].name.clone(),
        version_constraints: vec![PackageVersionConstaint {
            version: candidates[1].version.clone(),
            version_relation: PackageVersionRelation::StrictlyInferior,
        }],
    };
    let installed_package = None;
    assert_eq!(
        resolve_dependency(&dependency, candidates.clone(), &installed_package),
        Some(candidates[2].clone())
    );

    let installed_package = Some(candidates[3].clone());
    assert_eq!(
        resolve_dependency(&dependency, candidates.clone(), &installed_package),
        Some(candidates[3].clone())
    );

    let installed_package = Some(candidates[0].clone());
    assert_eq!(
        resolve_dependency(&dependency, candidates.clone(), &installed_package),
        Some(candidates[2].clone())
    );

    //
    // InferiorOrEqual
    //

    let dependency = PackageDependency {
        package_name: candidates[1].name.clone(),
        version_constraints: vec![PackageVersionConstaint {
            version: candidates[1].version.clone(),
            version_relation: PackageVersionRelation::InferiorOrEqual,
        }],
    };
    let installed_package = None;
    assert_eq!(
        resolve_dependency(&dependency, candidates.clone(), &installed_package),
        Some(candidates[1].clone())
    );

    let installed_package = Some(candidates[3].clone());
    assert_eq!(
        resolve_dependency(&dependency, candidates.clone(), &installed_package),
        Some(candidates[3].clone())
    );

    let installed_package = Some(candidates[0].clone());
    assert_eq!(
        resolve_dependency(&dependency, candidates.clone(), &installed_package),
        Some(candidates[1].clone())
    );

    //
    // Equal
    //

    let dependency = PackageDependency {
        package_name: candidates[1].name.clone(),
        version_constraints: vec![PackageVersionConstaint {
            version: candidates[1].version.clone(),
            version_relation: PackageVersionRelation::Equal,
        }],
    };
    let installed_package = None;
    assert_eq!(
        resolve_dependency(&dependency, candidates.clone(), &installed_package),
        Some(candidates[1].clone())
    );

    let installed_package = Some(candidates[3].clone());
    assert_eq!(
        resolve_dependency(&dependency, candidates.clone(), &installed_package),
        Some(candidates[1].clone())
    );

    //
    // SuperiorOrEqual
    //

    let dependency = PackageDependency {
        package_name: candidates[2].name.clone(),
        version_constraints: vec![PackageVersionConstaint {
            version: candidates[2].version.clone(),
            version_relation: PackageVersionRelation::SuperiorOrEqual,
        }],
    };
    let installed_package = None;
    assert_eq!(
        resolve_dependency(&dependency, candidates.clone(), &installed_package),
        Some(candidates[0].clone())
    );

    let installed_package = Some(candidates[1].clone());
    assert_eq!(
        resolve_dependency(&dependency, candidates.clone(), &installed_package),
        Some(candidates[1].clone())
    );

    let installed_package = Some(candidates[3].clone());
    assert_eq!(
        resolve_dependency(&dependency, candidates.clone(), &installed_package),
        Some(candidates[0].clone())
    );

    //
    // StriclySuperior
    //

    let dependency = PackageDependency {
        package_name: candidates[2].name.clone(),
        version_constraints: vec![PackageVersionConstaint {
            version: candidates[2].version.clone(),
            version_relation: PackageVersionRelation::StriclySuperior,
        }],
    };
    let installed_package = None;
    assert_eq!(
        resolve_dependency(&dependency, candidates.clone(), &installed_package),
        Some(candidates[0].clone())
    );

    let installed_package = Some(candidates[1].clone());
    assert_eq!(
        resolve_dependency(&dependency, candidates.clone(), &installed_package),
        Some(candidates[1].clone())
    );

    let installed_package = Some(candidates[2].clone());
    assert_eq!(
        resolve_dependency(&dependency, candidates.clone(), &installed_package),
        Some(candidates[0].clone())
    );
}

fn pkg(version: &str) -> Package {
    Package {
        name: "p".to_string(),
        version: PackageVersion {
            string: version.to_string(),
        },
        arch: Some("amd64".to_string()),
        filepath: None,
        url: None,
    }
}

fn dep(relation: PackageVersionRelation, version: &str) -> PackageDependency {
    PackageDependency {
        package_name: "p".to_string(),
        version_constraints: vec![PackageVersionConstaint {
            version: PackageVersion {
                string: version.to_string(),
            },
            version_relation: relation,
        }],
    }
}

#[test]
fn test_selector_any_picks_highest() {
    let candidates = vec![pkg("2.0"), pkg("1.5"), pkg("1.0")];
    let r = resolve_dependency(&dep(PackageVersionRelation::Any, ""), candidates.clone(), &None);
    assert_eq!(r, Some(pkg("2.0")));
}

#[test]
fn test_selector_any_prefers_installed() {
    let candidates = vec![pkg("2.0"), pkg("1.5"), pkg("1.0")];
    let installed = Some(pkg("1.5"));
    let r = resolve_dependency(&dep(PackageVersionRelation::Any, ""), candidates, &installed);
    assert_eq!(r, Some(pkg("1.5")));
}

#[test]
fn test_selector_installed_satisfies_strict_bound() {
    let candidates = vec![pkg("2.0"), pkg("1.5"), pkg("1.0")];
    let installed = Some(pkg("1.0"));
    let r = resolve_dependency(
        &dep(PackageVersionRelation::StrictlyInferior, "1.5"),
        candidates,
        &installed,
    );
    assert_eq!(r, Some(pkg("1.0")));
}

#[test]
fn test_selector_installed_misses_equality() {
    let candidates = vec![pkg("2.0"), pkg("1.5"), pkg("1.0")];
    let installed = Some(pkg("2.0"));
    let r = resolve_dependency(
        &dep(PackageVersionRelation::Equal, "1.5"),
        candidates,
        &installed,
    );
    assert_eq!(r, Some(pkg("1.5")));
}

#[test]
fn test_selector_unresolvable() {
    let candidates = vec![pkg("2.0"), pkg("1.5"), pkg("1.0")];
    let r = resolve_dependency(&dep(PackageVersionRelation::Equal, "9.9"), candidates, &None);
    assert_eq!(r, None);
}

#[test]
fn test_selector_all_constraints_are_required() {
    let candidates = vec![pkg("2.0"), pkg("1.5"), pkg("1.0")];
    let dependency = PackageDependency {
        package_name: "p".to_string(),
        version_constraints: vec![
            PackageVersionConstaint {
                version: PackageVersion {
                    string: "1.0".to_string(),
                },
                version_relation: PackageVersionRelation::StriclySuperior,
            },
            PackageVersionConstaint {
                version: PackageVersion {
                    string: "2.0".to_string(),
                },
                version_relation: PackageVersionRelation::StrictlyInferior,
            },
        ],
    };
    let r = resolve_dependency(&dependency, candidates, &None);
    assert_eq!(r, Some(pkg("1.5")));
}

#[test]
fn test_aggregator_merge_local_wins_its_version() {
    let local = vec![Package {
        name: "p".to_string(),
        version: PackageVersion {
            string: "1.0".to_string(),
        },
        arch: Some("amd64".to_string()),
        filepath: Some("/cache/p_1.0_amd64.deb".to_string()),
        url: None,
    }];
    let remote = vec![
        Package {
            name: "p".to_string(),
            version: PackageVersion {
                string: "1.0".to_string(),
            },
            arch: Some("amd64".to_string()),
            filepath: None,
            url: Some("http://mirror/p_1.0_amd64.deb".to_string()),
        },
        Package {
            name: "p".to_string(),
            version: PackageVersion {
                string: "1.1".to_string(),
            },
            arch: Some("amd64".to_string()),
            filepath: None,
            url: Some("http://mirror/p_1.1_amd64.deb".to_string()),
        },
    ];
    let sorted = aggregate_candidates(local, Some(remote));
    assert_eq!(sorted.len(), 2);
    assert_eq!(sorted[0].version.string, "1.1");
    assert_eq!(sorted[0].url, Some("http://mirror/p_1.1_amd64.deb".to_string()));
    assert_eq!(sorted[0].filepath, None);
    assert_eq!(sorted[1].version.string, "1.0");
    assert_eq!(sorted[1].filepath, Some("/cache/p_1.0_amd64.deb".to_string()));
    assert_eq!(sorted[1].url, None);
}

#[test]
fn test_sort_candidates_is_descending() {
    let sorted = sort_candidates_descending(vec![pkg("1.0"), pkg("2.0"), pkg("1.0~rc1"), pkg("1:0.1")]);
    let versions: Vec<String> = sorted.iter().map(|p| p.version.string.clone()).collect();
    assert_eq!(versions, vec!["1:0.1", "2.0", "1.0", "1.0~rc1"]);
}
