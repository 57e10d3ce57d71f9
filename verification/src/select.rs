//! The dependency selector: one concrete package per dependency.

use vstd::prelude::*;

use crate::model::{
    dependency_matches, matches_dependency, DependencyView, Package, PackageDependency,
    PackageView,
};

verus! {

/// The views of a sequence of packages.
pub open spec fn pkg_views(s: Seq<Package>) -> Seq<PackageView> {
    s.map_values(|p: Package| p@)
}

/// The view of an optional package.
pub open spec fn opt_pkg_view(o: Option<Package>) -> Option<PackageView> {
    match o {
        Some(p) => Some(p@),
        None => None,
    }
}

/// A candidate matches a dependency when its version does.
pub open spec fn candidate_matches(d: DependencyView, p: PackageView) -> bool {
    dependency_matches(d, p.version)
}

/// The candidates that match the dependency, in their original order.
pub open spec fn matching_candidates(d: DependencyView, cands: Seq<PackageView>) -> Seq<
    PackageView,
> {
    cands.filter(|p: PackageView| candidate_matches(d, p))
}

/// Choose the package that resolves `dependency` from `candidates`
/// (sorted by version descending by the caller), given the installed
/// package if any: keep only the candidates that satisfy every
/// constraint; prefer the installed package when it is among them (the
/// stability bias); otherwise take the first, that is the highest,
/// match; and report that the dependency is unresolvable when nothing
/// matches.
pub fn resolve_dependency(
    dependency: &PackageDependency,
    candidates: Vec<Package>,
    installed_package: &Option<Package>,
) -> (r: Option<Package>)
    ensures
        ({
            let m = matching_candidates(dependency@, pkg_views(candidates@));
            &&& (r is Some <==> m.len() > 0)
            &&& match *installed_package {
                Some(ip) => {
                    if m.contains(ip@) {
                        opt_pkg_view(r) == Some(ip@)
                    } else if m.len() > 0 {
                        opt_pkg_view(r) == Some(m[0])
                    } else {
                        r is None
                    }
                },
                None => {
                    if m.len() > 0 {
                        opt_pkg_view(r) == Some(m[0])
                    } else {
                        r is None
                    }
                },
            }
        }),
{
    broadcast use vstd::seq_lib::group_filter_ensures;

    let ghost pred = |p: PackageView| candidate_matches(dependency@, p);
    let ghost m = matching_candidates(dependency@, pkg_views(candidates@));
    let n = candidates.len();
    let mut found: Vec<Package> = Vec::new();
    let mut i: usize = 0;
    while i < n
        invariant
            i <= n,
            n == candidates@.len(),
            pred == (|p: PackageView| candidate_matches(dependency@, p)),
            pkg_views(found@) == pkg_views(candidates@.take(i as int)).filter(pred),
        decreases n - i,
    {
        let ghost prev = pkg_views(candidates@.take(i as int));
        if matches_dependency(dependency, &candidates[i].version) {
            found.push(candidates[i].clone());
        }
        i += 1;
        proof {
            assert(pkg_views(candidates@.take(i as int)) =~= prev.push(
                candidates@[i - 1]@,
            ));
            prev.lemma_filter_push(candidates@[i - 1]@, pred);
            if pred(candidates@[i - 1]@) {
                assert(pkg_views(found@) =~= prev.filter(pred).push(candidates@[i - 1]@));
            }
        }
    }
    proof {
        assert(candidates@.take(n as int) =~= candidates@);
        assert(pkg_views(found@) == m);
    }

    // The stability bias: an installed package that matches is kept.
    match installed_package {
        Some(ip) => {
            let fl = found.len();
            let mut k: usize = 0;
            while k < fl
                invariant
                    k <= fl,
                    fl == found@.len(),
                    *installed_package == Some(*ip),
                    m == matching_candidates(dependency@, pkg_views(candidates@)),
                    pkg_views(found@) == m,
                    forall|j: int| 0 <= j < k ==> m[j] != ip@,
                decreases fl - k,
            {
                if found[k].eq(ip) {
                    proof {
                        assert(m[k as int] == ip@);
                        assert(m.contains(ip@));
                    }
                    return Some(ip.clone());
                }
                k += 1;
            }
            proof {
                assert(!m.contains(ip@));
            }
        },
        None => {},
    }

    // Otherwise the first, that is the highest, match wins.
    if found.len() > 0 {
        let best = found[0].clone();
        proof {
            assert(m[0] == pkg_views(found@)[0]);
        }
        Some(best)
    } else {
        proof {
            assert(m.len() == 0);
        }
        None
    }
}

} // verus!
