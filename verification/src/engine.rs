//! The worklist engine: a breadth-first walk of the dependency graph
//! that grows an install set to a fixed point.
//!
//! The engine owns the pure state of a resolution run — the FIFO queue
//! of dependencies still to resolve and the ordered, duplicate-free
//! install set — and the decisions over it.  The embedding program
//! drives the loop, performing the outside queries (installed state,
//! candidate listings, dependency extraction) between the calls.

use std::collections::VecDeque;

use vstd::prelude::*;
use vstd::string::StringExecFns;

use crate::model::{
    Package, PackageDependency, PackageVersionConstaint, PackageVersionRelation, PackageView,
};
use crate::select::{opt_pkg_view, pkg_views};
use crate::version::PackageVersion;

verus! {

/// No two entries are structurally equal.
pub open spec fn distinct_packages(s: Seq<PackageView>) -> bool {
    forall|i: int, j: int| #![trigger s[i], s[j]] 0 <= i < j < s.len() ==> s[i] != s[j]
}

/// What the engine does with a resolved package.
#[derive(Clone, Copy, Debug, PartialEq, Eq, Structural)]
pub enum ResolutionDecision {
    /// Already in the install set: skip, do not expand again.
    AlreadyPlanned,
    /// Structurally equal to the installed package: skip entirely, its
    /// dependencies are taken to be satisfied on the host.
    AlreadyInstalled,
    /// New: materialize it, extract its dependencies and admit it.
    Expand,
}

/// The state of one resolution run.
pub struct ResolutionState {
    /// Dependencies awaiting resolution, front first.
    pub pending: VecDeque<PackageDependency>,
    /// The packages decided so far, in discovery order.
    pub install_set: Vec<Package>,
}

impl ResolutionState {
    /// The install set never holds two structurally equal packages.
    pub open spec fn wf(&self) -> bool {
        distinct_packages(pkg_views(self.install_set@))
    }

    /// A fresh run: the queue holds one synthetic dependency asking for
    /// exactly the requested version of the requested package, and the
    /// install set is empty.
    pub fn start(package_name: String, package_version: PackageVersion) -> (s: ResolutionState)
        ensures
            s.wf(),
            s.install_set@.len() == 0,
            s.pending@.len() == 1,
            s.pending@[0]@.package_name == package_name@,
            s.pending@[0]@.version_constraints.len() == 1,
            s.pending@[0]@.version_constraints[0].version == package_version@,
            s.pending@[0]@.version_constraints[0].version_relation
                == PackageVersionRelation::Equal,
    {
        let root = PackageDependency {
            package_name,
            version_constraints: vec![
                PackageVersionConstaint {
                    version: package_version,
                    version_relation: PackageVersionRelation::Equal,
                },
            ],
        };
        let mut pending: VecDeque<PackageDependency> = VecDeque::new();
        pending.push_back(root);
        let s = ResolutionState { pending, install_set: Vec::new() };
        proof {
            assert(pkg_views(s.install_set@) =~= Seq::<PackageView>::empty());
        }
        s
    }

    /// Take the front of the queue, if the run is not finished.
    pub fn next_pending(&mut self) -> (d: Option<PackageDependency>)
        ensures
            final(self).install_set@ == old(self).install_set@,
            match d {
                Some(dep) => old(self).pending@.len() > 0 && dep == old(self).pending@[0]
                    && final(self).pending@ == old(self).pending@.drop_first(),
                None => old(self).pending@.len() == 0 && final(self).pending@ == old(
                    self,
                ).pending@,
            },
    {
        let d = self.pending.pop_front();
        proof {
            if old(self).pending@.len() > 0 {
                assert(final(self).pending@ =~= old(self).pending@.drop_first());
            }
        }
        d
    }

    /// What to do with the package that resolved a dependency: skip it
    /// when it is already planned, skip it without expansion when it is
    /// exactly the installed package, and expand it otherwise.
    pub fn decide(&self, resolved: &Package, installed_package: &Option<Package>) -> (d:
        ResolutionDecision)
        ensures
            d == ResolutionDecision::AlreadyPlanned <==> pkg_views(self.install_set@).contains(
                resolved@,
            ),
            !pkg_views(self.install_set@).contains(resolved@) ==> (d
                == ResolutionDecision::AlreadyInstalled <==> opt_pkg_view(*installed_package)
                == Some(resolved@)),
            d == ResolutionDecision::Expand <==> !pkg_views(self.install_set@).contains(resolved@)
                && opt_pkg_view(*installed_package) != Some(resolved@),
            // A package the host already has is never expanded, so none
            // of its dependencies is ever enqueued.
            opt_pkg_view(*installed_package) == Some(resolved@) ==> d
                != ResolutionDecision::Expand,
    {
        let n = self.install_set.len();
        let mut i: usize = 0;
        while i < n
            invariant
                i <= n,
                n == self.install_set@.len(),
                forall|j: int| 0 <= j < i ==> pkg_views(self.install_set@)[j] != resolved@,
            decreases n - i,
        {
            if self.install_set[i].eq(resolved) {
                proof {
                    assert(pkg_views(self.install_set@)[i as int] == resolved@);
                }
                return ResolutionDecision::AlreadyPlanned;
            }
            proof {
                assert(pkg_views(self.install_set@)[i as int] == self.install_set@[i as int]@);
            }
            i += 1;
        }
        proof {
            assert(!pkg_views(self.install_set@).contains(resolved@));
        }
        match installed_package {
            Some(ip) => {
                if ip.eq(resolved) {
                    return ResolutionDecision::AlreadyInstalled;
                }
            },
            None => {},
        }
        ResolutionDecision::Expand
    }

    /// Record a newly decided package: queue its direct dependencies at
    /// the back (breadth first) and append it to the install set.  A
    /// package the install set already holds is not recorded twice, so
    /// the install set stays duplicate-free.
    pub fn expand(&mut self, package: Package, dependencies: Vec<PackageDependency>)
        ensures
            old(self).wf() ==> final(self).wf(),
            pkg_views(old(self).install_set@).contains(package@) ==> *final(self) == *old(self),
            !pkg_views(old(self).install_set@).contains(package@) ==> {
                &&& final(self).install_set@ == old(self).install_set@.push(package)
                &&& final(self).pending@ == old(self).pending@ + dependencies@
            },
    {
        let no_install: Option<Package> = None;
        let d = self.decide(&package, &no_install);
        if matches!(d, ResolutionDecision::AlreadyPlanned) {
            return ;
        }
        let ghost old_pending = self.pending@;
        let ghost dseq = dependencies@;
        let mut deps = dependencies;
        let ghost mut k: int = 0;
        while deps.len() > 0
            invariant
                0 <= k <= dseq.len(),
                deps@ == dseq.skip(k),
                self.pending@ == old_pending + dseq.take(k),
                self.install_set@ == old(self).install_set@,
            decreases deps@.len(),
        {
            let dep = deps.remove(0);
            self.pending.push_back(dep);
            proof {
                assert(deps@ =~= dseq.skip(k + 1));
                assert(self.pending@ =~= old_pending + dseq.take(k + 1));
                k = k + 1;
            }
        }
        proof {
            assert(dseq.take(dseq.len() as int) =~= dseq);
            assert(self.pending@ == old_pending + dseq);
        }
        self.install_set.push(package);
        proof {
            let osv = pkg_views(old(self).install_set@);
            let nsv = pkg_views(self.install_set@);
            assert(nsv =~= osv.push(package@));
            if distinct_packages(osv) {
                assert forall|a: int, b: int|
                    #![trigger nsv[a], nsv[b]]
                    0 <= a < b < nsv.len() implies nsv[a] != nsv[b] by {
                    if b < nsv.len() - 1 {
                        assert(nsv[a] == osv[a] && nsv[b] == osv[b]);
                    } else {
                        assert(nsv[b] == package@);
                        assert(nsv[a] == osv[a]);
                        if osv[a] == package@ {
                            assert(osv.contains(package@));
                        }
                    }
                }
            }
        }
    }
}

/// Build the install command line for the resolved install set: the
/// fixed `apt-get install -V --no-install-recommends` invocation
/// followed by each package's local artifact path, in order.  Every
/// package must have been materialized to a local path first.
pub fn build_install_cmdline(packages: Vec<Package>) -> (cmd: Vec<String>)
    requires
        forall|i: int| 0 <= i < packages@.len() ==> (#[trigger] packages@[i]@).filepath is Some,
    ensures
        cmd@.len() == 4 + packages@.len(),
        cmd@[0]@ == "apt-get"@,
        cmd@[1]@ == "install"@,
        cmd@[2]@ == "-V"@,
        cmd@[3]@ == "--no-install-recommends"@,
        forall|i: int|
            0 <= i < packages@.len() ==> Some(cmd@[4 + i]@) == (
            #[trigger] packages@[i]@).filepath,
{
    let mut cmd: Vec<String> = Vec::new();
    cmd.push(String::from_str("apt-get"));
    cmd.push(String::from_str("install"));
    cmd.push(String::from_str("-V"));
    cmd.push(String::from_str("--no-install-recommends"));
    let n = packages.len();
    let mut i: usize = 0;
    while i < n
        invariant
            i <= n,
            n == packages@.len(),
            forall|j: int| 0 <= j < n ==> (#[trigger] packages@[j]@).filepath is Some,
            cmd@.len() == 4 + i,
            cmd@[0]@ == "apt-get"@,
            cmd@[1]@ == "install"@,
            cmd@[2]@ == "-V"@,
            cmd@[3]@ == "--no-install-recommends"@,
            forall|j: int|
                0 <= j < i ==> Some(cmd@[4 + j]@) == (#[trigger] packages@[j]@).filepath,
        decreases n - i,
    {
        match &packages[i].filepath {
            Some(p) => {
                cmd.push(p.clone());
            },
            None => {
                proof {
                    assert(packages@[i as int]@.filepath is Some);
                    assert(false);
                }
            },
        }
        i += 1;
    }
    cmd
}

} // verus!
