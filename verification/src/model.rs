//! Package identity, version constraints and dependencies.

use vstd::prelude::*;
use vstd::string::StringExecFns;

use crate::version::{cmp_version, PackageVersion, VersionOrdering};

verus! {

/// How a candidate version must relate to a constraint's version.
#[derive(Clone, Copy, Debug, PartialEq, Eq, Structural)]
pub enum PackageVersionRelation {
    Any,
    StrictlyInferior,
    InferiorOrEqual,
    Equal,
    SuperiorOrEqual,
    StriclySuperior,
}

/// One version constraint of a dependency.
#[derive(Debug)]
pub struct PackageVersionConstaint {
    pub version: PackageVersion,
    pub version_relation: PackageVersionRelation,
}

impl Clone for PackageVersionConstaint {
    fn clone(&self) -> (r: Self)
        ensures
            r@ == self@,
    {
        PackageVersionConstaint {
            version: self.version.clone(),
            version_relation: self.version_relation,
        }
    }
}

/// What a constraint is, mathematically.
pub struct ConstraintView {
    pub version: Seq<char>,
    pub version_relation: PackageVersionRelation,
}

impl View for PackageVersionConstaint {
    type V = ConstraintView;

    open spec fn view(&self) -> ConstraintView {
        ConstraintView { version: self.version@, version_relation: self.version_relation }
    }
}

/// A dependency: a package name and the conjunction of its constraints.
#[derive(Debug)]
pub struct PackageDependency {
    pub package_name: String,
    pub version_constraints: Vec<PackageVersionConstaint>,
}

impl Clone for PackageDependency {
    fn clone(&self) -> (r: Self)
        ensures
            r@ == self@,
    {
        let mut constraints: Vec<PackageVersionConstaint> = Vec::new();
        let n = self.version_constraints.len();
        let mut i: usize = 0;
        while i < n
            invariant
                i <= n,
                n == self.version_constraints@.len(),
                constraints@.len() == i,
                forall|k: int|
                    0 <= k < i ==> #[trigger] constraints@[k]@ == self.version_constraints@[k]@,
            decreases n - i,
        {
            constraints.push(self.version_constraints[i].clone());
            i += 1;
        }
        proof {
            assert(constraints@.map_values(|c: PackageVersionConstaint| c@)
                =~= self.version_constraints@.map_values(|c: PackageVersionConstaint| c@));
        }
        PackageDependency { package_name: self.package_name.clone(), version_constraints: constraints }
    }
}

pub struct DependencyView {
    pub package_name: Seq<char>,
    pub version_constraints: Seq<ConstraintView>,
}

impl View for PackageDependency {
    type V = DependencyView;

    open spec fn view(&self) -> DependencyView {
        DependencyView {
            package_name: self.package_name@,
            version_constraints: self.version_constraints@.map_values(|c: PackageVersionConstaint| c@),
        }
    }
}

/// One concrete, installable package artifact.
#[derive(Debug)]
pub struct Package {
    pub name: String,
    pub version: PackageVersion,
    pub arch: Option<String>,
    pub filepath: Option<String>,
    pub url: Option<String>,
}

fn clone_opt_string(o: &Option<String>) -> (r: Option<String>)
    ensures
        opt_view(r) == opt_view(*o),
{
    match o {
        None => None,
        Some(s) => Some(s.clone()),
    }
}

impl Clone for Package {
    fn clone(&self) -> (r: Self)
        ensures
            r@ == self@,
    {
        Package {
            name: self.name.clone(),
            version: self.version.clone(),
            arch: clone_opt_string(&self.arch),
            filepath: clone_opt_string(&self.filepath),
            url: clone_opt_string(&self.url),
        }
    }
}

pub struct PackageView {
    pub name: Seq<char>,
    pub version: Seq<char>,
    pub arch: Option<Seq<char>>,
    pub filepath: Option<Seq<char>>,
    pub url: Option<Seq<char>>,
}

/// The view of an optional string.
pub open spec fn opt_view(o: Option<String>) -> Option<Seq<char>> {
    match o {
        Some(s) => Some(s@),
        None => None,
    }
}

impl View for Package {
    type V = PackageView;

    open spec fn view(&self) -> PackageView {
        PackageView {
            name: self.name@,
            version: self.version@,
            arch: opt_view(self.arch),
            filepath: opt_view(self.filepath),
            url: opt_view(self.url),
        }
    }
}

fn opt_string_eq(a: &Option<String>, b: &Option<String>) -> (r: bool)
    ensures
        r == (opt_view(*a) == opt_view(*b)),
{
    match (a, b) {
        (None, None) => true,
        (Some(x), Some(y)) => x.eq(y),
        _ => false,
    }
}

impl PartialEq for Package {
    /// Structural equality over every field; the version compares as a
    /// string here, not up to the version order.
    fn eq(&self, other: &Self) -> (r: bool) {
        self.name == other.name && self.version == other.version && opt_string_eq(
            &self.arch,
            &other.arch,
        ) && opt_string_eq(&self.filepath, &other.filepath) && opt_string_eq(
            &self.url,
            &other.url,
        )
    }
}

impl vstd::std_specs::cmp::PartialEqSpecImpl for Package {
    open spec fn obeys_eq_spec() -> bool {
        true
    }

    open spec fn eq_spec(&self, other: &Self) -> bool {
        self@ == other@
    }
}

/// Does version `v` stand in the given relation to `w`?  `Any` holds of
/// every version; the others follow the Debian version order.
pub open spec fn relation_holds(rel: PackageVersionRelation, v: Seq<char>, w: Seq<char>) -> bool {
    match rel {
        PackageVersionRelation::Any => true,
        PackageVersionRelation::StrictlyInferior => cmp_version(v, w) < 0,
        PackageVersionRelation::InferiorOrEqual => cmp_version(v, w) <= 0,
        PackageVersionRelation::Equal => cmp_version(v, w) == 0,
        PackageVersionRelation::SuperiorOrEqual => cmp_version(v, w) >= 0,
        PackageVersionRelation::StriclySuperior => cmp_version(v, w) > 0,
    }
}

/// A version satisfies a constraint when it stands in the constraint's
/// relation to the constraint's version.
pub open spec fn constraint_satisfied(c: ConstraintView, v: Seq<char>) -> bool {
    relation_holds(c.version_relation, v, c.version)
}

/// A version matches a dependency when it satisfies every one of the
/// dependency's constraints.
pub open spec fn dependency_matches(d: DependencyView, v: Seq<char>) -> bool {
    forall|i: int|
        0 <= i < d.version_constraints.len() ==> constraint_satisfied(
            #[trigger] d.version_constraints[i],
            v,
        )
}

/// Whether `version` satisfies `constraint`.
pub fn satisfies_constraint(version: &PackageVersion, constraint: &PackageVersionConstaint) -> (r:
    bool)
    ensures
        r == constraint_satisfied(constraint@, version@),
{
    match constraint.version_relation {
        PackageVersionRelation::Any => true,
        PackageVersionRelation::StrictlyInferior => matches!(
            version.compare(&constraint.version),
            VersionOrdering::Less
        ),
        PackageVersionRelation::InferiorOrEqual => !matches!(
            version.compare(&constraint.version),
            VersionOrdering::Greater
        ),
        PackageVersionRelation::Equal => matches!(
            version.compare(&constraint.version),
            VersionOrdering::Equal
        ),
        PackageVersionRelation::SuperiorOrEqual => !matches!(
            version.compare(&constraint.version),
            VersionOrdering::Less
        ),
        PackageVersionRelation::StriclySuperior => matches!(
            version.compare(&constraint.version),
            VersionOrdering::Greater
        ),
    }
}

/// Whether `version` satisfies every constraint of `dependency`.
pub fn matches_dependency(dependency: &PackageDependency, version: &PackageVersion) -> (r: bool)
    ensures
        r == dependency_matches(dependency@, version@),
{
    let n = dependency.version_constraints.len();
    let mut i: usize = 0;
    while i < n
        invariant
            i <= n,
            n == dependency.version_constraints@.len(),
            forall|j: int|
                0 <= j < i ==> constraint_satisfied(
                    #[trigger] dependency@.version_constraints[j],
                    version@,
                ),
        decreases n - i,
    {
        if !satisfies_constraint(version, &dependency.version_constraints[i]) {
            proof {
                assert(dependency@.version_constraints[i as int]
                    == dependency.version_constraints@[i as int]@);
            }
            return false;
        }
        i += 1;
    }
    true
}

/// The APT environment a resolution run works in, read once at start.
#[derive(Debug)]
pub struct AptEnv {
    pub arch: String,
    pub cache_dir: String,
}

/// One constraint spelled out: the package name, then the relation
/// symbol and the version, or the bare name for an unconstrained one.
pub open spec fn constraint_text(name: Seq<char>, c: ConstraintView) -> Seq<char> {
    match c.version_relation {
        PackageVersionRelation::Any => name,
        PackageVersionRelation::StrictlyInferior => name + "<<"@ + c.version,
        PackageVersionRelation::InferiorOrEqual => name + "<="@ + c.version,
        PackageVersionRelation::Equal => name + "="@ + c.version,
        PackageVersionRelation::SuperiorOrEqual => name + ">="@ + c.version,
        PackageVersionRelation::StriclySuperior => name + ">>"@ + c.version,
    }
}

/// Every constraint of a dependency spelled out, in order.
pub open spec fn constraints_text(name: Seq<char>, cs: Seq<ConstraintView>) -> Seq<char>
    decreases cs.len(),
{
    if cs.len() == 0 {
        Seq::empty()
    } else {
        constraints_text(name, cs.drop_last()) + constraint_text(name, cs.last())
    }
}

/// A dependency spelled out, for messages.
pub open spec fn dependency_text(d: DependencyView) -> Seq<char> {
    constraints_text(d.package_name, d.version_constraints)
}

impl PackageDependency {
    /// The dependency spelled out: one `name<relation>version` group
    /// per constraint, the bare name for an unconstrained one.
    pub fn render(&self) -> (s: String)
        ensures
            s@ == dependency_text(self@),
    {
        let ghost cviews = self@.version_constraints;
        let mut s = String::new();
        let n = self.version_constraints.len();
        let mut i: usize = 0;
        proof {
            assert(cviews.take(0) =~= Seq::<ConstraintView>::empty());
        }
        while i < n
            invariant
                i <= n,
                n == self.version_constraints@.len(),
                cviews == self@.version_constraints,
                cviews.len() == n,
                s@ == constraints_text(self.package_name@, cviews.take(i as int)),
            decreases n - i,
        {
            proof {
                assert(cviews[i as int] == self.version_constraints@[i as int]@);
                assert(cviews.take(i + 1).drop_last() =~= cviews.take(i as int));
                assert(cviews.take(i + 1).last() == cviews[i as int]);
            }
            s.append(self.package_name.as_str());
            match self.version_constraints[i].version_relation {
                PackageVersionRelation::Any => {},
                PackageVersionRelation::StrictlyInferior => {
                    s.append("<<");
                    s.append(self.version_constraints[i].version.string.as_str());
                },
                PackageVersionRelation::InferiorOrEqual => {
                    s.append("<=");
                    s.append(self.version_constraints[i].version.string.as_str());
                },
                PackageVersionRelation::Equal => {
                    s.append("=");
                    s.append(self.version_constraints[i].version.string.as_str());
                },
                PackageVersionRelation::SuperiorOrEqual => {
                    s.append(">=");
                    s.append(self.version_constraints[i].version.string.as_str());
                },
                PackageVersionRelation::StriclySuperior => {
                    s.append(">>");
                    s.append(self.version_constraints[i].version.string.as_str());
                },
            }
            i += 1;
        }
        proof {
            assert(cviews.take(n as int) =~= cviews);
        }
        s
    }
}

} // verus!
