//! Parsers for the metadata the package manager's tools print.
//!
//! The embedding program runs the tools and hands their output lines
//! in; everything from there on is parsed here.

use vstd::prelude::*;
use vstd::string::StrSliceExecFns;
use vstd::string::StringExecFns;

use crate::model::{
    ConstraintView, Package, PackageDependency, PackageVersionConstaint, PackageVersionRelation,
};
use crate::text::{
    chars_of, eq_chars, find_first_char, find_last_char_in, first_index_of, has_prefix, is_prefix,
    last_index_of, split_chars, split_on, str_views, string_of, subvec, trim_end_chars,
    trim_end_spaces, trim_start_chars, trim_start_spaces,
};
use crate::version::PackageVersion;

verus! {

/// An error of a resolution run, by kind.
#[derive(Debug)]
pub enum AptError {
    /// An expected field or token was missing from a tool's output.
    ParseFailure { detail: String },
    /// A queried tool failed.
    ToolFailure { command: String },
    /// A remote source could not be fetched or had an unexpected shape.
    RemoteFailure { detail: String },
    /// No candidate satisfies a dependency.
    Unresolvable { dependency: String },
    /// A chosen artifact could not be materialized.
    ArtifactFailure { detail: String },
}

/// The suffix of the first line that starts with the prefix.
pub open spec fn line_with_prefix(lines: Seq<Seq<char>>, prefix: Seq<char>) -> Option<Seq<char>>
    decreases lines.len(),
{
    if lines.len() == 0 {
        None
    } else if is_prefix(prefix, lines[0]) {
        Some(lines[0].skip(prefix.len() as int))
    } else {
        line_with_prefix(lines.drop_first(), prefix)
    }
}

/// The suffix of the first line of `lines` that starts with `prefix`.
pub fn find_prefixed_line(lines: &Vec<String>, prefix: &str) -> (r: Option<String>)
    ensures
        match r {
            Some(s) => line_with_prefix(str_views(lines@), prefix@) == Some(s@),
            None => line_with_prefix(str_views(lines@), prefix@) is None,
        },
{
    let p = chars_of(prefix);
    let n = lines.len();
    let mut i: usize = 0;
    proof {
        assert(str_views(lines@).skip(0) =~= str_views(lines@));
    }
    while i < n
        invariant
            i <= n,
            n == lines@.len(),
            p@ == prefix@,
            line_with_prefix(str_views(lines@), prefix@) == line_with_prefix(
                str_views(lines@).skip(i as int),
                prefix@,
            ),
        decreases n - i,
    {
        let ghost cur = str_views(lines@).skip(i as int);
        let lv = chars_of(lines[i].as_str());
        proof {
            assert(cur[0] == str_views(lines@)[i as int]);
            assert(cur[0] == lines@[i as int]@);
            assert(cur.drop_first() =~= str_views(lines@).skip(i + 1));
        }
        if has_prefix(&lv, &p) {
            let sfx = subvec(&lv, p.len(), lv.len());
            proof {
                assert(sfx@ =~= lines@[i as int]@.skip(prefix@.len() as int));
            }
            return Some(string_of(&sfx));
        }
        i += 1;
    }
    proof {
        assert(str_views(lines@).skip(n as int).len() == 0);
    }
    None
}

/// The relation a constraint token (without its opening parenthesis)
/// denotes.
pub open spec fn parse_relation(s: Seq<char>) -> Option<PackageVersionRelation> {
    if s == "<<"@ {
        Some(PackageVersionRelation::StrictlyInferior)
    } else if s == "<="@ {
        Some(PackageVersionRelation::InferiorOrEqual)
    } else if s == "="@ {
        Some(PackageVersionRelation::Equal)
    } else if s == ">="@ {
        Some(PackageVersionRelation::SuperiorOrEqual)
    } else if s == ">>"@ {
        Some(PackageVersionRelation::StriclySuperior)
    } else {
        None
    }
}

fn parse_relation_exec(s: &Vec<char>) -> (r: Option<PackageVersionRelation>)
    ensures
        r == parse_relation(s@),
{
    let lt = chars_of("<<");
    let le = chars_of("<=");
    let eq = chars_of("=");
    let ge = chars_of(">=");
    let gt = chars_of(">>");
    if eq_chars(s, &lt) {
        Some(PackageVersionRelation::StrictlyInferior)
    } else if eq_chars(s, &le) {
        Some(PackageVersionRelation::InferiorOrEqual)
    } else if eq_chars(s, &eq) {
        Some(PackageVersionRelation::Equal)
    } else if eq_chars(s, &ge) {
        Some(PackageVersionRelation::SuperiorOrEqual)
    } else if eq_chars(s, &gt) {
        Some(PackageVersionRelation::StriclySuperior)
    } else {
        None
    }
}

/// What one comma-separated dependency clause denotes: the package name
/// and the one constraint the clause carries.  Only the first
/// `|`-alternative of an OR clause is considered.  A clause of a bare
/// name constrains nothing; one with a relation must carry a
/// well-formed relation token and a version token, whose trailing
/// parenthesis and epoch prefix are dropped.
pub open spec fn parse_clause(raw: Seq<char>) -> Option<(Seq<char>, ConstraintView)> {
    let s0 = trim_start_spaces(raw);
    let cut = first_index_of(s0, '|');
    let alt = if cut < 0 {
        s0
    } else {
        s0.take(cut)
    };
    let t = trim_end_spaces(alt);
    let sp1 = first_index_of(t, ' ');
    if sp1 < 0 {
        Some(
            (
                t,
                ConstraintView {
                    version: Seq::empty(),
                    version_relation: PackageVersionRelation::Any,
                },
            ),
        )
    } else {
        let name = t.take(sp1);
        let rest = t.skip(sp1 + 1);
        let sp2 = first_index_of(rest, ' ');
        if sp2 < 0 {
            None
        } else {
            let rel_tok = rest.take(sp2);
            let after = rest.skip(sp2 + 1);
            let sp3 = first_index_of(after, ' ');
            let vraw = if sp3 < 0 {
                after
            } else {
                after.take(sp3)
            };
            if rel_tok.len() < 1 {
                None
            } else {
                match parse_relation(rel_tok.drop_first()) {
                    None => None,
                    Some(rel) => {
                        if vraw.len() < 1 {
                            None
                        } else {
                            let stripped = vraw.drop_last();
                            let colon = last_index_of(stripped, ':');
                            let ver = if colon < 0 {
                                stripped
                            } else {
                                stripped.skip(colon + 1)
                            };
                            Some((name, ConstraintView { version: ver, version_relation: rel }))
                        }
                    },
                }
            }
        }
    }
}

fn parse_clause_exec(raw: &Vec<char>) -> (r: Option<PackageDependency>)
    ensures
        match r {
            Some(dep) => parse_clause(raw@) is Some && dep@.version_constraints.len() == 1
                && parse_clause(raw@) == Some(
                (dep@.package_name, dep@.version_constraints[0]),
            ),
            None => parse_clause(raw@) is None,
        },
{
    let s0 = trim_start_chars(raw);
    let alt = match find_first_char(&s0, '|') {
        None => s0,
        Some(cut) => subvec(&s0, 0, cut),
    };
    proof {
        assert(alt@ =~= {
            let cut = first_index_of(trim_start_spaces(raw@), '|');
            if cut < 0 {
                trim_start_spaces(raw@)
            } else {
                trim_start_spaces(raw@).take(cut)
            }
        });
    }
    let t = trim_end_chars(&alt);
    match find_first_char(&t, ' ') {
        None => {
            let name = string_of(&t);
            Some(
                PackageDependency {
                    package_name: name,
                    version_constraints: vec![
                        PackageVersionConstaint {
                            version: PackageVersion { string: String::new() },
                            version_relation: PackageVersionRelation::Any,
                        },
                    ],
                },
            )
        },
        Some(sp1) => {
            let tn = t.len();
            let name = subvec(&t, 0, sp1);
            let rest = subvec(&t, sp1 + 1, tn);
            proof {
                assert(name@ =~= t@.take(sp1 as int));
                assert(rest@ =~= t@.skip(sp1 as int + 1));
            }
            match find_first_char(&rest, ' ') {
                None => None,
                Some(sp2) => {
                    let rn = rest.len();
                    let rel_tok = subvec(&rest, 0, sp2);
                    let after = subvec(&rest, sp2 + 1, rn);
                    proof {
                        assert(rel_tok@ =~= rest@.take(sp2 as int));
                        assert(after@ =~= rest@.skip(sp2 as int + 1));
                    }
                    let vraw = match find_first_char(&after, ' ') {
                        None => after,
                        Some(sp3) => subvec(&after, 0, sp3),
                    };
                    proof {
                        assert(vraw@ =~= {
                            let sp3 = first_index_of(rest@.skip(sp2 as int + 1), ' ');
                            if sp3 < 0 {
                                rest@.skip(sp2 as int + 1)
                            } else {
                                rest@.skip(sp2 as int + 1).take(sp3)
                            }
                        });
                    }
                    if rel_tok.len() < 1 {
                        return None;
                    }
                    let rel_body = subvec(&rel_tok, 1, rel_tok.len());
                    proof {
                        assert(rel_body@ =~= rel_tok@.drop_first());
                    }
                    match parse_relation_exec(&rel_body) {
                        None => None,
                        Some(rel) => {
                            if vraw.len() < 1 {
                                return None;
                            }
                            let vn = vraw.len();
                            let stripped = subvec(&vraw, 0, vn - 1);
                            proof {
                                assert(stripped@ =~= vraw@.drop_last());
                            }
                            let ver = match find_last_char_in(&stripped, 0, vn - 1, ':') {
                                None => {
                                    proof {
                                        assert(stripped@.subrange(0, stripped@.len() as int)
                                            =~= stripped@);
                                    }
                                    stripped
                                },
                                Some(colon) => {
                                    let v = subvec(&stripped, colon + 1, vn - 1);
                                    proof {
                                        assert(stripped@.subrange(0, stripped@.len() as int)
                                            =~= stripped@);
                                        assert(v@ =~= stripped@.skip(colon as int + 1));
                                    }
                                    v
                                },
                            };
                            Some(
                                PackageDependency {
                                    package_name: string_of(&name),
                                    version_constraints: vec![
                                        PackageVersionConstaint {
                                            version: PackageVersion { string: string_of(&ver) },
                                            version_relation: rel,
                                        },
                                    ],
                                },
                            )
                        },
                    }
                },
            }
        },
    }
}

/// What a whole `Depends:` suffix denotes: each comma-separated clause
/// parsed in order, or nothing when any clause is malformed.
pub open spec fn parse_clauses(parts: Seq<Seq<char>>) -> Option<Seq<(Seq<char>, ConstraintView)>>
    decreases parts.len(),
{
    if parts.len() == 0 {
        Some(Seq::empty())
    } else {
        match parse_clause(parts[0]) {
            None => None,
            Some(c) => match parse_clauses(parts.drop_first()) {
                None => None,
                Some(rest) => Some(seq![c] + rest),
            },
        }
    }
}

pub open spec fn parse_depends(suffix: Seq<char>) -> Option<Seq<(Seq<char>, ConstraintView)>> {
    parse_clauses(split_on(suffix, ','))
}

/// The direct dependencies a package declares, read from the output of
/// the package metadata query: the first `Depends: ` line, parsed as
/// comma-separated clauses of the form `name (relop version)?`.  The
/// output must hold such a line and every clause must be well formed,
/// else the run-fatal parse failure is reported.
pub fn parse_depends_output(lines: &Vec<String>) -> (r: Result<Vec<PackageDependency>, AptError>)
    ensures
        match r {
            Ok(deps) => match line_with_prefix(str_views(lines@), "Depends: "@) {
                Some(sfx) => match parse_depends(sfx) {
                    Some(cs) => deps@.len() == cs.len() && forall|i: int|
                        0 <= i < cs.len() ==> (#[trigger] deps@[i]@).package_name == cs[i].0
                            && deps@[i]@.version_constraints == seq![cs[i].1],
                    None => false,
                },
                None => false,
            },
            Err(e) => e is ParseFailure && (line_with_prefix(str_views(lines@), "Depends: "@)
                is None || parse_depends(
                match line_with_prefix(str_views(lines@), "Depends: "@) {
                    Some(sfx) => sfx,
                    None => Seq::empty(),
                },
            ) is None),
        },
{
    let suffix = match find_prefixed_line(lines, "Depends: ") {
        None => {
            return Err(
                AptError::ParseFailure { detail: String::from_str("unexpected apt-cache output") },
            );
        },
        Some(s) => s,
    };
    let sv = chars_of(suffix.as_str());
    let parts = split_chars(&sv, ',');
    let ghost part_views = parts@.map_values(|p: Vec<char>| p@);
    let n = parts.len();
    let mut deps: Vec<PackageDependency> = Vec::new();
    let mut i: usize = 0;
    while i < n
        invariant
            i <= n,
            n == parts@.len(),
            part_views == parts@.map_values(|p: Vec<char>| p@),
            line_with_prefix(str_views(lines@), "Depends: "@) == Some(suffix@),
            part_views == split_on(suffix@, ','),
            deps@.len() == i,
            forall|j: int|
                0 <= j < i ==> parse_clause(#[trigger] part_views[j]) == Some(
                    (deps@[j]@.package_name, deps@[j]@.version_constraints[0]),
                ) && deps@[j]@.version_constraints.len() == 1,
        decreases n - i,
    {
        proof {
            assert(part_views[i as int] == parts@[i as int]@);
        }
        match parse_clause_exec(&parts[i]) {
            None => {
                proof {
                    lemma_parse_clauses_member_none(part_views, i as int);
                }
                return Err(
                    AptError::ParseFailure {
                        detail: String::from_str("unexpected apt-cache output"),
                    },
                );
            },
            Some(dep) => {
                deps.push(dep);
            },
        }
        i += 1;
    }
    proof {
        let mapped = deps@.map_values(|d: PackageDependency| d@);
        lemma_parse_clauses_all_some(part_views, mapped);
        assert(parse_depends(suffix@) == parse_clauses(part_views));
        match parse_clauses(part_views) {
            Some(cs) => {
                assert forall|j: int|
                    0 <= j < cs.len() implies (#[trigger] deps@[j]@).package_name == cs[j].0
                    && deps@[j]@.version_constraints == seq![cs[j].1] by {
                    assert(mapped[j] == deps@[j]@);
                }
            },
            None => {
                assert(false);
            },
        }
    }
    Ok(deps)
}

/// When one part fails to parse, the whole clause list fails.
proof fn lemma_parse_clauses_member_none(parts: Seq<Seq<char>>, i: int)
    requires
        0 <= i < parts.len(),
        parse_clause(parts[i]) is None,
    ensures
        parse_clauses(parts) is None,
    decreases parts.len(),
{
    if i > 0 {
        if parse_clause(parts[0]) is Some {
            assert(parts.drop_first()[i - 1] == parts[i]);
            lemma_parse_clauses_member_none(parts.drop_first(), i - 1);
        }
    }
}

/// When every part parses, the whole list parses to exactly those
/// results, in order.
proof fn lemma_parse_clauses_all_some(
    parts: Seq<Seq<char>>,
    deps: Seq<crate::model::DependencyView>,
)
    requires
        deps.len() == parts.len(),
        forall|j: int|
            0 <= j < parts.len() ==> parse_clause(#[trigger] parts[j]) == Some(
                ((#[trigger] deps[j]).package_name, deps[j].version_constraints[0]),
            ) && deps[j].version_constraints.len() == 1,
    ensures
        parse_clauses(parts) is Some,
        match parse_clauses(parts) {
            Some(cs) => cs.len() == parts.len() && forall|j: int|
                0 <= j < parts.len() ==> (#[trigger] deps[j]).package_name == cs[j].0
                    && deps[j].version_constraints == seq![cs[j].1],
            None => false,
        },
    decreases parts.len(),
{
    if parts.len() > 0 {
        assert(forall|j: int|
            0 <= j < parts.len() - 1 ==> #[trigger] parts.drop_first()[j] == parts[j + 1]);
        assert(forall|j: int|
            0 <= j < deps.len() - 1 ==> #[trigger] deps.drop_first()[j] == deps[j + 1]);
        lemma_parse_clauses_all_some(parts.drop_first(), deps.drop_first());
        assert(parse_clause(parts[0]) == Some(
            (deps[0].package_name, deps[0].version_constraints[0]),
        ));
        let c0 = (deps[0].package_name, deps[0].version_constraints[0]);
        match parse_clauses(parts.drop_first()) {
            Some(rest) => {
                assert(parse_clauses(parts) == Some(seq![c0] + rest));
                assert forall|j: int| 0 <= j < parts.len() implies (#[trigger] deps[j]).package_name
                    == (seq![c0] + rest)[j].0 && deps[j].version_constraints == seq![
                    (seq![c0] + rest)[j].1,
                ] by {
                    if j > 0 {
                        assert((seq![c0] + rest)[j] == rest[j - 1]);
                        assert(deps.drop_first()[j - 1] == deps[j]);
                    }
                }
            },
            None => {
                assert(false);
            },
        }
    }
}

/// Everything after the last colon, or the whole sequence without one.
pub open spec fn after_last_colon(s: Seq<char>) -> Seq<char> {
    let i = last_index_of(s, ':');
    if i < 0 {
        s
    } else {
        s.skip(i + 1)
    }
}

fn after_last_colon_exec(v: &Vec<char>) -> (r: Vec<char>)
    ensures
        r@ == after_last_colon(v@),
{
    let n = v.len();
    proof {
        assert(v@.subrange(0, n as int) =~= v@);
    }
    match find_last_char_in(v, 0, n, ':') {
        None => subvec(v, 0, n),
        Some(i) => {
            let r = subvec(v, i + 1, n);
            proof {
                assert(r@ =~= v@.skip(i as int + 1));
            }
            r
        },
    }
}

/// The version the host has installed, as the policy report states it:
/// the first `  Installed: ` line's value, with any epoch-like prefix
/// up to the last colon dropped; `(none)` means not installed.
pub open spec fn installed_version_of(policy: Seq<Seq<char>>) -> Option<Seq<char>> {
    match line_with_prefix(policy, "  Installed: "@) {
        None => None,
        Some(sfx) => {
            let v = after_last_colon(sfx);
            if v == "(none)"@ {
                None
            } else {
                Some(v)
            }
        },
    }
}

/// The installed package the two reports describe, if one is.
pub open spec fn installed_package_of(
    policy: Seq<Seq<char>>,
    show: Seq<Seq<char>>,
    name: Seq<char>,
    cache_dir: Seq<char>,
) -> Option<crate::model::PackageView> {
    match installed_version_of(policy) {
        None => None,
        Some(v) => match line_with_prefix(show, "Filename: "@) {
            None => None,
            Some(f) => match line_with_prefix(show, "Architecture: "@) {
                None => None,
                Some(a) => Some(
                    crate::model::PackageView {
                        name: name,
                        version: v,
                        arch: Some(a),
                        filepath: Some(cache_dir + crate::cache::url_filename(f)),
                        url: None,
                    },
                ),
            },
        },
    }
}

/// Read the installed package for `package_name` out of the policy and
/// metadata reports: its version (unless `(none)`), its architecture,
/// and the cache path its artifact would have.  Nothing is returned
/// when any of the fields is missing — the package is then taken to be
/// not installed, as the caller treats every failure of the probe.
pub fn parse_installed(
    package_name: &str,
    policy_lines: &Vec<String>,
    show_lines: &Vec<String>,
    cache_dir: &str,
) -> (r: Option<Package>)
    ensures
        crate::select::opt_pkg_view(r) == installed_package_of(
            str_views(policy_lines@),
            str_views(show_lines@),
            package_name@,
            cache_dir@,
        ),
{
    let sfx = match find_prefixed_line(policy_lines, "  Installed: ") {
        None => {
            return None;
        },
        Some(s) => s,
    };
    let sv = chars_of(sfx.as_str());
    let ver = after_last_colon_exec(&sv);
    let none_marker = chars_of("(none)");
    if eq_chars(&ver, &none_marker) {
        return None;
    }
    let fname_line = match find_prefixed_line(show_lines, "Filename: ") {
        None => {
            return None;
        },
        Some(s) => s,
    };
    let arch_line = match find_prefixed_line(show_lines, "Architecture: ") {
        None => {
            return None;
        },
        Some(s) => s,
    };
    let filename = crate::cache::artifact_filename(fname_line.as_str());
    let mut filepath = String::from_str(cache_dir);
    filepath.append(filename.as_str());
    Some(
        Package {
            name: String::from_str(package_name),
            version: PackageVersion { string: crate::text::string_of(&ver) },
            arch: Some(arch_line),
            filepath: Some(filepath),
            url: None,
        },
    )
}

/// `%3a` unescaped to `:`, left to right.
pub open spec fn unescape_colons(s: Seq<char>) -> Seq<char>
    decreases s.len(),
{
    if s.len() < 3 {
        s
    } else if s.take(3) == "%3a"@ {
        seq![':'] + unescape_colons(s.skip(3))
    } else {
        seq![s[0]] + unescape_colons(s.drop_first())
    }
}

fn unescape_colons_exec(v: &Vec<char>) -> (r: Vec<char>)
    ensures
        r@ == unescape_colons(v@),
{
    let pat = chars_of("%3a");
    let n = v.len();
    let mut out: Vec<char> = Vec::new();
    let mut i: usize = 0;
    proof {
        assert(v@.skip(0) =~= v@);
        assert(out@ + unescape_colons(v@) =~= unescape_colons(v@));
    }
    while i < n
        invariant
            i <= n,
            n == v@.len(),
            pat@ == "%3a"@,
            unescape_colons(v@) == out@ + unescape_colons(v@.skip(i as int)),
        decreases n - i,
    {
        let ghost cur = v@.skip(i as int);
        if n - i >= 3 {
            let window = subvec(v, i, i + 3);
            proof {
                assert(window@ =~= cur.take(3));
            }
            if eq_chars(&window, &pat) {
                out.push(':');
                proof {
                    assert(cur.skip(3) =~= v@.skip(i as int + 3));
                    assert(unescape_colons(cur) == seq![':'] + unescape_colons(cur.skip(3)));
                    assert(out@ + unescape_colons(v@.skip(i as int + 3)) =~= unescape_colons(
                        v@,
                    ));
                }
                i += 3;
                continue ;
            }
        }
        proof {
            assert(cur[0] == v@[i as int]);
            if cur.len() >= 3 {
                assert(cur.take(3) != "%3a"@);
                assert(unescape_colons(cur) == seq![cur[0]] + unescape_colons(cur.drop_first()));
            } else {
                assert(unescape_colons(cur) == cur);
                assert(cur =~= seq![cur[0]] + cur.drop_first());
                assert(cur.drop_first().len() < 3);
                assert(unescape_colons(cur.drop_first()) == cur.drop_first());
            }
            assert(cur.drop_first() =~= v@.skip(i as int + 1));
        }
        out.push(v[i]);
        proof {
            assert(out@ + unescape_colons(v@.skip(i as int + 1)) =~= unescape_colons(v@));
        }
        i += 1;
    }
    proof {
        assert(v@.skip(n as int).len() == 0);
        assert(out@ + unescape_colons(v@.skip(n as int)) =~= out@);
    }
    out
}

/// The version and architecture a cached artifact's file name carries:
/// the architecture is the last `_`-separated token up to its first
/// dot, and the version is the token before it, with `%3a` unescaped
/// and any epoch-like prefix up to the last colon dropped.  A name with
/// fewer than two `_` tokens is rejected.
pub open spec fn cache_entry_fields(filename: Seq<char>) -> Option<(Seq<char>, Seq<char>)> {
    let i = last_index_of(filename, '_');
    if i < 0 {
        None
    } else {
        let arch_tok = filename.skip(i + 1);
        let d = first_index_of(arch_tok, '.');
        let arch = if d < 0 {
            arch_tok
        } else {
            arch_tok.take(d)
        };
        let rest = filename.take(i);
        let j = last_index_of(rest, '_');
        if j < 0 {
            None
        } else {
            let vtok = rest.skip(j + 1);
            Some((after_last_colon(unescape_colons(vtok)), arch))
        }
    }
}

/// The package a cache directory entry describes: version and
/// architecture read from the file name (the path's last segment), the
/// path kept as the local artifact.
pub fn parse_cache_entry(package_name: &str, path: &str) -> (r: Option<Package>)
    ensures
        crate::select::opt_pkg_view(r) == match cache_entry_fields(
            crate::cache::url_filename(path@),
        ) {
            None => None,
            Some(fields) => Some(
                crate::model::PackageView {
                    name: package_name@,
                    version: fields.0,
                    arch: Some(fields.1),
                    filepath: Some(path@),
                    url: None,
                },
            ),
        },
{
    let filename = crate::cache::artifact_filename(path);
    let fv = chars_of(filename.as_str());
    let n = fv.len();
    let i = match find_last_char_in(&fv, 0, n, '_') {
        None => {
            proof {
                assert(fv@.subrange(0, n as int) =~= fv@);
            }
            return None;
        },
        Some(i) => i,
    };
    proof {
        assert(fv@.subrange(0, n as int) =~= fv@);
    }
    let arch_tok = subvec(&fv, i + 1, n);
    proof {
        assert(arch_tok@ =~= fv@.skip(i as int + 1));
    }
    let arch = match find_first_char(&arch_tok, '.') {
        None => arch_tok,
        Some(d) => subvec(&arch_tok, 0, d),
    };
    let rest = subvec(&fv, 0, i);
    proof {
        assert(rest@ =~= fv@.take(i as int));
    }
    let j = match find_last_char_in(&rest, 0, i, '_') {
        None => {
            proof {
                assert(rest@.subrange(0, i as int) =~= rest@);
            }
            return None;
        },
        Some(j) => j,
    };
    proof {
        assert(rest@.subrange(0, i as int) =~= rest@);
    }
    let vtok = subvec(&rest, j + 1, i);
    proof {
        assert(vtok@ =~= rest@.skip(j as int + 1));
    }
    let unescaped = unescape_colons_exec(&vtok);
    let ver = after_last_colon_exec(&unescaped);
    Some(
        Package {
            name: String::from_str(package_name),
            version: PackageVersion { string: crate::text::string_of(&ver) },
            arch: Some(crate::text::string_of(&arch)),
            filepath: Some(String::from_str(path)),
            url: None,
        },
    )
}

/// The version and architecture a pool directory entry advertises, or
/// nothing when the entry is not a `.deb` of the package or its
/// architecture is not accepted.  The entry must read
/// `name_version_arch.deb`; the architecture whitelist is the
/// configured one plus the two markers `all` and `any`.
pub open spec fn pool_entry_fields(name: Seq<char>, arch: Seq<char>, href: Seq<char>) -> Option<
    (Seq<char>, Seq<char>),
> {
    if !is_prefix(name + "_"@, href) || !crate::text::ends_with(href, ".deb"@) {
        None
    } else {
        let d = last_index_of(href, '.');
        let stem = if d < 0 {
            href
        } else {
            href.take(d)
        };
        let i = last_index_of(stem, '_');
        if i < 0 {
            None
        } else {
            let arch_tok = stem.skip(i + 1);
            if arch_tok != arch && arch_tok != "all"@ && arch_tok != "any"@ {
                None
            } else {
                let rest = stem.take(i);
                let j = last_index_of(rest, '_');
                let vtok = if j < 0 {
                    rest
                } else {
                    rest.skip(j + 1)
                };
                Some((vtok, arch_tok))
            }
        }
    }
}

/// The package one pool directory link advertises, if it is a `.deb`
/// of the package in an accepted architecture: its version and
/// architecture from the file name, and its download URL, the index
/// URL followed by the link.
pub fn parse_pool_entry(package_name: &str, arch: &str, index_url: &str, href: &str) -> (r: Option<
    Package,
>)
    ensures
        crate::select::opt_pkg_view(r) == match pool_entry_fields(package_name@, arch@, href@) {
            None => None,
            Some(fields) => Some(
                crate::model::PackageView {
                    name: package_name@,
                    version: fields.0,
                    arch: Some(fields.1),
                    filepath: None,
                    url: Some(index_url@ + href@),
                },
            ),
        },
{
    let hv = chars_of(href);
    let mut prefix = chars_of(package_name);
    let mut underscore = chars_of("_");
    prefix.append(&mut underscore);
    let deb = chars_of(".deb");
    if !crate::text::has_prefix(&hv, &prefix) || !crate::text::has_suffix(&hv, &deb) {
        return None;
    }
    let n = hv.len();
    proof {
        assert(hv@.subrange(0, n as int) =~= hv@);
    }
    let stem = match find_last_char_in(&hv, 0, n, '.') {
        None => subvec(&hv, 0, n),
        Some(d) => {
            let s = subvec(&hv, 0, d);
            proof {
                assert(s@ =~= hv@.take(d as int));
            }
            s
        },
    };
    let sn = stem.len();
    proof {
        assert(stem@.subrange(0, sn as int) =~= stem@);
    }
    let i = match find_last_char_in(&stem, 0, sn, '_') {
        None => {
            return None;
        },
        Some(i) => i,
    };
    let arch_tok = subvec(&stem, i + 1, sn);
    proof {
        assert(arch_tok@ =~= stem@.skip(i as int + 1));
    }
    let arch_v = chars_of(arch);
    let all_v = chars_of("all");
    let any_v = chars_of("any");
    if !eq_chars(&arch_tok, &arch_v) && !eq_chars(&arch_tok, &all_v) && !eq_chars(
        &arch_tok,
        &any_v,
    ) {
        return None;
    }
    let rest = subvec(&stem, 0, i);
    proof {
        assert(rest@ =~= stem@.take(i as int));
        assert(rest@.subrange(0, i as int) =~= rest@);
    }
    let vtok = match find_last_char_in(&rest, 0, i, '_') {
        None => subvec(&rest, 0, i),
        Some(j) => {
            let v = subvec(&rest, j + 1, i);
            proof {
                assert(v@ =~= rest@.skip(j as int + 1));
            }
            v
        },
    };
    let mut url = String::from_str(index_url);
    url.append(href);
    Some(
        Package {
            name: String::from_str(package_name),
            version: PackageVersion { string: crate::text::string_of(&vtok) },
            arch: Some(crate::text::string_of(&arch_tok)),
            filepath: None,
            url: Some(url),
        },
    )
}

/// The packages a whole pool directory listing advertises, in order.
pub open spec fn pool_packages(
    name: Seq<char>,
    arch: Seq<char>,
    index_url: Seq<char>,
    hrefs: Seq<Seq<char>>,
) -> Seq<crate::model::PackageView>
    decreases hrefs.len(),
{
    if hrefs.len() == 0 {
        Seq::empty()
    } else {
        let rest = pool_packages(name, arch, index_url, hrefs.drop_first());
        match pool_entry_fields(name, arch, hrefs[0]) {
            None => rest,
            Some(fields) => seq![
                crate::model::PackageView {
                    name: name,
                    version: fields.0,
                    arch: Some(fields.1),
                    filepath: None,
                    url: Some(index_url + hrefs[0]),
                },
            ] + rest,
        }
    }
}

/// Every package the pool directory listing advertises for the
/// package in an accepted architecture, in listing order.
pub fn parse_pool_listing(
    package_name: &str,
    arch: &str,
    index_url: &str,
    hrefs: &Vec<String>,
) -> (r: Vec<Package>)
    ensures
        crate::select::pkg_views(r@) == pool_packages(
            package_name@,
            arch@,
            index_url@,
            str_views(hrefs@),
        ),
{
    let ghost full = pool_packages(package_name@, arch@, index_url@, str_views(hrefs@));
    let n = hrefs.len();
    let mut out: Vec<Package> = Vec::new();
    let mut i: usize = 0;
    proof {
        assert(str_views(hrefs@).skip(0) =~= str_views(hrefs@));
        assert(crate::select::pkg_views(out@) =~= Seq::empty());
        assert(crate::select::pkg_views(out@) + full =~= full);
    }
    while i < n
        invariant
            i <= n,
            n == hrefs@.len(),
            full == pool_packages(package_name@, arch@, index_url@, str_views(hrefs@)),
            full == crate::select::pkg_views(out@) + pool_packages(
                package_name@,
                arch@,
                index_url@,
                str_views(hrefs@).skip(i as int),
            ),
        decreases n - i,
    {
        let ghost cur = str_views(hrefs@).skip(i as int);
        let ghost before = crate::select::pkg_views(out@);
        proof {
            assert(cur[0] == str_views(hrefs@)[i as int]);
            assert(cur[0] == hrefs@[i as int]@);
            assert(cur.drop_first() =~= str_views(hrefs@).skip(i + 1));
        }
        match parse_pool_entry(package_name, arch, index_url, hrefs[i].as_str()) {
            None => {},
            Some(p) => {
                out.push(p);
                proof {
                    assert(crate::select::pkg_views(out@) =~= before.push(
                        crate::select::pkg_views(out@).last(),
                    ));
                }
            },
        }
        i += 1;
        proof {
            assert(full =~= crate::select::pkg_views(out@) + pool_packages(
                package_name@,
                arch@,
                index_url@,
                str_views(hrefs@).skip(i as int),
            ));
        }
    }
    proof {
        assert(str_views(hrefs@).skip(n as int).len() == 0);
        assert(full =~= crate::select::pkg_views(out@));
    }
    out
}

/// The pool directory for a package, as the package search page links
/// it: everything of the first link that starts with the pool mirror
/// prefix, up to and including the last slash.
pub open spec fn pool_directory(hrefs: Seq<Seq<char>>) -> Option<Seq<char>>
    decreases hrefs.len(),
{
    if hrefs.len() == 0 {
        None
    } else if is_prefix("http://ftp.debian.org/debian/pool/"@, hrefs[0]) {
        let i = last_index_of(hrefs[0], '/');
        if i < 0 {
            None
        } else {
            Some(hrefs[0].take(i) + "/"@)
        }
    } else {
        pool_directory(hrefs.drop_first())
    }
}

/// The pool directory URL among the package search page's links.
pub fn pool_directory_from_hrefs(hrefs: &Vec<String>) -> (r: Option<String>)
    ensures
        match r {
            Some(u) => pool_directory(str_views(hrefs@)) == Some(u@),
            None => pool_directory(str_views(hrefs@)) is None,
        },
{
    let prefix = chars_of("http://ftp.debian.org/debian/pool/");
    let n = hrefs.len();
    let mut i: usize = 0;
    proof {
        assert(str_views(hrefs@).skip(0) =~= str_views(hrefs@));
    }
    while i < n
        invariant
            i <= n,
            n == hrefs@.len(),
            prefix@ == "http://ftp.debian.org/debian/pool/"@,
            pool_directory(str_views(hrefs@)) == pool_directory(str_views(hrefs@).skip(i as int)),
        decreases n - i,
    {
        let ghost cur = str_views(hrefs@).skip(i as int);
        proof {
            assert(cur[0] == str_views(hrefs@)[i as int]);
            assert(cur[0] == hrefs@[i as int]@);
            assert(cur.drop_first() =~= str_views(hrefs@).skip(i + 1));
        }
        let hv = chars_of(hrefs[i].as_str());
        if crate::text::has_prefix(&hv, &prefix) {
            let hn = hv.len();
            proof {
                assert(hv@.subrange(0, hn as int) =~= hv@);
            }
            match find_last_char_in(&hv, 0, hn, '/') {
                None => {
                    return None;
                },
                Some(s) => {
                    let dir = subvec(&hv, 0, s);
                    let mut u = crate::text::string_of(&dir);
                    u.append("/");
                    proof {
                        assert(dir@ =~= hv@.take(s as int));
                    }
                    return Some(u);
                },
            }
        }
        i += 1;
    }
    proof {
        assert(str_views(hrefs@).skip(n as int).len() == 0);
    }
    None
}

/// The value between the first pair of single quotes, or after the
/// first quote when no second one follows; nothing without any quote.
pub open spec fn quoted_field(s: Seq<char>) -> Option<Seq<char>> {
    let i = first_index_of(s, '\'');
    if i < 0 {
        None
    } else {
        let rest = s.skip(i + 1);
        let j = first_index_of(rest, '\'');
        if j < 0 {
            Some(rest)
        } else {
            Some(rest.take(j))
        }
    }
}

fn quoted_field_exec(v: &Vec<char>) -> (r: Option<Vec<char>>)
    ensures
        match r {
            Some(f) => quoted_field(v@) == Some(f@),
            None => quoted_field(v@) is None,
        },
{
    let n = v.len();
    let i = match find_first_char(v, '\'') {
        None => {
            return None;
        },
        Some(i) => i,
    };
    let rest = subvec(v, i + 1, n);
    proof {
        assert(rest@ =~= v@.skip(i as int + 1));
    }
    match find_first_char(&rest, '\'') {
        None => Some(rest),
        Some(j) => {
            let f = subvec(&rest, 0, j);
            proof {
                assert(f@ =~= rest@.take(j as int));
            }
            Some(f)
        },
    }
}

/// The environment the configuration tool reports: the architecture,
/// and the archive cache directory assembled as
/// `/<cache root>/<archive subdirectory>`.
pub open spec fn apt_env_of(lines: Seq<Seq<char>>) -> Option<(Seq<char>, Seq<char>)> {
    match line_with_prefix(lines, "CACHE_ROOT_DIR="@) {
        None => None,
        Some(root_line) => match quoted_field(root_line) {
            None => None,
            Some(root) => match line_with_prefix(lines, "CACHE_ARCHIVE_SUBDIR="@) {
                None => None,
                Some(sub_line) => match quoted_field(sub_line) {
                    None => None,
                    Some(sub) => match line_with_prefix(lines, "ARCH="@) {
                        None => None,
                        Some(arch_line) => match quoted_field(arch_line) {
                            None => None,
                            Some(arch) => Some((arch, "/"@ + root + "/"@ + sub)),
                        },
                    },
                },
            },
        },
    }
}

/// Read the resolution environment out of the configuration tool's
/// output: the architecture and the archive cache directory, each the
/// quoted value of its line.  A missing line or quote is the run-fatal
/// parse failure.
pub fn parse_apt_config(lines: &Vec<String>) -> (r: Result<crate::model::AptEnv, AptError>)
    ensures
        match r {
            Ok(env) => apt_env_of(str_views(lines@)) == Some((env.arch@, env.cache_dir@)),
            Err(e) => e is ParseFailure && apt_env_of(str_views(lines@)) is None,
        },
{
    let root = match find_prefixed_line(lines, "CACHE_ROOT_DIR=") {
        None => {
            return Err(
                AptError::ParseFailure { detail: String::from_str("unexpected apt-config output") },
            );
        },
        Some(l) => {
            let lv = chars_of(l.as_str());
            match quoted_field_exec(&lv) {
                None => {
                    return Err(
                        AptError::ParseFailure {
                            detail: String::from_str("unexpected apt-config output"),
                        },
                    );
                },
                Some(f) => f,
            }
        },
    };
    let sub = match find_prefixed_line(lines, "CACHE_ARCHIVE_SUBDIR=") {
        None => {
            return Err(
                AptError::ParseFailure { detail: String::from_str("unexpected apt-config output") },
            );
        },
        Some(l) => {
            let lv = chars_of(l.as_str());
            match quoted_field_exec(&lv) {
                None => {
                    return Err(
                        AptError::ParseFailure {
                            detail: String::from_str("unexpected apt-config output"),
                        },
                    );
                },
                Some(f) => f,
            }
        },
    };
    let arch = match find_prefixed_line(lines, "ARCH=") {
        None => {
            return Err(
                AptError::ParseFailure { detail: String::from_str("unexpected apt-config output") },
            );
        },
        Some(l) => {
            let lv = chars_of(l.as_str());
            match quoted_field_exec(&lv) {
                None => {
                    return Err(
                        AptError::ParseFailure {
                            detail: String::from_str("unexpected apt-config output"),
                        },
                    );
                },
                Some(f) => f,
            }
        },
    };
    let mut cache_dir = String::from_str("/");
    cache_dir.append(crate::text::string_of(&root).as_str());
    cache_dir.append("/");
    cache_dir.append(crate::text::string_of(&sub).as_str());
    Ok(
        crate::model::AptEnv {
            arch: crate::text::string_of(&arch),
            cache_dir,
        },
    )
}

/// The package search page to query for a package: the distribution's
/// download page for the architecture and name.
pub fn package_search_url(package_name: &str, arch: &str) -> (r: String)
    ensures
        r@ == "https://packages.debian.org/sid/"@ + arch@ + "/"@ + package_name@ + "/download"@,
{
    let mut u = String::from_str("https://packages.debian.org/sid/");
    u.append(arch);
    u.append("/");
    u.append(package_name);
    u.append("/download");
    u
}

} // verus!