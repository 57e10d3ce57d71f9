//! The candidate aggregator: merge the local and remote candidate
//! listings for one package name and order them by version, highest
//! first.

use vstd::prelude::*;

use crate::model::{Package, PackageView};
use crate::select::pkg_views;
use crate::version::{
    cmp_version, lemma_cmp_version_antisym, lemma_cmp_version_trans, PackageVersion,
    VersionOrdering,
};

verus! {

/// Some candidate in the sequence already carries this version string.
pub open spec fn has_version(s: Seq<PackageView>, v: Seq<char>) -> bool {
    exists|i: int| 0 <= i < s.len() && (#[trigger] s[i]).version == v
}

fn vec_has_version(v: &Vec<Package>, upto: usize, ver: &PackageVersion) -> (b: bool)
    requires
        upto <= v@.len(),
    ensures
        b == has_version(pkg_views(v@).take(upto as int), ver@),
{
    let ghost s = pkg_views(v@).take(upto as int);
    let mut j: usize = 0;
    while j < upto
        invariant
            j <= upto <= v@.len(),
            s == pkg_views(v@).take(upto as int),
            forall|t: int| 0 <= t < j ==> (#[trigger] s[t]).version != ver@,
        decreases upto - j,
    {
        if v[j].version.string == ver.string {
            proof {
                assert(s[j as int].version == ver@);
            }
            return true;
        }
        proof {
            assert(s[j as int] == v@[j as int]@);
        }
        j += 1;
    }
    false
}

/// Merge the local and remote candidate lists for one name: every local
/// candidate is kept, and a remote candidate is kept only when no local
/// candidate carries its version — the local artifact wins its version.
pub fn merge_candidates(local: Vec<Package>, remote: Vec<Package>) -> (r: Vec<Package>)
    ensures
        pkg_views(r@) == pkg_views(local@) + pkg_views(remote@).filter(
            |p: PackageView| !has_version(pkg_views(local@), p.version),
        ),
{
    let ghost lv = pkg_views(local@);
    let ghost pred = |p: PackageView| !has_version(lv, p.version);
    let local_len = local.len();
    let rn = remote.len();
    let mut out = local;
    proof {
        assert(pkg_views(remote@.take(0)) =~= Seq::<PackageView>::empty());
        assert(Seq::<PackageView>::empty().filter(pred) =~= Seq::<PackageView>::empty()) by {
            reveal(Seq::filter);
        }
        assert(pkg_views(out@) =~= lv + pkg_views(remote@.take(0)).filter(pred));
    }
    let mut i: usize = 0;
    while i < rn
        invariant
            i <= rn,
            rn == remote@.len(),
            local_len == lv.len(),
            out@.len() >= local_len,
            pred == (|p: PackageView| !has_version(lv, p.version)),
            pkg_views(out@) == lv + pkg_views(remote@.take(i as int)).filter(pred),
        decreases rn - i,
    {
        let ghost prev = pkg_views(remote@.take(i as int));
        let ghost before = pkg_views(out@);
        let ghost x_v = remote@[i as int]@;
        proof {
            assert(before.take(local_len as int) =~= lv);
        }
        let seen = vec_has_version(&out, local_len, &remote[i].version);
        if !seen {
            out.push(remote[i].clone());
            proof {
                assert(pkg_views(out@) =~= before.push(x_v));
            }
        }
        i += 1;
        proof {
            assert(pkg_views(remote@.take(i as int)) =~= prev.push(x_v));
            prev.lemma_filter_push(x_v, pred);
            assert(seen == has_version(lv, x_v.version));
            if pred(x_v) {
                assert(pkg_views(out@) =~= (lv + prev.filter(pred)).push(x_v));
                assert((lv + prev.filter(pred)).push(x_v) =~= lv + prev.filter(pred).push(x_v));
            } else {
                assert(pkg_views(out@) == lv + prev.filter(pred));
            }
            assert(pkg_views(out@) =~= lv + pkg_views(remote@.take(i as int)).filter(pred));
        }
    }
    proof {
        assert(remote@.take(rn as int) =~= remote@);
    }
    out
}

/// Sorted by version, highest first, in the Debian version order.
pub open spec fn sorted_descending(s: Seq<PackageView>) -> bool {
    forall|i: int, j: int|
        #![trigger s[i], s[j]]
        0 <= i < j < s.len() ==> cmp_version(s[i].version, s[j].version) >= 0
}

/// Index of the first entry whose version sorts strictly below `x`, or
/// the length when there is none: the place to insert `x` to keep the
/// list sorted.
fn insertion_point(out: &Vec<Package>, x: &PackageVersion) -> (k: usize)
    ensures
        k <= out@.len(),
        forall|j: int| 0 <= j < k ==> cmp_version((#[trigger] pkg_views(out@)[j]).version, x@) >= 0,
        k < out@.len() ==> cmp_version(pkg_views(out@)[k as int].version, x@) < 0,
{
    let n = out.len();
    let mut k: usize = 0;
    while k < n
        invariant
            k <= n,
            n == out@.len(),
            forall|j: int|
                0 <= j < k ==> cmp_version((#[trigger] pkg_views(out@)[j]).version, x@) >= 0,
        decreases n - k,
    {
        let c = out[k].version.compare(x);
        if matches!(c, VersionOrdering::Less) {
            return k;
        }
        proof {
            assert(pkg_views(out@)[k as int] == out@[k as int]@);
        }
        k += 1;
    }
    n
}

/// Order candidates by version, highest first: the result holds exactly
/// the given packages and is sorted descending in the version order.
pub fn sort_candidates_descending(packages: Vec<Package>) -> (r: Vec<Package>)
    ensures
        pkg_views(r@).to_multiset() == pkg_views(packages@).to_multiset(),
        sorted_descending(pkg_views(r@)),
{
    broadcast use vstd::seq_lib::to_multiset_build;
    broadcast use vstd::seq_lib::to_multiset_insert;

    let n = packages.len();
    let mut out: Vec<Package> = Vec::new();
    proof {
        assert(pkg_views(packages@.take(0)) =~= Seq::<PackageView>::empty());
        assert(pkg_views(out@) =~= Seq::<PackageView>::empty());
    }
    let mut i: usize = 0;
    while i < n
        invariant
            i <= n,
            n == packages@.len(),
            sorted_descending(pkg_views(out@)),
            pkg_views(out@).to_multiset() == pkg_views(packages@.take(i as int)).to_multiset(),
        decreases n - i,
    {
        let x = packages[i].clone();
        let ghost ov = pkg_views(out@);
        let k = insertion_point(&out, &x.version);
        out.insert(k, x);
        i += 1;
        proof {
            let nv = pkg_views(out@);
            assert(nv =~= ov.insert(k as int, packages@[i - 1]@));
            assert(sorted_descending(nv)) by {
                assert forall|p: int, q: int|
                    #![trigger nv[p], nv[q]]
                    0 <= p < q < nv.len() implies cmp_version(nv[p].version, nv[q].version)
                    >= 0 by {
                    let xv = packages@[i - 1]@.version;
                    if q < k {
                        assert(nv[p] == ov[p] && nv[q] == ov[q]);
                    } else if p < k && q == k {
                        assert(nv[p] == ov[p] && nv[q].version == xv);
                    } else if p < k && q > k {
                        assert(nv[p] == ov[p] && nv[q] == ov[q - 1]);
                    } else if p == k {
                        assert(nv[p].version == xv && nv[q] == ov[q - 1]);
                        lemma_cmp_version_antisym(ov[k as int].version, xv);
                        if q - 1 > k {
                            lemma_cmp_version_antisym(ov[k as int].version, ov[q - 1].version);
                            lemma_cmp_version_trans(ov[q - 1].version, ov[k as int].version, xv);
                        }
                        lemma_cmp_version_antisym(ov[q - 1].version, xv);
                    } else {
                        assert(nv[p] == ov[p - 1] && nv[q] == ov[q - 1]);
                    }
                }
            }
            let xv = packages@[i - 1]@;
            vstd::seq_lib::to_multiset_insert(ov, k as int, xv);
            vstd::seq_lib::to_multiset_build(pkg_views(packages@.take(i - 1)), xv);
            assert(ov.insert(k as int, xv).to_multiset() == ov.to_multiset().insert(xv));
            assert(nv.to_multiset() == ov.to_multiset().insert(xv));
            assert(pkg_views(packages@.take(i as int)) =~= pkg_views(
                packages@.take(i - 1),
            ).push(xv));
            assert(pkg_views(packages@.take(i - 1)).push(xv).to_multiset() == pkg_views(
                packages@.take(i - 1),
            ).to_multiset().insert(xv));
        }
    }
    proof {
        assert(packages@.take(n as int) =~= packages@);
    }
    out
}

/// The candidate aggregator for one package name: merge the local
/// candidates with the remote ones — `None` when the remote source
/// failed, the aggregation then degrading to the local candidates alone
/// — and order the result by version, highest first.
pub fn aggregate_candidates(local: Vec<Package>, remote: Option<Vec<Package>>) -> (r: Vec<Package>)
    ensures
        ({
            let rem = match remote {
                Some(rs) => pkg_views(rs@),
                None => Seq::<PackageView>::empty(),
            };
            let merged = pkg_views(local@) + rem.filter(
                |p: PackageView| !has_version(pkg_views(local@), p.version),
            );
            &&& pkg_views(r@).to_multiset() == merged.to_multiset()
            &&& sorted_descending(pkg_views(r@))
        }),
{
    let merged = match remote {
        Some(rs) => merge_candidates(local, rs),
        None => {
            let none_remote: Vec<Package> = Vec::new();
            let m = merge_candidates(local, none_remote);
            proof {
                assert(pkg_views(Seq::<Package>::empty()) =~= Seq::<PackageView>::empty());
            }
            m
        },
    };
    sort_candidates_descending(merged)
}

} // verus!
