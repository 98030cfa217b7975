//! Query helpers for the reporting stage: a package's direct
//! Normal-kind dependencies, and the ranking of closure members by
//! in-closure reverse-dependency count.

use vstd::prelude::*;

use crate::assoc::{lemma_assoc_contains, lemma_assoc_get, unique_keys};
use vstd::seq_lib::seq_to_set_is_finite;
use crate::database::{ver_key, ver_val, vmap_of, Database};
use crate::model::{
    effective_name, is_normal, krate_depends_on, spec_effective_name, spec_is_normal, Krate,
};
use crate::names::NameSet;

verus! {

/// The set of effective names of Normal-kind dependency edges across
/// all stored versions of package `a`; empty if `a` is not indexed.
pub open spec fn spec_direct_deps(db: Database, a: Seq<char>) -> Set<Seq<char>> {
    Set::new(|t: Seq<char>| db.pkg_depends_on(a, t))
}

/// A package depends on `t` exactly when some position of its version
/// vector holds a Normal-kind edge with effective name `t`.
pub proof fn lemma_pkg_deps_positions(db: &Database, a: Seq<char>, v: Seq<Krate>)
    requires
        db.wf(),
        db.pkgs().contains_key(a),
        db.pkgs()[a] == vmap_of(v),
        unique_keys(v, ver_key()),
    ensures
        forall|t: Seq<char>|
            #[trigger] db.pkg_depends_on(a, t) <==> exists|q: int, r: int|
                0 <= q < v.len() && 0 <= r < v[q].deps@.len() && spec_is_normal(
                    #[trigger] v[q].deps@[r],
                ) && spec_effective_name(v[q].deps@[r]) == t,
{
    assert forall|t: Seq<char>|
        #[trigger] db.pkg_depends_on(a, t) <==> exists|q: int, r: int|
            0 <= q < v.len() && 0 <= r < v[q].deps@.len() && spec_is_normal(
                #[trigger] v[q].deps@[r],
            ) && spec_effective_name(v[q].deps@[r]) == t by {
        if db.pkg_depends_on(a, t) {
            let ver = choose|ver: Seq<char>|
                #[trigger] db.pkgs()[a].contains_key(ver) && krate_depends_on(
                    db.pkgs()[a][ver],
                    t,
                );
            lemma_assoc_contains(v, ver_key(), ver_val(), ver);
            assert(exists|q: int| 0 <= q < v.len() && ver_key()(v[q]) == ver);
            let q = choose|q: int| 0 <= q < v.len() && ver_key()(v[q]) == ver;
            lemma_assoc_get(v, ver_key(), ver_val(), q);
            assert(krate_depends_on(v[q], t));
            let r = choose|r: int|
                0 <= r < v[q].deps@.len() && spec_is_normal(#[trigger] v[q].deps@[r])
                    && spec_effective_name(v[q].deps@[r]) == t;
            assert(0 <= q < v.len() && 0 <= r < v[q].deps@.len() && spec_is_normal(v[q].deps@[r])
                && spec_effective_name(v[q].deps@[r]) == t);
        }
        if exists|q: int, r: int|
            0 <= q < v.len() && 0 <= r < v[q].deps@.len() && spec_is_normal(
                #[trigger] v[q].deps@[r],
            ) && spec_effective_name(v[q].deps@[r]) == t {
            let (q, r) = choose|q: int, r: int|
                0 <= q < v.len() && 0 <= r < v[q].deps@.len() && spec_is_normal(
                    #[trigger] v[q].deps@[r],
                ) && spec_effective_name(v[q].deps@[r]) == t;
            lemma_assoc_get(v, ver_key(), ver_val(), q);
            assert(db.pkgs()[a].contains_key(v[q].vers@));
            assert(krate_depends_on(v[q], t));
            assert(db.pkg_depends_on(a, t));
        }
    }
}

/// The union of the effective names of Normal-kind dependencies across
/// all stored versions of the named package. Empty if the name is not
/// indexed: a missing package is treated as having no outgoing edges.
pub fn direct_dependencies(db: &Database, name: &String) -> (r: NameSet)
    requires
        db.wf(),
    ensures
        r.wf(),
        r@ == spec_direct_deps(*db, name@),
{
    let mut out = NameSet::new();
    match db.get_versions(name) {
        None => {
            proof {
                assert(out@ =~= spec_direct_deps(*db, name@));
            }
            out
        },
        Some(versions) => {
            let ghost v = versions@;
            let nv = versions.len();
            let mut q: usize = 0;
            while q < nv
                invariant
                    out.wf(),
                    nv == v.len(),
                    versions@ == v,
                    0 <= q <= nv,
                    forall|q2: int, r2: int|
                        0 <= q2 < q && 0 <= r2 < v[q2].deps@.len() && spec_is_normal(
                            #[trigger] v[q2].deps@[r2],
                        ) ==> out@.contains(spec_effective_name(v[q2].deps@[r2])),
                    forall|t: Seq<char>|
                        #[trigger] out@.contains(t) ==> exists|q2: int, r2: int|
                            0 <= q2 < v.len() && 0 <= r2 < v[q2].deps@.len() && spec_is_normal(
                                #[trigger] v[q2].deps@[r2],
                            ) && spec_effective_name(v[q2].deps@[r2]) == t,
                decreases nv - q,
            {
                let nd = versions[q].deps.len();
                let mut rr: usize = 0;
                while rr < nd
                    invariant
                        out.wf(),
                        nv == v.len(),
                        versions@ == v,
                        0 <= q < nv,
                        nd == v[q as int].deps@.len(),
                        0 <= rr <= nd,
                        forall|q2: int, r2: int|
                            0 <= q2 < v.len() && 0 <= r2 < v[q2].deps@.len() && (q2 < q || (q2 == q
                                && r2 < rr)) && spec_is_normal(#[trigger] v[q2].deps@[r2])
                                ==> out@.contains(spec_effective_name(v[q2].deps@[r2])),
                        forall|t: Seq<char>|
                            #[trigger] out@.contains(t) ==> exists|q2: int, r2: int|
                                0 <= q2 < v.len() && 0 <= r2 < v[q2].deps@.len() && spec_is_normal(
                                    #[trigger] v[q2].deps@[r2],
                                ) && spec_effective_name(v[q2].deps@[r2]) == t,
                    decreases nd - rr,
                {
                    if is_normal(&versions[q].deps[rr]) {
                        let t = effective_name(&versions[q].deps[rr]).clone();
                        proof {
                            assert(t@ == spec_effective_name(v[q as int].deps@[rr as int]));
                        }
                        out.insert(t);
                    }
                    rr += 1;
                }
                q += 1;
            }
            proof {
                lemma_pkg_deps_positions(db, name@, v);
                assert(out@ =~= spec_direct_deps(*db, name@)) by {
                    assert forall|t: Seq<char>| #[trigger] out@.contains(t) implies db.pkg_depends_on(
                        name@,
                        t,
                    ) by {}
                    assert forall|t: Seq<char>| db.pkg_depends_on(name@, t) implies out@.contains(
                        t,
                    ) by {
                        let (q2, r2) = choose|q2: int, r2: int|
                            0 <= q2 < v.len() && 0 <= r2 < v[q2].deps@.len() && spec_is_normal(
                                #[trigger] v[q2].deps@[r2],
                            ) && spec_effective_name(v[q2].deps@[r2]) == t;
                        assert(out@.contains(spec_effective_name(v[q2].deps@[r2])));
                    }
                }
            }
            out
        },
    }
}

/// The recorded dependents of `n`, or the empty set when `n` has no
/// reverse-index entry.
pub open spec fn spec_rd_set(db: Database, n: Seq<char>) -> Set<Seq<char>> {
    if db.rdeps().contains_key(n) {
        db.rdeps()[n]
    } else {
        Set::empty()
    }
}

/// How many recorded dependents of `n` lie inside `closure`.
pub open spec fn spec_in_closure_count(
    db: Database,
    closure: Set<Seq<char>>,
    n: Seq<char>,
) -> nat {
    spec_rd_set(db, n).intersect(closure).len()
}

/// Count the dependents of `name` that are members of `closure`. A
/// name with no reverse-index entry counts zero.
pub fn count_in_closure(db: &Database, closure: &NameSet, name: &String) -> (r: usize)
    requires
        db.wf(),
        closure.wf(),
    ensures
        r == spec_in_closure_count(*db, closure@, name@),
{
    match db.rd_get(name) {
        None => {
            proof {
                assert(Set::<Seq<char>>::empty().intersect(closure@) =~= Set::<Seq<char>>::empty());
            }
            0
        },
        Some(rdset) => {
            let m = rdset.len();
            let mut count: usize = 0;
            let mut i: usize = 0;
            proof {
                assert(rdset.seq().take(0) =~= Seq::<Seq<char>>::empty());
                assert(rdset.seq().take(0).to_set().intersect(closure@) =~= Set::<
                    Seq<char>,
                >::empty());
            }
            while i < m
                invariant
                    db.wf(),
                    closure.wf(),
                    rdset.wf(),
                    m == rdset.seq().len(),
                    rdset@ == spec_rd_set(*db, name@),
                    0 <= i <= m,
                    count <= i,
                    count == rdset.seq().take(i as int).to_set().intersect(closure@).len(),
                decreases m - i,
            {
                let y = rdset.name_at(i);
                let inc = closure.contains(y);
                proof {
                    let pre = rdset.seq().take(i as int);
                    let post = rdset.seq().take(i + 1);
                    assert(post =~= pre.push(y@));
                    assert(forall|k: int| 0 <= k < i ==> pre[k] == rdset.seq()[k]);
                    assert(!pre.contains(y@));
                    pre.lemma_push_to_set_commute(y@);
                    assert(post.to_set() =~= pre.to_set().insert(y@));
                    seq_to_set_is_finite::<Seq<char>>(pre);
                    vstd::set_lib::lemma_len_subset(
                        pre.to_set().intersect(closure@),
                        pre.to_set(),
                    );
                    if inc {
                        assert(post.to_set().intersect(closure@) =~= pre.to_set().intersect(
                            closure@,
                        ).insert(y@));
                        assert(!pre.to_set().intersect(closure@).contains(y@));
                    } else {
                        assert(post.to_set().intersect(closure@) =~= pre.to_set().intersect(
                            closure@,
                        ));
                    }
                }
                if inc {
                    count += 1;
                }
                i += 1;
            }
            proof {
                assert(rdset.seq().take(m as int) =~= rdset.seq());
            }
            count
        },
    }
}

/// The names carried by a ranking, in order.
pub open spec fn rank_names(s: Seq<(usize, String)>) -> Seq<Seq<char>> {
    s.map_values(|p: (usize, String)| p.1@)
}

/// Counts never increase along the ranking.
pub open spec fn rank_sorted(s: Seq<(usize, String)>) -> bool {
    forall|i: int, j: int| 0 <= i <= j < s.len() ==> s[i].0 >= s[j].0
}

/// Rank the members of `closure` by how many of their recorded
/// dependents are themselves members, largest count first. Each member
/// appears exactly once with its exact count; the relative order of
/// equal counts is unspecified.
pub fn rank_by_in_closure_reverse_deps(db: &Database, closure: &NameSet) -> (r: Vec<
    (usize, String),
>)
    requires
        db.wf(),
        closure.wf(),
    ensures
        r@.len() == closure@.len(),
        rank_sorted(r@),
        rank_names(r@).to_set() == closure@,
        rank_names(r@).no_duplicates(),
        forall|i: int|
            0 <= i < r@.len() ==> (#[trigger] r@[i]).0 == spec_in_closure_count(
                *db,
                closure@,
                r@[i].1@,
            ),
{
    let n = closure.len();
    let mut pairs: Vec<(usize, String)> = Vec::new();
    let mut k: usize = 0;
    while k < n
        invariant
            db.wf(),
            closure.wf(),
            n == closure.seq().len(),
            0 <= k <= n,
            pairs@.len() == k,
            rank_names(pairs@) =~= closure.seq().take(k as int),
            forall|i: int|
                0 <= i < k ==> (#[trigger] pairs@[i]).0 == spec_in_closure_count(
                    *db,
                    closure@,
                    pairs@[i].1@,
                ),
        decreases n - k,
    {
        let name = closure.name_at(k);
        let ct = count_in_closure(db, closure, name);
        let p = (ct, name.clone());
        proof {
            assert(rank_names(pairs@.push(p)) =~= rank_names(pairs@).push(name@));
            assert(closure.seq().take(k + 1) =~= closure.seq().take(k as int).push(
                closure.seq()[k as int],
            ));
        }
        pairs.push(p);
        k += 1;
    }
    proof {
        assert(closure.seq().take(n as int) =~= closure.seq());
        assert(rank_names(pairs@) =~= closure.seq());
        assert forall|i: int| 0 <= i < pairs@.len() implies closure@.contains(
            (#[trigger] pairs@[i]).1@,
        ) by {
            assert(rank_names(pairs@)[i] == pairs@[i].1@);
            assert(closure.seq().contains(pairs@[i].1@));
        }
    }

    // Selection sort, largest count first.
    let ghost total = closure@;
    let mut src = pairs;
    let mut out: Vec<(usize, String)> = Vec::new();
    while src.len() > 0
        invariant
            db.wf(),
            closure.wf(),
            out@.len() + src@.len() == closure@.len(),
            rank_sorted(out@),
            forall|i: int, j: int|
                0 <= i < out@.len() && 0 <= j < src@.len() ==> (#[trigger] out@[i]).0 >= (
                #[trigger] src@[j]).0,
            forall|i: int|
                0 <= i < out@.len() ==> (#[trigger] out@[i]).0 == spec_in_closure_count(
                    *db,
                    closure@,
                    out@[i].1@,
                ) && closure@.contains(out@[i].1@),
            forall|i: int|
                0 <= i < src@.len() ==> (#[trigger] src@[i]).0 == spec_in_closure_count(
                    *db,
                    closure@,
                    src@[i].1@,
                ) && closure@.contains(src@[i].1@),
            forall|t: Seq<char>|
                #[trigger] closure@.contains(t) ==> rank_names(out@).contains(t) || rank_names(
                    src@,
                ).contains(t),
            rank_names(out@).no_duplicates(),
            rank_names(src@).no_duplicates(),
            forall|i: int, j: int|
                0 <= i < out@.len() && 0 <= j < src@.len() ==> (#[trigger] out@[i]).1@ != (
                #[trigger] src@[j]).1@,
        decreases src@.len(),
    {
        // Find the position of a largest count.
        let sl = src.len();
        let mut mi: usize = 0;
        let mut mj: usize = 1;
        while mj < sl
            invariant
                sl == src@.len(),
                0 <= mi < sl,
                mi < mj <= sl || (mj <= sl && mi == 0),
                forall|j: int| 0 <= j < mj ==> src@[mi as int].0 >= (#[trigger] src@[j]).0,
            decreases sl - mj,
        {
            if src[mj].0 > src[mi].0 {
                mi = mj;
            }
            mj += 1;
        }
        let ghost src0 = src@;
        let e = src.remove(mi);
        proof {
            assert(e == src0[mi as int]);
            assert(rank_names(src@) =~= rank_names(src0).remove(mi as int));
            assert forall|i: int| 0 <= i < src@.len() implies (exists|i0: int|
                0 <= i0 < src0.len() && i0 != mi && src0[i0] == #[trigger] src@[i]
                    && rank_names(src0)[i0] == rank_names(src@)[i]) by {
                if i < mi as int {
                    assert(src@[i] == src0[i] && rank_names(src0)[i] == rank_names(src@)[i]);
                } else {
                    assert(src@[i] == src0[i + 1] && rank_names(src0)[i + 1] == rank_names(
                        src@,
                    )[i]);
                }
            }
            assert(rank_names(src@).no_duplicates()) by {
                assert forall|i: int, j: int|
                    0 <= i < j < rank_names(src@).len() implies rank_names(src@)[i] != rank_names(
                    src@,
                )[j] by {
                    if i < mi as int && j < mi as int {
                    } else if i < mi as int {
                        assert(rank_names(src@)[j] == rank_names(src0)[j + 1]);
                    } else {
                        assert(rank_names(src@)[i] == rank_names(src0)[i + 1]);
                        assert(rank_names(src@)[j] == rank_names(src0)[j + 1]);
                    }
                }
            }
            // The removed name no longer occurs in `src`.
            assert forall|i: int| 0 <= i < src@.len() implies (#[trigger] src@[i]).1@ != e.1@ by {
                if i < mi as int {
                    assert(rank_names(src0)[i] == src0[i].1@);
                } else {
                    assert(rank_names(src0)[i + 1] == src0[i + 1].1@);
                }
                assert(rank_names(src0)[mi as int] == e.1@);
            }
            assert(rank_names(out@.push(e)) =~= rank_names(out@).push(e.1@));
        }
        let ghost out0 = out@;
        out.push(e);
        proof {
            assert forall|t: Seq<char>|
                #[trigger] closure@.contains(t) implies rank_names(out@).contains(t) || rank_names(
                src@,
            ).contains(t) by {
                if rank_names(src0).contains(t) {
                    let i0 = choose|i0: int|
                        0 <= i0 < rank_names(src0).len() && rank_names(src0)[i0] == t;
                    if i0 == mi as int {
                        assert(rank_names(out@).last() == t);
                        assert(rank_names(out@).contains(t));
                    } else if i0 < mi as int {
                        assert(rank_names(src@)[i0] == t);
                        assert(rank_names(src@).contains(t));
                    } else {
                        assert(rank_names(src@)[i0 - 1] == t);
                        assert(rank_names(src@).contains(t));
                    }
                } else {
                    assert(rank_names(out0).contains(t));
                    let i0 = choose|i0: int|
                        0 <= i0 < rank_names(out0).len() && rank_names(out0)[i0] == t;
                    assert(rank_names(out@) =~= rank_names(out0).push(e.1@));
                    assert(rank_names(out@)[i0] == t);
                    assert(rank_names(out@).contains(t));
                }
            }
        }
    }
    proof {
        assert forall|t: Seq<char>| rank_names(out@).contains(t) implies closure@.contains(t) by {
            let i0 = choose|i0: int| 0 <= i0 < rank_names(out@).len() && rank_names(out@)[i0] == t;
            assert(closure@.contains(out@[i0].1@));
        }
        assert(rank_names(out@).to_set() =~= closure@) by {
            assert forall|t: Seq<char>| #[trigger] closure@.contains(t) implies rank_names(
                out@,
            ).to_set().contains(t) by {
                assert(rank_names(out@).contains(t));
            }
        }
        assert(out@.len() == closure@.len());
    }
    out
}

} // verus!
