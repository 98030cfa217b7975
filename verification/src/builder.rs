//! Building the database from a sequence of decoded records: the
//! forward pass stores every record last-write-wins, and the reverse
//! pass derives the reverse-dependency index from Normal-kind edges.

use vstd::prelude::*;

use crate::assoc::{lemma_assoc_contains, lemma_assoc_get, lemma_assoc_push};
use crate::database::{
    pkg_key, pkg_val, rd_key, rd_val, spec_insert_record, spec_rd_add, ver_key, ver_val, vmap_of,
    Database, PackageEntry, RevEntry,
};
use crate::model::{
    effective_name, is_normal, krate_depends_on, spec_effective_name, spec_is_normal, Krate,
};
use crate::names::NameSet;

verus! {

/// The forward index that results from storing a sequence of records
/// in order, later records overwriting earlier ones with the same
/// name and version.
pub open spec fn spec_index_of(rs: Seq<Krate>) -> Map<Seq<char>, Map<Seq<char>, Krate>>
    decreases rs.len(),
{
    if rs.len() == 0 {
        Map::empty()
    } else {
        spec_insert_record(spec_index_of(rs.drop_last()), rs.last())
    }
}

/// Position `(p, q, r)` denotes dependency `r` of version `q` of
/// package entry `p`.
pub open spec fn edge_at(c: Seq<PackageEntry>, p: int, q: int, r: int) -> bool {
    0 <= p < c.len() && 0 <= q < c[p].versions@.len() && 0 <= r < c[p].versions@[q].deps@.len()
}

/// Whether edge position `(p, q, r)` lies strictly before `(i, j, d)`
/// in the traversal order of the reverse pass.
pub open spec fn edge_before(
    c: Seq<PackageEntry>,
    i: int,
    j: int,
    d: int,
    p: int,
    q: int,
    r: int,
) -> bool {
    edge_at(c, p, q, r) && (p < i || (p == i && (q < j || (q == j && r < d))))
}

/// Whether some already-traversed Normal-kind edge makes `a` depend on
/// effective name `b`.
pub open spec fn seen_dep(
    c: Seq<PackageEntry>,
    i: int,
    j: int,
    d: int,
    a: Seq<char>,
    b: Seq<char>,
) -> bool {
    exists|p: int, q: int, r: int|
        #[trigger] edge_before(c, i, j, d, p, q, r) && c[p].name@ == a && spec_is_normal(
            c[p].versions@[q].deps@[r],
        ) && spec_effective_name(c[p].versions@[q].deps@[r]) == b
}

/// The reverse-pass loop invariant: the reverse index reflects exactly
/// the edges traversed so far, over the package-name keys.
pub open spec fn rd_inv(db: Database, i: int, j: int, d: int) -> bool {
    &&& forall|b: Seq<char>|
        #[trigger] db.rdeps().contains_key(b) <==> (db.pkgs().contains_key(b) || exists|
            a: Seq<char>,
        | seen_dep(db.crates@, i, j, d, a, b))
    &&& forall|b: Seq<char>, a: Seq<char>|
        db.rdeps().contains_key(b) ==> ((#[trigger] db.rdeps()[b].contains(a)) <==> seen_dep(
            db.crates@,
            i,
            j,
            d,
            a,
            b,
        ))
}

proof fn lemma_seen_step(
    c: Seq<PackageEntry>,
    i: int,
    j: int,
    d: int,
    dn: int,
    a: Seq<char>,
    b: Seq<char>,
)
    requires
        edge_at(c, i, j, d),
        dn == d + 1,
    ensures
        seen_dep(c, i, j, dn, a, b) <==> (seen_dep(c, i, j, d, a, b) || (a == c[i].name@
            && spec_is_normal(c[i].versions@[j].deps@[d]) && b == spec_effective_name(
            c[i].versions@[j].deps@[d],
        ))),
{
    if seen_dep(c, i, j, dn, a, b) {
        let (p, q, r) = choose|p: int, q: int, r: int|
            #[trigger] edge_before(c, i, j, dn, p, q, r) && c[p].name@ == a && spec_is_normal(
                c[p].versions@[q].deps@[r],
            ) && spec_effective_name(c[p].versions@[q].deps@[r]) == b;
        if p == i && q == j && r == d {
        } else {
            assert(edge_before(c, i, j, d, p, q, r));
            assert(seen_dep(c, i, j, d, a, b));
        }
    }
    if seen_dep(c, i, j, d, a, b) {
        let (p, q, r) = choose|p: int, q: int, r: int|
            #[trigger] edge_before(c, i, j, d, p, q, r) && c[p].name@ == a && spec_is_normal(
                c[p].versions@[q].deps@[r],
            ) && spec_effective_name(c[p].versions@[q].deps@[r]) == b;
        assert(edge_before(c, i, j, dn, p, q, r));
        assert(seen_dep(c, i, j, dn, a, b));
    }
    if a == c[i].name@ && spec_is_normal(c[i].versions@[j].deps@[d]) && b == spec_effective_name(
        c[i].versions@[j].deps@[d],
    ) {
        assert(edge_before(c, i, j, dn, i, j, d));
        assert(seen_dep(c, i, j, dn, a, b));
    }
}

proof fn lemma_seen_equiv(
    c: Seq<PackageEntry>,
    i1: int,
    j1: int,
    d1: int,
    i2: int,
    j2: int,
    d2: int,
)
    requires
        forall|p: int, q: int, r: int|
            #[trigger] edge_before(c, i1, j1, d1, p, q, r) <==> #[trigger] edge_before(
                c,
                i2,
                j2,
                d2,
                p,
                q,
                r,
            ),
    ensures
        forall|a: Seq<char>, b: Seq<char>|
            #[trigger] seen_dep(c, i1, j1, d1, a, b) <==> #[trigger] seen_dep(c, i2, j2, d2, a, b),
{
    assert forall|a: Seq<char>, b: Seq<char>|
        #[trigger] seen_dep(c, i1, j1, d1, a, b) <==> #[trigger] seen_dep(
            c,
            i2,
            j2,
            d2,
            a,
            b,
        ) by {
        if seen_dep(c, i1, j1, d1, a, b) {
            let (p, q, r) = choose|p: int, q: int, r: int|
                #[trigger] edge_before(c, i1, j1, d1, p, q, r) && c[p].name@ == a && spec_is_normal(
                    c[p].versions@[q].deps@[r],
                ) && spec_effective_name(c[p].versions@[q].deps@[r]) == b;
            assert(edge_before(c, i2, j2, d2, p, q, r));
            assert(seen_dep(c, i2, j2, d2, a, b));
        }
        if seen_dep(c, i2, j2, d2, a, b) {
            let (p, q, r) = choose|p: int, q: int, r: int|
                #[trigger] edge_before(c, i2, j2, d2, p, q, r) && c[p].name@ == a && spec_is_normal(
                    c[p].versions@[q].deps@[r],
                ) && spec_effective_name(c[p].versions@[q].deps@[r]) == b;
            assert(edge_before(c, i1, j1, d1, p, q, r));
            assert(seen_dep(c, i1, j1, d1, a, b));
        }
    }
}

proof fn lemma_rd_inv_carry(db: Database, i1: int, j1: int, d1: int, i2: int, j2: int, d2: int)
    requires
        rd_inv(db, i1, j1, d1),
        forall|a: Seq<char>, b: Seq<char>|
            #[trigger] seen_dep(db.crates@, i1, j1, d1, a, b) <==> #[trigger] seen_dep(
                db.crates@,
                i2,
                j2,
                d2,
                a,
                b,
            ),
    ensures
        rd_inv(db, i2, j2, d2),
{
    let c = db.crates@;
    assert forall|b: Seq<char>|
        #[trigger] db.rdeps().contains_key(b) <==> (db.pkgs().contains_key(b) || exists|
            a: Seq<char>,
        | seen_dep(c, i2, j2, d2, a, b)) by {
        if db.rdeps().contains_key(b) {
            if !db.pkgs().contains_key(b) {
                let a = choose|a: Seq<char>| seen_dep(c, i1, j1, d1, a, b);
                assert(seen_dep(c, i2, j2, d2, a, b));
            }
        }
        if exists|a: Seq<char>| seen_dep(c, i2, j2, d2, a, b) {
            let a = choose|a: Seq<char>| seen_dep(c, i2, j2, d2, a, b);
            assert(seen_dep(c, i1, j1, d1, a, b));
            assert(db.rdeps().contains_key(b));
        }
    }
}

/// The j-boundary: exhausting the dependency list of version `j` is
/// the same traversal point as starting version `j + 1`.
proof fn lemma_j_boundary(db: Database, i: int, j: int, nd: int, jn: int)
    requires
        0 <= i < db.crates@.len(),
        0 <= j < db.crates@[i].versions@.len(),
        nd == db.crates@[i].versions@[j].deps@.len(),
        jn == j + 1,
        rd_inv(db, i, j, nd),
    ensures
        rd_inv(db, i, jn, 0),
{
    let c = db.crates@;
    assert forall|p: int, q: int, r: int|
        #[trigger] edge_before(c, i, j, nd, p, q, r) <==> #[trigger] edge_before(
            c,
            i,
            jn,
            0,
            p,
            q,
            r,
        ) by {}
    lemma_seen_equiv(c, i, j, nd, i, jn, 0);
    lemma_rd_inv_carry(db, i, j, nd, i, jn, 0);
}

/// The i-boundary: exhausting the version list of package `i` is the
/// same traversal point as starting package `i + 1`.
proof fn lemma_i_boundary(db: Database, i: int, nv: int, in_: int)
    requires
        0 <= i < db.crates@.len(),
        nv == db.crates@[i].versions@.len(),
        in_ == i + 1,
        rd_inv(db, i, nv, 0),
    ensures
        rd_inv(db, in_, 0, 0),
{
    let c = db.crates@;
    assert forall|p: int, q: int, r: int|
        #[trigger] edge_before(c, i, nv, 0, p, q, r) <==> #[trigger] edge_before(
            c,
            in_,
            0,
            0,
            p,
            q,
            r,
        ) by {}
    lemma_seen_equiv(c, i, nv, 0, in_, 0, 0);
    lemma_rd_inv_carry(db, i, nv, 0, in_, 0, 0);
}

/// The meaning of a fully traversed package list: an edge was seen
/// exactly when the forward index holds a Normal-kind edge.
proof fn lemma_seen_full(db: Database, n: int, a: Seq<char>, b: Seq<char>)
    requires
        db.wf(),
        n == db.crates@.len(),
    ensures
        seen_dep(db.crates@, n, 0, 0, a, b) <==> db.pkg_depends_on(a, b),
{
    let c = db.crates@;
    if seen_dep(c, n, 0, 0, a, b) {
        let (p, q, r) = choose|p: int, q: int, r: int|
            #[trigger] edge_before(c, n, 0, 0, p, q, r) && c[p].name@ == a && spec_is_normal(
                c[p].versions@[q].deps@[r],
            ) && spec_effective_name(c[p].versions@[q].deps@[r]) == b;
        lemma_assoc_get(c, pkg_key(), pkg_val(), p);
        lemma_assoc_get(c[p].versions@, ver_key(), ver_val(), q);
        let k = c[p].versions@[q];
        assert(krate_depends_on(k, b));
        assert(db.pkgs()[a].contains_key(k.vers@) && krate_depends_on(db.pkgs()[a][k.vers@], b));
        assert(db.pkg_depends_on(a, b));
    }
    if db.pkg_depends_on(a, b) {
        lemma_assoc_contains(c, pkg_key(), pkg_val(), a);
        assert(exists|p: int| 0 <= p < c.len() && pkg_key()(c[p]) == a);
        let p = choose|p: int| 0 <= p < c.len() && pkg_key()(c[p]) == a;
        lemma_assoc_get(c, pkg_key(), pkg_val(), p);
        let vs = c[p].versions@;
        assert(db.pkgs()[a] == vmap_of(vs));
        let v = choose|v: Seq<char>|
            #[trigger] db.pkgs()[a].contains_key(v) && krate_depends_on(db.pkgs()[a][v], b);
        lemma_assoc_contains(vs, ver_key(), ver_val(), v);
        assert(exists|q: int| 0 <= q < vs.len() && ver_key()(vs[q]) == v);
        let q = choose|q: int| 0 <= q < vs.len() && ver_key()(vs[q]) == v;
        lemma_assoc_get(vs, ver_key(), ver_val(), q);
        assert(db.pkgs()[a][v] == vs[q]);
        assert(krate_depends_on(vs[q], b));
        let r = choose|r: int|
            0 <= r < vs[q].deps@.len() && spec_is_normal(#[trigger] vs[q].deps@[r])
                && spec_effective_name(vs[q].deps@[r]) == b;
        assert(edge_before(c, n, 0, 0, p, q, r));
        assert(seen_dep(c, n, 0, 0, a, b));
    }
}

proof fn lemma_rd_step_normal(pre: Database, post: Database, i: int, j: int, d: int, dn: int)
    requires
        post.crates@ == pre.crates@,
        edge_at(pre.crates@, i, j, d),
        spec_is_normal(pre.crates@[i].versions@[j].deps@[d]),
        dn == d + 1,
        rd_inv(pre, i, j, d),
        post.rdeps() == spec_rd_add(
            pre.rdeps(),
            spec_effective_name(pre.crates@[i].versions@[j].deps@[d]),
            pre.crates@[i].name@,
        ),
    ensures
        rd_inv(post, i, j, dn),
{
    let c = pre.crates@;
    let e = c[i].versions@[j].deps@[d];
    let t = spec_effective_name(e);
    let nm = c[i].name@;
    assert(post.pkgs() == pre.pkgs());
    assert forall|a: Seq<char>, b: Seq<char>|
        #[trigger] seen_dep(c, i, j, dn, a, b) <==> (seen_dep(c, i, j, d, a, b) || (a == nm && b
            == t)) by {
        lemma_seen_step(c, i, j, d, dn, a, b);
    }
    assert forall|b: Seq<char>|
        #[trigger] post.rdeps().contains_key(b) <==> (post.pkgs().contains_key(b) || exists|
            a: Seq<char>,
        | seen_dep(c, i, j, dn, a, b)) by {
        if b == t {
            assert(post.rdeps().contains_key(b));
            assert(seen_dep(c, i, j, dn, nm, t));
        } else {
            assert(post.rdeps().contains_key(b) == pre.rdeps().contains_key(b));
            if exists|a: Seq<char>| seen_dep(c, i, j, dn, a, b) {
                let a = choose|a: Seq<char>| seen_dep(c, i, j, dn, a, b);
                assert(seen_dep(c, i, j, d, a, b));
                assert(pre.rdeps().contains_key(b));
            }
            if pre.rdeps().contains_key(b) && !pre.pkgs().contains_key(b) {
                let a = choose|a: Seq<char>| seen_dep(c, i, j, d, a, b);
                assert(seen_dep(c, i, j, dn, a, b));
            }
        }
    }
    assert forall|b: Seq<char>, a: Seq<char>| post.rdeps().contains_key(b) implies ((
    #[trigger] post.rdeps()[b].contains(a)) <==> seen_dep(c, i, j, dn, a, b)) by {
        if b == t {
            if pre.rdeps().contains_key(t) {
                assert(post.rdeps()[t] == pre.rdeps()[t].insert(nm));
                assert(pre.rdeps()[t].contains(a) <==> seen_dep(c, i, j, d, a, t));
            } else {
                assert(post.rdeps()[t] == Set::<Seq<char>>::empty().insert(nm));
                if seen_dep(c, i, j, d, a, t) {
                    assert(pre.rdeps().contains_key(t));
                    assert(false);
                }
            }
        } else {
            assert(post.rdeps()[b] == pre.rdeps()[b]);
            assert(pre.rdeps().contains_key(b));
        }
    }
}

proof fn lemma_rd_step_skip(db: Database, i: int, j: int, d: int, dn: int)
    requires
        edge_at(db.crates@, i, j, d),
        !spec_is_normal(db.crates@[i].versions@[j].deps@[d]),
        dn == d + 1,
        rd_inv(db, i, j, d),
    ensures
        rd_inv(db, i, j, dn),
{
    let c = db.crates@;
    assert forall|a: Seq<char>, b: Seq<char>|
        #[trigger] seen_dep(c, i, j, dn, a, b) <==> #[trigger] seen_dep(c, i, j, d, a, b) by {
        lemma_seen_step(c, i, j, d, dn, a, b);
    }
    lemma_rd_inv_carry(db, i, j, d, i, j, dn);
}

/// Build the full database from a sequence of decoded records: store
/// each record in order, then derive the reverse-dependency index.
pub fn build_index(records: Vec<Krate>) -> (db: Database)
    ensures
        db.wf(),
        db.pkgs() == spec_index_of(records@),
        db.rd_correct(),
{
    let ghost orig = records@;
    let mut rs = records;
    let mut db = Database::new();
    let ghost mut done: int = 0;

    proof {
        assert(orig.take(0) =~= Seq::<Krate>::empty());
    }
    while rs.len() > 0
        invariant
            0 <= done <= orig.len(),
            rs@ =~= orig.skip(done),
            db.wf(),
            db.pkgs() == spec_index_of(orig.take(done)),
            db.reverse_deps@ =~= Seq::<RevEntry>::empty(),
        decreases rs@.len(),
    {
        let k = rs.remove(0);
        proof {
            assert(k == orig[done]);
            assert(rs@ =~= orig.skip(done + 1));
            assert(orig.take(done + 1).drop_last() =~= orig.take(done));
            assert(orig.take(done + 1).last() == orig[done]);
            assert(spec_index_of(orig.take(done + 1)) == spec_insert_record(
                spec_index_of(orig.take(done)),
                orig[done],
            ));
        }
        db.insert_record(k);
        proof {
            done = done + 1;
        }
    }
    proof {
        assert(orig.take(done) =~= orig);
    }

    // Initialize the reverse index with an empty entry per package name.
    let n = db.crates.len();
    let mut i: usize = 0;
    while i < n
        invariant
            n == db.crates@.len(),
            0 <= i <= n,
            db.wf(),
            db.pkgs() == spec_index_of(records@),
            forall|b: Seq<char>|
                #[trigger] db.rdeps().contains_key(b) <==> exists|p: int|
                    0 <= p < i && (#[trigger] db.crates@[p]).name@ == b,
            forall|b: Seq<char>|
                db.rdeps().contains_key(b) ==> db.rdeps()[b] =~= Set::<Seq<char>>::empty(),
        decreases n - i,
    {
        let name = db.crates[i].name.clone();
        let dd = NameSet::new();
        let e = RevEntry { name, dependents: dd };
        let ghost e2 = e;
        let ghost rd0 = db.rdeps();
        proof {
            lemma_assoc_push(db.reverse_deps@, rd_key(), rd_val(), e2);
            assert forall|p: int, q: int|
                0 <= p < q < db.reverse_deps@.push(e2).len() implies rd_key()(
                db.reverse_deps@.push(e2)[p],
            ) != rd_key()(db.reverse_deps@.push(e2)[q]) by {
                if q == db.reverse_deps@.len() as int {
                    assert(db.rdeps().contains_key(db.reverse_deps@[p].name@)) by {
                        lemma_assoc_get(db.reverse_deps@, rd_key(), rd_val(), p);
                    }
                }
            }
        }
        db.reverse_deps.push(e);
        proof {
            assert(db.rdeps() == rd0.insert(e2.name@, e2.dependents@));
            assert(e2.name@ == db.crates@[i as int].name@);
            assert forall|b: Seq<char>| #[trigger] db.rdeps().contains_key(b) implies exists|
                p: int,
            | 0 <= p < i + 1 && (#[trigger] db.crates@[p]).name@ == b by {
                if b == e2.name@ {
                    assert(0 <= i < i + 1 && db.crates@[i as int].name@ == b);
                } else {
                    assert(rd0.contains_key(b));
                    let p = choose|p: int| 0 <= p < i && (#[trigger] db.crates@[p]).name@ == b;
                    assert(0 <= p < i + 1 && db.crates@[p].name@ == b);
                }
            }
            assert forall|b: Seq<char>| (exists|p: int|
                0 <= p < i + 1 && (#[trigger] db.crates@[p]).name@ == b) implies db.rdeps().contains_key(
                b,
            ) by {
                let p = choose|p: int| 0 <= p < i + 1 && (#[trigger] db.crates@[p]).name@ == b;
                if p == i as int {
                    assert(b == e2.name@);
                } else {
                    assert(rd0.contains_key(b));
                }
            }
            assert forall|b: Seq<char>| db.rdeps().contains_key(b) implies db.rdeps()[b]
                =~= Set::<Seq<char>>::empty() by {
                if b == e2.name@ {
                    assert(db.rdeps()[b] == e2.dependents@);
                } else {
                    assert(rd0.contains_key(b) && db.rdeps()[b] == rd0[b]);
                }
            }
        }
        i += 1;
    }
    proof {
        assert forall|b: Seq<char>|
            #[trigger] db.rdeps().contains_key(b) <==> db.pkgs().contains_key(b) by {
            lemma_assoc_contains(db.crates@, pkg_key(), pkg_val(), b);
        }
        assert forall|a: Seq<char>, b: Seq<char>| !#[trigger] seen_dep(db.crates@, 0, 0, 0, a, b) by {
            if seen_dep(db.crates@, 0, 0, 0, a, b) {
                let (p, q, r) = choose|p: int, q: int, r: int|
                    #[trigger] edge_before(db.crates@, 0, 0, 0, p, q, r) && db.crates@[p].name@
                        == a && spec_is_normal(db.crates@[p].versions@[q].deps@[r])
                        && spec_effective_name(db.crates@[p].versions@[q].deps@[r]) == b;
                assert(false);
            }
        }
        assert(rd_inv(db, 0, 0, 0));
    }

    // Traverse every edge of every stored version, recording Normal-kind
    // dependencies in the reverse index.
    let mut i: usize = 0;
    while i < n
        invariant
            n == db.crates@.len(),
            0 <= i <= n,
            db.wf(),
            db.pkgs() == spec_index_of(records@),
            rd_inv(db, i as int, 0, 0),
        decreases n - i,
    {
        let nv = db.crates[i].versions.len();
        let mut j: usize = 0;
        while j < nv
            invariant
                n == db.crates@.len(),
                0 <= i < n,
                nv == db.crates@[i as int].versions@.len(),
                0 <= j <= nv,
                db.wf(),
                db.pkgs() == spec_index_of(records@),
                rd_inv(db, i as int, j as int, 0),
            decreases nv - j,
        {
            let nd = db.crates[i].versions[j].deps.len();
            let mut d: usize = 0;
            while d < nd
                invariant
                    n == db.crates@.len(),
                    0 <= i < n,
                    nv == db.crates@[i as int].versions@.len(),
                    0 <= j < nv,
                    nd == db.crates@[i as int].versions@[j as int].deps@.len(),
                    0 <= d <= nd,
                    db.wf(),
                    db.pkgs() == spec_index_of(records@),
                    rd_inv(db, i as int, j as int, d as int),
                decreases nd - d,
            {
                let ghost pre = db;
                if is_normal(&db.crates[i].versions[j].deps[d]) {
                    let t = effective_name(&db.crates[i].versions[j].deps[d]).clone();
                    let a = db.crates[i].name.clone();
                    db.rd_add(&t, &a);
                    proof {
                        lemma_rd_step_normal(pre, db, i as int, j as int, d as int, d + 1);
                    }
                } else {
                    proof {
                        lemma_rd_step_skip(db, i as int, j as int, d as int, d + 1);
                    }
                }
                d += 1;
            }
            proof {
                lemma_j_boundary(db, i as int, j as int, nd as int, j + 1);
            }
            j += 1;
        }
        proof {
            lemma_i_boundary(db, i as int, nv as int, i + 1);
        }
        i += 1;
    }

    proof {
        assert forall|a: Seq<char>, b: Seq<char>|
            #[trigger] seen_dep(db.crates@, n as int, 0, 0, a, b) <==> db.pkg_depends_on(a, b) by {
            lemma_seen_full(db, n as int, a, b);
        }
        assert forall|b: Seq<char>|
            #[trigger] db.rdeps().contains_key(b) <==> (db.pkgs().contains_key(b) || exists|
                a: Seq<char>,
            | db.pkg_depends_on(a, b)) by {
            if db.rdeps().contains_key(b) && !db.pkgs().contains_key(b) {
                let a = choose|a: Seq<char>| seen_dep(db.crates@, n as int, 0, 0, a, b);
                assert(db.pkg_depends_on(a, b));
            }
            if exists|a: Seq<char>| db.pkg_depends_on(a, b) {
                let a = choose|a: Seq<char>| db.pkg_depends_on(a, b);
                assert(seen_dep(db.crates@, n as int, 0, 0, a, b));
            }
        }
    }
    db
}

} // verus!
