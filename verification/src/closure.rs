//! The closure engine: given the database and a seed set of package
//! names, compute the closure of the seed under two relations applied
//! in sequence — first everything that transitively depends on a seed
//! member (over the reverse index), then, to a fixed point, everything
//! a member transitively depends on (over Normal-kind forward edges).

use vstd::prelude::*;
use vstd::set_lib::lemma_len_subset;

use crate::assoc::{lemma_assoc_contains, lemma_assoc_dom_finite, lemma_assoc_get};
use crate::database::{rd_key, rd_val, Database, RevEntry};
use crate::names::{views_of, NameSet};
use crate::report::{direct_dependencies, spec_direct_deps};

verus! {

/// One step of the upward relation: `y` is recorded as a dependent of `x`.
pub open spec fn rd_member(db: Database, x: Seq<char>, y: Seq<char>) -> bool {
    db.rdeps().contains_key(x) && db.rdeps()[x].contains(y)
}

/// `s` is closed under single steps of `rel`.
pub open spec fn rel_closed(rel: spec_fn(Seq<char>, Seq<char>) -> bool, s: Set<Seq<char>>) -> bool {
    forall|x: Seq<char>, y: Seq<char>| s.contains(x) && #[trigger] rel(x, y) ==> s.contains(y)
}

/// The members reachable from `s` by at most `n` steps of `rel`.
pub open spec fn rel_reach(
    rel: spec_fn(Seq<char>, Seq<char>) -> bool,
    s: Set<Seq<char>>,
    n: nat,
) -> Set<Seq<char>>
    decreases n,
{
    if n == 0 {
        s
    } else {
        let prev = rel_reach(rel, s, (n - 1) as nat);
        prev.union(
            Set::new(|y: Seq<char>| exists|x: Seq<char>| prev.contains(x) && #[trigger] rel(x, y)),
        )
    }
}

/// The least superset of `s` closed under `rel`.
pub open spec fn rel_closure(
    rel: spec_fn(Seq<char>, Seq<char>) -> bool,
    s: Set<Seq<char>>,
) -> Set<Seq<char>> {
    Set::new(|y: Seq<char>| exists|n: nat| (#[trigger] rel_reach(rel, s, n)).contains(y))
}

/// The upward relation of a database: following reverse-dependency edges.
pub open spec fn up_rel(db: Database) -> spec_fn(Seq<char>, Seq<char>) -> bool {
    |x: Seq<char>, y: Seq<char>| rd_member(db, x, y)
}

/// The downward relation of a database: following Normal-kind
/// forward edges to their effective targets.
pub open spec fn down_rel(db: Database) -> spec_fn(Seq<char>, Seq<char>) -> bool {
    |x: Seq<char>, y: Seq<char>| db.pkg_depends_on(x, y)
}

/// The set computed by the closure engine: the upward closure of the
/// seed, then the downward closure of that.
pub open spec fn spec_closure(db: Database, seed: Set<Seq<char>>) -> Set<Seq<char>> {
    rel_closure(down_rel(db), rel_closure(up_rel(db), seed))
}

pub proof fn lemma_rel_closure_base(rel: spec_fn(Seq<char>, Seq<char>) -> bool, s: Set<Seq<char>>)
    ensures
        s.subset_of(rel_closure(rel, s)),
{
    assert forall|y: Seq<char>| s.contains(y) implies rel_closure(rel, s).contains(y) by {
        assert(rel_reach(rel, s, 0).contains(y));
    }
}

pub proof fn lemma_rel_closure_step(
    rel: spec_fn(Seq<char>, Seq<char>) -> bool,
    s: Set<Seq<char>>,
    x: Seq<char>,
    y: Seq<char>,
)
    requires
        rel_closure(rel, s).contains(x),
        rel(x, y),
    ensures
        rel_closure(rel, s).contains(y),
{
    let n = choose|n: nat| (#[trigger] rel_reach(rel, s, n)).contains(x);
    let n1: nat = n + 1;
    let prev = rel_reach(rel, s, (n1 - 1) as nat);
    assert(prev == rel_reach(rel, s, n));
    assert(prev.contains(x) && rel(x, y));
    assert(rel_reach(rel, s, n1).contains(y));
}

proof fn lemma_rel_reach_in(
    rel: spec_fn(Seq<char>, Seq<char>) -> bool,
    s: Set<Seq<char>>,
    t: Set<Seq<char>>,
    n: nat,
)
    requires
        s.subset_of(t),
        rel_closed(rel, t),
    ensures
        rel_reach(rel, s, n).subset_of(t),
    decreases n,
{
    if n == 0 {
    } else {
        lemma_rel_reach_in(rel, s, t, (n - 1) as nat);
        let prev = rel_reach(rel, s, (n - 1) as nat);
        assert forall|y: Seq<char>| rel_reach(rel, s, n).contains(y) implies t.contains(y) by {
            if !prev.contains(y) {
                let x = choose|x: Seq<char>| prev.contains(x) && #[trigger] rel(x, y);
                assert(t.contains(x));
            }
        }
    }
}

/// The closure of `s` under `rel` is contained in every `rel`-closed
/// superset of `s`.
pub proof fn lemma_rel_closure_least(
    rel: spec_fn(Seq<char>, Seq<char>) -> bool,
    s: Set<Seq<char>>,
    t: Set<Seq<char>>,
)
    requires
        s.subset_of(t),
        rel_closed(rel, t),
    ensures
        rel_closure(rel, s).subset_of(t),
{
    assert forall|y: Seq<char>| rel_closure(rel, s).contains(y) implies t.contains(y) by {
        let n = choose|n: nat| (#[trigger] rel_reach(rel, s, n)).contains(y);
        lemma_rel_reach_in(rel, s, t, n);
    }
}

/// Determinism: the closure is a function of the database and the seed
/// set alone, so any two computations over the same inputs agree.
pub proof fn lemma_closure_deterministic(
    db: Database,
    seed: Set<Seq<char>>,
    r1: Set<Seq<char>>,
    r2: Set<Seq<char>>,
)
    requires
        r1 == spec_closure(db, seed),
        r2 == spec_closure(db, seed),
    ensures
        r1 == r2,
{
}

/// Every name stored anywhere in the reverse index's dependent sets.
pub open spec fn rd_contents(s: Seq<RevEntry>) -> Set<Seq<char>>
    decreases s.len(),
{
    if s.len() == 0 {
        Set::empty()
    } else {
        rd_contents(s.drop_last()).union(s.last().dependents@)
    }
}

proof fn lemma_rd_contents_finite(s: Seq<RevEntry>)
    ensures
        rd_contents(s).finite(),
    decreases s.len(),
{
    if s.len() == 0 {
    } else {
        lemma_rd_contents_finite(s.drop_last());
        vstd::seq_lib::seq_to_set_is_finite::<Seq<char>>(views_of(s.last().dependents.names@));
    }
}

proof fn lemma_rd_contents_super(s: Seq<RevEntry>, i: int)
    requires
        0 <= i < s.len(),
    ensures
        s[i].dependents@.subset_of(rd_contents(s)),
    decreases s.len(),
{
    if i == s.len() - 1 {
    } else {
        lemma_rd_contents_super(s.drop_last(), i);
        assert(s.drop_last()[i] == s[i]);
    }
}

proof fn lemma_rd_member_in_contents(db: &Database, x: Seq<char>, y: Seq<char>)
    requires
        db.wf(),
        rd_member(*db, x, y),
    ensures
        rd_contents(db.reverse_deps@).contains(y),
{
    lemma_assoc_contains(db.reverse_deps@, rd_key(), rd_val(), x);
    assert(exists|i: int| 0 <= i < db.reverse_deps@.len() && rd_key()(db.reverse_deps@[i]) == x);
    let i = choose|i: int| 0 <= i < db.reverse_deps@.len() && rd_key()(db.reverse_deps@[i]) == x;
    lemma_assoc_get(db.reverse_deps@, rd_key(), rd_val(), i);
    assert(db.rdeps()[x] == db.reverse_deps@[i].dependents@);
    lemma_rd_contents_super(db.reverse_deps@, i);
}

proof fn lemma_subset_equal_card(s: Set<Seq<char>>, t: Set<Seq<char>>)
    requires
        s.subset_of(t),
        t.finite(),
        s.len() == t.len(),
    ensures
        s =~= t,
{
    if exists|x: Seq<char>| #[trigger] t.contains(x) && !s.contains(x) {
        let x = choose|x: Seq<char>| #[trigger] t.contains(x) && !s.contains(x);
        assert(s.subset_of(t.remove(x)));
        lemma_len_subset(s, t.remove(x));
        assert(t.remove(x).len() == t.len() - 1);
        assert(false);
    }
}

/// One downward pass: every Normal-kind effective dependency of every
/// current member is added. The set never shrinks, afterwards it
/// covers every direct dependency of the snapshot it started from, and
/// every added name is a direct dependency of a snapshot member.
pub fn expand_down(db: &Database, closure: &mut NameSet)
    requires
        db.wf(),
        old(closure).wf(),
    ensures
        final(closure).wf(),
        old(closure)@.subset_of(final(closure)@),
        old(closure)@.len() <= final(closure)@.len(),
        forall|x: Seq<char>, t: Seq<char>|
            old(closure)@.contains(x) && #[trigger] db.pkg_depends_on(x, t)
                ==> final(closure)@.contains(t),
        forall|t: Seq<char>|
            #[trigger] final(closure)@.contains(t) ==> old(closure)@.contains(t) || exists|
                x: Seq<char>,
            | old(closure)@.contains(x) && #[trigger] db.pkg_depends_on(x, t),
{
    let worklist = closure.to_names();
    let ghost snapseq = views_of(worklist@);
    let ghost snap = closure@;
    let wl = worklist.len();
    let mut w: usize = 0;
    while w < wl
        invariant
            db.wf(),
            closure.wf(),
            wl == worklist@.len(),
            views_of(worklist@) == snapseq,
            snapseq.to_set() == snap,
            snap.subset_of(closure@),
            forall|w2: int, t: Seq<char>|
                0 <= w2 < w && #[trigger] db.pkg_depends_on(snapseq[w2], t)
                    ==> closure@.contains(t),
            forall|t: Seq<char>|
                #[trigger] closure@.contains(t) ==> snap.contains(t) || exists|x: Seq<char>|
                    snap.contains(x) && #[trigger] db.pkg_depends_on(x, t),
        decreases wl - w,
    {
        let name = &worklist[w];
        let ghost nm = name@;
        proof {
            assert(nm == snapseq[w as int]);
            assert(snapseq.contains(nm));
            assert(snap.contains(nm));
        }
        let dd = direct_dependencies(db, name);
        let m = dd.len();
        let mut ti: usize = 0;
        while ti < m
            invariant
                db.wf(),
                closure.wf(),
                dd.wf(),
                m == dd.seq().len(),
                dd@ == spec_direct_deps(*db, nm),
                snap.contains(nm),
                snap.subset_of(closure@),
                forall|w2: int, t: Seq<char>|
                    0 <= w2 < w && #[trigger] db.pkg_depends_on(snapseq[w2], t)
                        ==> closure@.contains(t),
                forall|t: Seq<char>|
                    #[trigger] closure@.contains(t) ==> snap.contains(t) || exists|x: Seq<char>|
                        snap.contains(x) && #[trigger] db.pkg_depends_on(x, t),
                forall|t2: int| 0 <= t2 < ti ==> closure@.contains(#[trigger] dd.seq()[t2]),
            decreases m - ti,
        {
            let t = dd.name_at(ti).clone();
            proof {
                assert(dd@.contains(t@));
                assert(db.pkg_depends_on(nm, t@));
            }
            closure.insert(t);
            ti += 1;
        }
        proof {
            assert forall|t: Seq<char>| #[trigger] db.pkg_depends_on(nm, t) implies closure@.contains(
                t,
            ) by {
                assert(dd@.contains(t));
                assert(dd.seq().to_set().contains(t));
                assert(dd.seq().contains(t));
                let t2 = choose|t2: int| 0 <= t2 < dd.seq().len() && dd.seq()[t2] == t;
                assert(closure@.contains(dd.seq()[t2]));
            }
            assert forall|w2: int, t: Seq<char>|
                0 <= w2 < w + 1 && #[trigger] db.pkg_depends_on(snapseq[w2], t) implies closure@.contains(
                t,
            ) by {
                if w2 == w as int {
                    assert(db.pkg_depends_on(nm, t));
                }
            }
        }
        w += 1;
    }
    proof {
        assert forall|x: Seq<char>, t: Seq<char>|
            old(closure)@.contains(x) && #[trigger] db.pkg_depends_on(x, t) implies closure@.contains(
            t,
        ) by {
            assert(snapseq.to_set().contains(x));
            assert(snapseq.contains(x));
            let w2 = choose|w2: int| 0 <= w2 < snapseq.len() && snapseq[w2] == x;
            assert(db.pkg_depends_on(snapseq[w2], t));
        }
        vstd::seq_lib::seq_to_set_is_finite::<Seq<char>>(closure.seq());
        lemma_len_subset(old(closure)@, closure@);
    }
}

/// Compute the closure of the seed: Phase 1 repeatedly adds reverse
/// dependents of members starting from the seed; Phase 2 then adds
/// Normal-kind effective dependencies of members until a full pass
/// adds nothing. Seed names missing from the index stay members with
/// no known edges; dependency names never published are still added.
pub fn compute_closure(db: &Database, seed: &Vec<String>) -> (r: NameSet)
    requires
        db.wf(),
        db.rd_correct(),
    ensures
        r.wf(),
        r@ == spec_closure(*db, views_of(seed@).to_set()),
        views_of(seed@).to_set().subset_of(r@),
        rel_closure(up_rel(*db), views_of(seed@).to_set()).subset_of(r@),
        forall|x: Seq<char>, y: Seq<char>|
            r@.contains(x) && #[trigger] db.pkg_depends_on(x, y) ==> r@.contains(y),
{
    let ghost seedset = views_of(seed@).to_set();
    let ghost u1 = seedset.union(rd_contents(db.reverse_deps@));
    proof {
        vstd::seq_lib::seq_to_set_is_finite::<Seq<char>>(views_of(seed@));
        lemma_rd_contents_finite(db.reverse_deps@);
        assert(u1.finite());
    }

    // Copy the seed into the worklist.
    let mut todo: Vec<String> = Vec::new();
    let ns = seed.len();
    let mut si: usize = 0;
    while si < ns
        invariant
            ns == seed@.len(),
            0 <= si <= ns,
            views_of(todo@) =~= views_of(seed@).take(si as int),
        decreases ns - si,
    {
        let s = seed[si].clone();
        proof {
            assert(views_of(todo@.push(s)) =~= views_of(todo@).push(s@));
            assert(views_of(seed@).take(si + 1) =~= views_of(seed@).take(si as int).push(
                views_of(seed@)[si as int],
            ));
        }
        todo.push(s);
        si += 1;
    }
    proof {
        assert(views_of(seed@).take(ns as int) =~= views_of(seed@));
        assert(views_of(todo@).to_set() =~= seedset);
        lemma_rel_closure_base(up_rel(*db), seedset);
    }

    // Phase 1: spider upward over the reverse index.
    let mut cl = NameSet::new();
    while todo.len() > 0
        invariant
            db.wf(),
            cl.wf(),
            u1 == seedset.union(rd_contents(db.reverse_deps@)),
            u1.finite(),
            seedset.subset_of(cl@.union(views_of(todo@).to_set())),
            forall|x: Seq<char>, y: Seq<char>|
                cl@.contains(x) && #[trigger] rd_member(*db, x, y) ==> cl@.contains(y) || views_of(
                    todo@,
                ).to_set().contains(y),
            cl@.subset_of(rel_closure(up_rel(*db), seedset)),
            views_of(todo@).to_set().subset_of(rel_closure(up_rel(*db), seedset)),
            cl@.subset_of(u1),
            views_of(todo@).to_set().subset_of(u1),
        decreases u1.len() - cl@.len(), todo@.len(),
    {
        let ghost todoseq0 = views_of(todo@);
        let ghost cl0 = cl@;
        let cr = todo.pop().unwrap();
        proof {
            assert(todoseq0 =~= views_of(todo@).push(cr@));
            views_of(todo@).lemma_push_to_set_commute(cr@);
            assert(todoseq0.to_set() =~= views_of(todo@).to_set().insert(cr@));
            assert(todoseq0.to_set().contains(cr@));
        }
        if !cl.contains(&cr) {
            cl.insert(cr.clone());
            let ghost cl1 = cl@;
            let ghost t1 = views_of(todo@).to_set();
            match db.rd_get(&cr) {
                Some(rdset) => {
                    let m = rdset.len();
                    let mut ti: usize = 0;
                    while ti < m
                        invariant
                            db.wf(),
                            cl.wf(),
                            u1 == seedset.union(rd_contents(db.reverse_deps@)),
                            u1.finite(),
                            m == rdset.seq().len(),
                            rdset.wf(),
                            db.rdeps().contains_key(cr@),
                            rdset@ == db.rdeps()[cr@],
                            cl@ == cl1,
                            cl@.contains(cr@),
                            t1.subset_of(views_of(todo@).to_set()),
                            seedset.subset_of(cl@.union(views_of(todo@).to_set())),
                            forall|x: Seq<char>, y: Seq<char>|
                                cl0.contains(x) && #[trigger] rd_member(*db, x, y) ==> cl@.contains(
                                    y,
                                ) || views_of(todo@).to_set().contains(y),
                            forall|t2: int|
                                0 <= t2 < ti ==> cl@.contains(#[trigger] rdset.seq()[t2])
                                    || views_of(todo@).to_set().contains(rdset.seq()[t2]),
                            cl@.subset_of(rel_closure(up_rel(*db), seedset)),
                            views_of(todo@).to_set().subset_of(rel_closure(up_rel(*db), seedset)),
                            cl@.subset_of(u1),
                            views_of(todo@).to_set().subset_of(u1),
                        decreases m - ti,
                    {
                        let y = rdset.name_at(ti);
                        if !cl.contains(y) {
                            proof {
                                assert(rdset@.contains(y@));
                                assert(rd_member(*db, cr@, y@));
                                assert(up_rel(*db)(cr@, y@));
                                assert(rel_closure(up_rel(*db), seedset).contains(cr@));
                                lemma_rel_closure_step(up_rel(*db), seedset, cr@, y@);
                                lemma_rd_member_in_contents(db, cr@, y@);
                                views_of(todo@).lemma_push_to_set_commute(y@);
                                assert(views_of(todo@.push(*y)) =~= views_of(todo@).push(y@));
                            }
                            todo.push(y.clone());
                        }
                        ti += 1;
                    }
                    proof {
                        assert forall|x: Seq<char>, y: Seq<char>|
                            cl@.contains(x) && #[trigger] rd_member(*db, x, y) implies (
                        cl@.contains(y) || views_of(todo@).to_set().contains(y)) by {
                            if x == cr@ {
                                assert(rdset@.contains(y));
                                assert(rdset.seq().to_set().contains(y));
                                assert(rdset.seq().contains(y));
                                let t2 = choose|t2: int|
                                    0 <= t2 < rdset.seq().len() && rdset.seq()[t2] == y;
                                assert(cl@.contains(rdset.seq()[t2]) || views_of(
                                    todo@,
                                ).to_set().contains(rdset.seq()[t2]));
                            } else {
                                assert(cl0.contains(x));
                            }
                        }
                    }
                },
                None => {
                    proof {
                        assert forall|x: Seq<char>, y: Seq<char>|
                            cl@.contains(x) && #[trigger] rd_member(*db, x, y) implies (
                        cl@.contains(y) || views_of(todo@).to_set().contains(y)) by {
                            if x == cr@ {
                                assert(!db.rdeps().contains_key(cr@));
                                assert(false);
                            } else {
                                assert(cl0.contains(x));
                            }
                        }
                    }
                },
            }
            proof {
                lemma_len_subset(cl@, u1);
            }
        } else {
            proof {
                lemma_len_subset(cl@, u1);
            }
        }
    }
    proof {
        assert(views_of(todo@) =~= Seq::<Seq<char>>::empty());
        assert(views_of(todo@).to_set() =~= Set::<Seq<char>>::empty());
        assert(seedset.subset_of(cl@));
        assert(rel_closed(up_rel(*db), cl@)) by {
            assert forall|x: Seq<char>, y: Seq<char>|
                cl@.contains(x) && #[trigger] up_rel(*db)(x, y) implies cl@.contains(y) by {
                assert(rd_member(*db, x, y));
            }
        }
        lemma_rel_closure_least(up_rel(*db), seedset, cl@);
        assert(cl@ =~= rel_closure(up_rel(*db), seedset));
    }
    let ghost c1 = cl@;

    // Phase 2: downward fixed point.
    let ghost u2 = c1.union(db.rdeps().dom());
    proof {
        lemma_assoc_dom_finite(db.reverse_deps@, rd_key(), rd_val());
        vstd::seq_lib::seq_to_set_is_finite::<Seq<char>>(cl.seq());
        assert(u2.finite());
        lemma_rel_closure_base(down_rel(*db), c1);
    }
    let mut closure = cl;
    let mut idx_sz: usize = 0;
    let mut sz = closure.len();
    proof {
        if closure@.len() == 0 {
            closure@.lemma_len0_is_empty();
        }
    }
    while idx_sz != sz
        invariant
            db.wf(),
            db.rd_correct(),
            closure.wf(),
            u2 == c1.union(db.rdeps().dom()),
            u2.finite(),
            c1 == rel_closure(up_rel(*db), seedset),
            c1.subset_of(closure@),
            closure@.subset_of(rel_closure(down_rel(*db), c1)),
            closure@.subset_of(u2),
            sz == closure@.len(),
            idx_sz <= sz,
            idx_sz == sz ==> rel_closed(down_rel(*db), closure@),
        decreases u2.len() - idx_sz,
    {
        idx_sz = sz;
        let ghost snap = closure@;
        expand_down(db, &mut closure);
        proof {
            assert forall|t: Seq<char>| #[trigger] closure@.contains(t) implies rel_closure(
                down_rel(*db),
                c1,
            ).contains(t) by {
                if !snap.contains(t) {
                    let x = choose|x: Seq<char>|
                        snap.contains(x) && #[trigger] db.pkg_depends_on(x, t);
                    assert(down_rel(*db)(x, t));
                    lemma_rel_closure_step(down_rel(*db), c1, x, t);
                }
            }
            assert forall|t: Seq<char>| #[trigger] closure@.contains(t) implies u2.contains(t) by {
                if !snap.contains(t) {
                    let x = choose|x: Seq<char>|
                        snap.contains(x) && #[trigger] db.pkg_depends_on(x, t);
                    assert(db.rdeps().contains_key(t));
                    assert(db.rdeps().dom().contains(t));
                }
            }
            lemma_len_subset(snap, closure@);
            lemma_len_subset(closure@, u2);
        }
        sz = closure.len();
        proof {
            if sz == idx_sz {
                lemma_subset_equal_card(snap, closure@);
                assert(snap =~= closure@);
                assert(rel_closed(down_rel(*db), closure@)) by {
                    assert forall|x: Seq<char>, y: Seq<char>|
                        closure@.contains(x) && #[trigger] down_rel(*db)(x, y) implies closure@.contains(
                        y,
                    ) by {
                        assert(snap.contains(x));
                        assert(db.pkg_depends_on(x, y));
                    }
                }
            }
        }
    }
    proof {
        lemma_rel_closure_least(down_rel(*db), c1, closure@);
        assert(closure@ =~= spec_closure(*db, seedset));
        assert forall|x: Seq<char>, y: Seq<char>|
            closure@.contains(x) && #[trigger] db.pkg_depends_on(x, y) implies closure@.contains(
            y,
        ) by {
            assert(down_rel(*db)(x, y));
        }
    }
    closure
}

} // verus!
