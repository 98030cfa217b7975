//! The aggregate index: a forward map from package name and version to
//! the record, and a reverse map from package name to the set of
//! packages that depend on it.

use vstd::prelude::*;

use crate::assoc::{
    assoc_map, lemma_assoc_contains, lemma_assoc_get, lemma_assoc_push, lemma_assoc_update,
    unique_keys,
};
use crate::model::{krate_depends_on, Krate};
use crate::names::NameSet;

verus! {

/// All stored versions of one package.
pub struct PackageEntry {
    pub name: String,
    pub versions: Vec<Krate>,
}

/// The recorded dependents of one package.
pub struct RevEntry {
    pub name: String,
    pub dependents: NameSet,
}

/// The aggregate database: forward index and reverse-dependency index.
pub struct Database {
    pub crates: Vec<PackageEntry>,
    pub reverse_deps: Vec<RevEntry>,
}

pub open spec fn pkg_key() -> spec_fn(PackageEntry) -> Seq<char> {
    |e: PackageEntry| e.name@
}

pub open spec fn pkg_val() -> spec_fn(PackageEntry) -> Map<Seq<char>, Krate> {
    |e: PackageEntry| vmap_of(e.versions@)
}

pub open spec fn ver_key() -> spec_fn(Krate) -> Seq<char> {
    |k: Krate| k.vers@
}

pub open spec fn ver_val() -> spec_fn(Krate) -> Krate {
    |k: Krate| k
}

pub open spec fn rd_key() -> spec_fn(RevEntry) -> Seq<char> {
    |e: RevEntry| e.name@
}

pub open spec fn rd_val() -> spec_fn(RevEntry) -> Set<Seq<char>> {
    |e: RevEntry| e.dependents@
}

/// The version-to-record map held by one package's version vector.
pub open spec fn vmap_of(s: Seq<Krate>) -> Map<Seq<char>, Krate> {
    assoc_map(s, ver_key(), ver_val())
}

impl Database {
    /// The forward index: package name -> version -> record.
    pub open spec fn pkgs(&self) -> Map<Seq<char>, Map<Seq<char>, Krate>> {
        assoc_map(self.crates@, pkg_key(), pkg_val())
    }

    /// The reverse index: package name -> set of dependent package names.
    pub open spec fn rdeps(&self) -> Map<Seq<char>, Set<Seq<char>>> {
        assoc_map(self.reverse_deps@, rd_key(), rd_val())
    }

    /// Structural invariant: no duplicate package names, no duplicate
    /// version keys inside one package, no duplicate reverse-index keys,
    /// and well-formed dependent sets.
    pub open spec fn wf(&self) -> bool {
        &&& unique_keys(self.crates@, pkg_key())
        &&& forall|i: int|
            0 <= i < self.crates@.len() ==> unique_keys(
                (#[trigger] self.crates@[i]).versions@,
                ver_key(),
            )
        &&& unique_keys(self.reverse_deps@, rd_key())
        &&& forall|i: int|
            0 <= i < self.reverse_deps@.len() ==> (#[trigger] self.reverse_deps@[i]).dependents.wf()
    }

    /// Whether some stored version of package `a` has a Normal-kind
    /// dependency edge with effective name `t`.
    pub open spec fn pkg_depends_on(&self, a: Seq<char>, t: Seq<char>) -> bool {
        self.pkgs().contains_key(a) && exists|v: Seq<char>|
            #[trigger] self.pkgs()[a].contains_key(v) && krate_depends_on(self.pkgs()[a][v], t)
    }

    /// Correctness of the reverse index against the forward index:
    /// its keys are exactly the package names plus every effective
    /// dependency target, and each entry holds exactly the dependents.
    pub open spec fn rd_correct(&self) -> bool {
        &&& forall|b: Seq<char>|
            #[trigger] self.rdeps().contains_key(b) <==> (self.pkgs().contains_key(b)
                || exists|a: Seq<char>| self.pkg_depends_on(a, b))
        &&& forall|b: Seq<char>, a: Seq<char>|
            self.rdeps().contains_key(b) ==> ((#[trigger] self.rdeps()[b].contains(a))
                <==> self.pkg_depends_on(a, b))
    }

    pub fn new() -> (db: Database)
        ensures
            db.wf(),
            db.crates@ == Seq::<PackageEntry>::empty(),
            db.reverse_deps@ == Seq::<RevEntry>::empty(),
            db.pkgs() == Map::<Seq<char>, Map<Seq<char>, Krate>>::empty(),
            db.rdeps() == Map::<Seq<char>, Set<Seq<char>>>::empty(),
    {
        Database { crates: Vec::new(), reverse_deps: Vec::new() }
    }

    fn find_pkg(&self, name: &String) -> (r: Option<usize>)
        ensures
            match r {
                Some(i) => i < self.crates@.len() && self.crates@[i as int].name@ == name@,
                None => forall|j: int|
                    0 <= j < self.crates@.len() ==> (#[trigger] self.crates@[j]).name@ != name@,
            },
    {
        let n = self.crates.len();
        let mut i: usize = 0;
        while i < n
            invariant
                n == self.crates@.len(),
                0 <= i <= n,
                forall|j: int| 0 <= j < i ==> (#[trigger] self.crates@[j]).name@ != name@,
            decreases n - i,
        {
            if self.crates[i].name == *name {
                return Some(i);
            }
            i += 1;
        }
        None
    }

    fn find_rd(&self, name: &String) -> (r: Option<usize>)
        ensures
            match r {
                Some(i) => i < self.reverse_deps@.len() && self.reverse_deps@[i as int].name@
                    == name@,
                None => forall|j: int|
                    0 <= j < self.reverse_deps@.len() ==> (#[trigger] self.reverse_deps@[j]).name@
                        != name@,
            },
    {
        let n = self.reverse_deps.len();
        let mut i: usize = 0;
        while i < n
            invariant
                n == self.reverse_deps@.len(),
                0 <= i <= n,
                forall|j: int| 0 <= j < i ==> (#[trigger] self.reverse_deps@[j]).name@ != name@,
            decreases n - i,
        {
            if self.reverse_deps[i].name == *name {
                return Some(i);
            }
            i += 1;
        }
        None
    }

    /// All stored versions of the named package, or `None` if the name
    /// is not a key of the forward index.
    pub fn get_versions(&self, name: &String) -> (r: Option<&Vec<Krate>>)
        requires
            self.wf(),
        ensures
            match r {
                Some(v) => self.pkgs().contains_key(name@) && vmap_of(v@) == self.pkgs()[name@]
                    && unique_keys(v@, ver_key()),
                None => !self.pkgs().contains_key(name@),
            },
    {
        match self.find_pkg(name) {
            Some(i) => {
                proof {
                    lemma_assoc_get(self.crates@, pkg_key(), pkg_val(), i as int);
                }
                Some(&self.crates[i].versions)
            },
            None => {
                proof {
                    lemma_assoc_contains(self.crates@, pkg_key(), pkg_val(), name@);
                }
                None
            },
        }
    }

    /// The recorded dependents of the named package, or `None` if the
    /// name is not a key of the reverse index.
    pub fn rd_get(&self, name: &String) -> (r: Option<&NameSet>)
        requires
            self.wf(),
        ensures
            match r {
                Some(s) => self.rdeps().contains_key(name@) && s@ == self.rdeps()[name@] && s.wf(),
                None => !self.rdeps().contains_key(name@),
            },
    {
        match self.find_rd(name) {
            Some(i) => {
                proof {
                    lemma_assoc_get(self.reverse_deps@, rd_key(), rd_val(), i as int);
                }
                Some(&self.reverse_deps[i].dependents)
            },
            None => {
                proof {
                    lemma_assoc_contains(self.reverse_deps@, rd_key(), rd_val(), name@);
                }
                None
            },
        }
    }

    /// Store one record under its name and version, overwriting any
    /// earlier record with the same pair of keys.
    pub fn insert_record(&mut self, k: Krate)
        requires
            old(self).wf(),
        ensures
            final(self).wf(),
            final(self).pkgs() == spec_insert_record(old(self).pkgs(), k),
            final(self).reverse_deps == old(self).reverse_deps,
    {
        let ghost kname = k.name@;
        match self.find_pkg(&k.name) {
            Some(i) => {
                proof {
                    lemma_assoc_get(self.crates@, pkg_key(), pkg_val(), i as int);
                }
                let mut entry = self.crates.remove(i);
                let ghost old_versions = entry.versions@;
                match find_vers(&entry.versions, &k.vers) {
                    Some(j) => {
                        let ghost kk = k;
                        proof {
                            lemma_assoc_update(old_versions, ver_key(), ver_val(), j as int, kk);
                        }
                        entry.versions.remove(j);
                        entry.versions.insert(j, k);
                        proof {
                            assert(entry.versions@ =~= old_versions.update(j as int, kk));
                        }
                    },
                    None => {
                        let ghost kk = k;
                        proof {
                            lemma_assoc_push(old_versions, ver_key(), ver_val(), kk);
                            lemma_assoc_contains(old_versions, ver_key(), ver_val(), kk.vers@);
                            assert(forall|p: int, q: int|
                                0 <= p < q < old_versions.push(kk).len() ==> ver_key()(
                                    old_versions.push(kk)[p],
                                ) != ver_key()(old_versions.push(kk)[q]));
                        }
                        entry.versions.push(k);
                    },
                }
                let ghost e2 = entry;
                proof {
                    lemma_assoc_update(old(self).crates@, pkg_key(), pkg_val(), i as int, e2);
                }
                self.crates.insert(i, entry);
                proof {
                    assert(self.crates@ =~= old(self).crates@.update(i as int, e2));
                    assert(self.wf()) by {
                        assert(forall|p: int|
                            0 <= p < self.crates@.len() && p != i ==> self.crates@[p] == old(
                                self,
                            ).crates@[p]);
                    }
                }
            },
            None => {
                proof {
                    lemma_assoc_contains(old(self).crates@, pkg_key(), pkg_val(), kname);
                }
                let name = k.name.clone();
                let ghost kk = k;
                let mut versions: Vec<Krate> = Vec::new();
                proof {
                    lemma_assoc_push(versions@, ver_key(), ver_val(), kk);
                }
                versions.push(k);
                let entry = PackageEntry { name, versions };
                let ghost e2 = entry;
                proof {
                    lemma_assoc_push(self.crates@, pkg_key(), pkg_val(), e2);
                }
                self.crates.push(entry);
                proof {
                    assert(self.wf()) by {
                        assert(forall|p: int|
                            0 <= p < self.crates@.len() - 1 ==> self.crates@[p] == old(
                                self,
                            ).crates@[p]);
                        assert(e2.versions@ =~= Seq::<Krate>::empty().push(e2.versions@[0]));
                    }
                    assert(vmap_of(e2.versions@) =~= Map::<Seq<char>, Krate>::empty().insert(
                        kk.vers@,
                        kk,
                    ));
                }
            },
        }
    }

    /// Record `dependent` as a dependent of `target`, creating the
    /// reverse-index entry if the target has none yet.
    pub fn rd_add(&mut self, target: &String, dependent: &String)
        requires
            old(self).wf(),
        ensures
            final(self).wf(),
            final(self).crates == old(self).crates,
            final(self).rdeps() == spec_rd_add(old(self).rdeps(), target@, dependent@),
    {
        match self.find_rd(target) {
            Some(i) => {
                proof {
                    lemma_assoc_get(self.reverse_deps@, rd_key(), rd_val(), i as int);
                }
                let mut e = self.reverse_deps.remove(i);
                e.dependents.insert(dependent.clone());
                let ghost e2 = e;
                proof {
                    lemma_assoc_update(old(self).reverse_deps@, rd_key(), rd_val(), i as int, e2);
                }
                self.reverse_deps.insert(i, e);
                proof {
                    assert(self.reverse_deps@ =~= old(self).reverse_deps@.update(i as int, e2));
                    assert(self.wf()) by {
                        assert(forall|p: int|
                            0 <= p < self.reverse_deps@.len() && p != i ==> self.reverse_deps@[p]
                                == old(self).reverse_deps@[p]);
                    }
                }
            },
            None => {
                proof {
                    lemma_assoc_contains(self.reverse_deps@, rd_key(), rd_val(), target@);
                }
                let mut dd = NameSet::new();
                dd.insert(dependent.clone());
                let e = RevEntry { name: target.clone(), dependents: dd };
                let ghost e2 = e;
                proof {
                    lemma_assoc_push(self.reverse_deps@, rd_key(), rd_val(), e2);
                    assert(e2.dependents@ =~= Set::<Seq<char>>::empty().insert(dependent@));
                }
                self.reverse_deps.push(e);
                proof {
                    assert(self.wf()) by {
                        assert(forall|p: int|
                            0 <= p < self.reverse_deps@.len() - 1 ==> self.reverse_deps@[p] == old(
                                self,
                            ).reverse_deps@[p]);
                    }
                }
            },
        }
    }
}

/// The effect of storing one record: the record replaces whatever sat
/// under its name and version; every other key is untouched.
pub open spec fn spec_insert_record(
    m: Map<Seq<char>, Map<Seq<char>, Krate>>,
    k: Krate,
) -> Map<Seq<char>, Map<Seq<char>, Krate>> {
    let inner = if m.contains_key(k.name@) {
        m[k.name@]
    } else {
        Map::<Seq<char>, Krate>::empty()
    };
    m.insert(k.name@, inner.insert(k.vers@, k))
}

/// The effect of recording one dependent under one target name.
pub open spec fn spec_rd_add(
    m: Map<Seq<char>, Set<Seq<char>>>,
    t: Seq<char>,
    a: Seq<char>,
) -> Map<Seq<char>, Set<Seq<char>>> {
    let s = if m.contains_key(t) {
        m[t]
    } else {
        Set::<Seq<char>>::empty()
    };
    m.insert(t, s.insert(a))
}

fn find_vers(versions: &Vec<Krate>, vers: &String) -> (r: Option<usize>)
    ensures
        match r {
            Some(j) => j < versions@.len() && versions@[j as int].vers@ == vers@,
            None => forall|q: int|
                0 <= q < versions@.len() ==> (#[trigger] versions@[q]).vers@ != vers@,
        },
{
    let n = versions.len();
    let mut j: usize = 0;
    while j < n
        invariant
            n == versions@.len(),
            0 <= j <= n,
            forall|q: int| 0 <= q < j ==> (#[trigger] versions@[q]).vers@ != vers@,
        decreases n - j,
    {
        if versions[j].vers == *vers {
            return Some(j);
        }
        j += 1;
    }
    None
}

} // verus!
