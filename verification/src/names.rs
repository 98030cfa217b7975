//! A set of package names, stored as a duplicate-free vector of strings
//! and viewed as a `Set<Seq<char>>`.

use vstd::prelude::*;

verus! {

/// The sequence of character-sequence views of a sequence of strings.
pub open spec fn views_of(s: Seq<String>) -> Seq<Seq<char>> {
    s.map_values(|n: String| n@)
}

/// A finite set of package names.
pub struct NameSet {
    pub names: Vec<String>,
}

impl View for NameSet {
    type V = Set<Seq<char>>;

    open spec fn view(&self) -> Set<Seq<char>> {
        views_of(self.names@).to_set()
    }
}

impl NameSet {
    /// The member names in their insertion order.
    pub open spec fn seq(&self) -> Seq<Seq<char>> {
        views_of(self.names@)
    }

    /// No name is stored twice.
    pub open spec fn wf(&self) -> bool {
        self.seq().no_duplicates()
    }

    pub fn new() -> (r: NameSet)
        ensures
            r@ == Set::<Seq<char>>::empty(),
            r.wf(),
    {
        let r = NameSet { names: Vec::new() };
        proof {
            assert(r@ =~= Set::<Seq<char>>::empty());
        }
        r
    }

    pub fn contains(&self, name: &String) -> (r: bool)
        ensures
            r == self@.contains(name@),
    {
        let n = self.names.len();
        let mut i: usize = 0;
        while i < n
            invariant
                n == self.names@.len(),
                0 <= i <= n,
                forall|j: int| 0 <= j < i ==> self.names@[j]@ != name@,
            decreases n - i,
        {
            if self.names[i] == *name {
                assert(self.seq()[i as int] == name@);
                assert(self.seq().contains(name@));
                return true;
            }
            i += 1;
        }
        assert(forall|j: int| 0 <= j < self.seq().len() ==> self.seq()[j] != name@);
        assert(!self.seq().contains(name@));
        false
    }

    pub fn insert(&mut self, name: String)
        requires
            old(self).wf(),
        ensures
            final(self).wf(),
            final(self)@ == old(self)@.insert(name@),
            final(self).seq() == if old(self)@.contains(name@) {
                old(self).seq()
            } else {
                old(self).seq().push(name@)
            },
    {
        if !self.contains(&name) {
            proof {
                assert(views_of(self.names@.push(name)) =~= self.seq().push(name@));
                assert(!self.seq().contains(name@));
                self.seq().lemma_push_to_set_commute(name@);
            }
            self.names.push(name);
        } else {
            proof {
                assert(self@.insert(name@) =~= self@);
            }
        }
    }

    /// The number of member names.
    pub fn len(&self) -> (r: usize)
        requires
            self.wf(),
        ensures
            r == self@.len(),
            r == self.seq().len(),
    {
        proof {
            self.seq().unique_seq_to_set();
        }
        self.names.len()
    }

    /// The `i`th member name, in insertion order.
    pub fn name_at(&self, i: usize) -> (r: &String)
        requires
            i < self.seq().len(),
        ensures
            r@ == self.seq()[i as int],
            self@.contains(r@),
    {
        proof {
            assert(self.seq().contains(self.seq()[i as int]));
        }
        &self.names[i]
    }

    /// The member names copied out as a vector, in insertion order.
    pub fn to_names(&self) -> (r: Vec<String>)
        ensures
            views_of(r@) == self.seq(),
    {
        let n = self.names.len();
        let mut r: Vec<String> = Vec::new();
        let mut i: usize = 0;
        while i < n
            invariant
                n == self.names@.len(),
                0 <= i <= n,
                views_of(r@) =~= self.seq().take(i as int),
            decreases n - i,
        {
            let name = self.names[i].clone();
            proof {
                assert(views_of(r@.push(name)) =~= views_of(r@).push(name@));
                assert(self.seq().take(i + 1) =~= self.seq().take(i as int).push(
                    self.seq()[i as int],
                ));
            }
            r.push(name);
            i += 1;
        }
        proof {
            assert(self.seq().take(n as int) =~= self.seq());
        }
        r
    }
}

} // verus!
