//! The shape of one package-version record and its dependency entries.

use vstd::prelude::*;

verus! {

/// The kind of a dependency declaration. Only `Normal` dependencies
/// participate in reverse indexing and closure computation.
#[derive(Clone, Copy, Debug, PartialEq, Eq, Structural)]
pub enum Kind {
    Normal,
    Build,
    Dev,
}

/// One dependency declaration inside a record.
pub struct Dependency {
    /// The name as written in the depending package's manifest.
    pub name: String,
    /// The version requirement, carried through unused.
    pub req: String,
    /// Activated features, carried through unused.
    pub features: Vec<String>,
    pub optional: bool,
    pub default_features: bool,
    /// If present, the actual registry identity of the dependency;
    /// `name` is then only a local alias.
    pub package: Option<String>,
    /// Absence is treated as `Normal`.
    pub kind: Option<Kind>,
}

/// One published version of one package, as decoded from the registry dump.
pub struct Krate {
    pub name: String,
    pub vers: String,
    pub deps: Vec<Dependency>,
    /// Checksum, carried through unused.
    pub cksum: String,
    /// Feature map, carried through unused.
    pub features: Vec<(String, Vec<String>)>,
    pub yanked: bool,
}

/// The true identity of a dependency: the rename target if one is
/// declared, else the name written in the manifest.
pub open spec fn spec_effective_name(d: Dependency) -> Seq<char> {
    match d.package {
        Some(p) => p@,
        None => d.name@,
    }
}

/// Whether the edge counts for indexing and closure: an absent kind is
/// treated as `Normal`.
pub open spec fn spec_is_normal(d: Dependency) -> bool {
    match d.kind {
        Some(k) => k == Kind::Normal,
        None => true,
    }
}

/// Whether some Normal-kind edge of this record has effective name `t`.
pub open spec fn krate_depends_on(k: Krate, t: Seq<char>) -> bool {
    exists|i: int|
        0 <= i < k.deps@.len() && spec_is_normal(#[trigger] k.deps@[i])
            && spec_effective_name(k.deps@[i]) == t
}

pub fn effective_name(d: &Dependency) -> (r: &String)
    ensures
        r@ == spec_effective_name(*d),
{
    match &d.package {
        Some(p) => p,
        None => &d.name,
    }
}

pub fn is_normal(d: &Dependency) -> (r: bool)
    ensures
        r == spec_is_normal(*d),
{
    match &d.kind {
        Some(k) => *k == Kind::Normal,
        None => true,
    }
}

/// Effective-name resolution: a declared rename target decides the
/// dependency's identity; the manifest-local name never does.
pub proof fn lemma_effective_name_rename(d: Dependency, p: String)
    requires
        d.package == Some(p),
    ensures
        spec_effective_name(d) == p@,
{
}

/// Effective-name resolution without a rename: the manifest name stands.
pub proof fn lemma_effective_name_plain(d: Dependency)
    requires
        d.package is None,
    ensures
        spec_effective_name(d) == d.name@,
{
}

/// Kind filtering: if every edge of a record that points at `t` is of
/// `Build` or `Dev` kind, the record does not depend on `t` at all, so
/// such edges contribute neither a reverse-dependency entry nor a
/// downward closure expansion.
pub proof fn lemma_kind_filtering(k: Krate, t: Seq<char>)
    requires
        forall|i: int|
            0 <= i < k.deps@.len() && spec_effective_name(#[trigger] k.deps@[i]) == t
                ==> (k.deps@[i].kind == Some(Kind::Build) || k.deps@[i].kind == Some(Kind::Dev)),
    ensures
        !krate_depends_on(k, t),
{
}

} // verus!
