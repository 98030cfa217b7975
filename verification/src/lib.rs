//! A package-registry dependency indexer.
//!
//! The library ingests decoded package-version records, builds a forward
//! index (package name -> version -> record) and a reverse-dependency
//! index (package name -> set of dependent package names), and computes
//! the closure of a seed set of packages under a bidirectional
//! reachability rule: everything that transitively depends on a seed
//! member, together with everything the growing set transitively
//! depends on.

pub mod assoc;
pub mod builder;
pub mod closure;
pub mod database;
pub mod model;
pub mod names;
pub mod report;
