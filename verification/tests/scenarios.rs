use ecoindex::builder::build_index;
use ecoindex::closure::compute_closure;
use ecoindex::model::{Dependency, Kind, Krate};
use ecoindex::names::NameSet;
use ecoindex::report::{count_in_closure, direct_dependencies, rank_by_in_closure_reverse_deps};

fn dep(name: &str, package: Option<&str>, kind: Option<Kind>) -> Dependency {
    Dependency {
        name: name.to_string(),
        req: "*".to_string(),
        features: Vec::new(),
        optional: false,
        default_features: true,
        package: package.map(|p| p.to_string()),
        kind,
    }
}

fn krate(name: &str, vers: &str, deps: Vec<Dependency>) -> Krate {
    Krate {
        name: name.to_string(),
        vers: vers.to_string(),
        deps,
        cksum: String::new(),
        features: Vec::new(),
        yanked: false,
    }
}

fn seed(names: &[&str]) -> Vec<String> {
    names.iter().map(|n| n.to_string()).collect()
}

fn set_names(s: &NameSet, names: &[&str]) -> bool {
    if s.len() != names.len() {
        return false;
    }
    names.iter().all(|n| s.contains(&n.to_string()))
}

#[test]
fn scenario_a_upward_then_fixed_point() {
    // A depends on B (Normal); seed {B} pulls A upward, then the
    // downward pass finds nothing new: closure = {A, B}.
    let records = vec![
        krate("A", "1.0.0", vec![dep("B", None, Some(Kind::Normal))]),
        krate("B", "1.0.0", vec![]),
    ];
    let db = build_index(records);
    let rd_a = db.rd_get(&"A".to_string()).expect("A has an entry");
    assert_eq!(rd_a.len(), 0);
    let rd_b = db.rd_get(&"B".to_string()).expect("B has an entry");
    assert!(rd_b.contains(&"A".to_string()));
    assert_eq!(rd_b.len(), 1);

    let closure = compute_closure(&db, &seed(&["B"]));
    assert!(set_names(&closure, &["A", "B"]));
}

#[test]
fn scenario_b_rename_uses_target() {
    // A declares required_name "pkg-old" renamed to "pkg-new": only the
    // rename target gains a reverse-dependency entry.
    let records = vec![krate(
        "A",
        "1.0.0",
        vec![dep("pkg-old", Some("pkg-new"), None)],
    )];
    let db = build_index(records);
    let rd_new = db.rd_get(&"pkg-new".to_string()).expect("pkg-new is indexed");
    assert!(rd_new.contains(&"A".to_string()));
    assert_eq!(rd_new.len(), 1);
    assert!(db.rd_get(&"pkg-old".to_string()).is_none());
}

#[test]
fn scenario_c_dangling_dependency() {
    // A depends on "ghost", which no record publishes: the closure
    // seeded at A still includes "ghost" and nothing crashes.
    let records = vec![krate("A", "1.0.0", vec![dep("ghost", None, None)])];
    let db = build_index(records);
    let closure = compute_closure(&db, &seed(&["A"]));
    assert!(set_names(&closure, &["A", "ghost"]));
}

#[test]
fn scenario_d_kind_exclusion_single_entry() {
    // A depends on B twice, once Normal and once Dev: B's dependents
    // hold A exactly once, driven solely by the Normal edge.
    let records = vec![
        krate(
            "A",
            "1.0.0",
            vec![
                dep("B", None, Some(Kind::Normal)),
                dep("B", None, Some(Kind::Dev)),
            ],
        ),
        krate("B", "1.0.0", vec![]),
    ];
    let db = build_index(records);
    let rd_b = db.rd_get(&"B".to_string()).expect("B has an entry");
    assert!(rd_b.contains(&"A".to_string()));
    assert_eq!(rd_b.len(), 1);
}

#[test]
fn dev_and_build_edges_are_ignored() {
    // Only Dev and Build edges point at C: C gains no dependents and
    // never enters the closure from A's side.
    let records = vec![
        krate(
            "A",
            "1.0.0",
            vec![
                dep("C", None, Some(Kind::Dev)),
                dep("C", None, Some(Kind::Build)),
            ],
        ),
        krate("C", "1.0.0", vec![]),
    ];
    let db = build_index(records);
    let rd_c = db.rd_get(&"C".to_string()).expect("C is a package");
    assert_eq!(rd_c.len(), 0);
    let closure = compute_closure(&db, &seed(&["A"]));
    assert!(set_names(&closure, &["A"]));
}

#[test]
fn absent_kind_counts_as_normal() {
    let records = vec![
        krate("A", "1.0.0", vec![dep("B", None, None)]),
        krate("B", "1.0.0", vec![]),
    ];
    let db = build_index(records);
    let rd_b = db.rd_get(&"B".to_string()).expect("B has an entry");
    assert!(rd_b.contains(&"A".to_string()));
}

#[test]
fn rename_target_enters_closure() {
    // Downward expansion follows the effective name, never the alias.
    let records = vec![krate(
        "A",
        "1.0.0",
        vec![dep("pkg-old", Some("pkg-new"), Some(Kind::Normal))],
    )];
    let db = build_index(records);
    let closure = compute_closure(&db, &seed(&["A"]));
    assert!(set_names(&closure, &["A", "pkg-new"]));
    assert!(!closure.contains(&"pkg-old".to_string()));
}

#[test]
fn reverse_index_spans_all_versions() {
    // Version 1 of A depends on B, version 2 on C: both targets record A.
    let records = vec![
        krate("A", "1.0.0", vec![dep("B", None, None)]),
        krate("A", "2.0.0", vec![dep("C", None, None)]),
    ];
    let db = build_index(records);
    assert!(db.rd_get(&"B".to_string()).unwrap().contains(&"A".to_string()));
    assert!(db.rd_get(&"C".to_string()).unwrap().contains(&"A".to_string()));
}

#[test]
fn duplicate_name_version_overwrites() {
    // Re-insertion with the same name and version replaces the record:
    // only the later record's dependency shows up.
    let records = vec![
        krate("A", "1.0.0", vec![dep("B", None, None)]),
        krate("A", "1.0.0", vec![dep("C", None, None)]),
        krate("B", "1.0.0", vec![]),
        krate("C", "1.0.0", vec![]),
    ];
    let db = build_index(records);
    let dd = direct_dependencies(&db, &"A".to_string());
    assert!(set_names(&dd, &["C"]));
    assert_eq!(db.rd_get(&"B".to_string()).unwrap().len(), 0);
    assert!(db.rd_get(&"C".to_string()).unwrap().contains(&"A".to_string()));
}

#[test]
fn seed_is_always_in_closure() {
    // A seed name the index has never seen still becomes a member.
    let records = vec![krate("A", "1.0.0", vec![])];
    let db = build_index(records);
    let closure = compute_closure(&db, &seed(&["nowhere"]));
    assert!(set_names(&closure, &["nowhere"]));
}

#[test]
fn empty_seed_gives_empty_closure() {
    let records = vec![krate("A", "1.0.0", vec![dep("B", None, None)])];
    let db = build_index(records);
    let closure = compute_closure(&db, &seed(&[]));
    assert_eq!(closure.len(), 0);
}

#[test]
fn closure_is_deterministic() {
    // Two runs over the same index and seed agree as sets.
    let records = vec![
        krate("A", "1.0.0", vec![dep("B", None, None)]),
        krate("B", "1.0.0", vec![dep("C", None, None)]),
        krate("C", "1.0.0", vec![]),
        krate("D", "1.0.0", vec![dep("B", None, None)]),
    ];
    let db = build_index(records);
    let c1 = compute_closure(&db, &seed(&["B"]));
    let c2 = compute_closure(&db, &seed(&["B"]));
    assert_eq!(c1.len(), c2.len());
    for name in ["A", "B", "C", "D"] {
        assert_eq!(c1.contains(&name.to_string()), c2.contains(&name.to_string()));
    }
    assert!(set_names(&c1, &["A", "B", "C", "D"]));
}

#[test]
fn two_phase_asymmetry() {
    // E depends on C. C is pulled in only by the downward phase, so
    // E (C's reverse dependent) is not spidered in afterwards.
    let records = vec![
        krate("A", "1.0.0", vec![dep("C", None, None)]),
        krate("C", "1.0.0", vec![]),
        krate("E", "1.0.0", vec![dep("C", None, None)]),
    ];
    let db = build_index(records);
    let closure = compute_closure(&db, &seed(&["A"]));
    assert!(set_names(&closure, &["A", "C"]));
    assert!(!closure.contains(&"E".to_string()));
}

#[test]
fn downward_expansion_reaches_fixed_point() {
    // A chain A -> B -> C -> D needs several passes.
    let records = vec![
        krate("A", "1.0.0", vec![dep("B", None, None)]),
        krate("B", "1.0.0", vec![dep("C", None, None)]),
        krate("C", "1.0.0", vec![dep("D", None, None)]),
        krate("D", "1.0.0", vec![]),
    ];
    let db = build_index(records);
    let closure = compute_closure(&db, &seed(&["A"]));
    assert!(set_names(&closure, &["A", "B", "C", "D"]));
}

#[test]
fn direct_dependencies_union_over_versions() {
    let records = vec![
        krate("A", "1.0.0", vec![dep("B", None, None), dep("X", None, Some(Kind::Dev))]),
        krate("A", "2.0.0", vec![dep("C", Some("c-real"), None)]),
    ];
    let db = build_index(records);
    let dd = direct_dependencies(&db, &"A".to_string());
    assert!(set_names(&dd, &["B", "c-real"]));
}

#[test]
fn direct_dependencies_of_missing_package_is_empty() {
    let records = vec![krate("A", "1.0.0", vec![])];
    let db = build_index(records);
    let dd = direct_dependencies(&db, &"nowhere".to_string());
    assert_eq!(dd.len(), 0);
}

#[test]
fn rank_counts_in_closure_dependents_only() {
    // B is depended on by A and D (both in closure) and by Z (outside
    // the closure): B counts 2. C counts 1 (only B). A, D count 0.
    let records = vec![
        krate("A", "1.0.0", vec![dep("B", None, None)]),
        krate("B", "1.0.0", vec![dep("C", None, None)]),
        krate("C", "1.0.0", vec![]),
        krate("D", "1.0.0", vec![dep("B", None, None)]),
        krate("Z", "1.0.0", vec![dep("B", None, Some(Kind::Dev))]),
    ];
    let db = build_index(records);
    let closure = compute_closure(&db, &seed(&["B"]));
    assert!(set_names(&closure, &["A", "B", "C", "D"]));

    let ranking = rank_by_in_closure_reverse_deps(&db, &closure);
    assert_eq!(ranking.len(), 4);
    // Largest first, counts weakly decreasing.
    for w in ranking.windows(2) {
        assert!(w[0].0 >= w[1].0);
    }
    assert_eq!(ranking[0], (2, "B".to_string()));
    assert_eq!(ranking[1], (1, "C".to_string()));
    assert_eq!(ranking[2].0, 0);
    assert_eq!(ranking[3].0, 0);
    let zero_names: Vec<&str> = ranking[2..].iter().map(|p| p.1.as_str()).collect();
    assert!(zero_names.contains(&"A"));
    assert!(zero_names.contains(&"D"));
}

#[test]
fn count_is_zero_for_name_without_entry() {
    // A closure member with no reverse-index entry counts zero instead
    // of crashing the ranking.
    let records = vec![krate("A", "1.0.0", vec![])];
    let db = build_index(records);
    let closure = compute_closure(&db, &seed(&["nowhere"]));
    assert_eq!(count_in_closure(&db, &closure, &"nowhere".to_string()), 0);
    let ranking = rank_by_in_closure_reverse_deps(&db, &closure);
    assert_eq!(ranking, vec![(0, "nowhere".to_string())]);
}

#[test]
fn closure_with_cycle_terminates() {
    let records = vec![
        krate("A", "1.0.0", vec![dep("B", None, None)]),
        krate("B", "1.0.0", vec![dep("A", None, None)]),
    ];
    let db = build_index(records);
    let closure = compute_closure(&db, &seed(&["A"]));
    assert!(set_names(&closure, &["A", "B"]));
}
