use giddy::graph::{GraphError, GraphRepo};

fn s(x: &str) -> String {
    x.to_string()
}

fn branches(list: &[(&str, &[&str])]) -> Vec<(String, Vec<String>)> {
    list.iter()
        .map(|(n, ds)| (s(n), ds.iter().map(|d| s(d)).collect()))
        .collect()
}

fn sorted(mut v: Vec<String>) -> Vec<String> {
    v.sort();
    v
}

#[test]
fn third_edge_of_a_ring_is_refused() {
    let (mut g, missing) = GraphRepo::new(&branches(&[("A", &[]), ("B", &[]), ("C", &[])])).unwrap();
    assert!(missing.is_empty());
    assert!(g.try_add_dep(&s("A"), &s("B")).is_ok());
    assert!(g.try_add_dep(&s("B"), &s("C")).is_ok());
    match g.try_add_dep(&s("C"), &s("A")) {
        Err(GraphError::WouldCreateCycle { branch, dep }) => {
            assert_eq!(branch, "C");
            assert_eq!(dep, "A");
        }
        other => panic!("unexpected {:?}", other),
    }
    assert!(g.get_dependencies(&s("C")).unwrap().is_empty());
    assert_eq!(g.get_dependencies(&s("A")).unwrap(), vec![s("B")]);
}

#[test]
fn self_dependency_is_refused() {
    let (mut g, _) = GraphRepo::new(&branches(&[("A", &[])])).unwrap();
    assert!(matches!(
        g.try_add_dep(&s("A"), &s("A")),
        Err(GraphError::WouldCreateCycle { .. })
    ));
    assert!(g.get_dependencies(&s("A")).unwrap().is_empty());
}

#[test]
fn unknown_branches_are_reported() {
    let (mut g, _) = GraphRepo::new(&branches(&[("A", &[])])).unwrap();
    match g.try_add_dep(&s("A"), &s("Z")) {
        Err(GraphError::UnknownBranch { branch }) => assert_eq!(branch, "Z"),
        other => panic!("unexpected {:?}", other),
    }
    match g.try_add_dep(&s("Y"), &s("A")) {
        Err(GraphError::UnknownBranch { branch }) => assert_eq!(branch, "Y"),
        other => panic!("unexpected {:?}", other),
    }
    assert!(matches!(
        g.get_dependencies(&s("Q")),
        Err(GraphError::UnknownBranch { .. })
    ));
    assert!(matches!(g.get_dependents(&s("Q")), Err(GraphError::UnknownBranch { .. })));
    assert!(matches!(g.update_order(&s("Q")), Err(GraphError::UnknownBranch { .. })));
    assert_eq!(g.branch_id(&s("A")).unwrap(), 0);
}

#[test]
fn stale_dependency_is_set_aside() {
    let (g, missing) =
        GraphRepo::new(&branches(&[("main", &[]), ("feat", &["main", "gone"])])).unwrap();
    assert_eq!(missing, vec![(s("feat"), s("gone"))]);
    assert_eq!(g.get_dependencies(&s("feat")).unwrap(), vec![s("main")]);
    assert_eq!(g.get_dependents(&s("main")).unwrap(), vec![s("feat")]);
}

#[test]
fn declared_cycle_fails_the_build() {
    let r = GraphRepo::new(&branches(&[("A", &["B"]), ("B", &["A"])]));
    assert!(matches!(r, Err(GraphError::WouldCreateCycle { .. })));
}

#[test]
fn neighbours_in_both_directions() {
    let (g, _) = GraphRepo::new(&branches(&[
        ("main", &[]),
        ("a", &["main"]),
        ("b", &["main"]),
        ("c", &["a", "b"]),
    ]))
    .unwrap();
    assert_eq!(sorted(g.get_dependencies(&s("c")).unwrap()), vec![s("a"), s("b")]);
    assert_eq!(sorted(g.get_dependents(&s("main")).unwrap()), vec![s("a"), s("b")]);
    assert!(g.get_dependencies(&s("main")).unwrap().is_empty());
}

#[test]
fn chain_updates_from_the_bottom() {
    let (g, _) = GraphRepo::new(&branches(&[("A", &[]), ("B", &["A"]), ("C", &["B"])])).unwrap();
    assert_eq!(g.update_order(&s("C")).unwrap(), vec![s("A"), s("B"), s("C")]);
    assert_eq!(g.update_order(&s("B")).unwrap(), vec![s("A"), s("B")]);
    assert_eq!(g.update_order(&s("A")).unwrap(), vec![s("A")]);
}

#[test]
fn diamond_visits_each_branch_once() {
    let (g, _) = GraphRepo::new(&branches(&[
        ("main", &[]),
        ("a", &["main"]),
        ("b", &["main"]),
        ("c", &["a", "b"]),
    ]))
    .unwrap();
    let order = g.update_order(&s("c")).unwrap();
    assert_eq!(order.len(), 4);
    assert_eq!(order[0], "main");
    assert_eq!(order[3], "c");
    assert_eq!(sorted(order[1..3].to_vec()), vec![s("a"), s("b")]);
}

#[test]
fn reversed_turns_every_edge() {
    let (g, _) = GraphRepo::new(&branches(&[("A", &[]), ("B", &["A"]), ("C", &["B", "A"])])).unwrap();
    let r = g.reversed();
    assert_eq!(sorted(r.get_dependencies(&s("A")).unwrap()), vec![s("B"), s("C")]);
    assert_eq!(r.get_dependents(&s("A")).unwrap(), Vec::<String>::new());
    assert_eq!(r.get_dependencies(&s("B")).unwrap(), vec![s("C")]);
    assert_eq!(r.update_order(&s("A")).unwrap().last(), Some(&s("A")));
    assert_eq!(r.update_order(&s("A")).unwrap()[0], "C");
}

#[test]
fn edge_count_follows_additions() {
    let (mut g, _) = GraphRepo::new(&branches(&[("A", &[]), ("B", &["A"]), ("C", &[])])).unwrap();
    assert_eq!(g.edge_count(), 1);
    g.try_add_dep(&s("C"), &s("B")).unwrap();
    assert_eq!(g.edge_count(), 2);
    assert!(g.try_add_dep(&s("A"), &s("C")).is_err());
    assert_eq!(g.edge_count(), 2);
    assert_eq!(g.reversed().edge_count(), 2);
}

#[test]
fn reversed_keeps_parallel_edges() {
    let (mut g, _) = GraphRepo::new(&branches(&[("A", &[]), ("B", &["A"])])).unwrap();
    g.try_add_dep(&s("B"), &s("A")).unwrap();
    assert_eq!(g.edge_count(), 2);
    let r = g.reversed();
    assert_eq!(r.edge_count(), 2);
    assert!(r.get_dependencies(&s("A")).unwrap().iter().all(|d| d == "B"));
}
