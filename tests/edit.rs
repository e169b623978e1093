use giddy::edit::{add_dependencies, remove_dependencies};
use giddy::graph::{GraphError, GraphRepo};
use giddy::reconcile::Branch;
use giddy::state::BranchState;
use indexmap::IndexSet;

fn s(x: &str) -> String {
    x.to_string()
}

fn graph(names: &[&str]) -> GraphRepo {
    GraphRepo::new(&names.iter().map(|n| (s(n), Vec::new())).collect()).unwrap().0
}

#[test]
fn adding_dependencies_records_and_links_them() {
    let mut g = graph(&["main", "a", "b", "f"]);
    let mut b = Branch::new(s("f"), &s("main"), Some(BranchState {
        deps: IndexSet::from([s("a")]),
        pr: None,
        base: None,
        dirty: false,
    }));
    let already = add_dependencies(&mut b, &mut g, &vec![s("a"), s("b"), s("b")]).unwrap();
    assert_eq!(already, vec![s("a")]);
    assert_eq!(b.state.deps.iter().cloned().collect::<Vec<_>>(), vec![s("a"), s("b")]);
    assert_eq!(g.get_dependencies(&s("f")).unwrap().contains(&s("b")), true);
}

#[test]
fn adding_a_cyclic_dependency_fails() {
    let mut g = graph(&["main", "a", "f"]);
    g.try_add_dep(&s("a"), &s("f")).unwrap();
    let mut b = Branch::new(s("f"), &s("main"), None);
    let r = add_dependencies(&mut b, &mut g, &vec![s("a")]);
    assert!(matches!(r, Err(GraphError::WouldCreateCycle { .. })));
    assert!(b.state.deps.is_empty());
    let r = add_dependencies(&mut b, &mut g, &vec![s("nope")]);
    assert!(matches!(r, Err(GraphError::UnknownBranch { .. })));
}

#[test]
fn removing_dependencies_reports_absent_ones() {
    let mut st = BranchState {
        deps: IndexSet::from([s("a"), s("b"), s("c")]),
        pr: Some(1),
        base: None,
        dirty: false,
    };
    let missing = remove_dependencies(&mut st, &vec![s("b"), s("x"), s("b")]);
    assert_eq!(st.deps.iter().cloned().collect::<Vec<_>>(), vec![s("a"), s("c")]);
    assert_eq!(missing, vec![s("x"), s("b")]);
    assert_eq!(st.pr, Some(1));
}

#[test]
fn added_dependencies_follow_in_order_once() {
    let mut g = graph(&["main", "a", "b", "c", "f"]);
    let mut b = Branch::new(s("f"), &s("main"), Some(BranchState {
        deps: IndexSet::from([s("b")]),
        pr: None,
        base: None,
        dirty: false,
    }));
    add_dependencies(&mut b, &mut g, &vec![s("c"), s("b"), s("a"), s("c")]).unwrap();
    assert_eq!(b.state.deps.iter().cloned().collect::<Vec<_>>(), vec![s("b"), s("c"), s("a")]);
}

#[test]
fn removal_keeps_the_order_of_the_rest() {
    let mut st = BranchState {
        deps: IndexSet::from([s("d"), s("a"), s("c"), s("b")]),
        pr: None,
        base: None,
        dirty: false,
    };
    remove_dependencies(&mut st, &vec![s("a"), s("z")]);
    assert_eq!(st.deps.iter().cloned().collect::<Vec<_>>(), vec![s("d"), s("c"), s("b")]);
}
