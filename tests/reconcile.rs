use giddy::reconcile::{Branch, Mark, Rebase, Snapshot, Status, UpdateError};
use giddy::state::BranchState;
use indexmap::IndexSet;

fn s(x: &str) -> String {
    x.to_string()
}

fn state(deps: &[&str], base: Option<&str>) -> BranchState {
    BranchState {
        deps: deps.iter().map(|d| s(d)).collect(),
        pr: None,
        base: base.map(s),
        dirty: true,
    }
}

fn list(d: &IndexSet<String>) -> Vec<String> {
    d.iter().cloned().collect()
}

fn snap(dep_head: &str, fork: Option<&str>, head: &str, contains: bool, merged: bool) -> Snapshot {
    Snapshot {
        dep_head: s(dep_head),
        fork_point: fork.map(s),
        head: s(head),
        dep_contains: contains,
        merged,
    }
}

fn rebase_of(r: &Option<Rebase>) -> Option<(String, String)> {
    r.as_ref().map(|r| (r.upstream.clone(), r.onto.clone()))
}

#[test]
fn default_dependency_is_implicit() {
    let main = s("main");
    let b = Branch::new(s("feat"), &main, None);
    assert_eq!(b.deps(&main), vec![s("main")]);
    assert_eq!(b.state.base, Some(s("main")));
    let m = Branch::new(s("main"), &main, None);
    assert!(m.deps(&main).is_empty());
    assert_eq!(m.state.base, None);
    let c = Branch::new(s("feat"), &main, Some(state(&["x"], Some("x"))));
    assert_eq!(c.deps(&main), vec![s("x")]);
    assert_eq!(c.state.base, Some(s("x")));
}

#[test]
fn only_default_deps_cases() {
    let main = s("main");
    assert!(Branch::new(s("f"), &main, None).only_default_deps(&main));
    assert!(Branch::new(s("f"), &main, Some(state(&["main"], None))).only_default_deps(&main));
    assert!(!Branch::new(s("f"), &main, Some(state(&["x"], None))).only_default_deps(&main));
    assert!(!Branch::new(s("f"), &main, Some(state(&["main", "x"], None))).only_default_deps(&main));
}

#[test]
fn default_branch_needs_nothing() {
    let main = s("main");
    let mut b = Branch::new(s("main"), &main, None);
    let p = b.update(&main, &snap("h", None, "h", false, false));
    assert!(matches!(p.outcome, Ok(Status::NoDependency)));
    assert!(p.save_pruned.is_none() && p.rebase.is_none() && !p.save_after);
}

#[test]
fn fork_point_at_dep_head_is_up_to_date() {
    let main = s("main");
    let mut b = Branch::new(s("feat"), &main, Some(state(&["base"], Some("base"))));
    let p = b.update(&main, &snap("F", Some("F"), "h", false, false));
    assert!(matches!(p.outcome, Ok(Status::UpToDate)));
    assert!(p.rebase.is_none());
}

#[test]
fn fork_point_behind_dep_head_rebases() {
    let main = s("main");
    let mut b = Branch::new(s("feat"), &main, Some(state(&["base"], Some("base"))));
    let p = b.update(&main, &snap("H2", Some("F"), "h", false, false));
    assert!(matches!(p.outcome, Ok(Status::Rebased)));
    assert_eq!(rebase_of(&p.rebase), Some((s("F"), s("base"))));
    assert!(!p.save_after);
    assert_eq!(b.state.base, Some(s("base")));
}

#[test]
fn no_fork_point_fallbacks() {
    let main = s("main");
    for sn in [
        snap("H", None, "H", false, false),
        snap("H", None, "x", true, false),
        snap("H", None, "x", false, true),
    ] {
        let mut b = Branch::new(s("feat"), &main, None);
        let p = b.update(&main, &sn);
        assert!(matches!(p.outcome, Ok(Status::UpToDate)));
        assert!(p.rebase.is_none());
    }
    let mut b = Branch::new(s("feat"), &main, None);
    let p = b.update(&main, &snap("H", None, "x", false, false));
    match p.outcome {
        Err(UpdateError::UnresolvableForkPoint { branch, dep }) => {
            assert_eq!(branch, "feat");
            assert_eq!(dep, "main");
        }
        other => panic!("unexpected {:?}", other),
    }
    assert!(p.rebase.is_none());
}

#[test]
fn changed_base_moves_the_branch_first() {
    let main = s("main");
    let mut b = Branch::new(s("feat"), &main, Some(state(&["new"], Some("old"))));
    let p = b.update(&main, &snap("F", Some("F"), "h", false, false));
    assert!(matches!(p.outcome, Ok(Status::Retargeted)));
    assert_eq!(rebase_of(&p.rebase), Some((s("old"), s("new"))));
    assert!(p.save_after);
    assert_eq!(b.state.base, Some(s("new")));
    assert!(!b.state.dirty);
}

#[test]
fn second_run_without_drift_does_nothing() {
    let main = s("main");
    let mut b = Branch::new(s("feat"), &main, Some(state(&["main", "x"], Some("x"))));
    let sn = snap("F", Some("F"), "h", false, false);
    let p1 = b.update(&main, &sn);
    assert!(matches!(p1.outcome, Ok(Status::UpToDate)));
    assert!(p1.save_pruned.is_some());
    let p2 = b.update(&main, &sn);
    assert!(matches!(p2.outcome, Ok(Status::UpToDate)));
    assert!(p2.save_pruned.is_none() && p2.rebase.is_none() && !p2.save_after);
    assert_eq!(list(&b.state.deps), vec![s("x")]);
}

#[test]
fn default_is_pruned_from_two_deps() {
    let main = s("main");
    let mut b = Branch::new(s("feat"), &main, Some(state(&["main", "x"], Some("x"))));
    let p = b.update(&main, &snap("H", Some("F"), "h", false, false));
    assert_eq!(list(&b.state.deps), vec![s("x")]);
    assert_eq!(list(&p.save_pruned.unwrap().deps), vec![s("x")]);
    assert_eq!(rebase_of(&p.rebase), Some((s("F"), s("x"))));
}

#[test]
fn two_real_deps_are_refused() {
    let main = s("main");
    let mut b = Branch::new(s("feat"), &main, Some(state(&["main", "x", "y"], None)));
    let p = b.update(&main, &snap("H", Some("F"), "h", false, false));
    match p.outcome {
        Err(UpdateError::MultipleDependencies { branch }) => assert_eq!(branch, "feat"),
        other => panic!("unexpected {:?}", other),
    }
    assert_eq!(list(&b.state.deps), vec![s("x"), s("y")]);
    assert!(p.save_pruned.is_some());
    assert!(p.rebase.is_none());
    let mut c = Branch::new(s("feat"), &main, Some(state(&["x", "y"], None)));
    let q = c.update(&main, &snap("H", Some("F"), "h", false, false));
    assert!(matches!(q.outcome, Err(UpdateError::MultipleDependencies { .. })));
    assert!(q.save_pruned.is_none());
}

#[test]
fn snapshot_sync_rule() {
    assert!(snap("F", Some("F"), "x", false, false).up_to_date());
    assert!(!snap("G", Some("F"), "G", true, true).up_to_date());
    assert!(snap("G", None, "G", false, false).up_to_date());
    assert!(!snap("G", None, "x", false, false).up_to_date());
}

#[test]
fn needs_update_over_effective_deps() {
    let main = s("main");
    // no recorded dependency: the default branch counts, and it moved on
    let b = Branch::new(s("f"), &main, None);
    assert!(b.needs_update(&main, &vec![snap("H2", Some("F"), "h", false, false)]));
    assert!(!b.needs_update(&main, &vec![snap("F", Some("F"), "h", false, false)]));
    // no fork point, but in sync by each of the three fallbacks
    assert!(!b.needs_update(&main, &vec![snap("H", None, "H", false, false)]));
    assert!(!b.needs_update(&main, &vec![snap("H", None, "x", true, false)]));
    assert!(!b.needs_update(&main, &vec![snap("H", None, "x", false, true)]));
    assert!(b.needs_update(&main, &vec![snap("H", None, "x", false, false)]));
    // two recorded dependencies
    let c = Branch::new(s("f"), &main, Some(state(&["a", "b"], None)));
    let ok = snap("1", Some("1"), "h", false, false);
    assert!(!c.needs_update(&main, &vec![snap("1", Some("1"), "h", false, false), ok]));
    assert!(c.needs_update(&main, &vec![
        snap("1", Some("1"), "h", false, false),
        snap("3", Some("2"), "h", false, false),
    ]));
    // the default branch has nothing to check
    let m = Branch::new(s("main"), &main, None);
    assert!(!m.needs_update(&main, &Vec::new()));
}

#[test]
fn marks_by_priority() {
    let b = Branch::new(s("f"), &s("main"), Some(state(&[], None)));
    assert_eq!(b.mark(true, true), Mark::Merged);
    assert_eq!(b.mark(false, true), Mark::Equal);
    assert_eq!(b.mark(false, false), Mark::Dirty);
    let c = Branch::new(s("f"), &s("main"), None);
    assert_eq!(c.mark(false, false), Mark::Clean);
}

#[test]
fn duplicate_keeps_fields() {
    let st = BranchState { deps: IndexSet::from([s("a")]), pr: Some(7), base: Some(s("b")), dirty: true };
    let d = st.duplicate();
    assert_eq!(list(&d.deps), vec![s("a")]);
    assert_eq!(d.pr, Some(7));
    assert_eq!(d.base, st.base);
    assert!(d.dirty);
    let e = BranchState::empty();
    assert!(e.deps.is_empty() && e.pr.is_none() && e.base.is_none() && !e.dirty);
}

#[test]
fn record_file_names_escape_slashes() {
    assert_eq!(giddy::state::record_file_name("team/topic/x"), "team__topic__x");
    assert_eq!(giddy::state::record_file_name("plain"), "plain");
    assert_eq!(giddy::state::record_file_name(""), "");
}
