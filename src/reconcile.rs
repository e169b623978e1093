//! Deciding what it takes to bring one branch back onto its dependency.
//!
//! The decision is a pure function of the branch's record and of a snapshot
//! of the repository's ancestry facts; the caller runs the planned saves and
//! rebase in order and stops at the first failure.
use vstd::prelude::*;

use crate::state::{lemma_without_contains, 
    effective_deps, names_at, names_clone, names_contains, names_len, names_shift_remove, remove_str,
    strs, without, BranchState,
};

verus! {

/// A branch together with its record.
#[derive(Debug)]
pub struct Branch {
    pub name: String,
    pub state: BranchState,
}

/// What the repository says about a branch and its sole dependency.
#[derive(Debug)]
pub struct Snapshot {
    /// The dependency's tip commit.
    pub dep_head: String,
    /// Where the branch forked off the dependency, if that can be found.
    pub fork_point: Option<String>,
    /// The branch's tip commit.
    pub head: String,
    /// The dependency's history contains the branch.
    pub dep_contains: bool,
    /// The branch has been merged into the dependency.
    pub merged: bool,
}

/// A rebase of the branch: the commits after `upstream` are replayed onto `onto`.
#[derive(Debug)]
pub struct Rebase {
    pub upstream: String,
    pub onto: String,
}

/// How a reconciliation that needed no help from the user ended.
#[derive(Debug, Clone, Copy, PartialEq, Eq, Structural)]
pub enum Status {
    /// The branch depends on nothing.
    NoDependency,
    /// The branch already sits on its dependency's tip.
    UpToDate,
    /// The branch is rebased from its fork point onto the dependency's tip.
    Rebased,
    /// The branch moves from its previous base onto a new dependency.
    Retargeted,
}

/// Why a reconciliation stopped short.
#[derive(Debug)]
pub enum UpdateError {
    /// More than one dependency remains once the default branch is pruned.
    MultipleDependencies { branch: String },
    /// No fork point is known and nothing shows the branch to be in sync.
    UnresolvableForkPoint { branch: String, dep: String },
}

/// How a branch's state is shown, the first that applies.
#[derive(Debug, Clone, Copy, PartialEq, Eq, Structural)]
pub enum Mark {
    /// Merged into its base.
    Merged,
    /// At the same commit as the default branch.
    Equal,
    /// Its last rebase is unconfirmed.
    Dirty,
    /// None of the above.
    Clean,
}

/// The steps of one reconciliation, to be run in field order.
#[derive(Debug)]
pub struct Plan {
    /// A record to persist first: the branch's dependencies without the default branch.
    pub save_pruned: Option<BranchState>,
    /// The rebase to run next.
    pub rebase: Option<Rebase>,
    /// Whether to persist the branch's new record once the rebase succeeded.
    pub save_after: bool,
    pub outcome: Result<Status, UpdateError>,
}

/// The default branch is dropped from a list of several dependencies when it is among them.
pub open spec fn prunes(name: Seq<char>, default: Seq<char>, deps: Seq<Seq<char>>) -> bool {
    effective_deps(name, default, deps).len() > 1 && deps.contains(default)
}

/// The dependencies that the reconciliation works with, once the default is pruned.
pub open spec fn active_deps(name: Seq<char>, default: Seq<char>, deps: Seq<Seq<char>>) -> Seq<
    Seq<char>,
> {
    let e = effective_deps(name, default, deps);
    if e.len() > 1 {
        without(e, default)
    } else {
        e
    }
}

/// The recorded dependencies after one reconciliation.
pub open spec fn kept_deps(name: Seq<char>, default: Seq<char>, deps: Seq<Seq<char>>) -> Seq<
    Seq<char>,
> {
    if prunes(name, default, deps) {
        without(deps, default)
    } else {
        deps
    }
}

/// The branch was last rebased onto something other than `dep`.
pub open spec fn retargets(base: Option<String>, dep: Seq<char>) -> bool {
    base matches Some(b) && b@ != dep
}

/// The snapshot shows the branch in sync with its dependency: it forked at the
/// dependency's tip, or, with no fork point known, it sits at that tip, is
/// contained in it or merged into it.
pub open spec fn in_sync(s: Snapshot) -> bool {
    match s.fork_point {
        Some(f) => f@ == s.dep_head@,
        None => s.head@ == s.dep_head@ || s.dep_contains || s.merged,
    }
}

/// `p` runs no rebase and persists nothing after it.
pub open spec fn quiet_tail(p: Plan) -> bool {
    p.rebase is None && !p.save_after
}

/// What one reconciliation of `b` against the snapshot `snap` does: `after` is
/// the branch with its new record and `p` the steps to run.
pub open spec fn reconciled(b: Branch, default: Seq<char>, snap: Snapshot, after: Branch, p: Plan) -> bool {
    let n = b.name@;
    let deps = b.state.dep_names();
    let act = active_deps(n, default, deps);
    &&& after.name == b.name
    &&& after.state.dep_names() == kept_deps(n, default, deps)
    &&& after.state.pr == b.state.pr
    &&& if prunes(n, default, deps) {
        p.save_pruned matches Some(s) && s.dep_names() == after.state.dep_names() && s.pr == b.state.pr
            && s.base == b.state.base && s.dirty == b.state.dirty
    } else {
        p.save_pruned is None
    }
    &&& if act.len() == 0 {
        &&& p.outcome == Ok::<Status, UpdateError>(Status::NoDependency)
        &&& quiet_tail(p)
        &&& after.state.base == b.state.base && after.state.dirty == b.state.dirty
    } else if act.len() > 1 {
        &&& p.outcome matches Err(UpdateError::MultipleDependencies { branch }) && branch@ == n
        &&& quiet_tail(p)
        &&& after.state.base == b.state.base && after.state.dirty == b.state.dirty
    } else if retargets(b.state.base, act[0]) {
        &&& p.outcome == Ok::<Status, UpdateError>(Status::Retargeted)
        &&& p.rebase matches Some(r) && r.upstream == b.state.base.unwrap() && r.onto@ == act[0]
        &&& p.save_after
        &&& after.state.base matches Some(nb) && nb@ == act[0]
        &&& !after.state.dirty
    } else {
        &&& after.state.base == b.state.base && after.state.dirty == b.state.dirty
        &&& !p.save_after
        &&& if in_sync(snap) {
            p.outcome == Ok::<Status, UpdateError>(Status::UpToDate) && p.rebase is None
        } else if snap.fork_point is Some {
            &&& p.outcome == Ok::<Status, UpdateError>(Status::Rebased)
            &&& p.rebase matches Some(r) && r.upstream == snap.fork_point.unwrap() && r.onto@
                == act[0]
        } else {
            &&& p.outcome matches Err(UpdateError::UnresolvableForkPoint { branch, dep })
                && branch@ == n && dep@ == act[0]
            &&& p.rebase is None
        }
    }
}

fn copy_opt(s: &Option<String>) -> (r: Option<String>)
    ensures
        r == *s,
{
    match s {
        Some(x) => Some(x.clone()),
        None => None,
    }
}

impl BranchState {
    /// A field-by-field copy.
    pub fn duplicate(&self) -> (r: BranchState)
        ensures
            r.dep_names() == self.dep_names(),
            r.pr == self.pr,
            r.base == self.base,
            r.dirty == self.dirty,
    {
        BranchState {
            deps: names_clone(&self.deps),
            pr: self.pr,
            base: copy_opt(&self.base),
            dirty: self.dirty,
        }
    }
}

impl Snapshot {
    /// Whether the branch needs no rebase onto its dependency.
    pub fn up_to_date(&self) -> (r: bool)
        ensures
            r == in_sync(*self),
    {
        match &self.fork_point {
            Some(f) => *f == self.dep_head,
            None => self.head == self.dep_head || self.dep_contains || self.merged,
        }
    }
}

impl Branch {
    /// The branch `name` with the record read for it, or a fresh one; a branch
    /// other than the default one with no recorded base has the default as base.
    pub fn new(name: String, default: &String, stored: Option<BranchState>) -> (r: Branch)
        ensures
            r.name == name,
            stored is None ==> r.state.dep_names().len() == 0 && r.state.pr is None && !r.state.dirty,
            stored matches Some(s) ==> r.state.dep_names() == s.dep_names() && r.state.pr == s.pr
                && r.state.dirty == s.dirty,
            r.state.base == (match stored {
                Some(s) if s.base is Some => s.base,
                _ => if name@ == default@ {
                    None
                } else {
                    Some(*default)
                },
            }),
    {
        let mut state = match stored {
            Some(s) => s,
            None => BranchState::empty(),
        };
        if state.base.is_none() && name != *default {
            state.base = Some(default.clone());
        }
        Branch { name, state }
    }

    pub fn name(&self) -> (r: &String)
        ensures
            r == &self.name,
    {
        &self.name
    }

    /// The branch's dependencies with the default dependency filled in.
    pub fn deps(&self, default: &String) -> (r: Vec<String>)
        ensures
            strs(r@) == effective_deps(self.name@, default@, self.state.dep_names()),
    {
        if names_len(&self.state.deps) == 0 {
            if self.name == *default {
                Vec::new()
            } else {
                let mut v: Vec<String> = Vec::new();
                v.push(default.clone());
                assert(strs(v@) =~= seq![default@]);
                v
            }
        } else {
            self.state.dep_list()
        }
    }

    /// The branch names no dependency other than the default branch.
    pub fn only_default_deps(&self, default: &String) -> (r: bool)
        ensures
            r == (self.state.dep_names().len() == 0 || (self.state.dep_names().len() == 1
                && self.state.dep_names()[0] == default@)),
    {
        let n = names_len(&self.state.deps);
        n == 0 || (n == 1 && *names_at(&self.state.deps, 0) == *default)
    }

    /// The one dependency a reconciliation works against, once the default
    /// branch is pruned from several; none when there are none or several.
    pub fn active_dependency(&self, default: &String) -> (r: Option<String>)
        ensures
            active_deps(self.name@, default@, self.state.dep_names()).len() == 1 <==> r is Some,
            r matches Some(d) ==> d@ == active_deps(self.name@, default@, self.state.dep_names())[0],
    {
        let deps = self.deps(default);
        let active = if deps.len() > 1 {
            remove_str(&deps, default)
        } else {
            deps
        };
        if active.len() == 1 {
            let d = active[0].clone();
            assert(d@ == strs(active@)[0]);
            Some(d)
        } else {
            None
        }
    }

    /// Whether the branch needs a rebase onto any of its dependencies, the
    /// default one included when none is recorded; `snaps[i]` is what the
    /// repository says about the branch and its `i`-th dependency.
    pub fn needs_update(&self, default: &String, snaps: &Vec<Snapshot>) -> (r: bool)
        requires
            snaps@.len() == effective_deps(self.name@, default@, self.state.dep_names()).len(),
        ensures
            r == exists|i: int| 0 <= i < snaps@.len() && !in_sync(#[trigger] snaps@[i]),
    {
        let mut i: usize = 0;
        while i < snaps.len()
            invariant
                i <= snaps@.len(),
                forall|k: int| 0 <= k < i ==> in_sync(#[trigger] snaps@[k]),
            decreases snaps@.len() - i,
        {
            if !snaps[i].up_to_date() {
                return true;
            }
            i = i + 1;
        }
        false
    }

    /// The mark shown beside the branch, given whether it is merged into its
    /// base and whether it is at the default branch's commit.
    pub fn mark(&self, merged: bool, equal: bool) -> (r: Mark)
        ensures
            r == (if merged {
                Mark::Merged
            } else if equal {
                Mark::Equal
            } else if self.state.dirty {
                Mark::Dirty
            } else {
                Mark::Clean
            }),
    {
        if merged {
            Mark::Merged
        } else if equal {
            Mark::Equal
        } else if self.state.dirty {
            Mark::Dirty
        } else {
            Mark::Clean
        }
    }

    /// Plans one reconciliation of the branch with its dependency and applies
    /// its effect to the record: the default branch is pruned from several
    /// dependencies; a changed dependency moves the branch onto the new one;
    /// otherwise the branch is rebased when the dependency moved past its fork point.
    pub fn update(&mut self, default: &String, snap: &Snapshot) -> (r: Plan)
        requires
            old(self).state.wf(),
        ensures
            reconciled(*old(self), default@, *snap, *final(self), r),
    {
        let deps = self.deps(default);
        let mut save_pruned: Option<BranchState> = None;
        let mut active = deps;
        if active.len() > 1 {
            if names_contains(&self.state.deps, default) {
                names_shift_remove(&mut self.state.deps, default);
                save_pruned = Some(self.state.duplicate());
            }
            active = remove_str(&active, default);
        }
        if active.len() == 0 {
            return Plan {
                save_pruned,
                rebase: None,
                save_after: false,
                outcome: Ok(Status::NoDependency),
            };
        }
        if active.len() > 1 {
            return Plan {
                save_pruned,
                rebase: None,
                save_after: false,
                outcome: Err(UpdateError::MultipleDependencies { branch: self.name.clone() }),
            };
        }
        let dep = active[0].clone();
        assert(dep@ == strs(active@)[0]);
        if let Some(previous) = &self.state.base {
            if *previous != dep {
                let upstream = previous.clone();
                self.state.base = Some(dep.clone());
                self.state.dirty = false;
                return Plan {
                    save_pruned,
                    rebase: Some(Rebase { upstream, onto: dep }),
                    save_after: true,
                    outcome: Ok(Status::Retargeted),
                };
            }
        }
        if snap.up_to_date() {
            Plan { save_pruned, rebase: None, save_after: false, outcome: Ok(Status::UpToDate) }
        } else if let Some(f) = &snap.fork_point {
            Plan {
                save_pruned,
                rebase: Some(Rebase { upstream: f.clone(), onto: dep }),
                save_after: false,
                outcome: Ok(Status::Rebased),
            }
        } else {
            Plan {
                save_pruned,
                rebase: None,
                save_after: false,
                outcome: Err(
                    UpdateError::UnresolvableForkPoint { branch: self.name.clone(), dep },
                ),
            }
        }
    }
}

/// A branch that names no dependency depends on the default branch; the
/// default branch itself depends on nothing.
pub proof fn lemma_default_dependency(name: Seq<char>, default: Seq<char>)
    ensures
        name != default ==> effective_deps(name, default, Seq::empty()) == seq![default],
        effective_deps(default, default, Seq::empty()) == Seq::<Seq<char>>::empty(),
{
}

/// With a fork point known, a branch on a single, unchanged dependency is
/// rebased exactly when the dependency's tip is not that fork point.
pub proof fn lemma_drift_at_fork_point(
    b: Branch,
    default: Seq<char>,
    snap: Snapshot,
    after: Branch,
    p: Plan,
)
    requires
        reconciled(b, default, snap, after, p),
        active_deps(b.name@, default, b.state.dep_names()).len() == 1,
        !retargets(b.state.base, active_deps(b.name@, default, b.state.dep_names())[0]),
        snap.fork_point is Some,
    ensures
        (p.rebase is Some) == (snap.fork_point.unwrap()@ != snap.dep_head@),
        p.rebase is None ==> p.outcome == Ok::<Status, UpdateError>(Status::UpToDate),
{
}

/// With no fork point known, the branch needs nothing when it sits at the
/// dependency's tip, is contained in it or merged into it; otherwise the
/// reconciliation fails naming the branch and the dependency.
pub proof fn lemma_no_fork_point(b: Branch, default: Seq<char>, snap: Snapshot, after: Branch, p: Plan)
    requires
        reconciled(b, default, snap, after, p),
        active_deps(b.name@, default, b.state.dep_names()).len() == 1,
        !retargets(b.state.base, active_deps(b.name@, default, b.state.dep_names())[0]),
        snap.fork_point is None,
    ensures
        (snap.head@ == snap.dep_head@ || snap.dep_contains || snap.merged) ==> p.outcome
            == Ok::<Status, UpdateError>(Status::UpToDate),
        !(snap.head@ == snap.dep_head@ || snap.dep_contains || snap.merged) ==> (p.outcome matches Err(
            UpdateError::UnresolvableForkPoint { branch, dep },
        ) && branch@ == b.name@ && dep@ == active_deps(b.name@, default, b.state.dep_names())[0]),
        p.rebase is None,
{
}

/// A branch whose recorded base differs from its sole dependency is moved
/// onto that dependency whatever the snapshot says, and afterwards records it
/// as base and is clean.
pub proof fn lemma_base_change_first(
    b: Branch,
    default: Seq<char>,
    snap: Snapshot,
    after: Branch,
    p: Plan,
)
    requires
        reconciled(b, default, snap, after, p),
        active_deps(b.name@, default, b.state.dep_names()).len() == 1,
        retargets(b.state.base, active_deps(b.name@, default, b.state.dep_names())[0]),
    ensures
        p.rebase matches Some(r) && r.upstream == b.state.base.unwrap() && r.onto@ == active_deps(
            b.name@,
            default,
            b.state.dep_names(),
        )[0],
        after.state.base matches Some(nb) && nb@ == active_deps(
            b.name@,
            default,
            b.state.dep_names(),
        )[0],
        !after.state.dirty,
        p.save_after,
{
}

/// Reconciling a second time a branch that needed nothing, when it again
/// needs nothing, persists nothing, rebases nothing and leaves its record as it was.
pub proof fn lemma_idempotent(
    b: Branch,
    default: Seq<char>,
    s1: Snapshot,
    b1: Branch,
    p1: Plan,
    s2: Snapshot,
    b2: Branch,
    p2: Plan,
)
    requires
        reconciled(b, default, s1, b1, p1),
        p1.outcome == Ok::<Status, UpdateError>(Status::UpToDate) || p1.outcome == Ok::<
            Status,
            UpdateError,
        >(Status::NoDependency),
        reconciled(b1, default, s2, b2, p2),
        p2.outcome == Ok::<Status, UpdateError>(Status::UpToDate) || p2.outcome == Ok::<
            Status,
            UpdateError,
        >(Status::NoDependency),
    ensures
        p2.save_pruned is None,
        quiet_tail(p2),
        b2.state.dep_names() == b1.state.dep_names(),
        b2.state.base == b1.state.base,
        b2.state.dirty == b1.state.dirty,
        b2.state.pr == b1.state.pr,
{
    let deps = b.state.dep_names();
    lemma_without_contains(deps, default, default);
    if prunes(b.name@, default, deps) {
        assert(!b1.state.dep_names().contains(default));
    }
}

/// A branch depending on the default branch and one other is left, after one
/// reconciliation, depending on the other alone, and that record is persisted.
pub proof fn lemma_prunes_default(
    b: Branch,
    default: Seq<char>,
    x: Seq<char>,
    snap: Snapshot,
    after: Branch,
    p: Plan,
)
    requires
        reconciled(b, default, snap, after, p),
        b.state.dep_names() == seq![default, x],
        x != default,
    ensures
        after.state.dep_names() == seq![x],
        p.save_pruned matches Some(s) && s.dep_names() == seq![x],
{
    let deps = seq![default, x];
    assert(deps.contains(default)) by {
        assert(deps[0] == default);
    }
    assert(deps.drop_last() =~= seq![default]);
    assert(seq![default].drop_last() =~= Seq::<Seq<char>>::empty());
    assert(without(seq![default], default) =~= Seq::<Seq<char>>::empty()) by {
        assert(without(Seq::<Seq<char>>::empty(), default) =~= Seq::<Seq<char>>::empty());
    }
    assert(without(deps, default) == without(seq![default], default).push(x));
    assert(without(deps, default) =~= seq![x]);
}

} // verus!
