//! Changing the dependencies recorded for a branch.
use vstd::prelude::*;

use crate::dag::{acyclic, lemma_closing_edge};
use crate::graph::{pos, GraphError, GraphRepo};
use crate::reconcile::Branch;
use crate::state::BranchState;
use crate::state::{
    contains_str, lemma_contains_push, lemma_take_push_contains, lemma_without_contains,
    lemma_without_no_duplicates, keep_out, lemma_keep_out_none, lemma_without_absent,
    lemma_without_keep_out, names_contains, names_insert, names_shift_remove, strs,
};

verus! {

/// `old` followed by each name of `req` that is not there yet, once, in the
/// order of its first occurrence.
pub open spec fn extended(old: Seq<Seq<char>>, req: Seq<Seq<char>>) -> Seq<Seq<char>>
    decreases req.len(),
{
    if req.len() == 0 {
        old
    } else {
        let p = extended(old, req.drop_last());
        if p.contains(req.last()) {
            p
        } else {
            p.push(req.last())
        }
    }
}

/// The names of `req` that, when their turn comes to be taken out of `old`,
/// are not there: absent from the start, or already taken out.
pub open spec fn absent_in_turn(old: Seq<Seq<char>>, req: Seq<Seq<char>>) -> Seq<Seq<char>>
    decreases req.len(),
{
    if req.len() == 0 {
        req
    } else {
        let p = absent_in_turn(old, req.drop_last());
        if keep_out(old, req.drop_last()).contains(req.last()) {
            p
        } else {
            p.push(req.last())
        }
    }
}

/// The names among `req` that are not in `old`.
pub open spec fn fresh(old: Seq<Seq<char>>, req: Seq<Seq<char>>) -> Set<Seq<char>> {
    Set::new(|x: Seq<char>| req.contains(x) && !old.contains(x))
}

/// `g`'s edges with one more from `name` to each branch of `g` named in `xs`.
pub open spec fn edges_with(g: GraphRepo, name: Seq<char>, xs: Set<Seq<char>>) -> Set<(int, int)> {
    g.edges().union(
        Set::new(
            |e: (int, int)|
                e.0 == pos(g.names(), name) && 0 <= e.1 < g.names().len() && xs.contains(
                    g.names()[e.1],
                ),
        ),
    )
}

/// `name` can be given the dependencies `xs` in `g`: they and `name` are
/// branches of `g`, and the new edges close no cycle.
pub open spec fn addable(g: GraphRepo, name: Seq<char>, xs: Set<Seq<char>>) -> bool {
    xs.is_empty() || (g.names().contains(name) && (forall|x: Seq<char>|
        #[trigger] xs.contains(x) ==> g.names().contains(x)) && acyclic(edges_with(g, name, xs)))
}

/// Adds each of `deps` that the branch does not depend on yet as a dependency,
/// both to its record and to the graph, stopping at the first one that the
/// graph refuses. On success it returns those of `deps` that the branch already had.
pub fn add_dependencies(branch: &mut Branch, graph: &mut GraphRepo, deps: &Vec<String>) -> (r:
    Result<Vec<String>, GraphError>)
    requires
        old(graph).wf(),
        old(graph).stored_edges() + deps@.len() < 0xFFFF_FFFF,
        old(branch).state.wf(),
    ensures
        r is Ok <==> addable(
            *old(graph),
            old(branch).name@,
            fresh(old(branch).state.dep_names(), strs(deps@)),
        ),
        r is Ok ==> final(branch).state.dep_names() == extended(
            old(branch).state.dep_names(),
            strs(deps@),
        ),
        r is Ok ==> final(graph).edges() == edges_with(
            *old(graph),
            old(branch).name@,
            fresh(old(branch).state.dep_names(), strs(deps@)),
        ),
        final(graph).wf(),
        final(graph).stored_edges() <= old(graph).stored_edges() + deps@.len(),
        final(graph).names() == old(graph).names(),
        final(branch).name == old(branch).name,
        final(branch).state.pr == old(branch).state.pr,
        final(branch).state.base == old(branch).state.base,
        final(branch).state.dirty == old(branch).state.dirty,
        final(branch).state.wf(),
        final(branch).state.dep_names().len() >= old(branch).state.dep_names().len(),
        final(branch).state.dep_names().take(old(branch).state.dep_names().len() as int) == old(
            branch,
        ).state.dep_names(),
        forall|x: Seq<char>| #[trigger]
            final(branch).state.dep_names().contains(x) ==> old(branch).state.dep_names().contains(x)
                || strs(deps@).contains(x),
        forall|x: Seq<char>| #[trigger]
            final(branch).state.dep_names().contains(x) && !old(branch).state.dep_names().contains(x)
                ==> final(graph).depends(old(branch).name@, x),
        r is Ok ==> forall|x: Seq<char>| #[trigger]
            strs(deps@).contains(x) ==> final(branch).state.dep_names().contains(x),
        r matches Ok(already) ==> forall|x: Seq<char>| #[trigger]
            strs(already@).contains(x) <==> (strs(deps@).contains(x) && old(
                branch,
            ).state.dep_names().contains(x)),
        r matches Err(e) ==> match e {
            GraphError::UnknownBranch { branch: b } => b@ == old(branch).name@ || strs(
                deps@,
            ).contains(b@),
            GraphError::WouldCreateCycle { branch: b, dep: d } => b@ == old(branch).name@ && strs(
                deps@,
            ).contains(d@) && final(graph).depends_upon(d@, b@),
        },
{
    let ghost old_deps = branch.state.dep_names();
    let ghost req = strs(deps@);
    let ghost g0 = *graph;
    let ghost name = branch.name@;
    let ghost all_new = fresh(old_deps, req);
    let previous = branch.state.dep_list();
    let mut already: Vec<String> = Vec::new();
    let mut k: usize = 0;
    assert(req.take(0) =~= Seq::<Seq<char>>::empty());
    assert(extended(old_deps, req.take(0)) == old_deps);
    assert(fresh(old_deps, req.take(0)) =~= Set::<Seq<char>>::empty());
    assert(edges_with(g0, name, Set::<Seq<char>>::empty()) =~= g0.edges());
    while k < deps.len()
        invariant
            graph.wf(),
            graph.stored_edges() <= old(graph).stored_edges() + k,
            old(graph).stored_edges() + deps@.len() < 0xFFFF_FFFF,
            graph.names() == old(graph).names(),
            branch.name == old(branch).name,
            branch.state.pr == old(branch).state.pr,
            branch.state.base == old(branch).state.base,
            branch.state.dirty == old(branch).state.dirty,
            branch.state.wf(),
            old_deps == old(branch).state.dep_names(),
            req == strs(deps@),
            strs(previous@) == old_deps,
            k <= deps@.len(),
            g0 == *old(graph),
            name == old(branch).name@,
            branch.state.dep_names() == extended(old_deps, req.take(k as int)),
            all_new == fresh(old_deps, req),
            graph.edges() == edges_with(g0, name, fresh(old_deps, req.take(k as int))),
            !fresh(old_deps, req.take(k as int)).is_empty() ==> g0.names().contains(name),
            forall|x: Seq<char>| #[trigger]
                fresh(old_deps, req.take(k as int)).contains(x) ==> g0.names().contains(x),
            branch.state.dep_names().len() >= old_deps.len(),
            branch.state.dep_names().take(old_deps.len() as int) == old_deps,
            forall|x: Seq<char>| #[trigger]
                branch.state.dep_names().contains(x) ==> old_deps.contains(x) || req.take(
                    k as int,
                ).contains(x),
            forall|x: Seq<char>| #[trigger]
                branch.state.dep_names().contains(x) && !old_deps.contains(x) ==> graph.depends(
                    branch.name@,
                    x,
                ),
            forall|x: Seq<char>| #[trigger]
                req.take(k as int).contains(x) ==> branch.state.dep_names().contains(x),
            forall|x: Seq<char>| #[trigger]
                strs(already@).contains(x) <==> (req.take(k as int).contains(x) && old_deps.contains(x)),
        decreases deps@.len() - k,
    {
        let dep = &deps[k];
        assert(req.take(k + 1) =~= req.take(k as int).push(dep@));
        proof {
            lemma_take_push_contains(req, k as int);
        }
        assert forall|x: Seq<char>| #[trigger] fresh(old_deps, req.take(k as int)).contains(x) implies all_new.contains(x) by {
            let t = choose|t: int| 0 <= t < k && req.take(k as int)[t] == x;
            assert(req[t] == x);
        }
        assert(req.take(k + 1).drop_last() =~= req.take(k as int));
        assert(req.take(k + 1).last() == dep@);
        if contains_str(&previous, dep) {
            assert(branch.state.dep_names().contains(dep@)) by {
                let t = choose|t: int| 0 <= t < old_deps.len() && old_deps[t] == dep@;
                assert(branch.state.dep_names().take(old_deps.len() as int)[t] == branch.state.dep_names()[t]);
            }
            assert forall|x: Seq<char>| #[trigger] fresh(old_deps, req.take(k + 1)).contains(x) == fresh(old_deps, req.take(k as int)).contains(x) by {
                lemma_contains_push(req.take(k as int), dep@, x);
            }
            assert(fresh(old_deps, req.take(k + 1)) =~= fresh(old_deps, req.take(k as int)));
            let ghost prev_already = strs(already@);
            already.push(dep.clone());
            assert(strs(already@) =~= prev_already.push(dep@));
            assert forall|x: Seq<char>| #[trigger]
                strs(already@).contains(x) <==> (req.take(k + 1).contains(x) && old_deps.contains(x)) by {
                lemma_contains_push(prev_already, dep@, x);
                lemma_contains_push(req.take(k as int), dep@, x);
            }
            assert forall|x: Seq<char>| #[trigger]
                req.take(k + 1).contains(x) implies branch.state.dep_names().contains(x) by {
                lemma_contains_push(req.take(k as int), dep@, x);
                if x == dep@ {
                    let t = choose|t: int| 0 <= t < old_deps.len() && old_deps[t] == x;
                    assert(branch.state.dep_names().take(old_deps.len() as int)[t] == branch.state.dep_names()[t]);
                    assert(branch.state.dep_names()[t] == x);
                }
            }
        } else {
            let ghost cur = graph.edges();
            let ghost n = g0.names();
            let ghost i = pos(n, name);
            let ghost j = pos(n, dep@);
            assert(all_new.contains(dep@)) by {
                assert(req[k as int] == dep@);
            }
            match graph.try_add_dep(&branch.name, dep) {
                Ok(()) => {},
                Err(e) => {
                    proof {
                        if n.contains(name) && n.contains(dep@) {
                            assert(0 <= j < n.len() && n[j] == dep@);
                            assert(edges_with(g0, name, all_new).contains((i, j)));
                            assert(cur.subset_of(edges_with(g0, name, all_new)));
                            lemma_closing_edge(cur, edges_with(g0, name, all_new), i, j);
                        }
                    }
                    return Err(e);
                },
            }
            assert(n.contains(name) && n.contains(dep@));
            assert(0 <= j < n.len() && n[j] == dep@);
            assert forall|x: Seq<char>| #[trigger] fresh(old_deps, req.take(k + 1)).contains(x) == (fresh(old_deps, req.take(k as int)).contains(x) || x == dep@) by {
                lemma_contains_push(req.take(k as int), dep@, x);
            }
            assert forall|e: (int, int)| #[trigger] graph.edges().contains(e) == edges_with(g0, name, fresh(old_deps, req.take(k + 1))).contains(e) by {
                if 0 <= e.1 < n.len() && n[e.1] == dep@ {
                    assert(n[e.1] == n[j]);
                }
            }
            assert(graph.edges() =~= edges_with(g0, name, fresh(old_deps, req.take(k + 1))));
            let ghost prev = branch.state.dep_names();
            if names_insert(&mut branch.state.deps, dep.clone()) {
                assert(branch.state.dep_names().take(old_deps.len() as int) =~= prev.take(old_deps.len() as int));
                assert(branch.state.dep_names().no_duplicates()) by {
                    let w = branch.state.dep_names();
                    assert forall|a: int, b: int| 0 <= a < w.len() && 0 <= b < w.len() && a != b implies w[a] != w[b] by {
                        if a == prev.len() {
                            assert(prev.contains(w[b]));
                        } else if b == prev.len() {
                            assert(prev.contains(w[a]));
                        }
                    }
                }
            }
            assert forall|x: Seq<char>| #[trigger]
                branch.state.dep_names().contains(x) implies old_deps.contains(x) || req.take(k + 1).contains(x) by {
                lemma_contains_push(prev, dep@, x);
                lemma_contains_push(req.take(k as int), dep@, x);
            }
            assert forall|x: Seq<char>| #[trigger]
                branch.state.dep_names().contains(x) && !old_deps.contains(x) implies graph.depends(branch.name@, x) by {
                lemma_contains_push(prev, dep@, x);
            }
            assert forall|x: Seq<char>| #[trigger]
                req.take(k + 1).contains(x) implies branch.state.dep_names().contains(x) by {
                lemma_contains_push(prev, dep@, x);
                lemma_contains_push(req.take(k as int), dep@, x);
            }
            assert forall|x: Seq<char>| #[trigger]
                strs(already@).contains(x) <==> (req.take(k + 1).contains(x) && old_deps.contains(x)) by {
                lemma_contains_push(req.take(k as int), dep@, x);
            }
        }
        k = k + 1;
    }
    assert(req.take(deps@.len() as int) =~= req);
    Ok(already)
}

/// Takes each of `deps` out of the record's dependencies and returns those
/// that were not found there when their turn came.
pub fn remove_dependencies(state: &mut BranchState, deps: &Vec<String>) -> (r: Vec<String>)
    requires
        old(state).wf(),
    ensures
        final(state).wf(),
        final(state).dep_names() == keep_out(old(state).dep_names(), strs(deps@)),
        strs(r@) == absent_in_turn(old(state).dep_names(), strs(deps@)),
        final(state).pr == old(state).pr,
        final(state).base == old(state).base,
        final(state).dirty == old(state).dirty,
        forall|x: Seq<char>| #[trigger]
            final(state).dep_names().contains(x) <==> (old(state).dep_names().contains(x) && !strs(
                deps@,
            ).contains(x)),
        forall|x: Seq<char>| #[trigger] strs(r@).contains(x) ==> strs(deps@).contains(x),
        forall|x: Seq<char>|
            strs(deps@).contains(x) && !old(state).dep_names().contains(x) ==> #[trigger] strs(
                r@,
            ).contains(x),
{
    let ghost old_deps = state.dep_names();
    let ghost req = strs(deps@);
    let mut missing: Vec<String> = Vec::new();
    let mut k: usize = 0;
    assert(req.take(0) =~= Seq::<Seq<char>>::empty());
    proof {
        lemma_keep_out_none(old_deps, req.take(0));
    }
    while k < deps.len()
        invariant
            state.wf(),
            state.pr == old(state).pr,
            state.base == old(state).base,
            state.dirty == old(state).dirty,
            old_deps == old(state).dep_names(),
            req == strs(deps@),
            k <= deps@.len(),
            state.dep_names() == keep_out(old_deps, req.take(k as int)),
            strs(missing@) == absent_in_turn(old_deps, req.take(k as int)),
            forall|x: Seq<char>| #[trigger]
                state.dep_names().contains(x) <==> (old_deps.contains(x) && !req.take(
                    k as int,
                ).contains(x)),
            forall|x: Seq<char>| #[trigger] strs(missing@).contains(x) ==> req.take(k as int).contains(x),
            forall|x: Seq<char>|
                req.take(k as int).contains(x) && !old_deps.contains(x) ==> #[trigger] strs(
                    missing@,
                ).contains(x),
        decreases deps@.len() - k,
    {
        let dep = &deps[k];
        proof {
            lemma_take_push_contains(req, k as int);
        }
        let ghost prev = state.dep_names();
        let ghost prev_missing = strs(missing@);
        proof {
            lemma_without_keep_out(old_deps, req.take(k as int), dep@);
        }
        assert(req.take(k + 1).drop_last() =~= req.take(k as int));
        assert(req.take(k + 1).last() == dep@);
        if names_contains(&state.deps, dep) {
            names_shift_remove(&mut state.deps, dep);
            proof {
                lemma_without_no_duplicates(prev, dep@);
            }
            assert forall|x: Seq<char>| #[trigger]
                state.dep_names().contains(x) <==> (old_deps.contains(x) && !req.take(k + 1).contains(x)) by {
                lemma_without_contains(prev, dep@, x);
                lemma_contains_push(req.take(k as int), dep@, x);
            }
        } else {
            proof {
                lemma_without_absent(prev, dep@);
            }
            missing.push(dep.clone());
            assert(strs(missing@) =~= prev_missing.push(dep@));
            assert forall|x: Seq<char>| #[trigger]
                state.dep_names().contains(x) <==> (old_deps.contains(x) && !req.take(k + 1).contains(x)) by {
                lemma_contains_push(req.take(k as int), dep@, x);
            }
        }
        assert forall|x: Seq<char>| #[trigger] strs(missing@).contains(x) implies req.take(k + 1).contains(x) by {
            lemma_contains_push(prev_missing, dep@, x);
            lemma_contains_push(req.take(k as int), dep@, x);
        }
        assert forall|x: Seq<char>|
            req.take(k + 1).contains(x) && !old_deps.contains(x) implies #[trigger] strs(missing@).contains(x) by {
            lemma_contains_push(prev_missing, dep@, x);
            lemma_contains_push(req.take(k as int), dep@, x);
            if x == dep@ && !req.take(k as int).contains(x) {
                assert(!prev.contains(x));
            }
        }
        k = k + 1;
    }
    assert(req.take(deps@.len() as int) =~= req);
    missing
}

} // verus!
