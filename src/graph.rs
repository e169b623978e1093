//! The dependency graph over all branches: one node per branch and an edge
//! from each branch to each known branch it depends on, kept acyclic.
use vstd::prelude::*;

use crate::dag::{
    acyclic, dag_add_node, dag_edge_count, dag_edge_total, dag_edges, dag_neighbors, dag_new,
    dag_post_order, dag_reversed, dag_size, dag_try_add_edge, edges_within, flipped, lemma_add_edge_acyclic,
    lemma_closing_edge, lemma_empty_acyclic, lemma_flipped_path, reaches, Dag,
};
use crate::state::{
    lemma_contains_push, names_at, names_clone, names_insert, names_len, names_new, names_position,
    set_items, strs,
};
use indexmap::IndexSet;

verus! {

/// Why a graph operation was refused.
#[derive(Debug)]
pub enum GraphError {
    /// No branch of that name is in the graph.
    UnknownBranch { branch: String },
    /// Making `branch` depend on `dep` would close a cycle.
    WouldCreateCycle { branch: String, dep: String },
}

/// The position of `x` in `s`.
pub open spec fn pos(s: Seq<Seq<char>>, x: Seq<char>) -> int {
    choose|i: int| 0 <= i < s.len() && s[i] == x
}

/// The names of the branches of a list of branches with their dependencies.
pub open spec fn branch_names(bs: Seq<(String, Vec<String>)>) -> Seq<Seq<char>> {
    bs.map_values(|b: (String, Vec<String>)| b.0@)
}

/// The edges that a list of branches declares: from each branch to each
/// listed branch that it names as a dependency.
pub open spec fn declared_edges(bs: Seq<(String, Vec<String>)>) -> Set<(int, int)> {
    Set::new(
        |e: (int, int)|
            0 <= e.0 < bs.len() && 0 <= e.1 < bs.len() && strs(bs[e.0].1@).contains(bs[e.1].0@),
    )
}

/// `bs` has a branch `w.0` that names as dependency `w.1`, which is no branch of `bs`.
pub open spec fn is_missing(bs: Seq<(String, Vec<String>)>, w: (Seq<char>, Seq<char>)) -> bool {
    exists|i: int|
        0 <= i < bs.len() && #[trigger] bs[i].0@ == w.0 && strs(bs[i].1@).contains(w.1)
            && !branch_names(bs).contains(w.1)
}

/// The pairs of a list of warnings, as strings.
pub open spec fn pairs(ws: Seq<(String, String)>) -> Set<(Seq<char>, Seq<char>)> {
    Set::new(|w: (Seq<char>, Seq<char>)| exists|k: int| 0 <= k < ws.len() && #[trigger] ws[k].0@ == w.0 && ws[k].1@ == w.1)
}

/// The number of dependencies that a list of branches names, all told.
pub open spec fn total_deps(bs: Seq<(String, Vec<String>)>) -> nat
    decreases bs.len(),
{
    if bs.len() == 0 {
        0
    } else {
        total_deps(bs.drop_last()) + bs.last().1@.len()
    }
}

proof fn lemma_total_deps_prefix(bs: Seq<(String, Vec<String>)>, m: int)
    requires
        0 <= m < bs.len(),
    ensures
        total_deps(bs.take(m + 1)) == total_deps(bs.take(m)) + bs[m].1@.len(),
        total_deps(bs.take(m + 1)) <= total_deps(bs),
    decreases bs.len() - m,
{
    assert(bs.take(m + 1).drop_last() =~= bs.take(m));
    if m + 1 == bs.len() {
        assert(bs.take(m + 1) =~= bs);
    } else {
        lemma_total_deps_prefix(bs, m + 1);
    }
}

/// The edges declared by the branches before `i`, and by the first `k`
/// dependencies of branch `i`.
pub open spec fn declared_upto(bs: Seq<(String, Vec<String>)>, i: int, k: int) -> Set<(int, int)> {
    Set::new(
        |e: (int, int)|
            declared_edges(bs).contains(e) && (e.0 < i || (e.0 == i && strs(bs[i].1@).take(
                k,
            ).contains(bs[e.1].0@))),
    )
}

/// The missing dependencies among those that `declared_upto` goes over.
pub open spec fn missing_upto(bs: Seq<(String, Vec<String>)>, i: int, k: int) -> Set<
    (Seq<char>, Seq<char>),
> {
    Set::new(
        |w: (Seq<char>, Seq<char>)|
            exists|i2: int|
                0 <= i2 < bs.len() && #[trigger] bs[i2].0@ == w.0 && !branch_names(bs).contains(w.1)
                    && ((i2 < i && strs(bs[i2].1@).contains(w.1)) || (i2 == i && strs(
                    bs[i2].1@,
                ).take(k).contains(w.1))),
    )
}

/// The branch graph: the `i`-th name of `branch_map` names node `i` of `graph`.
#[derive(Debug)]
pub struct GraphRepo {
    pub branch_map: IndexSet<String>,
    pub graph: Dag,
}

impl GraphRepo {
    pub open spec fn names(&self) -> Seq<Seq<char>> {
        set_items(self.branch_map)
    }

    pub open spec fn edges(&self) -> Set<(int, int)> {
        dag_edges(self.graph)
    }

    pub open spec fn wf(&self) -> bool {
        &&& dag_size(self.graph) == self.names().len()
        &&& self.names().len() < 0xFFFF_FFFE
        &&& edges_within(self.edges(), self.names().len())
        &&& acyclic(self.edges())
        &&& self.names().no_duplicates()
        &&& self.edges().finite()
        &&& self.edges().len() <= self.stored_edges() <= 0xFFFF_FFFF
    }

    /// The number of edges stored, counting parallel ones.
    pub open spec fn stored_edges(&self) -> nat {
        dag_edge_count(self.graph)
    }

    /// Branch `x` depends directly on branch `y`.
    pub open spec fn depends(&self, x: Seq<char>, y: Seq<char>) -> bool {
        self.names().contains(x) && self.names().contains(y) && self.edges().contains(
            (pos(self.names(), x), pos(self.names(), y)),
        )
    }

    /// Branch `y` is `x` or one that `x` depends on, directly or not.
    pub open spec fn depends_upon(&self, x: Seq<char>, y: Seq<char>) -> bool {
        self.names().contains(x) && self.names().contains(y) && reaches(
            self.edges(),
            pos(self.names(), x),
            pos(self.names(), y),
        )
    }

    /// The graph of the given branches and their dependencies, with the
    /// dependencies that name no listed branch set aside; it fails when the
    /// dependencies form a cycle.
    pub fn new(branches: &Vec<(String, Vec<String>)>) -> (r: Result<
        (GraphRepo, Vec<(String, String)>),
        GraphError,
    >)
        requires
            branch_names(branches@).no_duplicates(),
            branches@.len() < 0xFFFF_FFFE,
            total_deps(branches@) < 0xFFFF_FFFF,
        ensures
            r is Ok <==> acyclic(declared_edges(branches@)),
            r matches Ok(
                (g, missing),
            ) ==> g.wf() && g.names() == branch_names(branches@) && g.edges() == declared_edges(
                branches@,
            ) && g.stored_edges() <= total_deps(branches@) && forall|w: (Seq<char>, Seq<char>)| #[trigger]
                pairs(missing@).contains(w) <==> is_missing(branches@, w),
            r matches Err(e) ==> e is WouldCreateCycle,
    {
        let ghost bs = branches@;
        let mut names = names_new();
        let mut graph = dag_new();
        let mut i: usize = 0;
        assert(branch_names(bs).take(0) =~= Seq::<Seq<char>>::empty());
        while i < branches.len()
            invariant
                bs == branches@,
                bs.len() < 0xFFFF_FFFE,
                branch_names(bs).no_duplicates(),
                i <= bs.len(),
                set_items(names) == branch_names(bs).take(i as int),
                dag_size(graph) == i,
                dag_edges(graph) == Set::<(int, int)>::empty(),
                dag_edge_count(graph) == 0,
            decreases bs.len() - i,
        {
            dag_add_node(&mut graph, branches[i].0.clone());
            assert(branch_names(bs)[i as int] == bs[i as int].0@);
            assert(!branch_names(bs).take(i as int).contains(bs[i as int].0@)) by {
                if branch_names(bs).take(i as int).contains(bs[i as int].0@) {
                    let t = choose|t: int| 0 <= t < i && branch_names(bs).take(i as int)[t] == bs[i as int].0@;
                    assert(branch_names(bs)[t] == branch_names(bs)[i as int]);
                }
            }
            names_insert(&mut names, branches[i].0.clone());
            assert(branch_names(bs).take(i + 1) =~= branch_names(bs).take(i as int).push(
                bs[i as int].0@,
            ));
            i = i + 1;
        }
        assert(branch_names(bs).take(bs.len() as int) =~= branch_names(bs));
        proof {
            lemma_empty_acyclic();
        }
        let mut repo = GraphRepo { branch_map: names, graph };
        assert(repo.edges().len() == 0);
        assert(bs.take(0) =~= Seq::<(String, Vec<String>)>::empty());
        let mut missing: Vec<(String, String)> = Vec::new();
        let ghost n = branch_names(bs);
        assert(declared_upto(bs, 0, 0) =~= Set::<(int, int)>::empty());
        assert(pairs(missing@) =~= missing_upto(bs, 0, 0));
        let mut i: usize = 0;
        while i < branches.len()
            invariant
                bs == branches@,
                n == branch_names(bs),
                n.no_duplicates(),
                i <= bs.len(),
                repo.wf(),
                repo.names() == n,
                repo.edges() == declared_upto(bs, i as int, 0),
                pairs(missing@) == missing_upto(bs, i as int, 0),
                total_deps(bs) < 0xFFFF_FFFF,
                repo.stored_edges() <= total_deps(bs.take(i as int)),
            decreases bs.len() - i,
        {
            let name = &branches[i].0;
            let deps = &branches[i].1;
            assert(n[i as int] == name@);
            proof {
                lemma_pos_unique(n, i as int);
            }
            let mut k: usize = 0;
            assert(declared_upto(bs, i as int, 0) =~= declared_upto(bs, i as int, k as int));
            proof {
                lemma_total_deps_prefix(bs, i as int);
            }
            while k < deps.len()
                invariant
                    bs == branches@,
                    n == branch_names(bs),
                    n.no_duplicates(),
                    i < bs.len(),
                    name@ == n[i as int],
                    pos(n, name@) == i,
                    deps@ == bs[i as int].1@,
                    k <= deps@.len(),
                    repo.wf(),
                    repo.names() == n,
                    repo.edges() == declared_upto(bs, i as int, k as int),
                    pairs(missing@) == missing_upto(bs, i as int, k as int),
                    total_deps(bs.take(i + 1)) == total_deps(bs.take(i as int)) + deps@.len(),
                    total_deps(bs.take(i + 1)) <= total_deps(bs),
                    total_deps(bs) < 0xFFFF_FFFF,
                    repo.stored_edges() <= total_deps(bs.take(i as int)) + k,
                decreases deps@.len() - k,
            {
                let dep = &deps[k];
                let ghost ds = strs(bs[i as int].1@);
                assert(ds.take(k + 1) =~= ds.take(k as int).push(dep@));
                let ghost before = repo.edges();
                match repo.try_add_dep(name, dep) {
                    Ok(()) => {
                        let ghost j = pos(n, dep@);
                        assert(0 <= j < n.len() && n[j] == dep@);
                        assert(bs[j].0@ == dep@);
                        assert(ds.contains(dep@)) by {
                            assert(ds[k as int] == dep@);
                        }
                        assert forall|e: (int, int)| #[trigger]
                            declared_upto(bs, i as int, k + 1).contains(e)
                                == before.insert((i as int, j)).contains(e) by {
                            if declared_edges(bs).contains(e) {
                                lemma_contains_push(ds.take(k as int), dep@, bs[e.1].0@);
                                assert(n[e.1] == bs[e.1].0@);
                                if bs[e.1].0@ == dep@ {
                                    assert(n[e.1] == n[j]);
                                }
                            }
                            if e == (i as int, j) {
                                lemma_contains_push(ds.take(k as int), dep@, dep@);
                            }
                        }
                        assert(declared_upto(bs, i as int, k + 1) =~= before.insert((i as int, j)));
                        assert(missing_upto(bs, i as int, k + 1) =~= missing_upto(bs, i as int, k as int));
                    },
                    Err(GraphError::UnknownBranch { .. }) => {
                        assert(!n.contains(dep@));
                        assert forall|e: (int, int)| #[trigger]
                            declared_upto(bs, i as int, k + 1).contains(e)
                                == before.contains(e) by {
                            if declared_edges(bs).contains(e) && bs[e.1].0@ == dep@ {
                                assert(n[e.1] == dep@);
                            }
                        }
                        assert(declared_upto(bs, i as int, k + 1) =~= before);
                        let ghost old_missing = missing@;
                        missing.push((name.clone(), dep.clone()));
                        assert forall|w: (Seq<char>, Seq<char>)| #[trigger]
                            pairs(missing@).contains(w) == missing_upto(bs, i as int, k + 1).contains(w) by {
                            lemma_contains_push(ds.take(k as int), dep@, w.1);
                            if pairs(missing@).contains(w) {
                                let t = choose|t: int| 0 <= t < missing@.len() && #[trigger] missing@[t].0@ == w.0 && missing@[t].1@ == w.1;
                                if t < old_missing.len() {
                                    assert(old_missing[t] == missing@[t]);
                                    assert(pairs(old_missing).contains(w));
                                    assert(missing_upto(bs, i as int, k as int).contains(w));
                                } else {
                                    assert(bs[i as int].0@ == w.0);
                                }
                            }
                            if missing_upto(bs, i as int, k + 1).contains(w) {
                                let i2 = choose|i2: int|
                                    0 <= i2 < bs.len() && #[trigger] bs[i2].0@ == w.0 && !branch_names(bs).contains(w.1)
                                        && ((i2 < i && strs(bs[i2].1@).contains(w.1)) || (i2 == i && strs(
                                        bs[i2].1@,
                                    ).take(k + 1).contains(w.1)));
                                if i2 < i || ds.take(k as int).contains(w.1) {
                                    assert(missing_upto(bs, i as int, k as int).contains(w));
                                    assert(pairs(old_missing).contains(w));
                                    let t = choose|t: int| 0 <= t < old_missing.len() && #[trigger] old_missing[t].0@ == w.0 && old_missing[t].1@ == w.1;
                                    assert(missing@[t] == old_missing[t]);
                                } else {
                                    assert(w.1 == dep@);
                                    assert(missing@[old_missing.len() as int].0@ == w.0);
                                }
                            }
                        }
                        assert(pairs(missing@) =~= missing_upto(bs, i as int, k + 1));
                    },
                    Err(GraphError::WouldCreateCycle { .. }) => {
                        let ghost j = pos(n, dep@);
                        assert(0 <= j < n.len() && n[j] == dep@);
                        assert(bs[j].0@ == dep@);
                        assert(ds.contains(dep@)) by {
                            assert(ds[k as int] == dep@);
                        }
                        assert(declared_edges(bs).contains((i as int, j)));
                        assert(before.subset_of(declared_edges(bs)));
                        proof {
                            lemma_closing_edge(before, declared_edges(bs), i as int, j);
                        }
                        return Err(
                            GraphError::WouldCreateCycle { branch: name.clone(), dep: dep.clone() },
                        );
                    },
                }
                k = k + 1;
            }
            assert(strs(bs[i as int].1@).take(k as int) =~= strs(bs[i as int].1@));
            assert(declared_upto(bs, i as int, k as int) =~= declared_upto(bs, i + 1, 0));
            assert forall|w: (Seq<char>, Seq<char>)| #[trigger]
                missing_upto(bs, i as int, k as int).contains(w) == missing_upto(bs, i + 1, 0).contains(w) by {
                if missing_upto(bs, i + 1, 0).contains(w) {
                    let i2 = choose|i2: int|
                        0 <= i2 < bs.len() && #[trigger] bs[i2].0@ == w.0 && !branch_names(bs).contains(w.1)
                            && ((i2 < i + 1 && strs(bs[i2].1@).contains(w.1)) || (i2 == i + 1 && strs(
                            bs[i2].1@,
                        ).take(0).contains(w.1)));
                    if i2 == i + 1 {
                        assert(strs(bs[i2].1@).take(0).len() == 0);
                    }
                }
            }
            assert(missing_upto(bs, i as int, k as int) =~= missing_upto(bs, i + 1, 0));
            i = i + 1;
        }
        assert(declared_upto(bs, bs.len() as int, 0) =~= declared_edges(bs));
        assert(bs.take(bs.len() as int) =~= bs);
        assert forall|w: (Seq<char>, Seq<char>)| #[trigger]
            pairs(missing@).contains(w) <==> is_missing(bs, w) by {
            if is_missing(bs, w) {
                let i2 = choose|i2: int|
                    0 <= i2 < bs.len() && #[trigger] bs[i2].0@ == w.0 && strs(bs[i2].1@).contains(w.1)
                        && !branch_names(bs).contains(w.1);
                assert(missing_upto(bs, bs.len() as int, 0).contains(w));
            }
            if missing_upto(bs, bs.len() as int, 0).contains(w) {
                let i2 = choose|i2: int|
                    0 <= i2 < bs.len() && #[trigger] bs[i2].0@ == w.0 && !branch_names(bs).contains(w.1)
                        && ((i2 < bs.len() && strs(bs[i2].1@).contains(w.1)) || (i2 == bs.len() && strs(
                        bs[i2].1@,
                    ).take(0).contains(w.1)));
                assert(is_missing(bs, w));
            }
        }
        Ok((repo, missing))
    }

    /// The same branches with every dependency turned around, so that walks
    /// go from a branch to the branches that depend on it.
    pub fn reversed(&self) -> (r: GraphRepo)
        requires
            self.wf(),
        ensures
            r.wf(),
            r.names() == self.names(),
            r.edges() == flipped(self.edges()),
            r.stored_edges() == self.stored_edges(),
    {
        let ghost e = self.edges();
        let r = GraphRepo { branch_map: names_clone(&self.branch_map), graph: dag_reversed(&self.graph) };
        proof {
            lemma_flipped_len(e);
            assert forall|p: Seq<int>| #[trigger] crate::dag::is_path(flipped(e), p) && p.len() > 1 implies p[0] != p.last() by {
                lemma_flipped_path(e, flipped(e), p);
                assert(p.reverse().len() > 1);
            }
            assert forall|x: (int, int)| #[trigger] r.edges().contains(x) implies 0 <= x.0 < self.names().len() && 0 <= x.1 < self.names().len() by {
                assert(e.contains((x.1, x.0)));
            }
        }
        r
    }

    /// `o` holds `root` and everything it depends on, each once, every branch
    /// after the branches it depends on directly, and `root` last.
    pub open spec fn is_update_order(&self, root: Seq<char>, o: Seq<Seq<char>>) -> bool {
        &&& o.len() > 0 && o.last() == root
        &&& o.no_duplicates()
        &&& forall|x: Seq<char>| #[trigger] o.contains(x) <==> self.depends_upon(root, x)
        &&& forall|a: int, b: int|
            0 <= a < b < o.len() ==> !self.depends(#[trigger] o[a], #[trigger] o[b])
    }

    /// The number of edges stored, counting parallel ones.
    pub fn edge_count(&self) -> (r: usize)
        ensures
            r == self.stored_edges(),
    {
        dag_edge_total(&self.graph)
    }

    /// The position of the branch `name`.
    pub fn branch_id(&self, name: &String) -> (r: Result<usize, GraphError>)
        requires
            self.wf(),
        ensures
            self.names().contains(name@) <==> r is Ok,
            r matches Ok(i) ==> i < self.names().len() && self.names()[i as int] == name@ && i
                == pos(self.names(), name@),
            r matches Err(e) ==> e matches GraphError::UnknownBranch { branch } && branch@ == name@,
    {
        match names_position(&self.branch_map, name) {
            Some(i) => {
                proof {
                    lemma_pos_unique(self.names(), i as int);
                }
                Ok(i)
            },
            None => Err(GraphError::UnknownBranch { branch: name.clone() }),
        }
    }

    /// Makes `branch` depend on `dep`, unless `dep` already depends on
    /// `branch`, directly or not, or is `branch` itself.
    pub fn try_add_dep(&mut self, branch: &String, dep: &String) -> (r: Result<(), GraphError>)
        requires
            old(self).wf(),
            old(self).stored_edges() < 0xFFFF_FFFF,
        ensures
            final(self).wf(),
            final(self).stored_edges() <= old(self).stored_edges() + 1,
            final(self).branch_map == old(self).branch_map,
            !old(self).names().contains(branch@) ==> (r matches Err(
                GraphError::UnknownBranch { branch: b },
            ) && b@ == branch@),
            old(self).names().contains(branch@) && !old(self).names().contains(dep@) ==> (r matches Err(
                GraphError::UnknownBranch { branch: b },
            ) && b@ == dep@),
            old(self).names().contains(branch@) && old(self).names().contains(dep@) ==> if old(
                self,
            ).depends_upon(dep@, branch@) {
                r matches Err(GraphError::WouldCreateCycle { branch: b, dep: d }) && b@ == branch@
                    && d@ == dep@
            } else {
                r is Ok && final(self).edges() == old(self).edges().insert(
                    (pos(old(self).names(), branch@), pos(old(self).names(), dep@)),
                )
            },
            r is Err ==> final(self).edges() == old(self).edges(),
    {
        let i = match self.branch_id(branch) {
            Ok(i) => i,
            Err(e) => return Err(e),
        };
        let j = match self.branch_id(dep) {
            Ok(j) => j,
            Err(e) => return Err(e),
        };
        let ghost e0 = self.edges();
        proof {
            lemma_reaches_self(e0, i as int);
        }
        if dag_try_add_edge(&mut self.graph, i, j) {
            proof {
                lemma_add_edge_acyclic(e0, i as int, j as int);
            }
            Ok(())
        } else {
            Err(GraphError::WouldCreateCycle { branch: branch.clone(), dep: dep.clone() })
        }
    }

    fn get_neighbors(&self, branch: &String, outgoing: bool) -> (r: Result<Vec<String>, GraphError>)
        requires
            self.wf(),
        ensures
            self.names().contains(branch@) <==> r is Ok,
            r matches Err(e) ==> e matches GraphError::UnknownBranch { branch: b } && b@ == branch@,
            r matches Ok(v) ==> forall|x: Seq<char>|
                #[trigger] strs(v@).contains(x) <==> (if outgoing {
                    self.depends(branch@, x)
                } else {
                    self.depends(x, branch@)
                }),
    {
        let i = match self.branch_id(branch) {
            Ok(i) => i,
            Err(e) => return Err(e),
        };
        let ids = dag_neighbors(&self.graph, i, outgoing);
        let mut out: Vec<String> = Vec::new();
        let mut k: usize = 0;
        while k < ids.len()
            invariant
                self.wf(),
                k <= ids@.len(),
                out@.len() == k,
                forall|x: usize|
                    ids@.contains(x) <==> (if outgoing {
                        self.edges().contains((i as int, x as int))
                    } else {
                        self.edges().contains((x as int, i as int))
                    }),
                forall|t: int| 0 <= t < k ==> out@[t]@ == self.names()[ids@[t] as int] && ids@[t] < self.names().len(),
            decreases ids@.len() - k,
        {
            let id = ids[k];
            assert(ids@.contains(id));
            assert(self.edges().contains((i as int, id as int)) || self.edges().contains((id as int, i as int)));
            out.push(names_at(&self.branch_map, id).clone());
            k = k + 1;
        }
        let ghost n = self.names();
        proof {
            lemma_pos_unique(n, i as int);
        }
        assert forall|x: Seq<char>| #[trigger] strs(out@).contains(x) <==> (if outgoing {
            self.depends(branch@, x)
        } else {
            self.depends(x, branch@)
        }) by {
            if strs(out@).contains(x) {
                let t = choose|t: int| 0 <= t < strs(out@).len() && strs(out@)[t] == x;
                let id = ids@[t];
                assert(ids@.contains(id));
                lemma_pos_unique(n, id as int);
                assert(n.contains(x)) by {
                    assert(n[id as int] == x);
                }
            }
            if (if outgoing {
                self.depends(branch@, x)
            } else {
                self.depends(x, branch@)
            }) {
                let id = pos(n, x);
                assert(0 <= id < n.len());
                let idu = id as usize;
                assert(ids@.contains(idu));
                let t = choose|t: int| 0 <= t < ids@.len() && ids@[t] == idu;
                assert(strs(out@)[t] == x);
            }
        }
        Ok(out)
    }

    /// The branches that `branch` depends on directly.
    pub fn get_dependencies(&self, branch: &String) -> (r: Result<Vec<String>, GraphError>)
        requires
            self.wf(),
        ensures
            self.names().contains(branch@) <==> r is Ok,
            r matches Err(e) ==> e matches GraphError::UnknownBranch { branch: b } && b@ == branch@,
            r matches Ok(v) ==> forall|x: Seq<char>|
                #[trigger] strs(v@).contains(x) <==> self.depends(branch@, x),
    {
        self.get_neighbors(branch, true)
    }

    /// The branches that depend on `branch` directly.
    pub fn get_dependents(&self, branch: &String) -> (r: Result<Vec<String>, GraphError>)
        requires
            self.wf(),
        ensures
            self.names().contains(branch@) <==> r is Ok,
            r matches Err(e) ==> e matches GraphError::UnknownBranch { branch: b } && b@ == branch@,
            r matches Ok(v) ==> forall|x: Seq<char>|
                #[trigger] strs(v@).contains(x) <==> self.depends(x, branch@),
    {
        self.get_neighbors(branch, false)
    }

    /// The order in which to bring `root` and everything it depends on up to
    /// date: each of these branches once, every branch after the branches it
    /// depends on, and `root` last.
    pub fn update_order(&self, root: &String) -> (r: Result<Vec<String>, GraphError>)
        requires
            self.wf(),
        ensures
            self.names().contains(root@) <==> r is Ok,
            r matches Err(e) ==> e matches GraphError::UnknownBranch { branch: b } && b@ == root@,
            r matches Ok(v) ==> self.is_update_order(root@, strs(v@)),
    {
        let i = match self.branch_id(root) {
            Ok(i) => i,
            Err(e) => return Err(e),
        };
        let ix = dag_post_order(&self.graph, i);
        let ghost n = self.names();
        let ghost e = self.edges();
        let mut out: Vec<String> = Vec::new();
        let mut k: usize = 0;
        while k < ix.len()
            invariant
                self.wf(),
                n == self.names(),
                e == self.edges(),
                i < n.len(),
                k <= ix@.len(),
                out@.len() == k,
                forall|t: int| 0 <= t < ix@.len() ==> reaches(e, i as int, #[trigger] ix@[t] as int),
                forall|t: int| 0 <= t < k ==> out@[t]@ == n[ix@[t] as int] && ix@[t] < n.len(),
            decreases ix@.len() - k,
        {
            let id = ix[k];
            proof {
                lemma_reaches_within(e, n.len(), i as int, id as int);
            }
            out.push(names_at(&self.branch_map, id).clone());
            k = k + 1;
        }
        let ghost o = strs(out@);
        assert forall|a: int, b: int| 0 <= a < b < o.len() implies !self.depends(#[trigger] o[a], #[trigger] o[b]) by {
            lemma_pos_unique(n, ix@[a] as int);
            lemma_pos_unique(n, ix@[b] as int);
            assert(!e.contains((ix@[a] as int, ix@[b] as int)));
        }
        assert(o.no_duplicates()) by {
            assert forall|a: int, b: int| 0 <= a < o.len() && 0 <= b < o.len() && a != b implies o[a] != o[b] by {
                assert(ix@[a] != ix@[b]);
            }
        }
        assert forall|x: Seq<char>| #[trigger] o.contains(x) <==> self.depends_upon(root@, x) by {
            lemma_pos_unique(n, i as int);
            if o.contains(x) {
                let t = choose|t: int| 0 <= t < o.len() && o[t] == x;
                lemma_pos_unique(n, ix@[t] as int);
                assert(n[ix@[t] as int] == x);
            }
            if self.depends_upon(root@, x) {
                let p = pos(n, x);
                assert(0 <= p < n.len());
                let pu = p as usize;
                assert(reaches(e, i as int, pu as int));
                assert(ix@.contains(pu));
                let t = choose|t: int| 0 <= t < ix@.len() && ix@[t] == pu;
                assert(o[t] == x);
            }
        }
        assert(o.last() == root@) by {
            assert(o[o.len() - 1] == n[i as int]);
        }
        Ok(out)
    }
}

/// A dependency of `branch` on `dep` is refused exactly when adding its edge
/// would close a cycle; when it is accepted the graph stays acyclic.
pub proof fn lemma_refused_iff_cycle(g: GraphRepo, branch: Seq<char>, dep: Seq<char>)
    requires
        g.wf(),
        g.names().contains(branch),
        g.names().contains(dep),
    ensures
        g.depends_upon(dep, branch) <==> !acyclic(
            g.edges().insert((pos(g.names(), branch), pos(g.names(), dep))),
        ),
{
    let n = g.names();
    let i = pos(n, branch);
    let j = pos(n, dep);
    assert(0 <= i < n.len() && n[i] == branch);
    assert(0 <= j < n.len() && n[j] == dep);
    let f = g.edges().insert((i, j));
    if g.depends_upon(dep, branch) {
        lemma_closing_edge(g.edges(), f, i, j);
    } else {
        lemma_reaches_self(g.edges(), i);
        lemma_add_edge_acyclic(g.edges(), i, j);
    }
}

/// In an update order no branch depends, directly or not, on a branch that
/// comes after it: everything a branch depends on is brought up to date first.
pub proof fn lemma_update_order_transitive(g: GraphRepo, root: Seq<char>, o: Seq<Seq<char>>, a: int, b: int)
    requires
        g.wf(),
        g.is_update_order(root, o),
        0 <= a < b < o.len(),
    ensures
        !g.depends_upon(o[a], o[b]),
{
    let n = g.names();
    let e = g.edges();
    if g.depends_upon(o[a], o[b]) {
        assert(o.contains(o[a]));
        assert(g.depends_upon(root, o[a]));
        let p = choose|p: Seq<int>| #[trigger] crate::dag::is_path(e, p) && p[0] == pos(n, o[a]) && p.last() == pos(n, o[b]);
        let m = lemma_walk_goes_back(g, root, o, p, p.len() - 1, a);
        // p.last() is o[b]'s position, so o[m] is o[b] with m <= a < b
        assert(o[m] == o[b]);
        assert(false);
    }
}

/// Following a walk that starts at `o[a]`, the `k`-th node is some `o[m]` with `m <= a`.
proof fn lemma_walk_goes_back(g: GraphRepo, root: Seq<char>, o: Seq<Seq<char>>, p: Seq<int>, k: int, a: int) -> (m: int)
    requires
        g.wf(),
        g.is_update_order(root, o),
        0 <= a < o.len(),
        crate::dag::is_path(g.edges(), p),
        p[0] == pos(g.names(), o[a]),
        0 <= k < p.len(),
    ensures
        0 <= m <= a,
        o[m] == g.names()[p[k]],
        pos(g.names(), o[m]) == p[k],
    decreases k,
{
    let n = g.names();
    let e = g.edges();
    assert(o.contains(o[a]));
    assert(g.depends_upon(root, o[a]));
    if k == 0 {
        assert(0 <= pos(n, o[a]) < n.len() && n[pos(n, o[a])] == o[a]);
        lemma_pos_unique(n, pos(n, o[a]));
        a
    } else {
        let m0 = lemma_walk_goes_back(g, root, o, p, k - 1, a);
        assert(e.contains((p[k - 1], p[k - 1 + 1])));
        assert(0 <= p[k] < n.len());
        lemma_pos_unique(n, p[k]);
        let x = n[p[k]];
        // root reaches o[m0], hence x
        assert(o.contains(o[m0]));
        assert(g.depends_upon(root, o[m0]));
        let q = choose|q: Seq<int>| #[trigger] crate::dag::is_path(e, q) && q[0] == pos(n, root) && q.last() == pos(n, o[m0]);
        let q2 = q.push(p[k]);
        assert forall|t: int| 0 <= t < q2.len() - 1 implies #[trigger] e.contains((q2[t], q2[t + 1])) by {
            if t < q.len() - 1 {
                assert(q2[t] == q[t] && q2[t + 1] == q[t + 1]);
                assert(e.contains((q[t], q[t + 1])));
            }
        }
        assert(crate::dag::is_path(e, q2));
        assert(n.contains(x));
        assert(g.depends_upon(root, x));
        assert(o.contains(x));
        let m = choose|m: int| 0 <= m < o.len() && o[m] == x;
        assert(g.depends(o[m0], o[m]));
        if m > m0 {
            assert(!g.depends(o[m0], o[m]));
        }
        if m == m0 {
            assert(crate::dag::is_path(e, seq![p[k], p[k]]));
        }
        m
    }
}

proof fn lemma_flipped_len(e: Set<(int, int)>)
    requires
        e.finite(),
    ensures
        flipped(e).finite(),
        flipped(e).len() <= e.len(),
{
    let f = |x: (int, int)| (x.1, x.0);
    assert forall|x: (int, int)| #[trigger] flipped(e).contains(x) == e.map(f).contains(x) by {
        if flipped(e).contains(x) {
            assert(e.contains((x.1, x.0)) && f((x.1, x.0)) == x);
        }
    }
    assert(flipped(e) =~= e.map(f));
    vstd::set_lib::lemma_map_size_bound(e, flipped(e), f);
}

proof fn lemma_reaches_within(e: Set<(int, int)>, n: nat, a: int, b: int)
    requires
        edges_within(e, n),
        0 <= a < n,
        reaches(e, a, b),
    ensures
        0 <= b < n,
{
    let p = choose|p: Seq<int>| #[trigger] crate::dag::is_path(e, p) && p[0] == a && p.last() == b;
    if p.len() > 1 {
        assert(e.contains((p[p.len() - 2], p[p.len() - 2 + 1])));
    }
}

proof fn lemma_reaches_self(e: Set<(int, int)>, a: int)
    ensures
        reaches(e, a, a),
{
    assert(crate::dag::is_path(e, seq![a]));
}

proof fn lemma_pos_unique(s: Seq<Seq<char>>, i: int)
    requires
        s.no_duplicates(),
        0 <= i < s.len(),
    ensures
        pos(s, s[i]) == i,
{
    let j = pos(s, s[i]);
    assert(0 <= j < s.len() && s[j] == s[i]);
}

} // verus!
