//! Paths and cycles over a finite edge set, and petgraph's acyclic graph
//! seen through that model.
use petgraph::acyclic::Acyclic;
use petgraph::graph::{DiGraph, NodeIndex};
use petgraph::visit::{DfsPostOrder, Walker};
use petgraph::Direction;
use vstd::prelude::*;

verus! {

/// `p` walks along edges of `e`.
pub open spec fn is_path(e: Set<(int, int)>, p: Seq<int>) -> bool {
    p.len() >= 1 && forall|k: int| 0 <= k < p.len() - 1 ==> #[trigger] e.contains((p[k], p[k + 1]))
}

/// `b` can be reached from `a` by following zero or more edges of `e`.
pub open spec fn reaches(e: Set<(int, int)>, a: int, b: int) -> bool {
    exists|p: Seq<int>| #[trigger] is_path(e, p) && p[0] == a && p.last() == b
}

/// No walk of one or more edges of `e` comes back to where it started.
pub open spec fn acyclic(e: Set<(int, int)>) -> bool {
    forall|p: Seq<int>| #[trigger] is_path(e, p) && p.len() > 1 ==> p[0] != p.last()
}

/// Every edge of `e` joins two of the nodes `0 .. n`.
pub open spec fn edges_within(e: Set<(int, int)>, n: nat) -> bool {
    forall|x: (int, int)| #[trigger] e.contains(x) ==> 0 <= x.0 < n && 0 <= x.1 < n
}

pub proof fn lemma_empty_acyclic()
    ensures
        acyclic(Set::<(int, int)>::empty()),
{
    assert forall|p: Seq<int>| #[trigger]
        is_path(Set::<(int, int)>::empty(), p) && p.len() > 1 implies p[0] != p.last() by {
        assert(Set::<(int, int)>::empty().contains((p[0], p[0int + 1])));
    }
}

pub proof fn lemma_path_subset(e: Set<(int, int)>, f: Set<(int, int)>, p: Seq<int>)
    requires
        is_path(e, p),
        e.subset_of(f),
    ensures
        is_path(f, p),
{
    assert forall|k: int| 0 <= k < p.len() - 1 implies #[trigger] f.contains((p[k], p[k + 1])) by {
        assert(e.contains((p[k], p[k + 1])));
    }
}

/// An edge from `a` to `b` closes a cycle when `b` already reaches `a`.
pub proof fn lemma_closing_edge(e: Set<(int, int)>, f: Set<(int, int)>, a: int, b: int)
    requires
        reaches(e, b, a),
        e.subset_of(f),
        f.contains((a, b)),
    ensures
        !acyclic(f),
{
    let p = choose|p: Seq<int>| #[trigger] is_path(e, p) && p[0] == b && p.last() == a;
    lemma_path_subset(e, f, p);
    let q = seq![a] + p;
    assert forall|k: int| 0 <= k < q.len() - 1 implies #[trigger] f.contains((q[k], q[k + 1])) by {
        if k > 0 {
            assert(q[k] == p[k - 1] && q[k + 1] == p[k]);
            assert(f.contains((p[k - 1], p[k - 1 + 1])));
        }
    }
    assert(is_path(f, q) && q.len() > 1 && q[0] == q.last());
}

/// Adding an edge from `a` to `b` keeps a graph acyclic when the two differ
/// and `b` does not reach `a`.
pub proof fn lemma_add_edge_acyclic(e: Set<(int, int)>, a: int, b: int)
    requires
        acyclic(e),
        a != b,
        !reaches(e, b, a),
    ensures
        acyclic(e.insert((a, b))),
{
    let f = e.insert((a, b));
    assert forall|p: Seq<int>| #[trigger] is_path(f, p) && p.len() > 1 implies p[0] != p.last() by {
        if p[0] == p.last() {
            if exists|k: int| 0 <= k < p.len() - 1 && #[trigger] p[k] == a && p[k + 1] == b {
                let k = choose|k: int| 0 <= k < p.len() - 1 && #[trigger] p[k] == a && p[k + 1] == b;
                // The walk around the cycle from `b` back to `a`.
                let q = p.subrange(k + 1, p.len() as int) + p.subrange(1, k + 1);
                assert(q[0] == b);
                assert(q.last() == a);
                assert forall|j: int| 0 <= j < q.len() - 1 implies #[trigger] f.contains(
                    (q[j], q[j + 1]),
                ) by {
                    let n = p.len() - (k + 1);
                    if j < n - 1 {
                        assert(q[j] == p[k + 1 + j] && q[j + 1] == p[k + 1 + j + 1]);
                        assert(f.contains((p[k + 1 + j], p[k + 1 + j + 1])));
                    } else if j == n - 1 {
                        assert(q[j] == p.last() && q[j + 1] == p[1]);
                        assert(f.contains((p[0], p[0int + 1])));
                    } else {
                        let t = j - n + 1;
                        assert(q[j] == p[t] && q[j + 1] == p[t + 1]);
                        assert(f.contains((p[t], p[t + 1])));
                    }
                }
                // Cut it at the first visit of `a`: that part avoids the new edge.
                let m = choose|m: int| 0 <= m < q.len() && q[m] == a && forall|i: int| 0 <= i < m ==> q[i] != a;
                lemma_first_index(q, a);
                let r = q.subrange(0, m + 1);
                assert forall|j: int| 0 <= j < r.len() - 1 implies #[trigger] e.contains(
                    (r[j], r[j + 1]),
                ) by {
                    assert(r[j] == q[j] && r[j + 1] == q[j + 1]);
                    assert(f.contains((q[j], q[j + 1])));
                    assert(q[j] != a);
                }
                assert(is_path(e, r) && r[0] == b && r.last() == a);
            } else {
                assert forall|j: int| 0 <= j < p.len() - 1 implies #[trigger] e.contains(
                    (p[j], p[j + 1]),
                ) by {
                    assert(f.contains((p[j], p[j + 1])));
                }
                assert(is_path(e, p));
            }
        }
    }
}

proof fn lemma_first_index(q: Seq<int>, a: int)
    requires
        q.contains(a),
    ensures
        exists|m: int| 0 <= m < q.len() && q[m] == a && forall|i: int| 0 <= i < m ==> q[i] != a,
    decreases q.len(),
{
    if q.last() == a && !q.drop_last().contains(a) {
        assert forall|i: int| 0 <= i < q.len() - 1 implies q[i] != a by {
            assert(q.drop_last()[i] == q[i]);
        }
    } else if q.last() == a {
        lemma_first_index(q.drop_last(), a);
        let m = choose|m: int|
            0 <= m < q.drop_last().len() && q.drop_last()[m] == a && forall|i: int|
                0 <= i < m ==> q.drop_last()[i] != a;
        assert(q[m] == a);
        assert forall|i: int| 0 <= i < m implies q[i] != a by {
            assert(q.drop_last()[i] == q[i]);
        }
    } else {
        let k = choose|k: int| 0 <= k < q.len() && q[k] == a;
        assert(q.drop_last()[k] == a);
        lemma_first_index(q.drop_last(), a);
        let m = choose|m: int|
            0 <= m < q.drop_last().len() && q.drop_last()[m] == a && forall|i: int|
                0 <= i < m ==> q.drop_last()[i] != a;
        assert(q[m] == a);
        assert forall|i: int| 0 <= i < m implies q[i] != a by {
            assert(q.drop_last()[i] == q[i]);
        }
    }
}

/// `e` with every edge turned around.
pub open spec fn flipped(e: Set<(int, int)>) -> Set<(int, int)> {
    Set::new(|x: (int, int)| e.contains((x.1, x.0)))
}

/// A walk along turned-around edges, read backwards, walks along the edges.
pub proof fn lemma_flipped_path(e: Set<(int, int)>, f: Set<(int, int)>, p: Seq<int>)
    requires
        is_path(f, p),
        f.subset_of(flipped(e)),
    ensures
        is_path(e, p.reverse()),
        p.reverse()[0] == p.last(),
        p.reverse().last() == p[0],
{
    let q = p.reverse();
    assert forall|k: int| 0 <= k < q.len() - 1 implies #[trigger] e.contains((q[k], q[k + 1])) by {
        let t = p.len() - 2 - k;
        assert(q[k] == p[t + 1] && q[k + 1] == p[t]);
        assert(f.contains((p[t], p[t + 1])));
    }
}

/// petgraph's acyclic directed graph of branch names. Node `i` is the `i`-th
/// node added; an edge runs from a branch to a branch it depends on. What it
/// holds is known through `dag_edges`, `dag_size` and `dag_edge_count`.
#[verifier::external_body]
#[derive(Debug)]
pub struct Dag {
    inner: Acyclic<DiGraph<String, ()>>,
}

/// The edges of `g`, as pairs of node positions.
pub uninterp spec fn dag_edges(g: Dag) -> Set<(int, int)>;

/// The number of nodes of `g`.
pub uninterp spec fn dag_size(g: Dag) -> nat;

/// The number of edges stored in `g`, counting parallel ones.
pub uninterp spec fn dag_edge_count(g: Dag) -> nat;

/// Relies on `Acyclic::new`: a graph with no node and no edge.
#[verifier::external_body]
pub(crate) fn dag_new() -> (r: Dag)
    ensures
        dag_size(r) == 0,
        dag_edges(r) == Set::<(int, int)>::empty(),
        dag_edge_count(r) == 0,
{
    Dag { inner: Acyclic::new() }
}

/// Relies on `Build::add_node` of `Acyclic`, which calls `Graph::add_node`: the
/// new node's index is the former node count and the edges stay as they were.
/// `Graph::add_node` panics once the `u32` indices run out.
#[verifier::external_body]
pub(crate) fn dag_add_node(g: &mut Dag, name: String) -> (r: usize)
    requires
        dag_size(*old(g)) < 0xFFFF_FFFE,
    ensures
        r == dag_size(*old(g)),
        dag_size(*final(g)) == dag_size(*old(g)) + 1,
        dag_edges(*final(g)) == dag_edges(*old(g)),
        dag_edge_count(*final(g)) == dag_edge_count(*old(g)),
{
    petgraph::data::Build::add_node(&mut g.inner, name).index()
}

/// Relies on `Acyclic::try_add_edge`: it adds the edge `a -> b` unless that
/// would make a self-loop or a cycle, in which case the graph is unchanged.
/// It panics on an unknown node, and `Graph::add_edge` panics once the `u32`
/// edge indices run out.
#[verifier::external_body]
pub(crate) fn dag_try_add_edge(g: &mut Dag, a: usize, b: usize) -> (r: bool)
    requires
        a < dag_size(*old(g)),
        b < dag_size(*old(g)),
        dag_edge_count(*old(g)) < 0xFFFF_FFFF,
    ensures
        r == !(a == b || reaches(dag_edges(*old(g)), b as int, a as int)),
        dag_size(*final(g)) == dag_size(*old(g)),
        r ==> dag_edges(*final(g)) == dag_edges(*old(g)).insert((a as int, b as int)),
        r ==> dag_edge_count(*final(g)) == dag_edge_count(*old(g)) + 1,
        !r ==> dag_edges(*final(g)) == dag_edges(*old(g)),
        !r ==> dag_edge_count(*final(g)) == dag_edge_count(*old(g)),
{
    g.inner.try_add_edge(NodeIndex::new(a), NodeIndex::new(b), ()).is_ok()
}

/// Relies on `Graph::reverse`, applied to a copy of the graph taken out of
/// its `Acyclic` wrapper and wrapped again with `Acyclic::try_from_graph`:
/// the same nodes and every edge turned around. Turning every edge around
/// keeps a graph acyclic, so the wrapping cannot fail.
#[verifier::external_body]
pub(crate) fn dag_reversed(g: &Dag) -> (r: Dag)
    ensures
        dag_size(r) == dag_size(*g),
        dag_edges(r) == flipped(dag_edges(*g)),
        dag_edge_count(r) == dag_edge_count(*g),
{
    let mut inner = g.inner.clone().into_inner();
    inner.reverse();
    Dag { inner: Acyclic::try_from_graph(inner).unwrap() }
}

/// Relies on `Graph::edge_count`: the number of edges stored.
#[verifier::external_body]
pub(crate) fn dag_edge_total(g: &Dag) -> (r: usize)
    ensures
        r == dag_edge_count(*g),
{
    g.inner.edge_count()
}

/// Relies on `Graph::neighbors_directed`: the nodes joined to `a` by an edge
/// leaving it (`outgoing`) or entering it.
#[verifier::external_body]
pub(crate) fn dag_neighbors(g: &Dag, a: usize, outgoing: bool) -> (r: Vec<usize>)
    requires
        a < dag_size(*g),
    ensures
        forall|x: usize|
            r@.contains(x) <==> (if outgoing {
                dag_edges(*g).contains((a as int, x as int))
            } else {
                dag_edges(*g).contains((x as int, a as int))
            }),
{
    let dir = if outgoing {
        Direction::Outgoing
    } else {
        Direction::Incoming
    };
    g.inner.neighbors_directed(NodeIndex::new(a), dir).map(|n| n.index()).collect()
}

/// Relies on `DfsPostOrder` walked to its end from `start`: each node reachable
/// from `start` once, and each after all the nodes it reaches, so in an acyclic
/// graph every edge leads to an earlier node; `start` comes last.
#[verifier::external_body]
pub(crate) fn dag_post_order(g: &Dag, start: usize) -> (r: Vec<usize>)
    requires
        start < dag_size(*g),
    ensures
        r@.len() > 0,
        r@.last() == start,
        r@.no_duplicates(),
        forall|k: int| 0 <= k < r@.len() ==> reaches(dag_edges(*g), start as int, #[trigger] r@[k] as int),
        forall|v: usize| reaches(dag_edges(*g), start as int, v as int) ==> #[trigger] r@.contains(v),
        forall|a: int, b: int|
            0 <= a < b < r@.len() ==> !#[trigger] dag_edges(*g).contains((r@[a] as int, r@[b] as int)),
{
    DfsPostOrder::new(&g.inner, NodeIndex::new(start)).iter(&g.inner).map(|n| n.index()).collect()
}

} // verus!
