//! The Mutex Watershed cut as a mathematical process over clusters.
//!
//! A state gives each node a cluster label and the set of mutex edge ids that
//! constrain its cluster. Edges are taken in the order given; the edge at position
//! `k` carries the id `k`.
use vstd::prelude::*;

verus! {

/// The abstract state of a cut: `label[x]` names the cluster of node `x`, and
/// `mutex[x]` holds the ids of the mutex edges that constrain that cluster.
pub struct Clustering {
    pub label: Seq<int>,
    pub mutex: Seq<Set<u32>>,
}

/// An edge as the cut reads it: its two endpoints and whether it is a mutex edge.
pub type EdgeView = (u32, u32, bool);

/// Every node is its own cluster and nothing is constrained.
pub open spec fn initial(n: nat) -> Clustering {
    Clustering { label: Seq::new(n, |x: int| x), mutex: Seq::new(n, |x: int| Set::empty()) }
}

/// The clusters of `x` and `y` hold a common mutex id.
pub open spec fn conflict(c: Clustering, x: int, y: int) -> bool {
    exists|k: u32| c.mutex[x].contains(k) && c.mutex[y].contains(k)
}

/// An edge between `x` and `y` in this state changes nothing: its endpoints are
/// already together, or their clusters are kept apart.
pub open spec fn blocked(c: Clustering, x: int, y: int) -> bool {
    c.label[x] == c.label[y] || conflict(c, x, y)
}

/// Processing the edge `e` with id `id`.
pub open spec fn step(c: Clustering, id: u32, e: EdgeView) -> Clustering {
    let a = e.0 as int;
    let b = e.1 as int;
    let la = c.label[a];
    let lb = c.label[b];
    if blocked(c, a, b) {
        c
    } else if e.2 {
        Clustering {
            label: c.label,
            mutex: Seq::new(
                c.mutex.len(),
                |x: int|
                    if c.label[x] == la || c.label[x] == lb {
                        c.mutex[x].insert(id)
                    } else {
                        c.mutex[x]
                    },
            ),
        }
    } else {
        Clustering {
            label: Seq::new(c.label.len(), |x: int| if c.label[x] == lb { la } else { c.label[x] }),
            mutex: Seq::new(
                c.mutex.len(),
                |x: int|
                    if c.label[x] == la || c.label[x] == lb {
                        c.mutex[a].union(c.mutex[b])
                    } else {
                        c.mutex[x]
                    },
            ),
        }
    }
}

/// The state after the first `edges.len()` edges, over `n` nodes.
pub open spec fn run(n: nat, edges: Seq<EdgeView>) -> Clustering
    decreases edges.len(),
{
    if edges.len() == 0 {
        initial(n)
    } else {
        step(run(n, edges.drop_last()), (edges.len() - 1) as u32, edges.last())
    }
}

/// All endpoints lie in `0..n`.
pub open spec fn edges_in_range(n: nat, edges: Seq<EdgeView>) -> bool {
    forall|k: int| 0 <= k < edges.len() ==> (edges[k].0 as nat) < n && (edges[k].1 as nat) < n
}

/// The state is over `n` nodes.
pub open spec fn clustering_wf(c: Clustering, n: nat) -> bool {
    &&& c.label.len() == n
    &&& c.mutex.len() == n
    &&& forall|x: int, y: int|
        0 <= x < n && 0 <= y < n && c.label[x] == c.label[y] ==> c.mutex[x] == c.mutex[y]
}

/// Two root sequences, or a root sequence and a labelling, group the nodes alike.
pub open spec fn same_partition(roots: Seq<u32>, label: Seq<int>) -> bool {
    &&& roots.len() == label.len()
    &&& forall|x: int, y: int|
        0 <= x < roots.len() && 0 <= y < roots.len() ==> (roots[x] == roots[y] <==> label[x]
            == label[y])
}

proof fn lemma_step_wf(c: Clustering, n: nat, id: u32, e: EdgeView)
    requires
        clustering_wf(c, n),
        (e.0 as nat) < n,
        (e.1 as nat) < n,
    ensures
        clustering_wf(step(c, id, e), n),
{
}

proof fn lemma_run_wf(n: nat, edges: Seq<EdgeView>)
    requires
        edges_in_range(n, edges),
    ensures
        clustering_wf(run(n, edges), n),
    decreases edges.len(),
{
    if edges.len() > 0 {
        let rest = edges.drop_last();
        assert(edges_in_range(n, rest));
        lemma_run_wf(n, rest);
        lemma_step_wf(run(n, rest), n, (edges.len() - 1) as u32, edges.last());
    }
}

/// The state after the first `k` edges.
pub open spec fn state_at(n: nat, edges: Seq<EdgeView>, k: int) -> Clustering {
    run(n, edges.take(k))
}

proof fn lemma_state_next(n: nat, edges: Seq<EdgeView>, k: int)
    requires
        0 <= k < edges.len(),
    ensures
        state_at(n, edges, k + 1) == step(state_at(n, edges, k), k as u32, edges[k]),
{
    assert(edges.take(k + 1).drop_last() =~= edges.take(k));
}

proof fn lemma_step_keeps_together(c: Clustering, n: nat, id: u32, e: EdgeView, x: int, y: int)
    requires
        clustering_wf(c, n),
        (e.0 as nat) < n,
        (e.1 as nat) < n,
        0 <= x < n,
        0 <= y < n,
        c.label[x] == c.label[y],
    ensures
        step(c, id, e).label[x] == step(c, id, e).label[y],
{
}

proof fn lemma_step_keeps_apart(c: Clustering, n: nat, id: u32, e: EdgeView, x: int, y: int)
    requires
        clustering_wf(c, n),
        (e.0 as nat) < n,
        (e.1 as nat) < n,
        0 <= x < n,
        0 <= y < n,
        c.label[x] != c.label[y],
        conflict(c, x, y),
    ensures
        step(c, id, e).label[x] != step(c, id, e).label[y],
        conflict(step(c, id, e), x, y),
{
    let c2 = step(c, id, e);
    let a = e.0 as int;
    let b = e.1 as int;
    let k = choose|k: u32| c.mutex[x].contains(k) && c.mutex[y].contains(k);
    if !blocked(c, a, b) && !e.2 {
        let la = c.label[a];
        let lb = c.label[b];
        if c.label[x] == la && c.label[y] == lb {
            assert(c.mutex[x] == c.mutex[a] && c.mutex[y] == c.mutex[b]);
        } else if c.label[x] == lb && c.label[y] == la {
            assert(c.mutex[x] == c.mutex[b] && c.mutex[y] == c.mutex[a]);
        }
        assert(c2.mutex[x].contains(k) && c2.mutex[y].contains(k));
    } else if !blocked(c, a, b) {
        assert(c2.mutex[x].contains(k) && c2.mutex[y].contains(k));
    }
}

proof fn lemma_state_wf(n: nat, edges: Seq<EdgeView>, k: int)
    requires
        edges_in_range(n, edges),
        0 <= k <= edges.len(),
    ensures
        clustering_wf(state_at(n, edges, k), n),
{
    assert(edges_in_range(n, edges.take(k)));
    lemma_run_wf(n, edges.take(k));
}

proof fn lemma_later_together(n: nat, edges: Seq<EdgeView>, k: int, j: int, x: int, y: int)
    requires
        edges_in_range(n, edges),
        0 <= k <= j <= edges.len(),
        0 <= x < n,
        0 <= y < n,
        state_at(n, edges, k).label[x] == state_at(n, edges, k).label[y],
    ensures
        state_at(n, edges, j).label[x] == state_at(n, edges, j).label[y],
    decreases j - k,
{
    if j > k {
        lemma_later_together(n, edges, k, j - 1, x, y);
        lemma_state_wf(n, edges, j - 1);
        lemma_state_next(n, edges, j - 1);
        lemma_step_keeps_together(state_at(n, edges, j - 1), n, (j - 1) as u32, edges[j - 1], x, y);
    }
}

proof fn lemma_later_apart(n: nat, edges: Seq<EdgeView>, k: int, j: int, x: int, y: int)
    requires
        edges_in_range(n, edges),
        0 <= k <= j <= edges.len(),
        0 <= x < n,
        0 <= y < n,
        state_at(n, edges, k).label[x] != state_at(n, edges, k).label[y],
        conflict(state_at(n, edges, k), x, y),
    ensures
        state_at(n, edges, j).label[x] != state_at(n, edges, j).label[y],
        conflict(state_at(n, edges, j), x, y),
    decreases j - k,
{
    if j > k {
        lemma_later_apart(n, edges, k, j - 1, x, y);
        lemma_state_wf(n, edges, j - 1);
        lemma_state_next(n, edges, j - 1);
        lemma_step_keeps_apart(state_at(n, edges, j - 1), n, (j - 1) as u32, edges[j - 1], x, y);
    }
}

/// Once two nodes lie in different clusters that share a mutex id, no later edge
/// ever brings them together: after the edges `prefix` and then any edges `rest`,
/// they are still apart and still share a mutex id.
pub proof fn lemma_mutex_set_soundness(
    n: nat,
    prefix: Seq<EdgeView>,
    rest: Seq<EdgeView>,
    x: int,
    y: int,
)
    requires
        edges_in_range(n, prefix + rest),
        0 <= x < n,
        0 <= y < n,
        run(n, prefix).label[x] != run(n, prefix).label[y],
        conflict(run(n, prefix), x, y),
    ensures
        run(n, prefix + rest).label[x] != run(n, prefix + rest).label[y],
        conflict(run(n, prefix + rest), x, y),
{
    let all = prefix + rest;
    assert(all.take(prefix.len() as int) =~= prefix);
    assert(all.take(all.len() as int) =~= all);
    lemma_later_apart(n, all, prefix.len() as int, all.len() as int, x, y);
}

/// A mutex edge `edges[k]` taken while its endpoints lie in different clusters keeps
/// every node of the one cluster apart from every node of the other to the end.
pub proof fn lemma_mutex_exclusivity(n: nat, edges: Seq<EdgeView>, k: int, x: int, y: int)
    requires
        edges_in_range(n, edges),
        0 <= k < edges.len(),
        edges[k].2,
        0 <= x < n,
        0 <= y < n,
        state_at(n, edges, k).label[x] == state_at(n, edges, k).label[edges[k].0 as int],
        state_at(n, edges, k).label[y] == state_at(n, edges, k).label[edges[k].1 as int],
        state_at(n, edges, k).label[edges[k].0 as int] != state_at(n, edges, k).label[edges[k].1 as int],
    ensures
        run(n, edges).label[x] != run(n, edges).label[y],
{
    let c = state_at(n, edges, k);
    let a = edges[k].0 as int;
    let b = edges[k].1 as int;
    lemma_state_wf(n, edges, k);
    lemma_state_next(n, edges, k);
    let c2 = state_at(n, edges, k + 1);
    if conflict(c, a, b) {
        let id = choose|id: u32| c.mutex[a].contains(id) && c.mutex[b].contains(id);
        assert(c.mutex[x] == c.mutex[a] && c.mutex[y] == c.mutex[b]);
        assert(c2 == c);
        assert(c2.mutex[x].contains(id) && c2.mutex[y].contains(id));
    } else {
        assert(c2.mutex[x].contains(k as u32) && c2.mutex[y].contains(k as u32));
    }
    lemma_later_apart(n, edges, k + 1, edges.len() as int, x, y);
    assert(edges.take(edges.len() as int) =~= edges);
}

/// The edge `edges[k]` is attractive and, when it is taken, its endpoints are not kept
/// apart by a shared mutex id.
pub open spec fn unblocked_attractive(n: nat, edges: Seq<EdgeView>, k: int) -> bool {
    let c = state_at(n, edges, k);
    &&& !edges[k].2
    &&& !(c.label[edges[k].0 as int] != c.label[edges[k].1 as int] && conflict(
        c,
        edges[k].0 as int,
        edges[k].1 as int,
    ))
}

/// The edge `e` joins the nodes `u` and `v`, in either direction.
pub open spec fn joins(e: EdgeView, u: int, v: int) -> bool {
    (e.0 == u && e.1 == v) || (e.0 == v && e.1 == u)
}

/// A chain of nodes `nodes[0], ..., nodes[m]` whose neighbours are joined by the
/// unblocked attractive edges `edges[links[0]], ..., edges[links[m - 1]]`.
pub open spec fn attractive_chain(n: nat, edges: Seq<EdgeView>, nodes: Seq<int>, links: Seq<int>) -> bool {
    &&& nodes.len() == links.len() + 1
    &&& forall|i: int| 0 <= i < nodes.len() ==> 0 <= #[trigger] nodes[i] < n
    &&& forall|i: int|
        0 <= i < links.len() ==> 0 <= #[trigger] links[i] < edges.len() && unblocked_attractive(n, edges, links[i])
            && joins(edges[links[i]], nodes[i], nodes[i + 1])
}

proof fn lemma_unblocked_joins(n: nat, edges: Seq<EdgeView>, k: int)
    requires
        edges_in_range(n, edges),
        0 <= k < edges.len(),
        unblocked_attractive(n, edges, k),
    ensures
        run(n, edges).label[edges[k].0 as int] == run(n, edges).label[edges[k].1 as int],
{
    lemma_state_wf(n, edges, k);
    lemma_state_next(n, edges, k);
    lemma_later_together(n, edges, k + 1, edges.len() as int, edges[k].0 as int, edges[k].1 as int);
    assert(edges.take(edges.len() as int) =~= edges);
}

/// Nodes joined by a chain of attractive edges, none of them blocked by a mutex
/// constraint when it is taken, end in one cluster.
pub proof fn lemma_attractive_transitivity(n: nat, edges: Seq<EdgeView>, nodes: Seq<int>, links: Seq<int>)
    requires
        edges_in_range(n, edges),
        attractive_chain(n, edges, nodes, links),
    ensures
        run(n, edges).label[nodes[0]] == run(n, edges).label[nodes.last()],
    decreases links.len(),
{
    if links.len() > 0 {
        let m = links.len() - 1;
        assert(attractive_chain(n, edges, nodes.drop_last(), links.drop_last()));
        lemma_attractive_transitivity(n, edges, nodes.drop_last(), links.drop_last());
        assert(0 <= links[m] < edges.len() && joins(edges[links[m]], nodes[m], nodes[m + 1]));
        lemma_unblocked_joins(n, edges, links[m]);
    }
}

/// On a forest whose roots group the nodes as the cut over `edges` does (what every
/// cut of this crate ensures), the mutex edge `edges[k]`, taken while its endpoints
/// lie in different clusters, leaves `find(x) != find(y)` for every `x` of the one
/// cluster and `y` of the other.
pub proof fn lemma_find_mutex_exclusivity(
    roots: Seq<u32>,
    n: nat,
    edges: Seq<EdgeView>,
    k: int,
    x: int,
    y: int,
)
    requires
        same_partition(roots, run(n, edges).label),
        roots.len() == n,
        edges_in_range(n, edges),
        0 <= k < edges.len(),
        edges[k].2,
        0 <= x < n,
        0 <= y < n,
        state_at(n, edges, k).label[x] == state_at(n, edges, k).label[edges[k].0 as int],
        state_at(n, edges, k).label[y] == state_at(n, edges, k).label[edges[k].1 as int],
        state_at(n, edges, k).label[edges[k].0 as int] != state_at(n, edges, k).label[edges[k].1 as int],
    ensures
        roots[x] != roots[y],
{
    lemma_mutex_exclusivity(n, edges, k, x, y);
}

/// On a forest whose roots group the nodes as the cut over `edges` does, the two ends
/// of a chain of unblocked attractive edges have the same `find`.
pub proof fn lemma_find_attractive_transitivity(
    roots: Seq<u32>,
    n: nat,
    edges: Seq<EdgeView>,
    nodes: Seq<int>,
    links: Seq<int>,
)
    requires
        same_partition(roots, run(n, edges).label),
        roots.len() == n,
        edges_in_range(n, edges),
        attractive_chain(n, edges, nodes, links),
    ensures
        roots[nodes[0]] == roots[nodes.last()],
{
    lemma_attractive_transitivity(n, edges, nodes, links);
    assert(0 <= nodes[0] < n && 0 <= nodes[nodes.len() - 1] < n);
}

} // verus!
