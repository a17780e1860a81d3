//! The Mutex Watershed cut and its entry points.
use vstd::prelude::*;
use crate::forest::{forest_find, forest_new, forest_roots, forest_union, joined_roots, roots_wf, Forest};
use crate::model::{blocked, clustering_wf, conflict, run, same_partition, step, Clustering, EdgeView};
use crate::mutex_sets::{
    check_mutex, insert_mutex_for_two_representatives, merge_mutexes, shares_id, sorted_strict,
};

verus! {

/// The forest with roots `roots` and the mutex sets `mutexes` stand for the state `c`:
/// they group the nodes alike, and the set held at a node's root is the set of its cluster.
pub open spec fn represents(roots: Seq<u32>, mutexes: Seq<Vec<u32>>, c: Clustering) -> bool {
    &&& roots_wf(roots)
    &&& mutexes.len() == roots.len()
    &&& same_partition(roots, c.label)
    &&& clustering_wf(c, roots.len())
    &&& forall|r: int| 0 <= r < roots.len() ==> sorted_strict(#[trigger] mutexes[r]@)
    &&& forall|x: int|
        0 <= x < roots.len() ==> mutexes[roots[x] as int]@.to_set() == #[trigger] c.mutex[x]
}

/// Processes one edge: skips it, records a mutex constraint, or joins two clusters.
/// Returns whether anything changed.
fn process_edge(
    uf: &mut Forest,
    mutexes: &mut Vec<Vec<u32>>,
    edge_id: u32,
    from: u32,
    to: u32,
    is_mutex: bool,
    Ghost(c): Ghost<Clustering>,
) -> (changed: bool)
    requires
        represents(forest_roots(*old(uf)), old(mutexes)@, c),
        (from as int) < forest_roots(*old(uf)).len(),
        (to as int) < forest_roots(*old(uf)).len(),
    ensures
        forest_roots(*final(uf)).len() == forest_roots(*old(uf)).len(),
        represents(forest_roots(*final(uf)), final(mutexes)@, step(c, edge_id, (from, to, is_mutex))),
        changed == !blocked(c, from as int, to as int),
{
    let ghost roots = forest_roots(*uf);
    let ghost n = roots.len();
    let ghost c2 = step(c, edge_id, (from, to, is_mutex));
    let from_r = forest_find(uf, from);
    let to_r = forest_find(uf, to);
    assert((from_r as int) < n && roots[from_r as int] == from_r);
    assert((to_r as int) < n && roots[to_r as int] == to_r);
    if from_r == to_r {
        return false;
    }
    assert(c.label[from as int] != c.label[to as int]);
    if check_mutex(mutexes, from_r as usize, to_r as usize) {
        proof {
            let k = choose|k: u32|
                mutexes[from_r as int]@.contains(k) && mutexes[to_r as int]@.contains(k);
            assert(mutexes[from_r as int]@.to_set().contains(k));
            assert(mutexes[to_r as int]@.to_set().contains(k));
            assert(c.mutex[from as int].contains(k) && c.mutex[to as int].contains(k));
        }
        return false;
    }
    proof {
        if conflict(c, from as int, to as int) {
            let k = choose|k: u32| c.mutex[from as int].contains(k) && c.mutex[to as int].contains(k);
            assert(mutexes[from_r as int]@.to_set().contains(k));
            assert(mutexes[to_r as int]@.to_set().contains(k));
            assert(shares_id(mutexes[from_r as int]@, mutexes[to_r as int]@));
        }
    }
    let ghost old_m = mutexes@;
    if is_mutex {
        insert_mutex_for_two_representatives(mutexes, from_r as usize, to_r as usize, edge_id);
        proof {
            assert forall|x: int| 0 <= x < n implies mutexes@[roots[x] as int]@.to_set()
                == #[trigger] c2.mutex[x] by {
                if roots[x] == from_r {
                    assert(c.label[x] == c.label[from as int]);
                } else if roots[x] == to_r {
                    assert(c.label[x] == c.label[to as int]);
                } else {
                    assert(c.label[x] != c.label[from as int]);
                    assert(c.label[x] != c.label[to as int]);
                }
            }
        }
    } else {
        forest_union(uf, from_r, to_r);
        let ghost roots2 = forest_roots(*uf);
        let ghost s = choose|s: u32| (s == from_r || s == to_r) && roots2 == joined_roots(roots, from_r, to_r, s);
        let survivor = forest_find(uf, from_r);
        let ghost lost = if s == from_r { to_r } else { from_r };
        if survivor == to_r {
            merge_mutexes(mutexes, from_r as usize, to_r as usize);
        } else {
            merge_mutexes(mutexes, to_r as usize, from_r as usize);
        }
        proof {
            assert(roots2[from_r as int] == s);
            let la = c.label[from as int];
            let lb = c.label[to as int];
            assert forall|x: int, y: int| 0 <= x < n && 0 <= y < n implies (roots2[x] == roots2[y]
                <==> c2.label[x] == c2.label[y]) by {
                assert(roots[x] == from_r <==> c.label[x] == la);
                assert(roots[x] == to_r <==> c.label[x] == lb);
                assert(roots[y] == from_r <==> c.label[y] == la);
                assert(roots[y] == to_r <==> c.label[y] == lb);
                assert((roots[x] as int) < n && (roots[y] as int) < n);
            }
            assert forall|x: int| 0 <= x < n implies mutexes@[roots2[x] as int]@.to_set()
                == #[trigger] c2.mutex[x] by {
                if roots[x] == from_r {
                    assert(c.label[x] == la);
                    assert(old_m[from_r as int]@.to_set() == c.mutex[from as int]);
                    assert(old_m[to_r as int]@.to_set() == c.mutex[to as int]);
                    assert(c.mutex[from as int].union(c.mutex[to as int]) =~= c.mutex[to as int].union(c.mutex[from as int]));
                } else if roots[x] == to_r {
                    assert(c.label[x] == lb);
                    assert(c.mutex[from as int].union(c.mutex[to as int]) =~= c.mutex[to as int].union(c.mutex[from as int]));
                } else {
                    assert(c.label[x] != la);
                    assert(c.label[x] != lb);
                    assert(roots[roots[x] as int] == roots[x]);
                }
            }
            assert forall|x: int| 0 <= x < n implies (roots2[x] as int) < n && roots2[roots2[x] as int] == roots2[x] by {
                assert(roots[roots[x] as int] == roots[x]);
            }
        }
    }
    true
}

/// Read access to an edge, whatever its layout: its two endpoints and whether it is
/// a mutex edge.
pub trait Edge {
    /// The edge as the cut reads it.
    spec fn edge_view(&self) -> EdgeView;

    fn from(&self) -> (r: u32)
        ensures
            r == self.edge_view().0,
    ;

    fn to(&self) -> (r: u32)
        ensures
            r == self.edge_view().1,
    ;

    fn is_mutex_edge(&self) -> (r: bool)
        ensures
            r == self.edge_view().2,
    ;
}

/// An edge with a priority key: endpoints, key, mutex flag.
impl Edge for (u32, u32, u64, bool) {
    open spec fn edge_view(&self) -> EdgeView {
        (self.0, self.1, self.3)
    }

    fn from(&self) -> (r: u32) {
        self.0
    }

    fn to(&self) -> (r: u32) {
        self.1
    }

    fn is_mutex_edge(&self) -> (r: bool) {
        self.3
    }
}

/// An edge without weight, for streams that are already in priority order.
impl Edge for (u32, u32, bool) {
    open spec fn edge_view(&self) -> EdgeView {
        *self
    }

    fn from(&self) -> (r: u32) {
        self.0
    }

    fn to(&self) -> (r: u32) {
        self.1
    }

    fn is_mutex_edge(&self) -> (r: bool) {
        self.2
    }
}

/// The edges as the cut reads them.
pub open spec fn edges_view<E: Edge>(edges: Seq<E>) -> Seq<EdgeView> {
    Seq::new(edges.len(), |k: int| edges[k].edge_view())
}

/// What every cut asks of its input: node ids fit the forest's `u32` elements,
/// edge ids fit in `u32`, and every endpoint is a node.
pub open spec fn cut_input_ok(num_labels: nat, edges: Seq<EdgeView>) -> bool {
    &&& num_labels <= u32::MAX as int + 1
    &&& edges.len() <= u32::MAX as int + 1
    &&& crate::model::edges_in_range(num_labels, edges)
}

/// `num_labels` singleton mutex sets, all empty.
fn empty_mutex_sets(num_labels: usize) -> (m: Vec<Vec<u32>>)
    ensures
        m.len() == num_labels,
        forall|r: int| 0 <= r < num_labels ==> (#[trigger] m[r])@.len() == 0,
{
    let mut m: Vec<Vec<u32>> = Vec::new();
    let mut i: usize = 0;
    while i < num_labels
        invariant
            i <= num_labels,
            m.len() == i,
            forall|r: int| 0 <= r < i ==> (#[trigger] m[r])@.len() == 0,
        decreases num_labels - i,
    {
        m.push(Vec::new());
        i += 1;
    }
    m
}

/// The forest and mutex sets before any edge.
fn initial_state(num_labels: usize) -> (r: (Forest, Vec<Vec<u32>>))
    requires
        num_labels <= u32::MAX as int + 1,
    ensures
        forest_roots(r.0).len() == num_labels,
        represents(forest_roots(r.0), r.1@, crate::model::initial(num_labels as nat)),
{
    let uf = forest_new(num_labels);
    let m = empty_mutex_sets(num_labels);
    proof {
        let c = crate::model::initial(num_labels as nat);
        assert forall|x: int| 0 <= x < num_labels implies m@[forest_roots(uf)[x] as int]@.to_set()
            == #[trigger] c.mutex[x] by {
            assert(m@[x]@ =~= Seq::<u32>::empty());
            assert(m@[x]@.to_set() =~= Set::<u32>::empty());
        }
    }
    (uf, m)
}

/// Runs the cut over `sorted_edges`, taken in the order given, calling `callback`
/// with the forest after every edge that changed something.
pub fn mutex_watershed_mst_cut_with_callback<E: Edge, F: Fn(&Forest)>(
    num_labels: usize,
    sorted_edges: &[E],
    callback: F,
) -> (uf: Forest)
    requires
        cut_input_ok(num_labels as nat, edges_view(sorted_edges@)),
        forall|f: &Forest| call_requires(callback, (f,)),
    ensures
        roots_wf(forest_roots(uf)),
        same_partition(forest_roots(uf), run(num_labels as nat, edges_view(sorted_edges@)).label),
{
    let ghost view = edges_view(sorted_edges@);
    let (mut uf, mut mutexes) = initial_state(num_labels);
    let mut i: usize = 0;
    assert(view.take(0) =~= Seq::<EdgeView>::empty());
    while i < sorted_edges.len()
        invariant
            i <= sorted_edges.len(),
            view == edges_view(sorted_edges@),
            cut_input_ok(num_labels as nat, view),
            forest_roots(uf).len() == num_labels,
            represents(forest_roots(uf), mutexes@, run(num_labels as nat, view.take(i as int))),
            forall|f: &Forest| call_requires(callback, (f,)),
        decreases sorted_edges.len() - i,
    {
        let edge = &sorted_edges[i];
        let from = edge.from();
        let to = edge.to();
        let is_mutex = edge.is_mutex_edge();
        assert(view.take(i + 1).drop_last() =~= view.take(i as int));
        assert(view[i as int] == (from, to, is_mutex));
        let changed = process_edge(
            &mut uf,
            &mut mutexes,
            i as u32,
            from,
            to,
            is_mutex,
            Ghost(run(num_labels as nat, view.take(i as int))),
        );
        if changed {
            callback(&uf);
        }
        i += 1;
    }
    assert(view.take(i as int) =~= view);
    uf
}

/// Walks the items of `data` in the order that `indices` gives.
pub struct IndexArrayIter<'a, T> {
    pub data: &'a [T],
    pub indices: &'a [usize],
    pub pos: usize,
}

impl<'a, T> IndexArrayIter<'a, T> {
    /// Every index names an item and the walk has not gone past the end.
    pub open spec fn wf(&self) -> bool {
        &&& self.pos <= self.indices.len()
        &&& forall|k: int| 0 <= k < self.indices.len() ==> (#[trigger] self.indices@[k] as int) < self.data.len()
    }

    /// The items that the walk has yet to hand out, in order.
    pub open spec fn remaining(&self) -> Seq<T> {
        Seq::new(
            (self.indices.len() - self.pos) as nat,
            |k: int| self.data@[self.indices@[self.pos + k] as int],
        )
    }

    pub fn new(data: &'a [T], indices: &'a [usize]) -> (r: Self)
        requires
            forall|k: int| 0 <= k < indices.len() ==> (#[trigger] indices@[k] as int) < data.len(),
        ensures
            r.wf(),
            r.data == data,
            r.indices == indices,
            r.pos == 0,
            r.remaining() == Seq::new(indices.len() as nat, |k: int| data@[indices@[k] as int]),
    {
        IndexArrayIter { data: data, indices: indices, pos: 0 }
    }

    /// The next item, if any is left.
    pub fn next(&mut self) -> (r: Option<&'a T>)
        requires
            old(self).wf(),
        ensures
            final(self).wf(),
            final(self).data == old(self).data,
            final(self).indices == old(self).indices,
            old(self).remaining().len() == 0 ==> r.is_none() && *final(self) == *old(self),
            old(self).remaining().len() > 0 ==> r == Some(&old(self).remaining()[0])
                && final(self).remaining() == old(self).remaining().drop_first(),
    {
        if self.pos < self.indices.len() {
            let data: &'a [T] = self.data;
            let idx = self.indices[self.pos];
            self.pos = self.pos + 1;
            proof {
                assert(final(self).remaining() =~= old(self).remaining().drop_first());
            }
            Some(&data[idx])
        } else {
            None
        }
    }
}

/// Runs the cut over the items that `sorted_edges` hands out, in that order, calling
/// `callback` with the forest after every edge that changed something.
pub fn mutex_watershed_mst_cut_iter_with_callback<'a, E: Edge, F: Fn(&Forest)>(
    num_labels: usize,
    sorted_edges: IndexArrayIter<'a, E>,
    callback: F,
) -> (uf: Forest)
    requires
        sorted_edges.wf(),
        cut_input_ok(num_labels as nat, edges_view(sorted_edges.remaining())),
        forall|f: &Forest| call_requires(callback, (f,)),
    ensures
        roots_wf(forest_roots(uf)),
        same_partition(
            forest_roots(uf),
            run(num_labels as nat, edges_view(sorted_edges.remaining())).label,
        ),
{
    let ghost view = edges_view(sorted_edges.remaining());
    let mut iter = sorted_edges;
    let (mut uf, mut mutexes) = initial_state(num_labels);
    let mut edge_id: usize = 0;
    assert(view.take(0) =~= Seq::<EdgeView>::empty());
    assert(iter.remaining().skip(0) =~= iter.remaining());
    assert(view.skip(0) =~= view);
    loop
        invariant
            iter.wf(),
            edge_id <= view.len(),
            edges_view(iter.remaining()) =~= view.skip(edge_id as int),
            cut_input_ok(num_labels as nat, view),
            forest_roots(uf).len() == num_labels,
            represents(forest_roots(uf), mutexes@, run(num_labels as nat, view.take(edge_id as int))),
            forall|f: &Forest| call_requires(callback, (f,)),
            view.len() <= usize::MAX,
        ensures
            represents(forest_roots(uf), mutexes@, run(num_labels as nat, view)),
        decreases iter.remaining().len(),
    {
        let ghost before = iter.remaining();
        match iter.next() {
            Some(edge) => {
                assert(before.len() > 0);
                assert(edges_view(before).len() == before.len());
                assert(edges_view(before) =~= view.skip(edge_id as int));
                assert(edge_id < view.len());
                assert(edges_view(before)[0] == view[edge_id as int]);
                assert(*edge == before[0]);
                assert forall|k: int| 0 <= k < view.len() - edge_id - 1 implies #[trigger] edges_view(iter.remaining())[k]
                    == view[edge_id + 1 + k] by {
                    assert(iter.remaining()[k] == before[k + 1]);
                    assert(edges_view(before)[k + 1] == view.skip(edge_id as int)[k + 1]);
                }
                assert(edges_view(iter.remaining()) =~= view.skip(edge_id + 1));
                let from = edge.from();
                let to = edge.to();
                let is_mutex = edge.is_mutex_edge();
                assert(view.take(edge_id + 1).drop_last() =~= view.take(edge_id as int));
                let changed = process_edge(
                    &mut uf,
                    &mut mutexes,
                    edge_id as u32,
                    from,
                    to,
                    is_mutex,
                    Ghost(run(num_labels as nat, view.take(edge_id as int))),
                );
                if changed {
                    callback(&uf);
                }
                edge_id += 1;
            },
            None => {
                assert(before.len() == 0);
                assert(edges_view(before) =~= view.skip(edge_id as int));
                assert(view.skip(edge_id as int).len() == 0);
                assert(view.take(edge_id as int) =~= view);
                break ;
            },
        }
    }
    uf
}

/// The priority keys of the edges.
pub open spec fn keys_of(edges: Seq<(u32, u32, u64, bool)>) -> Seq<u64> {
    Seq::new(edges.len(), |k: int| edges[k].2)
}

/// Edge `i` comes before edge `j`: a higher key first, and on equal keys the earlier edge.
pub open spec fn precedes(keys: Seq<u64>, i: int, j: int) -> bool {
    keys[i] > keys[j] || (keys[i] == keys[j] && i < j)
}

/// `order` visits every edge once, by descending key, ties in input order.
pub open spec fn is_priority_order(keys: Seq<u64>, order: Seq<usize>) -> bool {
    &&& order.len() == keys.len()
    &&& forall|k: int| 0 <= k < order.len() ==> (#[trigger] order[k] as int) < keys.len()
    &&& forall|j: usize| (j as int) < keys.len() ==> #[trigger] order.contains(j)
    &&& forall|p: int, q: int|
        0 <= p < q < order.len() ==> precedes(keys, #[trigger] order[p] as int, #[trigger] order[q] as int)
}

/// The items of `items` in the order that `order` gives.
pub open spec fn reorder<T>(items: Seq<T>, order: Seq<usize>) -> Seq<T> {
    Seq::new(order.len(), |k: int| items[order[k] as int])
}

/// The indices of `edges` by descending key; edges of equal key keep their input order.
pub fn priority_order(edges: &[(u32, u32, u64, bool)]) -> (order: Vec<usize>)
    ensures
        is_priority_order(keys_of(edges@), order@),
{
    let ghost keys = keys_of(edges@);
    let mut order: Vec<usize> = Vec::new();
    let mut i: usize = 0;
    while i < edges.len()
        invariant
            keys == keys_of(edges@),
            i <= edges.len(),
            order.len() == i,
            forall|k: int| 0 <= k < i ==> (#[trigger] order@[k] as int) < i,
            forall|j: usize| j < i ==> #[trigger] order@.contains(j),
            forall|p: int, q: int|
                0 <= p < q < i ==> precedes(keys, #[trigger] order@[p] as int, #[trigger] order@[q] as int),
        decreases edges.len() - i,
    {
        let key = edges[i].2;
        let mut p: usize = 0;
        while p < order.len() && edges[order[p]].2 >= key
            invariant
                keys == keys_of(edges@),
                i < edges.len(),
                order.len() == i,
                p <= order.len(),
                forall|k: int| 0 <= k < i ==> (#[trigger] order@[k] as int) < i,
                forall|q: int| 0 <= q < p ==> keys[#[trigger] order@[q] as int] >= key,
            decreases order.len() - p,
        {
            p += 1;
        }
        let ghost before = order@;
        order.insert(p, i);
        proof {
            let after = order@;
            assert(after == before.insert(p as int, i));
            assert forall|k: int| 0 <= k < i + 1 implies (#[trigger] after[k] as int) < i + 1 by {
                if k < p {
                    assert(after[k] == before[k]);
                } else if k > p {
                    assert(after[k] == before[k - 1]);
                }
            }
            assert forall|j: usize| j < i + 1 implies #[trigger] after.contains(j) by {
                if j == i {
                    assert(after[p as int] == i);
                } else {
                    assert(before.contains(j));
                    let t = before.index_of(j);
                    if t < p {
                        assert(after[t] == j);
                    } else {
                        assert(after[t + 1] == j);
                    }
                }
            }
            assert forall|a: int, b: int| 0 <= a < b < i + 1 implies precedes(
                keys,
                #[trigger] after[a] as int,
                #[trigger] after[b] as int,
            ) by {
                if b < p {
                    assert(after[a] == before[a] && after[b] == before[b]);
                } else if a > p {
                    assert(after[a] == before[a - 1] && after[b] == before[b - 1]);
                } else if b == p {
                    assert(after[a] == before[a]);
                    assert((before[a] as int) < i);
                } else if a < p {
                    assert(after[a] == before[a] && after[b] == before[b - 1]);
                } else {
                    assert(after[b] == before[b - 1]);
                    assert(keys[before[p as int] as int] < key);
                    if b - 1 > p {
                        assert(precedes(keys, before[p as int] as int, before[b - 1] as int));
                    }
                }
            }
        }
        i += 1;
    }
    order
}

proof fn lemma_sorted_same_elements_equal(keys: Seq<u64>, o1: Seq<usize>, o2: Seq<usize>)
    requires
        forall|p: int, q: int| 0 <= p < q < o1.len() ==> precedes(keys, #[trigger] o1[p] as int, #[trigger] o1[q] as int),
        forall|p: int, q: int| 0 <= p < q < o2.len() ==> precedes(keys, #[trigger] o2[p] as int, #[trigger] o2[q] as int),
        forall|j: usize| #![trigger o1.contains(j)] #![trigger o2.contains(j)] o1.contains(j) <==> o2.contains(j),
    ensures
        o1 == o2,
    decreases o1.len(),
{
    if o1.len() == 0 {
        if o2.len() > 0 {
            assert(o2.contains(o2[0]));
        }
        assert(o1 =~= o2);
    } else if o2.len() == 0 {
        assert(o1.contains(o1[0]));
    } else {
        assert(o1.contains(o1[0]));
        assert(o2.contains(o2[0]));
        let q = o2.index_of(o1[0]);
        let p = o1.index_of(o2[0]);
        assert(o2[q] == o1[0] && o1[p] == o2[0]);
        if q > 0 && p > 0 {
            assert(precedes(keys, o2[0] as int, o2[q] as int));
            assert(precedes(keys, o1[0] as int, o1[p] as int));
        } else if q > 0 {
            assert(precedes(keys, o2[0] as int, o2[q] as int));
        } else if p > 0 {
            assert(precedes(keys, o1[0] as int, o1[p] as int));
        }
        assert(o1[0] == o2[0]);
        let r1 = o1.drop_first();
        let r2 = o2.drop_first();
        assert forall|j: usize| #![trigger r1.contains(j)] #![trigger r2.contains(j)] r1.contains(j) <==> r2.contains(j) by {
            if r1.contains(j) {
                let a = r1.index_of(j);
                assert(o1[a + 1] == j);
                assert(precedes(keys, o1[0] as int, o1[a + 1] as int));
                assert(o2.contains(j));
                let b = o2.index_of(j);
                assert(b != 0);
                assert(r2[b - 1] == j);
            }
            if r2.contains(j) {
                let a = r2.index_of(j);
                assert(o2[a + 1] == j);
                assert(precedes(keys, o2[0] as int, o2[a + 1] as int));
                assert(o1.contains(j));
                let b = o1.index_of(j);
                assert(b != 0);
                assert(r1[b - 1] == j);
            }
        }
        assert forall|p: int, q: int| 0 <= p < q < r1.len() implies precedes(keys, #[trigger] r1[p] as int, #[trigger] r1[q] as int) by {
            assert(r1[p] == o1[p + 1] && r1[q] == o1[q + 1]);
        }
        assert forall|p: int, q: int| 0 <= p < q < r2.len() implies precedes(keys, #[trigger] r2[p] as int, #[trigger] r2[q] as int) by {
            assert(r2[p] == o2[p + 1] && r2[q] == o2[q + 1]);
        }
        lemma_sorted_same_elements_equal(keys, r1, r2);
        assert(o1 =~= seq![o1[0]] + r1);
        assert(o2 =~= seq![o2[0]] + r2);
    }
}

/// There is only one priority order of a set of keys: edges of equal key are ranked
/// by position, so the order that the entry points use is fixed by the input.
pub proof fn lemma_priority_order_unique(keys: Seq<u64>, o1: Seq<usize>, o2: Seq<usize>)
    requires
        is_priority_order(keys, o1),
        is_priority_order(keys, o2),
    ensures
        o1 == o2,
{
    assert forall|j: usize| #![trigger o1.contains(j)] #![trigger o2.contains(j)] o1.contains(j) <==> o2.contains(j) by {
        if o1.contains(j) {
            assert(o1[o1.index_of(j)] == j);
        }
        if o2.contains(j) {
            assert(o2[o2.index_of(j)] == j);
        }
    }
    lemma_sorted_same_elements_equal(keys, o1, o2);
}

/// Sorts the edges into priority order and runs the cut over them, calling `callback`
/// with the forest after every edge that changed something.
pub fn compute_mutex_watershed_clustering_with_callback<F: Fn(&Forest)>(
    num_labels: usize,
    edges: &[(u32, u32, u64, bool)],
    callback: F,
) -> (uf: Forest)
    requires
        cut_input_ok(num_labels as nat, edges_view(edges@)),
        forall|f: &Forest| call_requires(callback, (f,)),
    ensures
        roots_wf(forest_roots(uf)),
        exists|order: Seq<usize>|
            is_priority_order(keys_of(edges@), order) && same_partition(
                forest_roots(uf),
                run(num_labels as nat, edges_view(reorder(edges@, order))).label,
            ),
        forall|order: Seq<usize>|
            is_priority_order(keys_of(edges@), order) ==> same_partition(
                forest_roots(uf),
                run(num_labels as nat, edges_view(reorder(edges@, order))).label,
            ),
{
    let order = priority_order(edges);
    let index_edges = IndexArrayIter::new(edges, order.as_slice());
    proof {
        assert(index_edges.remaining() =~= reorder(edges@, order@));
        let v = edges_view(reorder(edges@, order@));
        assert forall|k: int| 0 <= k < v.len() implies (v[k].0 as nat) < num_labels && (v[k].1 as nat)
            < num_labels by {
            assert(edges_view(edges@)[order@[k] as int] == v[k]);
        }
    }
    let uf = mutex_watershed_mst_cut_iter_with_callback(num_labels, index_edges, callback);
    assert(is_priority_order(keys_of(edges@), order@));
    proof {
        assert forall|o: Seq<usize>| is_priority_order(keys_of(edges@), o) implies same_partition(
            forest_roots(uf),
            run(num_labels as nat, edges_view(reorder(edges@, o))).label,
        ) by {
            lemma_priority_order_unique(keys_of(edges@), o, order@);
        }
    }
    uf
}

/// Sorts the edges into priority order and runs the cut over them.
pub fn compute_mutex_watershed_clustering(num_labels: usize, edges: &[(u32, u32, u64, bool)]) -> (uf: Forest)
    requires
        cut_input_ok(num_labels as nat, edges_view(edges@)),
    ensures
        roots_wf(forest_roots(uf)),
        exists|order: Seq<usize>|
            is_priority_order(keys_of(edges@), order) && same_partition(
                forest_roots(uf),
                run(num_labels as nat, edges_view(reorder(edges@, order))).label,
            ),
        forall|order: Seq<usize>|
            is_priority_order(keys_of(edges@), order) ==> same_partition(
                forest_roots(uf),
                run(num_labels as nat, edges_view(reorder(edges@, order))).label,
            ),
{
    compute_mutex_watershed_clustering_with_callback(num_labels, edges, |_f: &Forest| {})
}

} // verus!
