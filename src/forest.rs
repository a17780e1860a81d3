//! The disjoint-set forest of the `disjoint-sets` crate, as seen by the proofs.
//!
//! A forest over `n` elements is modelled by the sequence of the roots of its
//! elements: `forest_roots(uf)[x]` is what `find(x)` returns.
use vstd::prelude::*;
use disjoint_sets::UnionFind;

verus! {

/// A disjoint-set forest over the elements `0..n`, held in a `UnionFind<u32>`.
#[verifier::external_body]
pub struct Forest {
    uf: UnionFind<u32>,
}

/// The root of each element of the forest, indexed by element.
pub uninterp spec fn forest_roots(uf: Forest) -> Seq<u32>;

/// Every element has a root in range, and every root is its own root.
pub open spec fn roots_wf(roots: Seq<u32>) -> bool {
    forall|x: int|
        0 <= x < roots.len() ==> (#[trigger] roots[x] as int) < roots.len() && roots[roots[x] as int] == roots[x]
}

/// Finding is a fixed point on any forest whose roots are well formed, as the cuts return: the representative of a
/// representative is itself, so finding again gives the same node.
pub proof fn lemma_find_idempotent(roots: Seq<u32>, x: int)
    requires
        roots_wf(roots),
        0 <= x < roots.len(),
    ensures
        roots[roots[x] as int] == roots[x],
{
}

/// The roots after joining the sets whose roots are `ra` and `rb`, with `s` surviving.
pub open spec fn joined_roots(roots: Seq<u32>, ra: u32, rb: u32, s: u32) -> Seq<u32> {
    Seq::new(
        roots.len(),
        |x: int| if roots[x] == ra || roots[x] == rb { s } else { roots[x] },
    )
}

/// Relies on `UnionFind::new`: `size` singleton sets, each element its own root;
/// it panics when an element would not fit in `u32`.
#[verifier::external_body]
pub(crate) fn forest_new(size: usize) -> (uf: Forest)
    requires
        size <= u32::MAX as int + 1,
    ensures
        forest_roots(uf) == Seq::new(size as nat, |x: int| x as u32),
{
    Forest { uf: UnionFind::new(size) }
}

/// Relies on `UnionFind::find`: the root of `x`; path compression changes no root.
/// It panics on an element out of range.
#[verifier::external_body]
pub(crate) fn forest_find(uf: &Forest, x: u32) -> (r: u32)
    requires
        (x as int) < forest_roots(*uf).len(),
    ensures
        r == forest_roots(*uf)[x as int],
{
    uf.uf.find(x)
}

/// Relies on `UnionFind::len`: the number of elements.
#[verifier::external_body]
pub(crate) fn forest_len(uf: &Forest) -> (r: usize)
    ensures
        r == forest_roots(*uf).len(),
{
    uf.uf.len()
}

impl Forest {
    /// The representative of the set that holds `x`.
    pub fn find(&self, x: u32) -> (r: u32)
        requires
            (x as int) < forest_roots(*self).len(),
        ensures
            r == forest_roots(*self)[x as int],
    {
        forest_find(self, x)
    }

    /// The number of elements.
    pub fn len(&self) -> (r: usize)
        ensures
            r == forest_roots(*self).len(),
    {
        forest_len(self)
    }
}

/// Relies on `UnionFind::union`: the sets of `a` and `b` are joined under one of
/// their two roots (the one of higher rank), and the result tells whether they
/// were different. It panics on an element out of range.
#[verifier::external_body]
pub(crate) fn forest_union(uf: &mut Forest, a: u32, b: u32) -> (r: bool)
    requires
        (a as int) < forest_roots(*old(uf)).len(),
        (b as int) < forest_roots(*old(uf)).len(),
    ensures
        r == (forest_roots(*old(uf))[a as int] != forest_roots(*old(uf))[b as int]),
        exists|s: u32|
            (s == forest_roots(*old(uf))[a as int] || s == forest_roots(*old(uf))[b as int])
                && forest_roots(*final(uf)) == joined_roots(
                forest_roots(*old(uf)),
                forest_roots(*old(uf))[a as int],
                forest_roots(*old(uf))[b as int],
                s,
            ),
{
    uf.uf.union(a, b)
}

} // verus!
