//! Per-cluster sets of mutex edge ids, each kept as a strictly ascending `Vec<u32>`.
use vstd::prelude::*;

verus! {

/// `s` is strictly ascending, hence free of duplicates.
pub open spec fn sorted_strict(s: Seq<u32>) -> bool {
    forall|i: int, j: int| 0 <= i < j < s.len() ==> s[i] < s[j]
}

/// The sets `a` and `b` have an element in common.
pub open spec fn shares_id(a: Seq<u32>, b: Seq<u32>) -> bool {
    exists|e: u32| a.contains(e) && b.contains(e)
}

/// Whether the mutex sets of the representatives `r_one` and `r_two` share an edge id,
/// found by one two-pointer scan over both.
pub fn check_mutex(mutexes: &Vec<Vec<u32>>, r_one: usize, r_two: usize) -> (r: bool)
    requires
        r_one < mutexes.len(),
        r_two < mutexes.len(),
        sorted_strict(mutexes[r_one as int]@),
        sorted_strict(mutexes[r_two as int]@),
    ensures
        r == shares_id(mutexes[r_one as int]@, mutexes[r_two as int]@),
{
    let l_one = &mutexes[r_one];
    let l_two = &mutexes[r_two];
    let mut i_one: usize = 0;
    let mut i_two: usize = 0;
    while i_one < l_one.len() && i_two < l_two.len()
        invariant
            l_one == &mutexes[r_one as int],
            l_two == &mutexes[r_two as int],
            sorted_strict(l_one@),
            sorted_strict(l_two@),
            i_one <= l_one.len(),
            i_two <= l_two.len(),
            // nothing shared lies before either pointer
            forall|a: int, b: int|
                0 <= a < l_one.len() && 0 <= b < l_two.len() && l_one@[a] == l_two@[b] ==> a
                    >= i_one && b >= i_two,
        decreases l_one.len() - i_one + l_two.len() - i_two,
    {
        if l_one[i_one] < l_two[i_two] {
            i_one += 1;
        } else if l_two[i_two] < l_one[i_one] {
            i_two += 1;
        } else {
            assert(l_one@.contains(l_one@[i_one as int]));
            assert(l_two@.contains(l_two@[i_two as int]));
            return true;
        }
    }
    proof {
        if shares_id(l_one@, l_two@) {
            let e = choose|e: u32| l_one@.contains(e) && l_two@.contains(e);
            let a = l_one@.index_of(e);
            let b = l_two@.index_of(e);
            assert(l_one@[a] == l_two@[b]);
        }
    }
    false
}

/// The position at which `x` stands, or would stand, in the ascending `v`.
fn insertion_point(v: &Vec<u32>, x: u32) -> (r: usize)
    requires
        sorted_strict(v@),
    ensures
        r <= v.len(),
        forall|i: int| 0 <= i < r ==> v@[i] < x,
        forall|i: int| r <= i < v.len() ==> v@[i] >= x,
{
    let mut lo: usize = 0;
    let mut hi: usize = v.len();
    while lo < hi
        invariant
            sorted_strict(v@),
            lo <= hi <= v.len(),
            forall|i: int| 0 <= i < lo ==> v@[i] < x,
            forall|i: int| hi <= i < v.len() ==> v@[i] >= x,
        decreases hi - lo,
    {
        let mid = lo + (hi - lo) / 2;
        if v[mid] < x {
            lo = mid + 1;
        } else {
            hi = mid;
        }
    }
    lo
}

/// Adds `edge_id` to the mutex set of the representative `r`; nothing changes if it is
/// already there.
pub fn insert_mutex(mutexes: &mut Vec<Vec<u32>>, r: usize, edge_id: u32)
    requires
        r < old(mutexes).len(),
        sorted_strict(old(mutexes)[r as int]@),
    ensures
        final(mutexes).len() == old(mutexes).len(),
        sorted_strict(final(mutexes)[r as int]@),
        final(mutexes)[r as int]@.to_set() == old(mutexes)[r as int]@.to_set().insert(edge_id),
        forall|k: int| 0 <= k < old(mutexes).len() && k != r ==> final(mutexes)[k] == old(mutexes)[k],
{
    let index = insertion_point(&mutexes[r], edge_id);
    if index < mutexes[r].len() && mutexes[r][index] == edge_id {
        proof {
            assert(mutexes[r as int]@.contains(edge_id));
            assert(mutexes[r as int]@.to_set().insert(edge_id) =~= mutexes[r as int]@.to_set());
        }
        return;
    }
    let ghost before = mutexes[r as int]@;
    mutexes[r].insert(index, edge_id);
    proof {
        let after = mutexes[r as int]@;
        assert(after == before.insert(index as int, edge_id));
        assert forall|i: int, j: int| 0 <= i < j < after.len() implies after[i] < after[j] by {
            if j < index {
            } else if i > index {
            } else if i == index {
                assert(before[j - 1] >= edge_id && before[j - 1] != edge_id);
            } else {
                assert(i < index);
                if j == index {
                } else {
                    assert(before[i] < before[j - 1]);
                }
            }
        }
        assert forall|e: u32| after.contains(e) == before.to_set().insert(edge_id).contains(e) by {
            if after.contains(e) {
                let p = after.index_of(e);
                if p < index {
                    assert(before[p] == e);
                } else if p > index {
                    assert(before[p - 1] == e);
                }
            }
            if before.contains(e) {
                let p = before.index_of(e);
                if p < index {
                    assert(after[p] == e);
                } else {
                    assert(after[p + 1] == e);
                }
            }
            if e == edge_id {
                assert(after[index as int] == e);
            }
        }
        assert(after.to_set() =~= before.to_set().insert(edge_id));
    }
}

/// Records a new mutex constraint `edge_id` between the clusters of `r_one` and `r_two`.
pub fn insert_mutex_for_two_representatives(
    mutexes: &mut Vec<Vec<u32>>,
    r_one: usize,
    r_two: usize,
    edge_id: u32,
)
    requires
        r_one < old(mutexes).len(),
        r_two < old(mutexes).len(),
        sorted_strict(old(mutexes)[r_one as int]@),
        sorted_strict(old(mutexes)[r_two as int]@),
    ensures
        final(mutexes).len() == old(mutexes).len(),
        sorted_strict(final(mutexes)[r_one as int]@),
        sorted_strict(final(mutexes)[r_two as int]@),
        final(mutexes)[r_one as int]@.to_set() == old(mutexes)[r_one as int]@.to_set().insert(edge_id),
        final(mutexes)[r_two as int]@.to_set() == old(mutexes)[r_two as int]@.to_set().insert(edge_id),
        forall|k: int|
            0 <= k < old(mutexes).len() && k != r_one && k != r_two ==> final(mutexes)[k] == old(
                mutexes,
            )[k],
{
    insert_mutex(mutexes, r_one, edge_id);
    insert_mutex(mutexes, r_two, edge_id);
    proof {
        if r_one == r_two {
            assert(mutexes[r_one as int]@.to_set() =~= old(mutexes)[r_one as int]@.to_set().insert(edge_id));
        }
    }
}

/// The union of the ascending `a` and `b`, ascending and without duplicates.
fn merge_sorted(a: &Vec<u32>, b: &Vec<u32>) -> (r: Vec<u32>)
    requires
        sorted_strict(a@),
        sorted_strict(b@),
    ensures
        sorted_strict(r@),
        r@.to_set() == a@.to_set().union(b@.to_set()),
{
    let mut r: Vec<u32> = Vec::new();
    let mut i: usize = 0;
    let mut j: usize = 0;
    while i < a.len() || j < b.len()
        invariant
            sorted_strict(a@),
            sorted_strict(b@),
            sorted_strict(r@),
            i <= a.len(),
            j <= b.len(),
            r.len() > 0 && i < a.len() ==> r@.last() < a@[i as int],
            r.len() > 0 && j < b.len() ==> r@.last() < b@[j as int],
            forall|e: u32|
                r@.contains(e) == (a@.subrange(0, i as int).contains(e) || b@.subrange(
                    0,
                    j as int,
                ).contains(e)),
        decreases a.len() - i + b.len() - j,
    {
        let ghost r0 = r@;
        let ghost i0 = i;
        let ghost j0 = j;
        let x: u32;
        if j >= b.len() || (i < a.len() && a[i] < b[j]) {
            x = a[i];
            i += 1;
        } else if i >= a.len() || b[j] < a[i] {
            x = b[j];
            j += 1;
        } else {
            x = a[i];
            i += 1;
            j += 1;
        }
        r.push(x);
        proof {
            assert(a@.subrange(0, i as int) =~= if i > i0 {
                a@.subrange(0, i0 as int).push(a@[i0 as int])
            } else {
                a@.subrange(0, i0 as int)
            });
            assert(b@.subrange(0, j as int) =~= if j > j0 {
                b@.subrange(0, j0 as int).push(b@[j0 as int])
            } else {
                b@.subrange(0, j0 as int)
            });
            assert forall|e: u32|
                r@.contains(e) == (a@.subrange(0, i as int).contains(e) || b@.subrange(
                    0,
                    j as int,
                ).contains(e)) by {
                if r@.contains(e) && e != x {
                    let p = r@.index_of(e);
                    assert(r0[p] == e);
                }
                if r0.contains(e) {
                    assert(r@[r0.index_of(e)] == e);
                }
                assert(r@[r0.len() as int] == x);
                if i > i0 {
                    let sa = a@.subrange(0, i0 as int);
                    if sa.contains(e) {
                        assert(sa.push(a@[i0 as int])[sa.index_of(e)] == e);
                    }
                    if sa.push(a@[i0 as int]).contains(e) && e != a@[i0 as int] {
                        assert(sa[sa.push(a@[i0 as int]).index_of(e)] == e);
                    }
                    assert(sa.push(a@[i0 as int])[i0 as int] == a@[i0 as int]);
                }
                if j > j0 {
                    let sb = b@.subrange(0, j0 as int);
                    if sb.contains(e) {
                        assert(sb.push(b@[j0 as int])[sb.index_of(e)] == e);
                    }
                    if sb.push(b@[j0 as int]).contains(e) && e != b@[j0 as int] {
                        assert(sb[sb.push(b@[j0 as int]).index_of(e)] == e);
                    }
                    assert(sb.push(b@[j0 as int])[j0 as int] == b@[j0 as int]);
                }
            }
        }
    }
    proof {
        assert(a@.subrange(0, i as int) =~= a@);
        assert(b@.subrange(0, j as int) =~= b@);
        assert(r@.to_set() =~= a@.to_set().union(b@.to_set()));
    }
    r
}

/// Moves the mutex set of `r_from` into that of `r_into`, after their clusters were
/// joined under `r_into`; the set of `r_from` is left empty.
pub fn merge_mutexes(mutexes: &mut Vec<Vec<u32>>, r_from: usize, r_into: usize)
    requires
        r_from < old(mutexes).len(),
        r_into < old(mutexes).len(),
        sorted_strict(old(mutexes)[r_from as int]@),
        sorted_strict(old(mutexes)[r_into as int]@),
    ensures
        final(mutexes).len() == old(mutexes).len(),
        r_from == r_into ==> final(mutexes)@ == old(mutexes)@,
        r_from != r_into ==> {
            &&& sorted_strict(final(mutexes)[r_into as int]@)
            &&& final(mutexes)[r_into as int]@.to_set() == old(mutexes)[r_into as int]@.to_set().union(
                old(mutexes)[r_from as int]@.to_set(),
            )
            &&& final(mutexes)[r_from as int]@.len() == 0
        },
        forall|k: int|
            0 <= k < old(mutexes).len() && k != r_from && k != r_into ==> final(mutexes)[k] == old(
                mutexes,
            )[k],
{
    if r_from == r_into {
        return;
    }
    if mutexes[r_from].len() == 0 {
        proof {
            assert(mutexes[r_from as int]@.to_set() =~= Set::empty());
            assert(mutexes[r_into as int]@.to_set().union(Set::empty()) =~= mutexes[r_into as int]@.to_set());
        }
        return;
    }
    let mut l_from: Vec<u32> = Vec::new();
    std::mem::swap(&mut l_from, &mut mutexes[r_from]);
    if mutexes[r_into].len() == 0 {
        proof {
            assert(old(mutexes)[r_into as int]@.to_set() =~= Set::empty());
            assert(Set::empty().union(l_from@.to_set()) =~= l_from@.to_set());
        }
        mutexes[r_into] = l_from;
        return;
    }
    let merged = merge_sorted(&mutexes[r_into], &l_from);
    mutexes[r_into] = merged;
}

} // verus!
