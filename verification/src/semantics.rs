//! Removal of the points that a detected plane explains, as the plane
//! detector does it: by swap-removal, from the last position down.
use vstd::prelude::*;

verus! {

/// The sequence without position `i`: the last element takes its place.
pub open spec fn swap_removed<T>(s: Seq<T>, i: int) -> Seq<T> {
    s.update(i, s.last()).drop_last()
}

/// The sequence after swap-removing the positions of `idx`, the last
/// position of `idx` first.
pub open spec fn remove_positions<T>(s: Seq<T>, idx: Seq<usize>) -> Seq<T>
    decreases idx.len(),
{
    if idx.len() == 0 {
        s
    } else {
        remove_positions(swap_removed(s, idx.last() as int), idx.drop_last())
    }
}

/// The positions are strictly increasing and all below `n`.
pub open spec fn increasing_below(idx: Seq<usize>, n: nat) -> bool {
    &&& forall|a: int, b: int| 0 <= a < b < idx.len() ==> idx[a] < idx[b]
    &&& forall|a: int| 0 <= a < idx.len() ==> #[trigger] idx[a] < n
}

/// Removes the points at the positions `inliers` (strictly increasing),
/// the last position first; each removed point is replaced by the point
/// then last.
pub fn remove_inliers<T>(points: &mut Vec<T>, inliers: &Vec<usize>)
    requires
        increasing_below(inliers@, old(points)@.len()),
    ensures
        final(points)@ == remove_positions(old(points)@, inliers@),
        final(points)@.len() == old(points)@.len() - inliers@.len(),
{
    let mut k: usize = inliers.len();
    assert(inliers@.take(k as int) =~= inliers@);
    while k > 0
        invariant
            k <= inliers@.len(),
            increasing_below(inliers@, old(points)@.len()),
            points@.len() == old(points)@.len() - (inliers@.len() - k),
            remove_positions(old(points)@, inliers@) == remove_positions(points@, inliers@.take(k as int)),
        decreases k,
    {
        let idx = inliers[k - 1];
        proof {
            assert(inliers@.take(k as int).drop_last() =~= inliers@.take(k - 1));
            assert(inliers@.take(k as int).last() == idx);
            lemma_increasing_room(inliers@, old(points)@.len(), k as int);
        }
        points.swap_remove(idx);
        k = k - 1;
    }
    assert(inliers@.take(0) =~= Seq::<usize>::empty());
}

/// Position `k - 1` of a strictly increasing list of positions below `n`
/// leaves room for the `len - k` larger positions after it.
proof fn lemma_increasing_room(idx: Seq<usize>, n: nat, k: int)
    requires
        increasing_below(idx, n),
        0 < k <= idx.len(),
    ensures
        idx[k - 1] + (idx.len() - k) < n,
    decreases idx.len() - k,
{
    if k < idx.len() {
        lemma_increasing_room(idx, n, k + 1);
        assert(idx[k - 1] < idx[k]);
    }
}


/// The points at the positions `idx`, in the order of `idx`.
pub open spec fn at_positions<T>(s: Seq<T>, idx: Seq<usize>) -> Seq<T> {
    idx.map_values(|p: usize| s[p as int])
}

/// Swap-removing position `i` takes exactly the point there out of the
/// collection of points.
proof fn lemma_swap_removed_multiset<T>(s: Seq<T>, i: int)
    requires
        0 <= i < s.len(),
    ensures
        swap_removed(s, i).to_multiset().insert(s[i]) == s.to_multiset(),
{
    broadcast use {vstd::seq_lib::group_to_multiset_ensures, vstd::multiset::group_multiset_axioms};

    let t = s.update(i, s.last());
    vstd::seq_lib::to_multiset_update(s, i, s.last());
    assert(t.drop_last().push(t.last()) =~= t);
    assert(t.last() == s.last());
    assert(t.drop_last().to_multiset().insert(s.last()) == t.to_multiset());
    assert(s.contains(s[i]));
    assert(s.to_multiset().count(s[i]) > 0);
    let d = t.drop_last().to_multiset();
    assert forall|x: T| #[trigger] d.insert(s[i]).count(x) == s.to_multiset().count(x) by {
        assert(d.insert(s.last()).count(x) == s.to_multiset().insert(s.last()).remove(s[i]).count(x));
    }
    assert(d.insert(s[i]) =~= s.to_multiset());
}

/// The removal takes out exactly the points at the removed positions: the
/// points left and the points removed together make up the points given.
pub proof fn lemma_remove_positions_multiset<T>(s: Seq<T>, idx: Seq<usize>)
    requires
        increasing_below(idx, s.len()),
    ensures
        remove_positions(s, idx).to_multiset().add(at_positions(s, idx).to_multiset()) == s.to_multiset(),
    decreases idx.len(),
{
    broadcast use {vstd::seq_lib::group_to_multiset_ensures, vstd::multiset::group_multiset_axioms};

    if idx.len() == 0 {
        assert(at_positions(s, idx) =~= Seq::<T>::empty());
        assert(remove_positions(s, idx).to_multiset().add(at_positions(s, idx).to_multiset()) =~= s.to_multiset());
    } else {
        let last = idx.last() as int;
        let rest = idx.drop_last();
        let s2 = swap_removed(s, last);
        assert(increasing_below(rest, s2.len())) by {
            assert forall|a: int| 0 <= a < rest.len() implies #[trigger] rest[a] < s2.len() by {
                assert(idx[a] < idx[idx.len() - 1]);
            }
        }
        lemma_remove_positions_multiset(s2, rest);
        assert(at_positions(s2, rest) =~= at_positions(s, rest)) by {
            assert forall|a: int| 0 <= a < rest.len() implies at_positions(s2, rest)[a] == at_positions(s, rest)[a] by {
                assert(idx[a] < idx[idx.len() - 1]);
            }
        }
        assert(at_positions(s, idx) =~= at_positions(s, rest).push(s[last]));
        lemma_swap_removed_multiset(s, last);
        let left = remove_positions(s2, rest).to_multiset();
        assert(left.add(at_positions(s, idx).to_multiset()) =~= s.to_multiset());
    }
}

} // verus!
