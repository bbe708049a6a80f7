use crate::kdbush::Coords;
use vstd::prelude::*;
use vstd::set_lib::{lemma_len_subset, lemma_subset_equality};

verus! {

/// Coordinate of a record on an axis (`0` is `x`, anything else `y`).
pub open spec fn coord_of<T: Coords>(p: T, axis: int) -> int {
    if axis == 0 {
        p.x_of() as int
    } else {
        p.y_of() as int
    }
}

/// Coordinate on `axis` of the record at tree position `p`.
pub open spec fn key_at<T: Coords>(pts: Seq<T>, ids: Seq<usize>, p: int, axis: int) -> int {
    coord_of(pts[ids[p] as int], axis)
}

pub open spec fn next_axis(axis: int) -> int {
    (axis + 1) % 2
}

/// `ids` is a permutation of `0..n`.
pub open spec fn is_perm(ids: Seq<usize>, n: int) -> bool {
    &&& ids.len() == n
    &&& forall|i: int| 0 <= i < n ==> #[trigger] ids[i] < n
    &&& forall|i: int, j: int| 0 <= i < n && 0 <= j < n && i != j ==> ids[i] != ids[j]
}

/// `b` is `a` with only the positions `lo..=hi` reordered among themselves.
pub open spec fn rearranged(a: Seq<usize>, b: Seq<usize>, lo: int, hi: int) -> bool {
    &&& a.len() == b.len()
    &&& forall|p: int| 0 <= p < a.len() && (p < lo || p > hi) ==> #[trigger] b[p] == a[p]
    &&& forall|p: int| lo <= p <= hi ==> #[trigger] found_in(a, b[p], lo, hi)
}

/// `v` stands at some position of `lo..=hi` in `a`.
pub open spec fn found_in(a: Seq<usize>, v: usize, lo: int, hi: int) -> bool {
    exists|q: int| lo <= q <= hi && #[trigger] a[q] == v
}

/// The implicit tree over positions `left..=right`: every range longer than a leaf bucket
/// has its median position ordered against both halves on `axis`, and both halves are
/// ordered in turn on the other axis.
pub open spec fn kd_ordered<T: Coords>(
    pts: Seq<T>,
    ids: Seq<usize>,
    node_size: nat,
    left: int,
    right: int,
    axis: int,
) -> bool
    decreases right - left + 1,
{
    if right - left <= node_size {
        true
    } else {
        let m = left + (right - left) / 2;
        &&& forall|p: int|
            left <= p < m ==> #[trigger] key_at(pts, ids, p, axis) <= key_at(pts, ids, m, axis)
        &&& forall|p: int|
            m < p <= right ==> #[trigger] key_at(pts, ids, p, axis) >= key_at(pts, ids, m, axis)
        &&& kd_ordered(pts, ids, node_size, left, m - 1, next_axis(axis))
        &&& kd_ordered(pts, ids, node_size, m + 1, right, next_axis(axis))
    }
}

pub proof fn lemma_swap(a: Seq<usize>, i: int, j: int, lo: int, hi: int, n: int)
    requires
        lo <= i <= hi,
        lo <= j <= hi,
        0 <= lo,
        hi < a.len(),
    ensures
        rearranged(a, a.update(i, a[j]).update(j, a[i]), lo, hi),
        is_perm(a, n) ==> is_perm(a.update(i, a[j]).update(j, a[i]), n),
{
    let b = a.update(i, a[j]).update(j, a[i]);
    assert forall|p: int| lo <= p <= hi implies #[trigger] found_in(a, b[p], lo, hi) by {
        if p == j {
            assert(b[p] == a[i]);
        } else if p == i {
            assert(b[p] == a[j]);
        } else {
            assert(b[p] == a[p]);
        }
    }
    if is_perm(a, n) {
        assert forall|x: int, y: int| 0 <= x < n && 0 <= y < n && x != y implies b[x] != b[y] by {
            let sx = if x == j { i } else if x == i { j } else { x };
            let sy = if y == j { i } else if y == i { j } else { y };
            assert(b[x] == a[sx]);
            assert(b[y] == a[sy]);
        }
        assert forall|x: int| 0 <= x < n implies #[trigger] b[x] < n by {
            let sx = if x == j { i } else if x == i { j } else { x };
            assert(b[x] == a[sx]);
        }
    }
}

pub proof fn lemma_rearranged_trans(a: Seq<usize>, b: Seq<usize>, c: Seq<usize>, lo: int, hi: int)
    requires
        rearranged(a, b, lo, hi),
        rearranged(b, c, lo, hi),
    ensures
        rearranged(a, c, lo, hi),
{
    assert forall|p: int| lo <= p <= hi implies #[trigger] found_in(a, c[p], lo, hi) by {
        assert(found_in(b, c[p], lo, hi));
        let q1 = choose|q: int| lo <= q <= hi && #[trigger] b[q] == c[p];
        assert(found_in(a, b[q1], lo, hi));
        let q2 = choose|q: int| lo <= q <= hi && #[trigger] a[q] == b[q1];
        assert(c[p] == a[q2]);
    }
}

pub proof fn lemma_rearranged_widen(a: Seq<usize>, b: Seq<usize>, lo: int, hi: int, lo2: int, hi2: int)
    requires
        rearranged(a, b, lo, hi),
        lo2 <= lo,
        hi <= hi2,
        0 <= lo2,
        hi2 < a.len(),
    ensures
        rearranged(a, b, lo2, hi2),
{
    assert forall|p: int| lo2 <= p <= hi2 implies #[trigger] found_in(a, b[p], lo2, hi2) by {
        if lo <= p <= hi {
            assert(found_in(a, b[p], lo, hi));
            let q1 = choose|q: int| lo <= q <= hi && #[trigger] a[q] == b[p];
            assert(b[p] == a[q1]);
        } else {
            assert(b[p] == a[p]);
        }
    }
}

pub proof fn lemma_kd_frame<T: Coords>(
    pts: Seq<T>,
    a: Seq<usize>,
    b: Seq<usize>,
    node_size: nat,
    left: int,
    right: int,
    axis: int,
)
    requires
        kd_ordered(pts, a, node_size, left, right, axis),
        forall|p: int| left <= p <= right ==> #[trigger] a[p] == b[p],
    ensures
        kd_ordered(pts, b, node_size, left, right, axis),
    decreases right - left + 1,
{
    if right - left > node_size {
        let m = left + (right - left) / 2;
        assert(key_at(pts, a, m, axis) == key_at(pts, b, m, axis));
        assert forall|p: int| left <= p < m implies #[trigger] key_at(pts, b, p, axis) <= key_at(
            pts,
            b,
            m,
            axis,
        ) by {
            assert(key_at(pts, a, p, axis) == key_at(pts, b, p, axis));
        }
        assert forall|p: int| m < p <= right implies #[trigger] key_at(pts, b, p, axis) >= key_at(
            pts,
            b,
            m,
            axis,
        ) by {
            assert(key_at(pts, a, p, axis) == key_at(pts, b, p, axis));
        }
        lemma_kd_frame(pts, a, b, node_size, left, m - 1, next_axis(axis));
        lemma_kd_frame(pts, a, b, node_size, m + 1, right, next_axis(axis));
    }
}

/// Of `left..=right`, the positions before `lo` hold nothing larger on `axis` than any
/// position from `lo` on, and the positions after `hi` nothing smaller than any up to `hi`.
pub open spec fn split_ok<T: Coords>(
    pts: Seq<T>,
    ids: Seq<usize>,
    axis: int,
    left: int,
    lo: int,
    hi: int,
    right: int,
) -> bool {
    &&& forall|p: int, q: int|
        left <= p < lo && lo <= q <= right ==> #[trigger] key_at(pts, ids, p, axis)
            <= #[trigger] key_at(pts, ids, q, axis)
    &&& forall|p: int, q: int|
        hi < p <= right && left <= q <= hi ==> #[trigger] key_at(pts, ids, p, axis)
            >= #[trigger] key_at(pts, ids, q, axis)
}

pub proof fn lemma_split_transport<T: Coords>(
    pts: Seq<T>,
    a: Seq<usize>,
    b: Seq<usize>,
    axis: int,
    left: int,
    lo: int,
    hi: int,
    right: int,
)
    requires
        split_ok(pts, a, axis, left, lo, hi, right),
        rearranged(a, b, lo, hi),
        0 <= left <= lo,
        hi <= right < a.len(),
    ensures
        split_ok(pts, b, axis, left, lo, hi, right),
{
    assert forall|p: int, q: int| left <= p < lo && lo <= q <= right implies #[trigger] key_at(
        pts,
        b,
        p,
        axis,
    ) <= #[trigger] key_at(pts, b, q, axis) by {
        assert(b[p] == a[p]);
        if q <= hi {
            assert(found_in(a, b[q], lo, hi));
            let w = choose|w: int| lo <= w <= hi && #[trigger] a[w] == b[q];
            assert(key_at(pts, a, p, axis) <= key_at(pts, a, w, axis));
        } else {
            assert(b[q] == a[q]);
            assert(key_at(pts, a, p, axis) <= key_at(pts, a, q, axis));
        }
    }
    assert forall|p: int, q: int| hi < p <= right && left <= q <= hi implies #[trigger] key_at(
        pts,
        b,
        p,
        axis,
    ) >= #[trigger] key_at(pts, b, q, axis) by {
        assert(b[p] == a[p]);
        if q >= lo {
            assert(found_in(a, b[q], lo, hi));
            let w = choose|w: int| lo <= w <= hi && #[trigger] a[w] == b[q];
            assert(key_at(pts, a, p, axis) >= key_at(pts, a, w, axis));
        } else {
            assert(b[q] == a[q]);
            assert(key_at(pts, a, p, axis) >= key_at(pts, a, q, axis));
        }
    }
}

pub proof fn lemma_split_after_partition<T: Coords>(
    pts: Seq<T>,
    ids: Seq<usize>,
    axis: int,
    left: int,
    lo: int,
    hi: int,
    right: int,
    j: int,
)
    requires
        split_ok(pts, ids, axis, left, lo, hi, right),
        left <= lo <= j <= hi <= right,
        forall|p: int| lo <= p < j ==> #[trigger] key_at(pts, ids, p, axis) <= key_at(pts, ids, j, axis),
        forall|p: int| j < p <= hi ==> #[trigger] key_at(pts, ids, p, axis) >= key_at(pts, ids, j, axis),
    ensures
        split_ok(pts, ids, axis, left, j + 1, hi, right),
        split_ok(pts, ids, axis, left, lo, j - 1, right),
        split_ok(pts, ids, axis, left, j, j, right),
{
    let kj = key_at(pts, ids, j, axis);
    assert forall|p: int, q: int| left <= p < j + 1 && j + 1 <= q <= right implies #[trigger] key_at(
        pts,
        ids,
        p,
        axis,
    ) <= #[trigger] key_at(pts, ids, q, axis) by {
        if p >= lo && q <= hi {
            assert(key_at(pts, ids, p, axis) <= kj);
            assert(key_at(pts, ids, q, axis) >= kj);
        }
    }
    assert forall|p: int, q: int| j - 1 < p <= right && left <= q <= j - 1 implies #[trigger] key_at(
        pts,
        ids,
        p,
        axis,
    ) >= #[trigger] key_at(pts, ids, q, axis) by {
        if p <= hi && q >= lo {
            assert(key_at(pts, ids, p, axis) >= kj);
            assert(key_at(pts, ids, q, axis) <= kj);
        }
    }
    assert forall|p: int, q: int| left <= p < j && j <= q <= right implies #[trigger] key_at(
        pts,
        ids,
        p,
        axis,
    ) <= #[trigger] key_at(pts, ids, q, axis) by {
        if p >= lo && q <= hi {
            assert(key_at(pts, ids, p, axis) <= kj);
            assert(key_at(pts, ids, q, axis) >= kj);
        }
    }
    assert forall|p: int, q: int| j < p <= right && left <= q <= j implies #[trigger] key_at(
        pts,
        ids,
        p,
        axis,
    ) >= #[trigger] key_at(pts, ids, q, axis) by {
        if p <= hi && q >= lo {
            assert(key_at(pts, ids, p, axis) >= kj);
            assert(key_at(pts, ids, q, axis) <= kj);
        }
    }
}

/// The record indices `0..n`.
pub open spec fn below(n: int) -> Set<usize> {
    Set::new(|v: usize| v < n)
}

proof fn lemma_below(n: int)
    requires
        0 <= n <= usize::MAX + 1,
    ensures
        below(n).finite(),
        below(n).len() == n,
    decreases n,
{
    if n == 0 {
        assert(below(0) =~= Set::<usize>::empty());
    } else {
        lemma_below(n - 1);
        assert(below(n - 1).insert((n - 1) as usize) =~= below(n));
    }
}

/// A permutation of `0..n` holds each of `0..n`.
pub proof fn lemma_perm_onto(ids: Seq<usize>, n: int)
    requires
        is_perm(ids, n),
    ensures
        ids.to_set() == below(n),
        n <= usize::MAX + 1,
        below(n).finite(),
        below(n).len() == n,
{
    assert(ids.no_duplicates()) by {
        assert forall|i: int, j: int| 0 <= i < ids.len() && 0 <= j < ids.len() && i != j implies ids[i]
            != ids[j] by {}
    }
    ids.unique_seq_to_set();
    lemma_below(usize::MAX + 1);
    assert(ids.to_set().subset_of(below(usize::MAX + 1)));
    lemma_len_subset(ids.to_set(), below(usize::MAX + 1));
    lemma_below(n);
    assert forall|v: usize| ids.to_set().contains(v) implies below(n).contains(v) by {
        let i = choose|i: int| 0 <= i < ids.len() && ids[i] == v;
    }
    lemma_subset_equality(ids.to_set(), below(n));
}

} // verus!
