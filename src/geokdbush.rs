use crate::kdbush::{Coords, KDBush};
use crate::order::{below, kd_ordered, key_at, lemma_perm_onto, next_axis};
use vstd::prelude::*;

verus! {

/// A longitude/latitude rectangle in index coordinates, sides included.
#[derive(Clone, Copy, Debug)]
pub struct GeoBox {
    pub min_lng: i32,
    pub min_lat: i32,
    pub max_lng: i32,
    pub max_lat: i32,
}

impl GeoBox {
    pub open spec fn holds(self, x: int, y: int) -> bool {
        self.min_lng <= x <= self.max_lng && self.min_lat <= y <= self.max_lat
    }

    /// The rectangle that holds every coordinate.
    pub fn everything() -> (b: GeoBox)
        ensures
            forall|x: i32, y: i32| b.holds(x as int, y as int),
    {
        GeoBox { min_lng: i32::MIN, min_lat: i32::MIN, max_lng: i32::MAX, max_lat: i32::MAX }
    }
}

/// An entry of the search queue, keyed by `dist`.
#[derive(Clone, Copy, Debug)]
pub enum Pending {
    /// The record at tree position `pos`, whose distance is `dist`.
    Point { pos: usize, dist: u64 },
    /// The subtree over tree positions `left..=right`, split on `axis`, whose records lie in
    /// `bounds`; `dist` is at most the distance of each of them.
    Subtree { left: usize, right: usize, axis: u8, bounds: GeoBox, dist: u64 },
}

impl Pending {
    pub open spec fn key(self) -> u64 {
        match self {
            Pending::Point { dist, .. } => dist,
            Pending::Subtree { dist, .. } => dist,
        }
    }

    /// First tree position the entry stands for.
    pub open spec fn lo(self) -> int {
        match self {
            Pending::Point { pos, .. } => pos as int,
            Pending::Subtree { left, .. } => left as int,
        }
    }

    /// Last tree position the entry stands for.
    pub open spec fn hi(self) -> int {
        match self {
            Pending::Point { pos, .. } => pos as int,
            Pending::Subtree { right, .. } => right as int,
        }
    }

    pub open spec fn weight(self) -> nat {
        match self {
            Pending::Point { .. } => 1,
            Pending::Subtree { left, right, .. } => (2 * (right - left + 1)) as nat,
        }
    }

    fn dist(&self) -> (d: u64)
        ensures
            d == self.key(),
    {
        match self {
            Pending::Point { dist, .. } => *dist,
            Pending::Subtree { dist, .. } => *dist,
        }
    }
}

pub open spec fn total_weight(q: Seq<Pending>) -> nat
    decreases q.len(),
{
    if q.len() == 0 {
        0
    } else {
        total_weight(q.drop_last()) + q.last().weight()
    }
}

proof fn lemma_weight_push(q: Seq<Pending>, e: Pending)
    ensures
        total_weight(q.push(e)) == total_weight(q) + e.weight(),
{
    assert(q.push(e).drop_last() =~= q);
}

proof fn lemma_weight_remove(q: Seq<Pending>, i: int)
    requires
        0 <= i < q.len(),
    ensures
        total_weight(q.remove(i)) + q[i].weight() == total_weight(q),
    decreases q.len(),
{
    if i == q.len() - 1 {
        assert(q.remove(i) =~= q.drop_last());
    } else {
        let r = q.remove(i);
        assert(r.drop_last() =~= q.drop_last().remove(i));
        assert(r.last() == q.last());
        lemma_weight_remove(q.drop_last(), i);
    }
}

/// Every distance that `point_key` may give for the record is at least `k`.
pub open spec fn dist_at_least<T: Coords, D: Fn(i32, i32) -> u64>(point_key: D, pt: T, k: int) -> bool {
    forall|d: u64| #[trigger] point_key.ensures((pt.x_of(), pt.y_of()), d) ==> k <= d
}

/// Every distance that `point_key` may give for the record is at most `k`.
pub open spec fn dist_at_most<T: Coords, D: Fn(i32, i32) -> u64>(point_key: D, pt: T, k: int) -> bool {
    forall|d: u64| #[trigger] point_key.ensures((pt.x_of(), pt.y_of()), d) ==> d <= k
}

/// Record `a` is no farther than record `b`.
pub open spec fn no_farther<T: Coords, D: Fn(i32, i32) -> u64>(point_key: D, a: T, b: T) -> bool {
    forall|d: u64| #[trigger] point_key.ensures((b.x_of(), b.y_of()), d) ==> dist_at_most(point_key, a, d as int)
}

/// The predicate, when there is one, answered `true` for the record.
pub open spec fn accepted<P: Fn(usize) -> bool>(predicate: Option<P>, v: usize) -> bool {
    match predicate {
        Some(f) => f.ensures((v,), true),
        None => true,
    }
}

/// The predicate, when there is one, may be called on any record.
pub open spec fn callable<P: Fn(usize) -> bool>(predicate: Option<P>) -> bool {
    match predicate {
        Some(f) => forall|v: usize| #[trigger] f.requires((v,)),
        None => true,
    }
}

/// The predicate, when there is one, answered `false` for the record.
pub open spec fn rejected<P: Fn(usize) -> bool>(predicate: Option<P>, v: usize) -> bool {
    match predicate {
        Some(f) => f.ensures((v,), false),
        None => false,
    }
}

/// The distances that `point_key` gives depend on the coordinates alone.
pub open spec fn keys_functional<D: Fn(i32, i32) -> u64>(point_key: D) -> bool {
    forall|x: i32, y: i32, d1: u64, d2: u64|
        #[trigger] point_key.ensures((x, y), d1) && #[trigger] point_key.ensures((x, y), d2) ==> d1 == d2
}

/// The key that `box_key` gives a rectangle never exceeds the distance of a coordinate in it.
pub open spec fn keys_admissible<D: Fn(i32, i32) -> u64, B: Fn(GeoBox) -> u64>(
    point_key: D,
    box_key: B,
) -> bool {
    forall|b: GeoBox, k: u64, x: i32, y: i32, d: u64|
        #[trigger] box_key.ensures((b,), k) && b.holds(x as int, y as int) && #[trigger] point_key.ensures(
            (x, y),
            d,
        ) ==> k <= d
}

/// The record at tree position `p`.
pub open spec fn record_at<T: Coords>(index: &KDBush<T>, p: int) -> T {
    index.points@[index.ids@[p] as int]
}

/// The entry describes the index truly: a point carries the record's exact distance and
/// passed the predicate; a subtree is a subtree of the index, its records lie in its
/// rectangle, and its key is at most the distance of each of them.
pub open spec fn entry_ok<T: Coords, D: Fn(i32, i32) -> u64, P: Fn(usize) -> bool>(
    index: &KDBush<T>,
    point_key: D,
    predicate: Option<P>,
    e: Pending,
) -> bool {
    match e {
        Pending::Point { pos, dist } => {
            &&& pos < index.ids@.len()
            &&& point_key.ensures(
                (record_at(index, pos as int).x_of(), record_at(index, pos as int).y_of()),
                dist,
            )
            &&& accepted(predicate, index.ids@[pos as int])
        },
        Pending::Subtree { left, right, axis, bounds, dist } => {
            &&& left <= right < index.ids@.len()
            &&& axis <= 1
            &&& kd_ordered(index.points@, index.ids@, index.node_size as nat, left as int, right as int, axis as int)
            &&& forall|p: int|
                left <= p <= right ==> bounds.holds(
                    #[trigger] record_at(index, p).x_of() as int,
                    record_at(index, p).y_of() as int,
                ) && dist_at_least(point_key, record_at(index, p), dist as int)
        },
    }
}

fn min_index(q: &Vec<Pending>) -> (i: usize)
    requires
        q.len() > 0,
    ensures
        i < q.len(),
        forall|j: int| 0 <= j < q.len() ==> q@[i as int].key() <= #[trigger] q@[j].key(),
{
    let mut best: usize = 0;
    let mut j: usize = 1;
    while j < q.len()
        invariant
            best < j <= q.len(),
            forall|t: int| 0 <= t < j ==> q@[best as int].key() <= #[trigger] q@[t].key(),
        decreases q.len() - j,
    {
        if q[j].dist() < q[best].dist() {
            best = j;
        }
        j += 1;
    }
    best
}

/// Entry `j` of `q` stands for tree position `p`.
pub open spec fn stands_for(q: Seq<Pending>, j: int, p: int) -> bool {
    0 <= j < q.len() && q[j].lo() <= p <= q[j].hi()
}

/// `after` is `before` with entries pushed that describe the index truly, stand for
/// disjoint ranges of positions `left..=right`, account for each position there that the
/// predicate did not reject, and weigh less than the subtree over those positions.
pub open spec fn fresh_ok<T: Coords, D: Fn(i32, i32) -> u64, P: Fn(usize) -> bool>(
    index: &KDBush<T>,
    point_key: D,
    predicate: Option<P>,
    before: Seq<Pending>,
    after: Seq<Pending>,
    left: int,
    right: int,
) -> bool {
    &&& after.len() >= before.len()
    &&& forall|j: int| 0 <= j < before.len() ==> #[trigger] after[j] == before[j]
    &&& forall|j: int|
        before.len() <= j < after.len() ==> entry_ok(index, point_key, predicate, #[trigger] after[j])
            && left <= after[j].lo() && after[j].hi() <= right
    &&& forall|j1: int, j2: int|
        before.len() <= j1 < after.len() && before.len() <= j2 < after.len() && j1 != j2
            ==> #[trigger] after[j1].hi() < #[trigger] after[j2].lo() || after[j2].hi() < after[j1].lo()
    &&& forall|p: int|
        left <= p <= right ==> (exists|j: int| before.len() <= j && #[trigger] stands_for(after, j, p))
            || rejected(predicate, #[trigger] index.ids@[p])
    &&& total_weight(after) < total_weight(before) + 2 * (right - left + 1)
}

/// Pushes a point entry for each record at tree positions `left..=right` that passes the
/// predicate, keyed by its distance.
#[verifier::loop_isolation(false)]
fn push_leaf<T: Coords, D: Fn(i32, i32) -> u64, P: Fn(usize) -> bool>(
    index: &KDBush<T>,
    point_key: &D,
    predicate: &Option<P>,
    q: &mut Vec<Pending>,
    left: usize,
    right: usize,
)
    requires
        index.wf(),
        left <= right < index.ids@.len(),
        forall|x: i32, y: i32| point_key.requires((x, y)),
        callable(*predicate),
    ensures
        fresh_ok(index, *point_key, *predicate, old(q)@, final(q)@, left as int, right as int),
{
    let ghost q0 = q@;
    let n = index.ids.len();
    let mut j: usize = left;
    while j <= right
        invariant
            left <= j <= right + 1,
            right < n,
            q@.len() >= q0.len(),
            forall|t: int| 0 <= t < q0.len() ==> #[trigger] q@[t] == q0[t],
            forall|t: int|
                q0.len() <= t < q@.len() ==> entry_ok(index, *point_key, *predicate, #[trigger] q@[t])
                    && left <= q@[t].lo() && q@[t].hi() < j,
            forall|t1: int, t2: int|
                q0.len() <= t1 < q@.len() && q0.len() <= t2 < q@.len() && t1 != t2
                    ==> #[trigger] q@[t1].hi() < #[trigger] q@[t2].lo() || q@[t2].hi() < q@[t1].lo(),
            forall|t: int| q0.len() <= t < q@.len() ==> #[trigger] q@[t].lo() == q@[t].hi(),
            forall|t1: int, t2: int|
                q0.len() <= t1 < t2 < q@.len() ==> #[trigger] q@[t1].hi() < #[trigger] q@[t2].lo(),
            forall|p: int|
                left <= p < j ==> (exists|t: int| q0.len() <= t && #[trigger] stands_for(q@, t, p))
                    || rejected(*predicate, #[trigger] index.ids@[p]),
            total_weight(q@) <= total_weight(q0) + (j - left),
        decreases right + 1 - j,
    {
        let id = index.ids[j];
        let pass = match predicate {
            Some(f) => f(id),
            None => true,
        };
        if pass {
            let x = index.points[id].get_x();
            let y = index.points[id].get_y();
            let d = point_key(x, y);
            let ghost before = q@;
            let e = Pending::Point { pos: j, dist: d };
            q.push(e);
            proof {
                lemma_weight_push(before, e);
                assert(q@[q@.len() - 1] == e);
                assert forall|p: int| left <= p < j + 1 implies (exists|t: int|
                    q0.len() <= t && #[trigger] stands_for(q@, t, p)) || rejected(
                    *predicate,
                    #[trigger] index.ids@[p],
                ) by {
                    if p == j {
                        assert(stands_for(q@, q@.len() - 1, p));
                    } else if !rejected(*predicate, index.ids@[p]) {
                        let t = choose|t: int| q0.len() <= t && #[trigger] stands_for(before, t, p);
                        assert(stands_for(q@, t, p));
                    }
                }
            }
        }
        j += 1;
    }
}

/// Splits the subtree over tree positions `left..=right` (split on `axis`, records inside
/// `bounds`): pushes its median record when it passes the predicate, keyed by its distance,
/// and both halves with the rectangle narrowed at the median, keyed by `box_key`.
fn push_split<T: Coords, D: Fn(i32, i32) -> u64, B: Fn(GeoBox) -> u64, P: Fn(usize) -> bool>(
    index: &KDBush<T>,
    point_key: &D,
    box_key: &B,
    predicate: &Option<P>,
    q: &mut Vec<Pending>,
    left: usize,
    right: usize,
    axis: u8,
    bounds: GeoBox,
)
    requires
        index.wf(),
        left <= right < index.ids@.len(),
        right - left > index.node_size,
        axis <= 1,
        kd_ordered(index.points@, index.ids@, index.node_size as nat, left as int, right as int, axis as int),
        forall|p: int|
            left <= p <= right ==> bounds.holds(
                #[trigger] record_at(index, p).x_of() as int,
                record_at(index, p).y_of() as int,
            ),
        forall|x: i32, y: i32| point_key.requires((x, y)),
        forall|b: GeoBox| box_key.requires((b,)),
        callable(*predicate),
        keys_admissible(*point_key, *box_key),
    ensures
        fresh_ok(index, *point_key, *predicate, old(q)@, final(q)@, left as int, right as int),
{
    let ghost q0 = q@;
    let m: usize = left + (right - left) / 2;
    let id = index.ids[m];
    let mid_lng = index.points[id].get_x();
    let mid_lat = index.points[id].get_y();
    let pass = match predicate {
        Some(f) => f(id),
        None => true,
    };
    if pass {
        let d = point_key(mid_lng, mid_lat);
        let e = Pending::Point { pos: m, dist: d };
        q.push(e);
        proof {
            lemma_weight_push(q0, e);
        }
    }
    let ghost q1 = q@;
    let next: u8 = (axis + 1) % 2;
    let left_box = GeoBox {
        min_lng: bounds.min_lng,
        min_lat: bounds.min_lat,
        max_lng: if axis == 0 {
            mid_lng
        } else {
            bounds.max_lng
        },
        max_lat: if axis == 1 {
            mid_lat
        } else {
            bounds.max_lat
        },
    };
    let right_box = GeoBox {
        min_lng: if axis == 0 {
            mid_lng
        } else {
            bounds.min_lng
        },
        min_lat: if axis == 1 {
            mid_lat
        } else {
            bounds.min_lat
        },
        max_lng: bounds.max_lng,
        max_lat: bounds.max_lat,
    };
    let left_dist = box_key(left_box);
    let right_dist = box_key(right_box);
    let low = Pending::Subtree { left: left, right: m - 1, axis: next, bounds: left_box, dist: left_dist };
    let high = Pending::Subtree { left: m + 1, right: right, axis: next, bounds: right_box, dist: right_dist };
    proof {
        let pts = index.points@;
        let ids = index.ids@;
        assert(next as int == next_axis(axis as int));
        assert forall|p: int| left <= p <= m - 1 implies left_box.holds(
            #[trigger] record_at(index, p).x_of() as int,
            record_at(index, p).y_of() as int,
        ) && dist_at_least(*point_key, record_at(index, p), left_dist as int) by {
            assert(key_at(pts, ids, p, axis as int) <= key_at(pts, ids, m as int, axis as int));
            assert(bounds.holds(record_at(index, p).x_of() as int, record_at(index, p).y_of() as int));
        }
        assert forall|p: int| m + 1 <= p <= right implies right_box.holds(
            #[trigger] record_at(index, p).x_of() as int,
            record_at(index, p).y_of() as int,
        ) && dist_at_least(*point_key, record_at(index, p), right_dist as int) by {
            assert(key_at(pts, ids, p, axis as int) >= key_at(pts, ids, m as int, axis as int));
            assert(bounds.holds(record_at(index, p).x_of() as int, record_at(index, p).y_of() as int));
        }
        assert(entry_ok(index, *point_key, *predicate, low));
        assert(entry_ok(index, *point_key, *predicate, high));
    }
    q.push(low);
    let ghost q2 = q@;
    q.push(high);
    proof {
        lemma_weight_push(q1, low);
        lemma_weight_push(q2, high);
        let qn = q@;
        assert forall|p: int| left <= p <= right implies (exists|j: int|
            q0.len() <= j && #[trigger] stands_for(qn, j, p)) || rejected(
            *predicate,
            #[trigger] index.ids@[p],
        ) by {
            if p < m {
                assert(stands_for(qn, q1.len() as int, p));
            } else if p > m {
                assert(stands_for(qn, q1.len() as int + 1, p));
            } else if pass {
                assert(stands_for(qn, q0.len() as int, p));
            }
        }
    }
}

/// The state of the search: `result` holds the records at tree positions `out_pos`, in
/// order and each once, none of them farther than `last`; the queue entries describe the
/// index truly and stand for disjoint ranges of positions, none of them output, whose
/// records are no nearer than `last`; and every position is in the queue, output, or
/// rejected by the predicate.
pub open spec fn search_ok<T: Coords, D: Fn(i32, i32) -> u64, P: Fn(usize) -> bool>(
    index: &KDBush<T>,
    point_key: D,
    predicate: Option<P>,
    q: Seq<Pending>,
    result: Seq<usize>,
    out_pos: Seq<int>,
    last: int,
) -> bool {
    &&& result.len() == out_pos.len()
    &&& forall|a: int|
        0 <= a < out_pos.len() ==> 0 <= #[trigger] out_pos[a] < index.ids@.len() && result[a]
            == index.ids@[out_pos[a]]
    &&& out_pos.no_duplicates()
    &&& forall|j: int| 0 <= j < q.len() ==> entry_ok(index, point_key, predicate, #[trigger] q[j])
    &&& forall|j1: int, j2: int|
        0 <= j1 < q.len() && 0 <= j2 < q.len() && j1 != j2 ==> #[trigger] q[j1].hi()
            < #[trigger] q[j2].lo() || q[j2].hi() < q[j1].lo()
    &&& forall|a: int, j: int|
        0 <= a < out_pos.len() && 0 <= j < q.len() ==> !#[trigger] stands_for(q, j, out_pos[a])
    &&& forall|j: int, p: int|
        #[trigger] stands_for(q, j, p) ==> dist_at_least(point_key, record_at(index, p), last)
    &&& forall|a: int|
        0 <= a < result.len() ==> dist_at_most(point_key, index.points@[#[trigger] result[a] as int], last)
            && accepted(predicate, result[a])
    &&& forall|a: int, b: int|
        0 <= a < b < result.len() ==> no_farther(
            point_key,
            index.points@[#[trigger] result[a] as int],
            index.points@[#[trigger] result[b] as int],
        )
    &&& forall|p: int|
        0 <= p < index.ids@.len() ==> (exists|j: int| #[trigger] stands_for(q, j, p)) || out_pos.contains(p)
            || rejected(predicate, #[trigger] index.ids@[p])
}

proof fn lemma_entry_floor<T: Coords, D: Fn(i32, i32) -> u64, P: Fn(usize) -> bool>(
    index: &KDBush<T>,
    point_key: D,
    predicate: Option<P>,
    q: Seq<Pending>,
    j: int,
    p: int,
)
    requires
        keys_functional(point_key),
        entry_ok(index, point_key, predicate, q[j]),
        stands_for(q, j, p),
    ensures
        dist_at_least(point_key, record_at(index, p), q[j].key() as int),
{
    match q[j] {
        Pending::Point { pos, dist } => {
            assert(p == pos);
            let r = record_at(index, p);
            assert forall|d: u64| #[trigger] point_key.ensures((r.x_of(), r.y_of()), d) implies dist <= d by {
                assert(point_key.ensures((r.x_of(), r.y_of()), dist));
            }
        },
        Pending::Subtree { .. } => {
            assert(record_at(index, p) == record_at(index, p));
        },
    }
}

/// Each record of the index that is not in `result` and that the predicate did not reject
/// is no nearer than any record in `result`; and either `result` reached `max_results`, or
/// that record is farther than `max_distance`.
pub open spec fn rest_ok<T: Coords, D: Fn(i32, i32) -> u64, P: Fn(usize) -> bool>(
    index: &KDBush<T>,
    point_key: D,
    predicate: Option<P>,
    result: Seq<usize>,
    max_results: Option<usize>,
    max_distance: Option<u64>,
) -> bool {
    forall|p: int|
        0 <= p < index.ids@.len() && !result.contains(index.ids@[p]) && !rejected(
            predicate,
            #[trigger] index.ids@[p],
        ) ==> {
            &&& forall|a: int|
                0 <= a < result.len() ==> no_farther(
                    point_key,
                    index.points@[#[trigger] result[a] as int],
                    record_at(index, p),
                )
            &&& (max_results matches Some(k) && result.len() == k) || (max_distance matches Some(md)
                && dist_at_least(point_key, record_at(index, p), md + 1))
        }
}

proof fn lemma_search_result<T: Coords, D: Fn(i32, i32) -> u64, P: Fn(usize) -> bool>(
    index: &KDBush<T>,
    point_key: D,
    predicate: Option<P>,
    q: Seq<Pending>,
    result: Seq<usize>,
    out_pos: Seq<int>,
    last: int,
)
    requires
        index.wf(),
        search_ok(index, point_key, predicate, q, result, out_pos, last),
    ensures
        result.no_duplicates(),
        forall|a: int|
            0 <= a < result.len() ==> (#[trigger] result[a]) < index.points@.len() && accepted(predicate, result[a]),
        forall|p: int|
            0 <= p < index.ids@.len() && !result.contains(index.ids@[p]) && !rejected(
                predicate,
                #[trigger] index.ids@[p],
            ) ==> (exists|j: int| #[trigger] stands_for(q, j, p)) && forall|a: int|
                0 <= a < result.len() ==> no_farther(
                    point_key,
                    index.points@[#[trigger] result[a] as int],
                    record_at(index, p),
                ),
{
    let ids = index.ids@;
    assert forall|a: int, b: int| 0 <= a < result.len() && 0 <= b < result.len() && a != b implies result[a]
        != result[b] by {
        assert(out_pos[a] != out_pos[b]);
    }
    assert forall|a: int| 0 <= a < result.len() implies (#[trigger] result[a]) < index.points@.len() by {
        assert(0 <= out_pos[a] < ids.len());
    }
    assert forall|p: int|
        0 <= p < index.ids@.len() && !result.contains(index.ids@[p]) && !rejected(
            predicate,
            #[trigger] index.ids@[p],
        ) implies (exists|j: int| #[trigger] stands_for(q, j, p)) && forall|a: int|
        0 <= a < result.len() ==> no_farther(
            point_key,
            index.points@[#[trigger] result[a] as int],
            record_at(index, p),
        ) by {
        if out_pos.contains(p) {
            let a = choose|a: int| 0 <= a < out_pos.len() && out_pos[a] == p;
            assert(result[a] == ids[p]);
            assert(result.contains(ids[p]));
        }
        let j = choose|j: int| #[trigger] stands_for(q, j, p);
        assert(dist_at_least(point_key, record_at(index, p), last));
        assert forall|a: int| 0 <= a < result.len() implies no_farther(
            point_key,
            index.points@[#[trigger] result[a] as int],
            record_at(index, p),
        ) by {
            assert(dist_at_most(point_key, index.points@[result[a] as int], last));
        }
    }
}

proof fn lemma_step_point<T: Coords, D: Fn(i32, i32) -> u64, P: Fn(usize) -> bool>(
    index: &KDBush<T>,
    point_key: D,
    predicate: Option<P>,
    q: Seq<Pending>,
    i: int,
    result: Seq<usize>,
    out_pos: Seq<int>,
    last: int,
)
    requires
        index.wf(),
        keys_functional(point_key),
        search_ok(index, point_key, predicate, q, result, out_pos, last),
        0 <= i < q.len(),
        q[i] is Point,
        forall|j: int| 0 <= j < q.len() ==> q[i].key() <= #[trigger] q[j].key(),
    ensures
        search_ok(
            index,
            point_key,
            predicate,
            q.remove(i),
            result.push(index.ids@[q[i]->Point_pos as int]),
            out_pos.push(q[i]->Point_pos as int),
            q[i].key() as int,
        ),
{
    let pos = q[i]->Point_pos as int;
    let dist = q[i].key();
    let ids = index.ids@;
    let pts = index.points@;
    let qr = q.remove(i);
    let res = result.push(ids[pos]);
    let outs = out_pos.push(pos);
    let r = record_at(index, pos);
    q.remove_ensures(i);
    assert(stands_for(q, i, pos));
    assert(entry_ok(index, point_key, predicate, q[i]));
    assert(point_key.ensures((r.x_of(), r.y_of()), dist));
    assert(last <= dist);
    assert forall|d: u64| #[trigger] point_key.ensures((r.x_of(), r.y_of()), d) implies d == dist by {}
    assert(pts[res[result.len() as int] as int] == r);
    assert forall|j: int| 0 <= j < qr.len() implies entry_ok(index, point_key, predicate, #[trigger] qr[j]) by {
        if j < i {
            assert(qr[j] == q[j]);
        } else {
            assert(qr[j] == q[j + 1]);
        }
    }
    assert forall|j1: int, j2: int|
        0 <= j1 < qr.len() && 0 <= j2 < qr.len() && j1 != j2 implies #[trigger] qr[j1].hi()
        < #[trigger] qr[j2].lo() || qr[j2].hi() < qr[j1].lo() by {
        let k1 = if j1 < i { j1 } else { j1 + 1 };
        let k2 = if j2 < i { j2 } else { j2 + 1 };
        assert(qr[j1] == q[k1]);
        assert(qr[j2] == q[k2]);
        assert(q[k1].hi() < q[k2].lo() || q[k2].hi() < q[k1].lo());
    }
    assert forall|a: int, j: int| 0 <= a < outs.len() && 0 <= j < qr.len() implies !#[trigger] stands_for(
        qr,
        j,
        outs[a],
    ) by {
        let k = if j < i { j } else { j + 1 };
        assert(qr[j] == q[k]);
        if a < out_pos.len() {
            assert(!stands_for(q, k, out_pos[a]));
        } else {
            assert(q[k].hi() < q[i].lo() || q[i].hi() < q[k].lo());
        }
    }
    assert forall|j: int, p: int| #[trigger] stands_for(qr, j, p) implies dist_at_least(
        point_key,
        record_at(index, p),
        dist as int,
    ) by {
        let k = if j < i { j } else { j + 1 };
        assert(qr[j] == q[k]);
        assert(stands_for(q, k, p));
        lemma_entry_floor(index, point_key, predicate, q, k, p);
    }
    assert forall|a: int| 0 <= a < res.len() implies dist_at_most(
        point_key,
        pts[#[trigger] res[a] as int],
        dist as int,
    ) && accepted(predicate, res[a]) by {
        if a < result.len() {
            assert(res[a] == result[a]);
            assert(dist_at_most(point_key, pts[result[a] as int], last));
        }
    }
    assert forall|a: int, b: int| 0 <= a < b < res.len() implies no_farther(
        point_key,
        pts[#[trigger] res[a] as int],
        pts[#[trigger] res[b] as int],
    ) by {
        assert(res[a] == result[a]);
        if b < result.len() {
            assert(res[b] == result[b]);
        } else {
            assert(dist_at_most(point_key, pts[result[a] as int], last));
        }
    }
    assert(!out_pos.contains(pos)) by {
        if out_pos.contains(pos) {
            let a = choose|a: int| 0 <= a < out_pos.len() && out_pos[a] == pos;
            assert(!stands_for(q, i, out_pos[a]));
        }
    }
    assert forall|a: int| 0 <= a < outs.len() implies 0 <= #[trigger] outs[a] < ids.len() && res[a] == ids[outs[a]] by {
        if a < out_pos.len() {
            assert(outs[a] == out_pos[a]);
        }
    }
    assert forall|p: int| 0 <= p < ids.len() implies (exists|j: int| #[trigger] stands_for(qr, j, p))
        || outs.contains(p) || rejected(predicate, #[trigger] index.ids@[p]) by {
        if exists|j: int| #[trigger] stands_for(q, j, p) {
            let j = choose|j: int| #[trigger] stands_for(q, j, p);
            if j == i {
                assert(outs[out_pos.len() as int] == p);
            } else if j < i {
                assert(qr[j] == q[j]);
                assert(stands_for(qr, j, p));
            } else {
                assert(qr[j - 1] == q[j]);
                assert(stands_for(qr, j - 1, p));
            }
        } else if out_pos.contains(p) {
            let a = choose|a: int| 0 <= a < out_pos.len() && out_pos[a] == p;
            assert(outs[a] == p);
        }
    }
}

proof fn lemma_step_split<T: Coords, D: Fn(i32, i32) -> u64, P: Fn(usize) -> bool>(
    index: &KDBush<T>,
    point_key: D,
    predicate: Option<P>,
    q: Seq<Pending>,
    i: int,
    qn: Seq<Pending>,
    result: Seq<usize>,
    out_pos: Seq<int>,
    last: int,
)
    requires
        index.wf(),
        search_ok(index, point_key, predicate, q, result, out_pos, last),
        0 <= i < q.len(),
        fresh_ok(index, point_key, predicate, q.remove(i), qn, q[i].lo(), q[i].hi()),
    ensures
        search_ok(index, point_key, predicate, qn, result, out_pos, last),
{
    let qr = q.remove(i);
    let ids = index.ids@;
    q.remove_ensures(i);
    let lo = q[i].lo();
    let hi = q[i].hi();
    assert forall|j: int| 0 <= j < qn.len() implies entry_ok(index, point_key, predicate, #[trigger] qn[j]) by {
        if j < qr.len() {
            assert(qn[j] == qr[j]);
            if j < i {
                assert(qr[j] == q[j]);
            } else {
                assert(qr[j] == q[j + 1]);
            }
        }
    }
    assert forall|j1: int, j2: int|
        0 <= j1 < qn.len() && 0 <= j2 < qn.len() && j1 != j2 implies #[trigger] qn[j1].hi()
        < #[trigger] qn[j2].lo() || qn[j2].hi() < qn[j1].lo() by {
        let k1 = if j1 < i { j1 } else { j1 + 1 };
        let k2 = if j2 < i { j2 } else { j2 + 1 };
        if j1 < qr.len() {
            assert(qn[j1] == qr[j1]);
            assert(qr[j1] == q[k1]);
        }
        if j2 < qr.len() {
            assert(qn[j2] == qr[j2]);
            assert(qr[j2] == q[k2]);
        }
        if j1 < qr.len() && j2 < qr.len() {
            assert(q[k1].hi() < q[k2].lo() || q[k2].hi() < q[k1].lo());
        } else if j1 < qr.len() {
            assert(q[k1].hi() < q[i].lo() || q[i].hi() < q[k1].lo());
        } else if j2 < qr.len() {
            assert(q[k2].hi() < q[i].lo() || q[i].hi() < q[k2].lo());
        }
    }
    assert forall|a: int, j: int| 0 <= a < out_pos.len() && 0 <= j < qn.len() implies !#[trigger] stands_for(
        qn,
        j,
        out_pos[a],
    ) by {
        let k = if j < i { j } else { j + 1 };
        if j < qr.len() {
            assert(qn[j] == qr[j]);
            assert(qr[j] == q[k]);
            assert(!stands_for(q, k, out_pos[a]));
        } else {
            assert(!stands_for(q, i, out_pos[a]));
        }
    }
    assert forall|j: int, p: int| #[trigger] stands_for(qn, j, p) implies dist_at_least(
        point_key,
        record_at(index, p),
        last,
    ) by {
        let k = if j < i { j } else { j + 1 };
        if j < qr.len() {
            assert(qn[j] == qr[j]);
            assert(qr[j] == q[k]);
            assert(stands_for(q, k, p));
        } else {
            assert(stands_for(q, i, p));
        }
    }
    assert forall|p: int| 0 <= p < ids.len() implies (exists|j: int| #[trigger] stands_for(qn, j, p))
        || out_pos.contains(p) || rejected(predicate, #[trigger] index.ids@[p]) by {
        if exists|j: int| #[trigger] stands_for(q, j, p) {
            let j = choose|j: int| #[trigger] stands_for(q, j, p);
            if j == i {
                assert(lo <= p <= hi);
            } else if j < i {
                assert(qn[j] == qr[j]);
                assert(qr[j] == q[j]);
                assert(stands_for(qn, j, p));
            } else {
                assert(qn[j - 1] == qr[j - 1]);
                assert(qr[j - 1] == q[j]);
                assert(stands_for(qn, j - 1, p));
            }
        }
    }
}

/// What `rest_ok` says, read record by record when there is no predicate.
proof fn lemma_rest_by_record<T: Coords, D: Fn(i32, i32) -> u64, P: Fn(usize) -> bool>(
    index: &KDBush<T>,
    point_key: D,
    predicate: Option<P>,
    result: Seq<usize>,
    max_results: Option<usize>,
    max_distance: Option<u64>,
)
    requires
        index.wf(),
        rest_ok(index, point_key, predicate, result, max_results, max_distance),
        result.no_duplicates(),
        forall|a: int| 0 <= a < result.len() ==> (#[trigger] result[a]) < index.points@.len(),
        max_results matches Some(k) ==> result.len() <= k,
    ensures
        predicate is None ==> forall|v: usize, a: int|
            v < index.points@.len() && !result.contains(v) && 0 <= a < result.len() ==> no_farther(
                point_key,
                index.points@[#[trigger] result[a] as int],
                #[trigger] index.points@[v as int],
            ),
        predicate is None && max_results is None && max_distance is None ==> result.to_set() == below(
            index.points@.len() as int,
        ),
        predicate is None && max_distance is None ==> (max_results matches Some(k) ==> result.len() == if k
            < index.points@.len() {
            k as int
        } else {
            index.points@.len() as int
        }),
        predicate is None && max_results is None ==> (max_distance matches Some(d) ==> forall|v: usize|
            v < index.points@.len() && !result.contains(v) ==> dist_at_least(
                point_key,
                #[trigger] index.points@[v as int],
                d + 1,
            )),
{
    let n = index.points@.len() as int;
    let ids = index.ids@;
    lemma_perm_onto(ids, n);
    if predicate is None {
        assert forall|v: usize| v < n && !result.contains(v) implies {
            &&& forall|a: int|
                0 <= a < result.len() ==> no_farther(
                    point_key,
                    index.points@[#[trigger] result[a] as int],
                    index.points@[v as int],
                )
            &&& (max_results matches Some(k) && result.len() == k) || (max_distance matches Some(md)
                && dist_at_least(point_key, index.points@[v as int], md + 1))
        } by {
            assert(ids.to_set().contains(v));
            let p = choose|p: int| 0 <= p < ids.len() && ids[p] == v;
            assert(record_at(index, p) == index.points@[v as int]);
        }
        assert(result.to_set().subset_of(below(n))) by {
            assert forall|v: usize| result.to_set().contains(v) implies below(n).contains(v) by {
                let a = choose|a: int| 0 <= a < result.len() && result[a] == v;
            }
        }
        result.unique_seq_to_set();
        vstd::set_lib::lemma_len_subset(result.to_set(), below(n));
        let capped = max_results matches Some(k) && result.len() == k;
        if max_distance is None && !capped {
            assert(result.to_set() =~= below(n)) by {
                assert forall|v: usize| below(n).contains(v) implies result.to_set().contains(v) by {
                    if !result.contains(v) {
                        assert(!capped);
                    }
                }
            }
        }
    }
}

/// Best-first search for the records nearest to a query point. `point_key` gives the
/// distance of a coordinate from the query, `box_key` a lower bound on the distance of any
/// coordinate in a rectangle; both are the caller's, and the query point lives in them.
/// Returns record indices in order of distance, skipping records that `predicate` rejects,
/// stopping after `max_results` records or before the first one farther than `max_distance`.
#[verifier::loop_isolation(false)]
pub fn around<T: Coords, D: Fn(i32, i32) -> u64, B: Fn(GeoBox) -> u64, P: Fn(usize) -> bool>(
    index: &KDBush<T>,
    point_key: &D,
    box_key: &B,
    max_results: Option<usize>,
    max_distance: Option<u64>,
    predicate: &Option<P>,
) -> (result: Vec<usize>)
    requires
        index.wf(),
        forall|x: i32, y: i32| point_key.requires((x, y)),
        forall|b: GeoBox| box_key.requires((b,)),
        callable(*predicate),
        keys_functional(*point_key),
        keys_admissible(*point_key, *box_key),
    ensures
        result@.no_duplicates(),
        forall|a: int|
            0 <= a < result@.len() ==> (#[trigger] result@[a]) < index.points@.len() && accepted(*predicate, result@[a]),
        forall|a: int, b: int|
            0 <= a < b < result@.len() ==> no_farther(
                *point_key,
                index.points@[#[trigger] result@[a] as int],
                index.points@[#[trigger] result@[b] as int],
            ),
        max_results matches Some(k) ==> result@.len() <= k,
        max_distance matches Some(md) ==> forall|a: int|
            0 <= a < result@.len() ==> dist_at_most(
                *point_key,
                index.points@[#[trigger] result@[a] as int],
                md as int,
            ),
        rest_ok(index, *point_key, *predicate, result@, max_results, max_distance),
        predicate is None ==> forall|v: usize, a: int|
            v < index.points@.len() && !result@.contains(v) && 0 <= a < result@.len() ==> no_farther(
                *point_key,
                index.points@[#[trigger] result@[a] as int],
                #[trigger] index.points@[v as int],
            ),
        predicate is None && max_results is None && max_distance is None ==> result@.to_set() == below(
            index.points@.len() as int,
        ),
        predicate is None && max_distance is None ==> (max_results matches Some(k) ==> result@.len() == if k
            < index.points@.len() {
            k as int
        } else {
            index.points@.len() as int
        }),
        predicate is None && max_results is None ==> (max_distance matches Some(d) ==> forall|v: usize|
            v < index.points@.len() && !result@.contains(v) ==> dist_at_least(
                *point_key,
                #[trigger] index.points@[v as int],
                d + 1,
            )),
{
    let mut result: Vec<usize> = Vec::new();
    let n = index.ids.len();
    let no_room = match max_results {
        Some(k) => k == 0,
        None => false,
    };
    if n == 0 || no_room {
        proof {
            assert(result@.to_set() =~= Set::<usize>::empty());
            lemma_rest_by_record(index, *point_key, *predicate, result@, max_results, max_distance);
        }
        return result;
    }
    let mut q: Vec<Pending> = Vec::new();
    let whole = Pending::Subtree { left: 0, right: n - 1, axis: 0, bounds: GeoBox::everything(), dist: 0 };
    q.push(whole);
    let ghost mut out_pos: Seq<int> = Seq::empty();
    let ghost mut last: int = 0;
    proof {
        assert(entry_ok(index, *point_key, *predicate, whole));
        assert forall|p: int| 0 <= p < n implies (exists|j: int| #[trigger] stands_for(q@, j, p)) || out_pos.contains(
            p,
        ) || rejected(*predicate, #[trigger] index.ids@[p]) by {
            assert(stands_for(q@, 0, p));
        }
    }
    while q.len() > 0
        invariant
            n == index.ids@.len(),
            search_ok(index, *point_key, *predicate, q@, result@, out_pos, last),
            max_results matches Some(k) ==> result@.len() < k,
            max_distance matches Some(md) ==> forall|a: int|
                0 <= a < result@.len() ==> dist_at_most(
                    *point_key,
                    index.points@[#[trigger] result@[a] as int],
                    md as int,
                ),
        decreases total_weight(q@),
    {
        let i = min_index(&q);
        let ghost q0 = q@;
        let e = q.remove(i);
        proof {
            lemma_weight_remove(q0, i as int);
        }
        match e {
            Pending::Point { pos, dist } => {
                let beyond = match max_distance {
                    Some(md) => dist > md,
                    None => false,
                };
                if beyond {
                    proof {
                        lemma_search_result(index, *point_key, *predicate, q0, result@, out_pos, last);
                        let md = max_distance->Some_0;
                        assert forall|p: int|
                            0 <= p < n && !result@.contains(index.ids@[p]) && !rejected(
                                *predicate,
                                #[trigger] index.ids@[p],
                            ) implies dist_at_least(*point_key, record_at(index, p), md + 1) by {
                            let j = choose|j: int| #[trigger] stands_for(q0, j, p);
                            lemma_entry_floor(index, *point_key, *predicate, q0, j, p);
                        }
                        lemma_rest_by_record(index, *point_key, *predicate, result@, max_results, max_distance);
                    }
                    return result;
                }
                proof {
                    lemma_step_point(index, *point_key, *predicate, q0, i as int, result@, out_pos, last);
                    out_pos = out_pos.push(pos as int);
                    last = dist as int;
                }
                result.push(index.ids[pos]);
                proof {
                    let pts = index.points@;
                    assert forall|a: int| 0 <= a < result@.len() && max_distance is Some implies dist_at_most(
                        *point_key,
                        pts[#[trigger] result@[a] as int],
                        max_distance->Some_0 as int,
                    ) by {
                        assert(dist_at_most(*point_key, pts[result@[a] as int], last));
                    }
                }
                let full = match max_results {
                    Some(k) => result.len() >= k,
                    None => false,
                };
                if full {
                    proof {
                        lemma_search_result(index, *point_key, *predicate, q@, result@, out_pos, last);
                        lemma_rest_by_record(index, *point_key, *predicate, result@, max_results, max_distance);
                    }
                    return result;
                }
            },
            Pending::Subtree { left, right, axis, bounds, .. } => {
                let ghost qr = q@;
                if right - left <= index.node_size {
                    push_leaf(index, point_key, predicate, &mut q, left, right);
                } else {
                    push_split(index, point_key, box_key, predicate, &mut q, left, right, axis, bounds);
                }
                proof {
                    lemma_step_split(index, *point_key, *predicate, q0, i as int, q@, result@, out_pos, last);
                }
            },
        }
    }
    proof {
        lemma_search_result(index, *point_key, *predicate, q@, result@, out_pos, last);
        lemma_rest_by_record(index, *point_key, *predicate, result@, max_results, max_distance);
    }
    result
}

} // verus!
