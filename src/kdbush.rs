use crate::order::{
    below, found_in, is_perm, kd_ordered, key_at, lemma_kd_frame, lemma_perm_onto,
    lemma_rearranged_trans, lemma_rearranged_widen, lemma_split_after_partition,
    lemma_split_transport, lemma_swap, next_axis, rearranged, split_ok,
};
use crate::results::{appended, extends, lemma_extend, lemma_extend_nothing, lemma_push};
use crate::sampling::{sample_window, SAMPLE_THRESHOLD};
use vstd::prelude::*;

verus! {

/// Read access to the two coordinates of a record: `x` (longitude) and `y` (latitude).
pub trait Coords {
    spec fn x_of(&self) -> i32;

    spec fn y_of(&self) -> i32;

    fn get_x(&self) -> (r: i32)
        ensures
            r == self.x_of(),
    ;

    fn get_y(&self) -> (r: i32)
        ensures
            r == self.y_of(),
    ;

    /// Axis `0` is `x`; any other axis is `y`.
    fn get(&self, i: i8) -> (r: i32)
        ensures
            r == (if i == 0 {
                self.x_of()
            } else {
                self.y_of()
            }),
    ;
}

/// A bare coordinate pair.
#[derive(Debug)]
pub struct RawCoord<T>(pub T, pub T);

impl Coords for RawCoord<i16> {
    open spec fn x_of(&self) -> i32 {
        self.0 as i32
    }

    open spec fn y_of(&self) -> i32 {
        self.1 as i32
    }

    fn get_x(&self) -> (r: i32) {
        self.0 as i32
    }

    fn get_y(&self) -> (r: i32) {
        self.1 as i32
    }

    fn get(&self, i: i8) -> (r: i32) {
        match i {
            0 => self.0 as i32,
            _ => self.1 as i32,
        }
    }
}

impl Coords for RawCoord<i32> {
    open spec fn x_of(&self) -> i32 {
        self.0
    }

    open spec fn y_of(&self) -> i32 {
        self.1
    }

    fn get_x(&self) -> (r: i32) {
        self.0
    }

    fn get_y(&self) -> (r: i32) {
        self.1
    }

    fn get(&self, i: i8) -> (r: i32) {
        match i {
            0 => self.0,
            _ => self.1,
        }
    }
}

/// A pair of values addressed by axis: `0` selects the first, anything else the second.
#[derive(Debug)]
pub struct Point<T>(pub T, pub T);

impl<T> Point<T> {
    pub fn get(&self, i: i8) -> (r: &T)
        ensures
            *r == if i == 0 {
                self.0
            } else {
                self.1
            },
    {
        match i {
            0 => &self.0,
            _ => &self.1,
        }
    }
}

/// The record lies in the closed rectangle `min_x..=max_x` by `min_y..=max_y`.
pub open spec fn in_rect<T: Coords>(p: T, min_x: int, min_y: int, max_x: int, max_y: int) -> bool {
    min_x <= p.x_of() <= max_x && min_y <= p.y_of() <= max_y
}

pub open spec fn rect_pred<T: Coords>(min_x: int, min_y: int, max_x: int, max_y: int) -> spec_fn(
    T,
) -> bool {
    |p: T| in_rect(p, min_x, min_y, max_x, max_y)
}

/// Squared planar distance from the record to `(qx, qy)`.
pub open spec fn sq_dist_to<T: Coords>(p: T, qx: int, qy: int) -> int {
    (p.x_of() - qx) * (p.x_of() - qx) + (p.y_of() - qy) * (p.y_of() - qy)
}

pub open spec fn circle_pred<T: Coords>(qx: int, qy: int, r: int) -> spec_fn(T) -> bool {
    |p: T| sq_dist_to(p, qx, qy) <= r * r
}

proof fn lemma_outside_circle(dx: int, dy: int, r: int)
    requires
        r >= 0,
        dx > r || -dx > r || dy > r || -dy > r,
    ensures
        dx * dx + dy * dy > r * r,
{
    assert(dx * dx >= 0) by (nonlinear_arith);
    assert(dy * dy >= 0) by (nonlinear_arith);
    if dx > r || -dx > r {
        assert(dx * dx > r * r) by (nonlinear_arith)
            requires
                r >= 0,
                dx > r || -dx > r,
        ;
    } else {
        assert(dy * dy > r * r) by (nonlinear_arith)
            requires
                r >= 0,
                dy > r || -dy > r,
        ;
    }
}

/// A static index over records: `ids` is a permutation of the positions of `points`,
/// arranged as an implicit KD-tree with leaf buckets of up to `node_size + 1` records.
#[derive(Debug)]
pub struct KDBush<T: Coords> {
    pub points: Vec<T>,
    pub node_size: usize,
    pub ids: Vec<usize>,
}

/// Relies on `std::io::Error` only as the error type of construction, which never fails.
#[verifier::external_type_specification]
#[verifier::external_body]
pub struct ExIoError(std::io::Error);

impl<T: Coords> KDBush<T> {
    /// The index is well formed: a positive bucket size, `ids` a permutation of the record
    /// positions, and the whole range ordered as a KD-tree starting on the `x` axis.
    pub open spec fn wf(&self) -> bool {
        &&& self.node_size >= 1
        &&& is_perm(self.ids@, self.points@.len() as int)
        &&& self.points@.len() == 0 || kd_ordered(
            self.points@,
            self.ids@,
            self.node_size as nat,
            0,
            self.points@.len() - 1,
            0,
        )
    }

    /// Record indices at tree positions `lo..=hi` whose records satisfy `pred`.
    pub open spec fn hits(&self, lo: int, hi: int, pred: spec_fn(T) -> bool) -> Set<usize> {
        Set::new(
            |v: usize|
                exists|p: int|
                    lo <= p <= hi && 0 <= p < self.ids@.len() && #[trigger] self.ids@[p] == v && pred(
                        self.points@[v as int],
                    ),
        )
    }

    /// First tree position of a query: `left`, or `0` when absent.
    pub open spec fn span_left(left: Option<usize>) -> int {
        match left {
            Some(l) => l as int,
            None => 0,
        }
    }

    /// Last tree position of a query: `right`, or the last position when absent.
    pub open spec fn span_right(&self, right: Option<usize>) -> int {
        match right {
            Some(r) => r as int,
            None => self.ids@.len() - 1,
        }
    }

    /// Positions `lo..=hi` form a subtree of the index whose top split is on `axis`.
    pub open spec fn span_ok(&self, lo: int, hi: int, axis: int) -> bool {
        &&& 0 <= lo <= hi < self.ids@.len()
        &&& axis == 0 || axis == 1
        &&& kd_ordered(self.points@, self.ids@, self.node_size as nat, lo, hi, axis)
    }

    proof fn lemma_hits_split(&self, lo: int, m: int, hi: int, pred: spec_fn(T) -> bool)
        requires
            lo <= m <= hi,
        ensures
            self.hits(lo, hi, pred) == self.hits(lo, m - 1, pred).union(self.hits(m, m, pred)).union(
                self.hits(m + 1, hi, pred),
            ),
    {
        let whole = self.hits(lo, hi, pred);
        let parts = self.hits(lo, m - 1, pred).union(self.hits(m, m, pred)).union(
            self.hits(m + 1, hi, pred),
        );
        assert forall|v: usize| whole.contains(v) implies parts.contains(v) by {
            let p = choose|p: int|
                lo <= p <= hi && 0 <= p < self.ids@.len() && #[trigger] self.ids@[p] == v && pred(
                    self.points@[v as int],
                );
            if p < m {
                assert(self.hits(lo, m - 1, pred).contains(v));
            } else if p == m {
                assert(self.hits(m, m, pred).contains(v));
            } else {
                assert(self.hits(m + 1, hi, pred).contains(v));
            }
        }
        assert(whole =~= parts);
    }

    proof fn lemma_hits_disjoint(
        &self,
        a1: int,
        b1: int,
        a2: int,
        b2: int,
        pred: spec_fn(T) -> bool,
        pred2: spec_fn(T) -> bool,
    )
        requires
            is_perm(self.ids@, self.points@.len() as int),
            b1 < a2,
        ensures
            self.hits(a1, b1, pred).disjoint(self.hits(a2, b2, pred2)),
    {
        assert forall|v: usize| self.hits(a1, b1, pred).contains(v) implies !self.hits(
            a2,
            b2,
            pred2,
        ).contains(v) by {
            let p = choose|p: int|
                a1 <= p <= b1 && 0 <= p < self.ids@.len() && #[trigger] self.ids@[p] == v && pred(
                    self.points@[v as int],
                );
            if self.hits(a2, b2, pred2).contains(v) {
                let q = choose|q: int|
                    a2 <= q <= b2 && 0 <= q < self.ids@.len() && #[trigger] self.ids@[q] == v && pred2(
                        self.points@[v as int],
                    );
                assert(self.ids@[p] != self.ids@[q]);
            }
        }
    }

    proof fn lemma_hits_none(&self, lo: int, hi: int, pred: spec_fn(T) -> bool)
        requires
            forall|p: int| lo <= p <= hi && 0 <= p < self.ids@.len() ==> !pred(#[trigger] self.points@[self.ids@[p] as int]),
        ensures
            self.hits(lo, hi, pred) == Set::<usize>::empty(),
    {
        assert forall|v: usize| !self.hits(lo, hi, pred).contains(v) by {
            if self.hits(lo, hi, pred).contains(v) {
                let p = choose|p: int|
                    lo <= p <= hi && 0 <= p < self.ids@.len() && #[trigger] self.ids@[p] == v && pred(
                        self.points@[v as int],
                    );
                assert(!pred(self.points@[self.ids@[p] as int]));
            }
        }
        assert(self.hits(lo, hi, pred) =~= Set::<usize>::empty());
    }

    proof fn lemma_hits_one(&self, m: int, pred: spec_fn(T) -> bool)
        requires
            0 <= m < self.ids@.len(),
        ensures
            pred(self.points@[self.ids@[m] as int]) ==> self.hits(m, m, pred) == set![self.ids@[m]],
            !pred(self.points@[self.ids@[m] as int]) ==> self.hits(m, m, pred) == Set::<usize>::empty(),
    {
        if pred(self.points@[self.ids@[m] as int]) {
            assert(self.hits(m, m, pred) =~= set![self.ids@[m]]);
        } else {
            self.lemma_hits_none(m, m, pred);
        }
    }

    /// Pushes onto `result` the index of every record at tree positions `left..=right`
    /// (the whole index when absent; `axis` is the subtree's split axis, `0` when absent)
    /// that lies in the closed rectangle `min_x..=max_x` by `min_y..=max_y`, each once.
    #[verifier::loop_isolation(false)]
    pub fn range(
        &self,
        min_x: &i32,
        min_y: &i32,
        max_x: &i32,
        max_y: &i32,
        result: &mut Vec<usize>,
        left: Option<usize>,
        right: Option<usize>,
        axis: Option<i8>,
    )
        requires
            self.wf(),
            self.points@.len() > 0 ==> self.span_ok(
                Self::span_left(left),
                self.span_right(right),
                match axis {
                    Some(a) => a as int,
                    None => 0,
                },
            ),
        ensures
            extends(old(result)@, final(result)@),
            appended(old(result)@, final(result)@).no_duplicates(),
            appended(old(result)@, final(result)@).to_set() == self.hits(
                Self::span_left(left),
                self.span_right(right),
                rect_pred(*min_x as int, *min_y as int, *max_x as int, *max_y as int),
            ),
        decreases self.span_right(right) - Self::span_left(left),
    {
        let ghost pred = rect_pred::<T>(*min_x as int, *min_y as int, *max_x as int, *max_y as int);
        let ghost s0 = result@;
        proof {
            lemma_extend_nothing(s0);
        }
        if self.points.len() == 0 {
            proof {
                self.lemma_hits_none(Self::span_left(left), self.span_right(right), pred);
            }
            return;
        }
        let l: usize = match left {
            Some(v) => v,
            None => 0,
        };
        let r: usize = match right {
            Some(v) => v,
            None => self.ids.len() - 1,
        };
        let a: i8 = match axis {
            Some(v) => v,
            None => 0,
        };
        if r - l <= self.node_size {
            let mut i: usize = l;
            proof {
                self.lemma_hits_none(l as int, l - 1, pred);
            }
            while i <= r
                invariant
                    l <= i <= r + 1,
                    extends(s0, result@),
                    appended(s0, result@).no_duplicates(),
                    appended(s0, result@).to_set() == self.hits(l as int, i - 1, pred),
                decreases r + 1 - i,
            {
                let id = self.ids[i];
                let x = self.points[id].get_x();
                let y = self.points[id].get_y();
                let ghost before = result@;
                proof {
                    self.lemma_hits_split(l as int, i as int, i as int, pred);
                    self.lemma_hits_none(i + 1, i as int, pred);
                    self.lemma_hits_one(i as int, pred);
                    self.lemma_hits_disjoint(l as int, i - 1, i as int, i as int, pred, pred);
                }
                if x >= *min_x && x <= *max_x && y >= *min_y && y <= *max_y {
                    result.push(id);
                    proof {
                        lemma_push(s0, before, id, self.hits(l as int, i - 1, pred));
                        assert(self.hits(l as int, i - 1, pred).insert(id) =~= self.hits(l as int, i as int, pred));
                    }
                } else {
                    assert(self.hits(l as int, i - 1, pred) =~= self.hits(l as int, i as int, pred));
                }
                i += 1;
            }
            return;
        }
        let m: usize = l + (r - l) / 2;
        let id = self.ids[m];
        let x = self.points[id].get_x();
        let y = self.points[id].get_y();
        proof {
            self.lemma_hits_one(m as int, pred);
        }
        if x >= *min_x && x <= *max_x && y >= *min_y && y <= *max_y {
            result.push(id);
            proof {
                lemma_push(s0, s0, id, Set::<usize>::empty());
                assert(Set::<usize>::empty().insert(id) =~= set![id]);
            }
        }
        let ghost s1 = result@;
        let ghost mid = self.hits(m as int, m as int, pred);
        assert(appended(s0, s1).to_set() == mid);
        let next: i8 = (a + 1) % 2;
        proof {
            lemma_extend_nothing(s1);
        }
        if if a == 0 {
            *min_x <= x
        } else {
            *min_y <= y
        } {
            self.range(min_x, min_y, max_x, max_y, result, Some(l), Some(m - 1), Some(next));
        } else {
            proof {
                assert forall|p: int| l <= p <= m - 1 && 0 <= p < self.ids@.len() implies !pred(
                    #[trigger] self.points@[self.ids@[p] as int],
                ) by {
                    assert(key_at(self.points@, self.ids@, p, a as int) <= key_at(
                        self.points@,
                        self.ids@,
                        m as int,
                        a as int,
                    ));
                }
                self.lemma_hits_none(l as int, m - 1, pred);
            }
        }
        let ghost s2 = result@;
        let ghost low = self.hits(l as int, m - 1, pred);
        proof {
            self.lemma_hits_disjoint(l as int, m - 1, m as int, m as int, pred, pred);
            assert(mid.disjoint(low));
            lemma_extend(s0, s1, s2, mid, low);
            lemma_extend_nothing(s2);
        }
        if if a == 0 {
            *max_x >= x
        } else {
            *max_y >= y
        } {
            self.range(min_x, min_y, max_x, max_y, result, Some(m + 1), Some(r), Some(next));
        } else {
            proof {
                assert forall|p: int| m + 1 <= p <= r && 0 <= p < self.ids@.len() implies !pred(
                    #[trigger] self.points@[self.ids@[p] as int],
                ) by {
                    assert(key_at(self.points@, self.ids@, p, a as int) >= key_at(
                        self.points@,
                        self.ids@,
                        m as int,
                        a as int,
                    ));
                }
                self.lemma_hits_none(m + 1, r as int, pred);
            }
        }
        let ghost high = self.hits(m + 1, r as int, pred);
        proof {
            self.lemma_hits_disjoint(l as int, m as int, m + 1, r as int, pred, pred);
            assert(mid.union(low) =~= self.hits(l as int, m as int, pred)) by {
                self.lemma_hits_split(l as int, m as int, m as int, pred);
                self.lemma_hits_none(m + 1, m as int, pred);
            }
            lemma_extend(s0, s2, result@, mid.union(low), high);
            self.lemma_hits_split(l as int, m as int, r as int, pred);
            assert(mid.union(low).union(high) =~= self.hits(l as int, r as int, pred));
        }
    }

    /// Pushes onto `result` the index of every record at tree positions `left..=right`
    /// (the whole index when absent; `axis` is the subtree's split axis, `0` when absent)
    /// whose squared distance to `(qx, qy)` is at most `r * r`, each once. For a negative
    /// `r` the pushed indices are among those records, but the search may miss some.
    #[verifier::loop_isolation(false)]
    pub fn within(
        &self,
        qx: i32,
        qy: i32,
        r: i32,
        result: &mut Vec<usize>,
        left: Option<usize>,
        right: Option<usize>,
        axis: Option<u8>,
    )
        requires
            self.wf(),
            self.points@.len() > 0 ==> self.span_ok(
                Self::span_left(left),
                self.span_right(right),
                match axis {
                    Some(a) => a as int,
                    None => 0,
                },
            ),
        ensures
            extends(old(result)@, final(result)@),
            appended(old(result)@, final(result)@).no_duplicates(),
            appended(old(result)@, final(result)@).to_set().subset_of(
                self.hits(Self::span_left(left), self.span_right(right), circle_pred(qx as int, qy as int, r as int)),
            ),
            r >= 0 ==> appended(old(result)@, final(result)@).to_set() == self.hits(
                Self::span_left(left),
                self.span_right(right),
                circle_pred(qx as int, qy as int, r as int),
            ),
        decreases self.span_right(right) - Self::span_left(left),
    {
        let ghost pred = circle_pred::<T>(qx as int, qy as int, r as int);
        let ghost s0 = result@;
        proof {
            lemma_extend_nothing(s0);
        }
        if self.points.len() == 0 {
            proof {
                self.lemma_hits_none(Self::span_left(left), self.span_right(right), pred);
            }
            return;
        }
        let lo: usize = match left {
            Some(v) => v,
            None => 0,
        };
        let hi: usize = match right {
            Some(v) => v,
            None => self.ids.len() - 1,
        };
        let a: u8 = match axis {
            Some(v) => v,
            None => 0,
        };
        assert(0 <= (r as i128) * (r as i128) <= 0x1_0000_0000_0000_0000) by (nonlinear_arith)
            requires
                -0x1_0000_0000 <= r <= 0x1_0000_0000,
        ;
        let r2: i128 = r as i128 * r as i128;
        if hi - lo <= self.node_size {
            let mut i: usize = lo;
            proof {
                self.lemma_hits_none(lo as int, lo - 1, pred);
            }
            while i <= hi
                invariant
                    lo <= i <= hi + 1,
                    extends(s0, result@),
                    appended(s0, result@).no_duplicates(),
                    appended(s0, result@).to_set() == self.hits(lo as int, i - 1, pred),
                decreases hi + 1 - i,
            {
                let id = self.ids[i];
                let x = self.points[id].get_x();
                let y = self.points[id].get_y();
                let ghost before = result@;
                proof {
                    self.lemma_hits_split(lo as int, i as int, i as int, pred);
                    self.lemma_hits_none(i + 1, i as int, pred);
                    self.lemma_hits_one(i as int, pred);
                    self.lemma_hits_disjoint(lo as int, i - 1, i as int, i as int, pred, pred);
                }
                if Self::sq_dist(x, y, qx, qy) <= r2 {
                    result.push(id);
                    proof {
                        lemma_push(s0, before, id, self.hits(lo as int, i - 1, pred));
                        assert(self.hits(lo as int, i - 1, pred).insert(id) =~= self.hits(lo as int, i as int, pred));
                    }
                } else {
                    assert(self.hits(lo as int, i - 1, pred) =~= self.hits(lo as int, i as int, pred));
                }
                i += 1;
            }
            return;
        }
        let m: usize = lo + (hi - lo) / 2;
        let id = self.ids[m];
        let x = self.points[id].get_x();
        let y = self.points[id].get_y();
        proof {
            self.lemma_hits_one(m as int, pred);
        }
        if Self::sq_dist(x, y, qx, qy) <= r2 {
            result.push(id);
            proof {
                lemma_push(s0, s0, id, Set::<usize>::empty());
                assert(Set::<usize>::empty().insert(id) =~= set![id]);
            }
        }
        let ghost s1 = result@;
        let ghost mid = self.hits(m as int, m as int, pred);
        assert(appended(s0, s1).to_set() == mid);
        let next: u8 = (a + 1) % 2;
        proof {
            lemma_extend_nothing(s1);
        }
        if if a == 0 {
            qx as i64 - r as i64 <= x as i64
        } else {
            qy as i64 - r as i64 <= y as i64
        } {
            self.within(qx, qy, r, result, Some(lo), Some(m - 1), Some(next));
        } else {
            proof {
                if r >= 0 {
                    assert forall|p: int| lo <= p <= m - 1 && 0 <= p < self.ids@.len() implies !pred(
                        #[trigger] self.points@[self.ids@[p] as int],
                    ) by {
                        let pt = self.points@[self.ids@[p] as int];
                        assert(key_at(self.points@, self.ids@, p, a as int) <= key_at(
                            self.points@,
                            self.ids@,
                            m as int,
                            a as int,
                        ));
                        lemma_outside_circle(pt.x_of() - qx, pt.y_of() - qy, r as int);
                    }
                    self.lemma_hits_none(lo as int, m - 1, pred);
                }
            }
        }
        let ghost s2 = result@;
        let ghost low = self.hits(lo as int, m - 1, pred);
        let ghost got_low = appended(s1, s2).to_set();
        proof {
            self.lemma_hits_disjoint(lo as int, m - 1, m as int, m as int, pred, pred);
            assert(mid.disjoint(got_low));
            lemma_extend(s0, s1, s2, mid, got_low);
            lemma_extend_nothing(s2);
        }
        if if a == 0 {
            qx as i64 + r as i64 >= x as i64
        } else {
            qy as i64 + r as i64 >= y as i64
        } {
            self.within(qx, qy, r, result, Some(m + 1), Some(hi), Some(next));
        } else {
            proof {
                if r >= 0 {
                    assert forall|p: int| m + 1 <= p <= hi && 0 <= p < self.ids@.len() implies !pred(
                        #[trigger] self.points@[self.ids@[p] as int],
                    ) by {
                        let pt = self.points@[self.ids@[p] as int];
                        assert(key_at(self.points@, self.ids@, p, a as int) >= key_at(
                            self.points@,
                            self.ids@,
                            m as int,
                            a as int,
                        ));
                        lemma_outside_circle(pt.x_of() - qx, pt.y_of() - qy, r as int);
                    }
                    self.lemma_hits_none(m + 1, hi as int, pred);
                }
            }
        }
        let ghost high = self.hits(m + 1, hi as int, pred);
        let ghost got_high = appended(s2, result@).to_set();
        proof {
            self.lemma_hits_disjoint(lo as int, m as int, m + 1, hi as int, pred, pred);
            self.lemma_hits_split(lo as int, m as int, m as int, pred);
            self.lemma_hits_none(m + 1, m as int, pred);
            assert(mid.union(low) =~= self.hits(lo as int, m as int, pred));
            assert(mid.union(got_low).disjoint(got_high));
            lemma_extend(s0, s2, result@, mid.union(got_low), got_high);
            self.lemma_hits_split(lo as int, m as int, hi as int, pred);
            assert(mid.union(low).union(high) =~= self.hits(lo as int, hi as int, pred));
            assert(mid.union(got_low).union(got_high).subset_of(mid.union(low).union(high)));
            if r >= 0 {
                assert(mid.union(got_low).union(got_high) =~= mid.union(low).union(high));
            }
        }
    }

    /// Squared planar distance between `(ax, ay)` and `(bx, by)`.
    fn sq_dist(ax: i32, ay: i32, bx: i32, by: i32) -> (d: i128)
        ensures
            d == (ax - bx) * (ax - bx) + (ay - by) * (ay - by),
    {
        let dx: i128 = ax as i128 - bx as i128;
        let dy: i128 = ay as i128 - by as i128;
        assert(dx * dx <= 0x1_0000_0000_0000_0000) by (nonlinear_arith)
            requires
                -0x1_0000_0000 <= dx <= 0x1_0000_0000,
        ;
        assert(dy * dy <= 0x1_0000_0000_0000_0000) by (nonlinear_arith)
            requires
                -0x1_0000_0000 <= dy <= 0x1_0000_0000,
        ;
        assert(dx * dx >= 0) by (nonlinear_arith);
        assert(dy * dy >= 0) by (nonlinear_arith);
        dx * dx + dy * dy
    }

    /// A query rectangle that holds every record (such as the records' own bounding
    /// rectangle) finds every record index: the set that `range` returns over the whole
    /// index is all of `0..n`, so a result without repeats holds each index exactly once.
    pub proof fn lemma_bounding_rect_finds_all(&self, min_x: int, min_y: int, max_x: int, max_y: int)
        requires
            self.wf(),
            forall|v: int|
                0 <= v < self.points@.len() ==> in_rect(#[trigger] self.points@[v], min_x, min_y, max_x, max_y),
        ensures
            self.hits(0, self.points@.len() - 1, rect_pred(min_x, min_y, max_x, max_y)) == below(
                self.points@.len() as int,
            ),
            forall|s: Seq<usize>|
                s.no_duplicates() && s.to_set() == #[trigger] self.hits(
                    0,
                    self.points@.len() - 1,
                    rect_pred(min_x, min_y, max_x, max_y),
                ) ==> s.len() == self.points@.len(),
    {
        let n = self.points@.len() as int;
        let ids = self.ids@;
        let h = self.hits(0, n - 1, rect_pred(min_x, min_y, max_x, max_y));
        lemma_perm_onto(ids, n);
        assert forall|v: usize| below(n).contains(v) implies h.contains(v) by {
            assert(ids.to_set().contains(v));
            let p = choose|p: int| 0 <= p < ids.len() && ids[p] == v;
            assert(in_rect(self.points@[v as int], min_x, min_y, max_x, max_y));
        }
        assert forall|v: usize| h.contains(v) implies below(n).contains(v) by {
            let p = choose|p: int|
                0 <= p <= n - 1 && 0 <= p < ids.len() && #[trigger] ids[p] == v && rect_pred::<T>(
                    min_x,
                    min_y,
                    max_x,
                    max_y,
                )(self.points@[v as int]);
        }
        assert(h =~= below(n));
        assert forall|s: Seq<usize>| s.no_duplicates() && s.to_set() == #[trigger] self.hits(
            0,
            self.points@.len() - 1,
            rect_pred(min_x, min_y, max_x, max_y),
        ) implies s.len() == n by {
            s.unique_seq_to_set();
        }
    }

    fn swap_item(&mut self, i: usize, j: usize)
        requires
            i < old(self).ids.len(),
            j < old(self).ids.len(),
        ensures
            final(self).ids@ == old(self).ids@.update(i as int, old(self).ids@[j as int]).update(
                j as int,
                old(self).ids@[i as int],
            ),
            final(self).points@ == old(self).points@,
            final(self).node_size == old(self).node_size,
    {
        let a = self.ids[i];
        let b = self.ids[j];
        self.ids.set(i, b);
        self.ids.set(j, a);
    }

    /// Partitions positions `left..=right` around the record now at `k` and returns the
    /// position where that record's coordinate lands: nothing before it is larger on `axis`,
    /// nothing after it smaller.
    #[verifier::loop_isolation(false)]
    fn partition(&mut self, axis: i8, k: usize, left: usize, right: usize) -> (j: usize)
        requires
            left <= k <= right,
            left < right,
            right < old(self).ids.len(),
            is_perm(old(self).ids@, old(self).points@.len() as int),
        ensures
            left <= j <= right,
            final(self).points@ == old(self).points@,
            final(self).node_size == old(self).node_size,
            is_perm(final(self).ids@, final(self).points@.len() as int),
            rearranged(old(self).ids@, final(self).ids@, left as int, right as int),
            forall|p: int|
                left <= p < j ==> #[trigger] key_at(final(self).points@, final(self).ids@, p, axis as int)
                    <= key_at(final(self).points@, final(self).ids@, j as int, axis as int),
            forall|p: int|
                j < p <= right ==> #[trigger] key_at(final(self).points@, final(self).ids@, p, axis as int)
                    >= key_at(final(self).points@, final(self).ids@, j as int, axis as int),
    {
        let ghost ids0 = self.ids@;
        let ghost pts = self.points@;
        let ghost n = self.points@.len() as int;
        let ghost ax = axis as int;
        let ghost lo = left as int;
        let ghost hi = right as int;
        let t = self.points[self.ids[k]].get(axis);
        self.swap_item(left, k);
        proof {
            lemma_swap(ids0, lo, k as int, lo, hi, n);
        }
        if self.points[self.ids[right]].get(axis) > t {
            let ghost before = self.ids@;
            self.swap_item(left, right);
            proof {
                lemma_swap(before, lo, hi, lo, hi, n);
                lemma_rearranged_trans(ids0, before, self.ids@, lo, hi);
            }
        }
        let mut i: usize = left;
        let mut j: usize = right;
        while i < j
            invariant
                left <= i <= right,
                left <= j <= right,
                (i == left && j == right) || (left < i && j < right),
                self.points@ == pts,
                self.node_size == old(self).node_size,
                is_perm(self.ids@, n),
                rearranged(ids0, self.ids@, lo, hi),
                key_at(pts, self.ids@, lo, ax) == t || key_at(pts, self.ids@, hi, ax) == t,
                forall|p: int| left <= p < i ==> #[trigger] key_at(pts, self.ids@, p, ax) <= t,
                forall|p: int| j < p <= right ==> #[trigger] key_at(pts, self.ids@, p, ax) >= t,
                key_at(pts, self.ids@, i as int, ax) >= t,
                key_at(pts, self.ids@, j as int, ax) <= t,
            decreases right - i,
        {
            let ghost before = self.ids@;
            self.swap_item(i, j);
            proof {
                lemma_swap(before, i as int, j as int, lo, hi, n);
                lemma_rearranged_trans(ids0, before, self.ids@, lo, hi);
                assert(key_at(pts, self.ids@, i as int, ax) <= t);
                assert(key_at(pts, self.ids@, j as int, ax) >= t);
                assert forall|p: int| left <= p <= i implies #[trigger] key_at(pts, self.ids@, p, ax)
                    <= t by {
                    if p < i {
                        assert(key_at(pts, before, p, ax) <= t);
                    }
                }
                assert forall|p: int| j <= p <= right implies #[trigger] key_at(pts, self.ids@, p, ax)
                    >= t by {
                    if p > j {
                        assert(key_at(pts, before, p, ax) >= t);
                    }
                }
            }
            let ghost io = i as int;
            let ghost jo = j as int;
            i += 1;
            j -= 1;
            while self.points[self.ids[i]].get(axis) < t
                invariant
                    io < i <= jo,
                    forall|p: int| left <= p < i ==> #[trigger] key_at(pts, self.ids@, p, ax) <= t,
                decreases jo - i,
            {
                i += 1;
            }
            while self.points[self.ids[j]].get(axis) > t
                invariant
                    io <= j < jo,
                    forall|p: int| j < p <= right ==> #[trigger] key_at(pts, self.ids@, p, ax) >= t,
                decreases j,
            {
                j -= 1;
            }
            assert(i > io);
        }
        if self.points[self.ids[left]].get(axis) == t {
            let ghost before = self.ids@;
            self.swap_item(left, j);
            proof {
                lemma_swap(before, lo, j as int, lo, hi, n);
                lemma_rearranged_trans(ids0, before, self.ids@, lo, hi);
                assert(key_at(pts, self.ids@, j as int, ax) == t);
                assert forall|p: int| left <= p < j implies #[trigger] key_at(pts, self.ids@, p, ax)
                    <= t by {
                    if p == lo {
                        assert(key_at(pts, before, j as int, ax) <= t);
                    } else {
                        assert(key_at(pts, before, p, ax) <= t);
                    }
                }
                assert forall|p: int| j < p <= right implies #[trigger] key_at(pts, self.ids@, p, ax)
                    >= t by {
                    assert(key_at(pts, before, p, ax) >= t);
                }
            }
        } else {
            j += 1;
            let ghost before = self.ids@;
            self.swap_item(j, right);
            proof {
                lemma_swap(before, j as int, hi, lo, hi, n);
                lemma_rearranged_trans(ids0, before, self.ids@, lo, hi);
                assert(key_at(pts, self.ids@, j as int, ax) == t);
                assert forall|p: int| left <= p < j implies #[trigger] key_at(pts, self.ids@, p, ax)
                    <= t by {
                    if p < i {
                        assert(key_at(pts, before, p, ax) <= t);
                    } else {
                        assert(key_at(pts, before, p, ax) <= t);
                    }
                }
                assert forall|p: int| j < p <= right implies #[trigger] key_at(pts, self.ids@, p, ax)
                    >= t by {
                    if p == hi {
                        assert(key_at(pts, before, j as int, ax) >= t);
                    } else {
                        assert(key_at(pts, before, p, ax) >= t);
                    }
                }
            }
        }
        j
    }

    /// Rearranges positions `left..=right` so that position `k` holds a record whose
    /// coordinate on `coord_i` is the `k`-th smallest there: nothing before it is larger,
    /// nothing after it smaller.
    fn select(&mut self, coord_i: i8, k: usize, left: usize, right: usize)
        requires
            left <= k <= right,
            right < old(self).ids.len(),
            is_perm(old(self).ids@, old(self).points@.len() as int),
        ensures
            final(self).points@ == old(self).points@,
            final(self).node_size == old(self).node_size,
            is_perm(final(self).ids@, final(self).points@.len() as int),
            rearranged(old(self).ids@, final(self).ids@, left as int, right as int),
            forall|p: int|
                left <= p < k ==> #[trigger] key_at(final(self).points@, final(self).ids@, p, coord_i as int)
                    <= key_at(final(self).points@, final(self).ids@, k as int, coord_i as int),
            forall|p: int|
                k < p <= right ==> #[trigger] key_at(final(self).points@, final(self).ids@, p, coord_i as int)
                    >= key_at(final(self).points@, final(self).ids@, k as int, coord_i as int),
        decreases right - left,
    {
        let ghost ids0 = self.ids@;
        let ghost pts = self.points@;
        let ghost n = self.points@.len() as int;
        let ghost ax = coord_i as int;
        let mut lo: usize = left;
        let mut hi: usize = right;
        proof {
            assert forall|p: int| left <= p <= right implies #[trigger] found_in(
                ids0,
                ids0[p],
                left as int,
                right as int,
            ) by {
                assert(ids0[p] == ids0[p]);
            }
        }
        while lo < hi
            invariant
                left <= lo <= k <= hi <= right,
                right < self.ids.len(),
                self.points@ == pts,
                n == pts.len(),
                ax == coord_i as int,
                self.node_size == old(self).node_size,
                is_perm(self.ids@, n),
                rearranged(ids0, self.ids@, left as int, right as int),
                split_ok(pts, self.ids@, ax, left as int, lo as int, hi as int, right as int),
            decreases hi - lo,
        {
            if hi - lo > SAMPLE_THRESHOLD {
                let (a, b) = sample_window(k, lo, hi);
                if b - a < hi - lo {
                    let ghost before = self.ids@;
                    self.select(coord_i, k, a, b);
                    proof {
                        lemma_rearranged_widen(before, self.ids@, a as int, b as int, lo as int, hi as int);
                        lemma_split_transport(pts, before, self.ids@, ax, left as int, lo as int, hi as int, right as int);
                        lemma_rearranged_widen(before, self.ids@, lo as int, hi as int, left as int, right as int);
                        lemma_rearranged_trans(ids0, before, self.ids@, left as int, right as int);
                    }
                }
            }
            let ghost before = self.ids@;
            let j = self.partition(coord_i, k, lo, hi);
            proof {
                lemma_split_transport(pts, before, self.ids@, ax, left as int, lo as int, hi as int, right as int);
                lemma_split_after_partition(pts, self.ids@, ax, left as int, lo as int, hi as int, right as int, j as int);
                lemma_rearranged_widen(before, self.ids@, lo as int, hi as int, left as int, right as int);
                lemma_rearranged_trans(ids0, before, self.ids@, left as int, right as int);
            }
            if j == k {
                lo = k;
                hi = k;
            } else if j < k {
                lo = j + 1;
            } else {
                hi = j - 1;
            }
        }
        proof {
            let ids = self.ids@;
            assert forall|p: int| left <= p < k implies #[trigger] key_at(pts, ids, p, ax) <= key_at(
                pts,
                ids,
                k as int,
                ax,
            ) by {
                assert(lo == k);
            }
            assert forall|p: int| k < p <= right implies #[trigger] key_at(pts, ids, p, ax) >= key_at(
                pts,
                ids,
                k as int,
                ax,
            ) by {
                assert(hi == k);
            }
        }
    }

    /// Orders positions `left..=right` as a KD-tree whose top split is on `axis`.
    fn sort_kd(&mut self, left: usize, right: usize, axis: u8)
        requires
            left <= right < old(self).ids.len(),
            old(self).node_size >= 1,
            axis <= 1,
            is_perm(old(self).ids@, old(self).points@.len() as int),
        ensures
            final(self).points@ == old(self).points@,
            final(self).node_size == old(self).node_size,
            is_perm(final(self).ids@, final(self).points@.len() as int),
            rearranged(old(self).ids@, final(self).ids@, left as int, right as int),
            kd_ordered(
                final(self).points@,
                final(self).ids@,
                final(self).node_size as nat,
                left as int,
                right as int,
                axis as int,
            ),
        decreases right - left,
    {
        let ghost ids0 = self.ids@;
        let ghost pts = self.points@;
        let ghost ns = self.node_size as nat;
        if right - left <= self.node_size {
            proof {
                assert forall|p: int| left <= p <= right implies #[trigger] found_in(
                    ids0,
                    self.ids@[p],
                    left as int,
                    right as int,
                ) by {
                    assert(ids0[p] == self.ids@[p]);
                }
            }
            return;
        }
        let m: usize = left + (right - left) / 2;
        if axis == 0 {
            self.select(0, m, left, right);
        } else {
            self.select(1, m, left, right);
        }
        let ghost s1 = self.ids@;
        let next: u8 = (axis + 1) % 2;
        self.sort_kd(left, m - 1, next);
        let ghost s2 = self.ids@;
        self.sort_kd(m + 1, right, next);
        let ghost s3 = self.ids@;
        proof {
            let ax = axis as int;
            let km = key_at(pts, s1, m as int, ax);
            assert(key_at(pts, s3, m as int, ax) == km);
            assert forall|p: int| left <= p < m implies #[trigger] key_at(pts, s3, p, ax) <= key_at(
                pts,
                s3,
                m as int,
                ax,
            ) by {
                assert(s3[p] == s2[p]);
                assert(found_in(s1, s2[p], left as int, m - 1));
                let w = choose|w: int| left <= w <= m - 1 && #[trigger] s1[w] == s2[p];
                assert(key_at(pts, s1, w, ax) <= km);
            }
            assert forall|p: int| m < p <= right implies #[trigger] key_at(pts, s3, p, ax) >= key_at(
                pts,
                s3,
                m as int,
                ax,
            ) by {
                assert(s2[p] == s1[p]);
                assert(found_in(s2, s3[p], m + 1, right as int));
                let w = choose|w: int| m + 1 <= w <= right && #[trigger] s2[w] == s3[p];
                assert(key_at(pts, s1, w, ax) >= km);
            }
            lemma_kd_frame(pts, s2, s3, ns, left as int, m - 1, next as int);
            lemma_rearranged_widen(s1, s2, left as int, m - 1, left as int, right as int);
            lemma_rearranged_widen(s2, s3, m + 1, right as int, left as int, right as int);
            lemma_rearranged_trans(ids0, s1, s2, left as int, right as int);
            lemma_rearranged_trans(ids0, s2, s3, left as int, right as int);
            assert(next as int == next_axis(ax));
        }
    }

    /// Builds the index over `points`: `ids` starts as `0..n` and is then arranged as a
    /// KD-tree with buckets of up to `node_size + 1` records. Construction never fails.
    pub fn new(points: Vec<T>, node_size: usize) -> (r: Result<KDBush<T>, std::io::Error>)
        requires
            node_size >= 1,
        ensures
            r is Ok,
            r matches Ok(index) ==> {
                &&& index.wf()
                &&& index.points@ == points@
                &&& index.node_size == node_size
            },
    {
        let len = points.len();
        let mut ids: Vec<usize> = Vec::new();
        let mut i: usize = 0;
        while i < len
            invariant
                i <= len,
                ids@.len() == i,
                forall|q: int| 0 <= q < i ==> #[trigger] ids@[q] == q,
            decreases len - i,
        {
            ids.push(i);
            i += 1;
        }
        let mut new_kdb = KDBush { points: points, node_size: node_size, ids: ids };
        proof {
            assert(is_perm(new_kdb.ids@, len as int));
        }
        let l = new_kdb.ids.len();
        if l >= 1 {
            new_kdb.sort_kd(0, l - 1, 0);
        }
        Ok(new_kdb)
    }
}

} // verus!
