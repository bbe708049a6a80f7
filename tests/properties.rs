use kdbush::kdbush::{Coords, KDBush, Point, RawCoord};

fn scattered(n: usize, seed: u64, span: i32) -> Vec<RawCoord<i32>> {
    let mut state = seed;
    let mut next = move || {
        state = state.wrapping_mul(6364136223846793005).wrapping_add(1442695040888963407);
        ((state >> 33) % (span as u64)) as i32 - span / 2
    };
    (0..n).map(|_| RawCoord(next(), next())).collect()
}

fn sorted(mut v: Vec<usize>) -> Vec<usize> {
    v.sort();
    v
}

fn assert_kd_ordered(index: &KDBush<RawCoord<i32>>, left: usize, right: usize, axis: i8) {
    if right - left <= index.node_size {
        return;
    }
    let m = left + (right - left) / 2;
    let pivot = index.points[index.ids[m]].get(axis);
    for p in left..m {
        assert!(index.points[index.ids[p]].get(axis) <= pivot);
    }
    for p in m + 1..=right {
        assert!(index.points[index.ids[p]].get(axis) >= pivot);
    }
    assert_kd_ordered(index, left, m - 1, (axis + 1) % 2);
    assert_kd_ordered(index, m + 1, right, (axis + 1) % 2);
}

#[test]
fn bounding_rectangle_returns_every_index_once() {
    for &(n, node_size) in &[(1usize, 1usize), (2, 1), (7, 1), (100, 3), (1000, 64), (1500, 1)] {
        let points = scattered(n, n as u64 + 17, 2000);
        let min_x = points.iter().map(|p| p.0).min().unwrap();
        let max_x = points.iter().map(|p| p.0).max().unwrap();
        let min_y = points.iter().map(|p| p.1).min().unwrap();
        let max_y = points.iter().map(|p| p.1).max().unwrap();
        let index = KDBush::new(points, node_size).unwrap();
        let mut found = vec![];
        index.range(&min_x, &min_y, &max_x, &max_y, &mut found, None, None, None);
        assert_eq!(sorted(found), (0..n).collect::<Vec<usize>>());
    }
}

#[test]
fn within_matches_brute_force() {
    let points = scattered(800, 5, 1000);
    let copy: Vec<(i64, i64)> = points.iter().map(|p| (p.0 as i64, p.1 as i64)).collect();
    let index = KDBush::new(points, 8).unwrap();
    for &(qx, qy, r) in &[(0, 0, 100), (-300, 250, 40), (499, 499, 0), (10, -20, 1000), (0, 0, 0)] {
        let mut found = vec![];
        index.within(qx, qy, r, &mut found, None, None, None);
        let expected: Vec<usize> = (0..copy.len())
            .filter(|&i| {
                let dx = copy[i].0 - qx as i64;
                let dy = copy[i].1 - qy as i64;
                dx * dx + dy * dy <= (r as i64) * (r as i64)
            })
            .collect();
        assert_eq!(sorted(found), expected);
    }
}

#[test]
fn range_matches_brute_force() {
    let points = scattered(700, 11, 500);
    let copy: Vec<(i32, i32)> = points.iter().map(|p| (p.0, p.1)).collect();
    let index = KDBush::new(points, 5).unwrap();
    for &(a, b, c, d) in &[(-100, -100, 100, 100), (0, 0, 0, 0), (50, -250, 60, 250), (10, 10, -10, -10)] {
        let mut found = vec![];
        index.range(&a, &b, &c, &d, &mut found, None, None, None);
        let expected: Vec<usize> = (0..copy.len())
            .filter(|&i| copy[i].0 >= a && copy[i].0 <= c && copy[i].1 >= b && copy[i].1 <= d)
            .collect();
        assert_eq!(sorted(found), expected);
    }
}

#[test]
fn construction_orders_large_sets() {
    for &(n, node_size) in &[(700usize, 1usize), (2500, 16), (1203, 600)] {
        let index = KDBush::new(scattered(n, 3 + n as u64, 100000), node_size).unwrap();
        assert_eq!(sorted(index.ids.clone()), (0..n).collect::<Vec<usize>>());
        assert_kd_ordered(&index, 0, n - 1, 0);
    }
}

#[test]
fn construction_with_equal_coordinates() {
    let points: Vec<RawCoord<i32>> = (0..900).map(|i| RawCoord(7, (i % 3) as i32)).collect();
    let index = KDBush::new(points, 2).unwrap();
    assert_kd_ordered(&index, 0, 899, 0);
    let mut found = vec![];
    index.range(&7, &1, &7, &1, &mut found, None, None, None);
    assert_eq!(sorted(found), (0..900).filter(|i| i % 3 == 1).collect::<Vec<usize>>());
}

#[test]
fn queries_on_a_subtree() {
    let points = scattered(50, 9, 100);
    let index = KDBush::new(points, 4).unwrap();
    let m = 49 / 2;
    let mut found = vec![];
    index.range(&-1000, &-1000, &1000, &1000, &mut found, Some(0), Some(m - 1), Some(1));
    assert_eq!(sorted(found), sorted(index.ids[0..m].to_vec()));
    let mut near = vec![];
    index.within(0, 0, 5000, &mut near, Some(m + 1), Some(49), Some(1));
    assert_eq!(sorted(near), sorted(index.ids[m + 1..50].to_vec()));
}

#[test]
fn results_are_appended() {
    let index = KDBush::new(scattered(30, 1, 10), 2).unwrap();
    let mut found = vec![usize::MAX];
    index.range(&-100, &-100, &100, &100, &mut found, None, None, None);
    assert_eq!(found[0], usize::MAX);
    assert_eq!(found.len(), 31);
}

#[test]
fn coordinate_access() {
    let c = RawCoord(3i16, -4i16);
    assert_eq!((c.get_x(), c.get_y(), c.get(0), c.get(1)), (3, -4, 3, -4));
    let w = RawCoord(-70000i32, 80000i32);
    assert_eq!((w.get_x(), w.get_y(), w.get(0), w.get(5)), (-70000, 80000, -70000, 80000));
    let p = Point(1.5f64, 2.5f64);
    assert_eq!((*p.get(0), *p.get(1)), (1.5, 2.5));
}
