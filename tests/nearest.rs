use kdbush::geokdbush::{around, GeoBox};
use kdbush::kdbush::{KDBush, RawCoord};

fn scattered(n: usize, seed: u64, span: i32) -> Vec<RawCoord<i32>> {
    let mut state = seed;
    let mut next = move || {
        state = state.wrapping_mul(6364136223846793005).wrapping_add(1442695040888963407);
        ((state >> 33) % (span as u64)) as i32 - span / 2
    };
    (0..n).map(|_| RawCoord(next(), next())).collect()
}

fn sq(qx: i32, qy: i32, x: i32, y: i32) -> u64 {
    let dx = (x as i64 - qx as i64).unsigned_abs();
    let dy = (y as i64 - qy as i64).unsigned_abs();
    dx * dx + dy * dy
}

fn clamp(v: i32, lo: i32, hi: i32) -> i32 {
    if v < lo {
        lo
    } else if v > hi {
        hi
    } else {
        v
    }
}

fn keys(qx: i32, qy: i32) -> (impl Fn(i32, i32) -> u64, impl Fn(GeoBox) -> u64) {
    let point_key = move |x: i32, y: i32| sq(qx, qy, x, y);
    let box_key = move |b: GeoBox| {
        sq(qx, qy, clamp(qx, b.min_lng, b.max_lng), clamp(qy, b.min_lat, b.max_lat))
    };
    (point_key, box_key)
}

fn no_filter() -> Option<fn(usize) -> bool> {
    None
}

#[test]
fn around_returns_every_record_in_order() {
    let points = scattered(600, 21, 1000);
    let copy: Vec<(i32, i32)> = points.iter().map(|p| (p.0, p.1)).collect();
    let index = KDBush::new(points, 4).unwrap();
    let (pk, bk) = keys(13, -40);
    let found = around(&index, &pk, &bk, None, None, &no_filter());
    let mut ids = found.clone();
    ids.sort();
    assert_eq!(ids, (0..600).collect::<Vec<usize>>());
    let dists: Vec<u64> = found.iter().map(|&i| sq(13, -40, copy[i].0, copy[i].1)).collect();
    assert!(dists.windows(2).all(|w| w[0] <= w[1]));
}

#[test]
fn around_max_results_gives_the_nearest() {
    let points = scattered(300, 4, 400);
    let copy: Vec<(i32, i32)> = points.iter().map(|p| (p.0, p.1)).collect();
    let index = KDBush::new(points, 3).unwrap();
    let (pk, bk) = keys(0, 0);
    let mut all: Vec<u64> = copy.iter().map(|p| sq(0, 0, p.0, p.1)).collect();
    all.sort();
    for &k in &[1usize, 7, 50, 300, 1000] {
        let found = around(&index, &pk, &bk, Some(k), None, &no_filter());
        assert_eq!(found.len(), k.min(300));
        let dists: Vec<u64> = found.iter().map(|&i| sq(0, 0, copy[i].0, copy[i].1)).collect();
        assert_eq!(dists, all[..k.min(300)].to_vec());
    }
    let none = around(&index, &pk, &bk, Some(0), None, &no_filter());
    assert!(none.is_empty());
}

#[test]
fn around_max_distance_gives_those_within() {
    let points = scattered(500, 8, 600);
    let copy: Vec<(i32, i32)> = points.iter().map(|p| (p.0, p.1)).collect();
    let index = KDBush::new(points, 6).unwrap();
    let (pk, bk) = keys(100, 50);
    for &d in &[0u64, 2500, 40000, 10_000_000] {
        let found = around(&index, &pk, &bk, None, Some(d), &no_filter());
        let mut ids = found.clone();
        ids.sort();
        let expected: Vec<usize> = (0..copy.len()).filter(|&i| sq(100, 50, copy[i].0, copy[i].1) <= d).collect();
        assert_eq!(ids, expected);
        let dists: Vec<u64> = found.iter().map(|&i| sq(100, 50, copy[i].0, copy[i].1)).collect();
        assert!(dists.windows(2).all(|w| w[0] <= w[1]));
    }
}

#[test]
fn around_skips_rejected_records() {
    let points = scattered(200, 2, 300);
    let copy: Vec<(i32, i32)> = points.iter().map(|p| (p.0, p.1)).collect();
    let index = KDBush::new(points, 5).unwrap();
    let (pk, bk) = keys(-20, 20);
    let filter = Some(|i: usize| copy[i].0 % 2 == 0);
    let found = around(&index, &pk, &bk, Some(10), None, &filter);
    assert_eq!(found.len(), 10);
    assert!(found.iter().all(|&i| copy[i].0 % 2 == 0));
    let mut even: Vec<u64> = copy.iter().filter(|p| p.0 % 2 == 0).map(|p| sq(-20, 20, p.0, p.1)).collect();
    even.sort();
    let dists: Vec<u64> = found.iter().map(|&i| sq(-20, 20, copy[i].0, copy[i].1)).collect();
    assert_eq!(dists, even[..10].to_vec());
}

#[test]
fn around_on_empty_index() {
    let index = KDBush::new(Vec::<RawCoord<i32>>::new(), 10).unwrap();
    let (pk, bk) = keys(0, 0);
    assert!(around(&index, &pk, &bk, None, None, &no_filter()).is_empty());
    assert!(around(&index, &pk, &bk, Some(3), Some(5), &no_filter()).is_empty());
}

#[test]
fn around_fixture_nearest_three() {
    let points: Vec<RawCoord<i32>> =
        vec![RawCoord(0, 0), RawCoord(10, 0), RawCoord(3, 4), RawCoord(-1, 1), RawCoord(50, 50)];
    let index = KDBush::new(points, 1).unwrap();
    let (pk, bk) = keys(0, 0);
    assert_eq!(around(&index, &pk, &bk, Some(3), None, &no_filter()), vec![0, 3, 2]);
    assert_eq!(around(&index, &pk, &bk, None, Some(25), &no_filter()), vec![0, 3, 2]);
    assert_eq!(around(&index, &pk, &bk, None, None, &no_filter()), vec![0, 3, 2, 1, 4]);
}

#[test]
fn whole_box_holds_everything() {
    let b = GeoBox::everything();
    assert_eq!((b.min_lng, b.min_lat, b.max_lng, b.max_lat), (i32::MIN, i32::MIN, i32::MAX, i32::MAX));
}
