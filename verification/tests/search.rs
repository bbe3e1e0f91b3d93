use sphere_nearest::candidate::CandidateEntry;
use sphere_nearest::nearest_set::BoundedNearestSet;
use std::f64::consts::PI;
use vpsearch::{BestCandidate, MetricSpace, Tree};

/// A point on the unit sphere: polar angle from the pole axis and azimuth,
/// both in radians.
#[derive(Clone, Copy, Debug)]
struct Point {
    polar: f64,
    azimuth: f64,
}

fn degrees(polar: f64, azimuth: f64) -> Point {
    Point { polar: polar.to_radians(), azimuth: azimuth.to_radians() }
}

fn great_circle(a: &Point, b: &Point) -> f64 {
    let (xa, ya, za) = (a.polar.sin() * a.azimuth.cos(), a.polar.sin() * a.azimuth.sin(), a.polar.cos());
    let (xb, yb, zb) = (b.polar.sin() * b.azimuth.cos(), b.polar.sin() * b.azimuth.sin(), b.polar.cos());
    (xa * xb + ya * yb + za * zb).clamp(-1.0, 1.0).acos()
}

impl MetricSpace for Point {
    type UserData = ();
    type Distance = f64;

    fn distance(&self, other: &Self, _: &()) -> f64 {
        great_circle(self, other)
    }
}

/// Hands what the tree visits to the set, and the set's bound to the tree.
struct Collector {
    set: BoundedNearestSet,
    visited: usize,
}

impl Collector {
    fn new(k: usize) -> Collector {
        Collector { set: BoundedNearestSet::new(k).unwrap(), visited: 0 }
    }
}

impl BestCandidate<Point, ()> for Collector {
    type Output = (Vec<CandidateEntry>, usize);

    fn consider(&mut self, _: &Point, distance: f64, candidate_index: usize, _: &()) {
        self.visited += 1;
        self.set.consider(candidate_index, distance.to_bits()).unwrap();
    }

    fn distance(&self) -> f64 {
        f64::from_bits(self.set.current_bound().unwrap())
    }

    fn result(mut self, _: &()) -> Self::Output {
        (self.set.extract().unwrap(), self.visited)
    }
}

fn six_points(fourth_azimuth: f64) -> Vec<Point> {
    vec![
        degrees(90.0, 0.0),
        degrees(90.0, 180.0),
        degrees(90.0, 90.0),
        degrees(90.0, fourth_azimuth),
        degrees(0.0, 0.0),
        degrees(180.0, 0.0),
    ]
}

fn query(step: usize) -> Point {
    Point { polar: 90.0f64.to_radians(), azimuth: 2.0 * PI / 100.0 * (step as f64) - PI }
}

fn nearest_by_streaming(points: &[Point], needle: &Point, k: usize) -> Vec<CandidateEntry> {
    let mut set = BoundedNearestSet::new(k).unwrap();
    for (index, point) in points.iter().enumerate() {
        set.consider(index, great_circle(needle, point).to_bits()).unwrap();
    }
    set.extract().unwrap()
}

#[test]
fn three_nearest_of_six_points_through_the_tree() {
    let points = six_points(-90.0);
    let tree = Tree::new(&points);
    let needle = query(54);
    let (found, visited) = tree.find_nearest_custom(&needle, &(), Collector::new(3));
    assert_eq!(found.len(), 3);
    assert!(visited >= 3);
    assert_eq!(found[0].index, 0);
    assert_eq!(found[1].index, 2);
    assert!(found[2].index == 4 || found[2].index == 5);
    assert!((f64::from_bits(found[0].distance) - 14.4f64.to_radians()).abs() < 1e-12);
    assert!((f64::from_bits(found[1].distance) - 75.6f64.to_radians()).abs() < 1e-12);
    assert!((f64::from_bits(found[2].distance) - 90.0f64.to_radians()).abs() < 1e-12);
    for entry in &found {
        assert_eq!(f64::from_bits(entry.distance), great_circle(&needle, &points[entry.index]));
    }
}

#[test]
fn three_nearest_of_six_points_for_every_query_through_the_tree() {
    let points = six_points(-90.0);
    let tree = Tree::new(&points);
    for step in 0..100 {
        let needle = query(step);
        let (found, _) = tree.find_nearest_custom(&needle, &(), Collector::new(3));
        assert_eq!(found.len(), 3);
        let streamed = nearest_by_streaming(&points, &needle, 3);
        let far = |entries: &[CandidateEntry]| entries.iter().map(|e| e.distance).collect::<Vec<u64>>();
        assert_eq!(far(&found), far(&streamed));
    }
}

#[test]
fn three_nearest_of_six_points_by_streaming() {
    let points = six_points(-90.0);
    let needle = query(54);
    let found = nearest_by_streaming(&points, &needle, 3);
    assert_eq!(found.len(), 3);
    assert_eq!(found[0].index, 0);
    assert_eq!(found[1].index, 2);
    let to_north = great_circle(&needle, &points[4]);
    let to_south = great_circle(&needle, &points[5]);
    let third = if to_south < to_north { 5 } else { 4 };
    assert_eq!(found[2].index, third);
}

#[test]
fn a_tree_with_fewer_points_than_room_gives_them_all() {
    let points = six_points(-90.0);
    let tree = Tree::new(&points);
    let (found, visited) = tree.find_nearest_custom(&query(54), &(), Collector::new(10));
    assert_eq!(visited, 6);
    let mut indexes: Vec<usize> = found.iter().map(|e| e.index).collect();
    indexes.sort();
    assert_eq!(indexes, vec![0, 1, 2, 3, 4, 5]);
    for pair in found.windows(2) {
        assert!(pair[0].distance <= pair[1].distance);
    }
}

#[test]
fn an_empty_tree_gives_nothing() {
    let points: Vec<Point> = Vec::new();
    let tree = Tree::new(&points);
    let (found, visited) = tree.find_nearest_custom(&query(54), &(), Collector::new(3));
    assert_eq!(visited, 0);
    assert!(found.is_empty());
}

#[test]
fn equivalent_azimuths_give_the_same_neighbours() {
    let with_negative = six_points(-90.0);
    let with_positive = six_points(270.0);
    for step in 0..100 {
        let needle = query(step);
        let a = great_circle(&needle, &with_negative[3]);
        let b = great_circle(&needle, &with_positive[3]);
        assert!((a - b).abs() < 1e-12);
        let first = Tree::new(&with_negative).find_nearest_custom(&needle, &(), Collector::new(3)).0;
        let second = Tree::new(&with_positive).find_nearest_custom(&needle, &(), Collector::new(3)).0;
        assert_eq!(first.len(), 3);
        assert_eq!(second.len(), 3);
        for (x, y) in first.iter().zip(second.iter()) {
            assert!((f64::from_bits(x.distance) - f64::from_bits(y.distance)).abs() < 1e-12);
        }
    }
}

#[test]
fn every_great_circle_distance_is_a_distance_to_the_set() {
    let mut points = six_points(-90.0);
    points.extend(six_points(270.0));
    points.push(degrees(45.0, 720.0));
    points.push(degrees(135.0, -450.0));
    let mut set = BoundedNearestSet::new(1).unwrap();
    for a in &points {
        for b in &points {
            let d = great_circle(a, b);
            assert!(d >= 0.0 && d <= PI);
            assert_eq!(d, great_circle(b, a));
            assert_eq!(set.consider(0, d.to_bits()), Ok(()));
        }
        assert!(great_circle(a, a) < 1e-7);
    }
    assert_eq!(set.extract().unwrap()[0].distance, 0);
}
