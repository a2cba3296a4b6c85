use raytracrr::bvh::{sort_on_axis, BoxKey, BvhShape};
use raytracrr::world::scan_nearest;

fn key(x: u64, y: u64, z: u64) -> BoxKey {
    BoxKey { x, y, z }
}

fn leaves(t: &BvhShape, out: &mut Vec<usize>) {
    match t {
        BvhShape::Empty => {}
        BvhShape::Object(o) => out.push(*o),
        BvhShape::Node { left, right, .. } => {
            leaves(left, out);
            leaves(right, out);
        }
    }
}

fn check_ordered(t: &BvhShape, keys: &[BoxKey]) {
    if let BvhShape::Node { axis, left, right, .. } = t {
        assert!(*axis < 3);
        let (mut l, mut r) = (Vec::new(), Vec::new());
        leaves(left, &mut l);
        leaves(right, &mut r);
        for &a in &l {
            for &b in &r {
                assert!(keys[a].get(*axis) <= keys[b].get(*axis));
            }
        }
        check_ordered(left, keys);
        check_ordered(right, keys);
    }
}

#[test]
fn empty_hierarchy_over_nothing() {
    let t = BvhShape::new(&Vec::new());
    assert!(matches!(t, BvhShape::Empty));
    let probed = std::cell::Cell::new(false);
    let box_hit = |_: usize, _: Option<u64>| {
        probed.set(true);
        true
    };
    let object_hit = |_: usize, _: Option<u64>| {
        probed.set(true);
        Some(1)
    };
    assert_eq!(t.nearest(&box_hit, &object_hit), None);
    assert!(!probed.get());
    assert_eq!(scan_nearest(0, &object_hit), None);
}

#[test]
fn empty_range_builds_the_empty_hierarchy() {
    let keys = vec![key(1, 1, 1)];
    let (t, next) = BvhShape::from_range(&keys, Vec::new(), 7);
    assert!(matches!(t, BvhShape::Empty));
    assert_eq!(next, 7);
}

#[test]
fn single_surface_sits_on_both_sides() {
    let t = BvhShape::new(&vec![key(5, 5, 5)]);
    match t {
        BvhShape::Node { left, right, .. } => {
            assert!(matches!(*left, BvhShape::Object(0)));
            assert!(matches!(*right, BvhShape::Object(0)));
        }
        _ => panic!("root must be a node"),
    }
}

#[test]
fn two_surfaces_go_one_per_side_in_order() {
    let keys = vec![key(9, 9, 9), key(1, 1, 1)];
    for _ in 0..20 {
        let t = BvhShape::new(&keys);
        match t {
            BvhShape::Node { left, right, .. } => {
                assert!(matches!(*left, BvhShape::Object(1)));
                assert!(matches!(*right, BvhShape::Object(0)));
            }
            _ => panic!("root must be a node"),
        }
    }
}

#[test]
fn every_surface_is_reachable_and_splits_are_ordered() {
    for n in [3usize, 4, 5, 17, 100] {
        let keys: Vec<BoxKey> = (0..n as u64)
            .map(|i| key((i * 7919) % 101, (i * 31) % 13, 1000 - i))
            .collect();
        let t = BvhShape::new(&keys);
        let mut found = Vec::new();
        leaves(&t, &mut found);
        found.sort();
        found.dedup();
        assert_eq!(found, (0..n).collect::<Vec<_>>());
        check_ordered(&t, &keys);
    }
}

#[test]
fn sorting_orders_by_the_chosen_axis() {
    let keys = vec![key(3, 0, 2), key(1, 5, 1), key(2, 4, 0), key(0, 9, 3)];
    let mut items = vec![0usize, 1, 2, 3];
    sort_on_axis(&keys, &mut items, 0);
    assert_eq!(items, vec![3, 1, 2, 0]);
    sort_on_axis(&keys, &mut items, 1);
    assert_eq!(items, vec![0, 2, 1, 3]);
    sort_on_axis(&keys, &mut items, 2);
    assert_eq!(items, vec![2, 1, 0, 3]);
    let mut none: Vec<usize> = Vec::new();
    sort_on_axis(&keys, &mut none, 1);
    assert!(none.is_empty());
}

fn ids(t: &BvhShape, out: &mut Vec<usize>) {
    if let BvhShape::Node { id, left, right, .. } = t {
        out.push(*id);
        ids(left, out);
        ids(right, out);
    }
}

#[test]
fn nodes_are_numbered_apart_from_zero_in_preorder() {
    let keys: Vec<BoxKey> = (0..40u64).map(|i| key(i % 7, i % 5, i)).collect();
    let t = BvhShape::new(&keys);
    let mut found = Vec::new();
    ids(&t, &mut found);
    assert_eq!(found[0], 0);
    let mut sorted = found.clone();
    sorted.sort();
    sorted.dedup();
    assert_eq!(sorted.len(), found.len());
    assert!(found.iter().all(|&i| i < 80));
}

/// Surfaces as sets of hit parameters; boxes as the least hit under a node.
fn least_under(t: &BvhShape, hits: &[Vec<u64>]) -> Option<u64> {
    let mut l = Vec::new();
    leaves(t, &mut l);
    l.iter().flat_map(|&o| hits[o].iter().copied()).min()
}

fn find_node<'a>(t: &'a BvhShape, want: usize) -> Option<&'a BvhShape> {
    match t {
        BvhShape::Node { id, left, right, .. } => {
            if *id == want {
                Some(t)
            } else {
                find_node(left, want).or_else(|| find_node(right, want))
            }
        }
        _ => None,
    }
}

fn below(t: u64, b: Option<u64>) -> bool {
    b.map_or(true, |x| t < x)
}

#[test]
fn nearest_agrees_with_a_linear_scan() {
    for n in [1usize, 2, 3, 10, 33] {
        let keys: Vec<BoxKey> = (0..n as u64).map(|i| key((i * 37) % 11, i % 3, 50 - i)).collect();
        let hits: Vec<Vec<u64>> = (0..n as u64)
            .map(|i| if i % 3 == 0 { vec![] } else { vec![(i * 7919) % 97 + 5, (i * 31) % 89 + 5] })
            .collect();
        let t = BvhShape::new(&keys);
        let box_hit = |id: usize, b: Option<u64>| {
            let node = find_node(&t, id).unwrap();
            least_under(node, &hits).map_or(false, |m| below(m, b))
        };
        let object_hit = |o: usize, b: Option<u64>| hits[o].iter().copied().filter(|&h| below(h, b)).min();
        let r = t.nearest(&box_hit, &object_hit);
        let linear = hits.iter().flatten().copied().min();
        assert_eq!(r.map(|(_, t)| t), linear);
        let scanned = scan_nearest(n, &object_hit);
        assert_eq!(r.map(|(_, t)| t), scanned.map(|(_, t)| t));
        if let Some((o, t)) = r {
            assert!(hits[o].contains(&t));
        }
    }
}

#[test]
fn nearest_finds_nothing_where_nothing_is_hit() {
    let keys = vec![key(1, 2, 3), key(4, 5, 6), key(0, 0, 0), key(9, 9, 9)];
    let t = BvhShape::new(&keys);
    let r = t.nearest(&|_: usize, _: Option<u64>| true, &|_: usize, _: Option<u64>| None);
    assert_eq!(r, None);
}

#[test]
fn nearest_prefers_a_closer_hit_on_the_right() {
    let keys = vec![key(0, 0, 0), key(10, 10, 10)];
    let t = BvhShape::new(&keys);
    let object_hit = |o: usize, b: Option<u64>| {
        let h = if o == 0 { 50 } else { 20 };
        if below(h, b) { Some(h) } else { None }
    };
    assert_eq!(t.nearest(&|_: usize, _: Option<u64>| true, &object_hit), Some((1, 20)));
}

fn distinct_leaves(t: &BvhShape) -> usize {
    let mut l = Vec::new();
    leaves(t, &mut l);
    l.sort();
    l.dedup();
    l.len()
}

fn check_halved(t: &BvhShape) {
    if let BvhShape::Node { left, right, .. } = t {
        let total = distinct_leaves(t);
        if total > 1 {
            assert_eq!(distinct_leaves(left), total / 2);
            assert_eq!(distinct_leaves(right), total - total / 2);
        }
        check_halved(left);
        check_halved(right);
    }
}

#[test]
fn every_split_puts_half_on_the_left() {
    for n in [2usize, 3, 6, 7, 64, 99] {
        let keys: Vec<BoxKey> = (0..n as u64).map(|i| key(i * 3 % 17, 99 - i, i % 4)).collect();
        let t = BvhShape::new(&keys);
        assert_eq!(distinct_leaves(&t), n);
        check_halved(&t);
    }
}
