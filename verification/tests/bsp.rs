use wirt_collision::bsp::aabb::{Aabb, PartitionError};
use wirt_collision::bsp::entry::Entry;
use wirt_collision::bsp::node::Node;
use wirt_collision::bsp::partition::{Bucket, Dimension, Partition};
use wirt_collision::bsp::tree::Tree;
use wirt_collision::primitive::Vec2;
use wirt_collision::util::midpoint;
use wirt_collision::world::Entity;

fn entry(id: usize, left: i64, right: i64, top: i64, bottom: i64) -> Entry {
    Entry { id, aabb: Aabb::new(left, right, top, bottom) }
}

fn brute_force(entries: &[Entry]) -> Vec<(usize, usize)> {
    let mut pairs = vec![];
    for a in entries {
        for b in entries {
            if a.id != b.id && a.aabb.intersects(&b.aabb) {
                pairs.push((a.id, b.id));
            }
        }
    }
    pairs.sort();
    pairs.dedup();
    pairs
}

fn normalized(mut pairs: Vec<(usize, usize)>) -> Vec<(usize, usize)> {
    pairs.sort();
    pairs.dedup();
    pairs
}

fn next_random(state: &mut u64) -> u64 {
    *state = state.wrapping_mul(6364136223846793005).wrapping_add(1442695040888963407);
    *state >> 33
}

fn random_entries(seed: u64, count: usize, span: i64, max_size: i64) -> Vec<Entry> {
    let mut state = seed;
    let mut entries = vec![];
    for id in 0..count {
        let left = (next_random(&mut state) % (span as u64)) as i64 - span / 2;
        let bottom = (next_random(&mut state) % (span as u64)) as i64 - span / 2;
        let width = (next_random(&mut state) % (max_size as u64 + 1)) as i64;
        let height = (next_random(&mut state) % (max_size as u64 + 1)) as i64;
        entries.push(entry(id, left, left + width, bottom + height, bottom));
    }
    entries
}

#[test]
fn vec2_constructors() {
    assert_eq!(Vec2 { x: 0, y: 0 }, Vec2::new());
    assert_eq!(Vec2 { x: 0, y: 0 }, Vec2::default());
    let v = Vec2::new_at(3, -4);
    assert_eq!(3, v.x);
    assert_eq!(-4, v.y);
}

#[test]
fn midpoint_rounds_down() {
    assert_eq!(5, midpoint(0, 10));
    assert_eq!(5, midpoint(10, 0));
    assert_eq!(2, midpoint(2, 3));
    assert_eq!(-2, midpoint(-3, 0));
    assert_eq!(-3, midpoint(-3, -2));
    assert_eq!(0, midpoint(-1, 1));
    assert_eq!(-1, midpoint(i64::MIN, i64::MAX));
    assert_eq!(i64::MAX, midpoint(i64::MAX, i64::MAX));
    assert_eq!(i64::MIN, midpoint(i64::MIN, i64::MIN));
}

#[test]
fn aabb_edges_and_corners() {
    let aabb = Aabb::new(-2, 6, 9, 1);
    assert_eq!(-2, aabb.left());
    assert_eq!(6, aabb.right());
    assert_eq!(9, aabb.top());
    assert_eq!(1, aabb.bottom());
    assert_eq!(Vec2::new_at(-2, 9), aabb.top_left);
    assert_eq!(Vec2::new_at(6, 1), aabb.bottom_right());
    assert_eq!(Vec2::new_at(8, 8), aabb.extent());
    assert_eq!(Vec2::new_at(2, 5), aabb.center());
    assert_eq!(Vec2::new_at(-1, -1), Aabb::new(-2, 1, 1, -2).center());
    assert_eq!(Aabb::new(0, 0, 0, 0), Aabb::default());
}

#[test]
fn aabb_intersects_counts_touching_boxes() {
    let a = Aabb::new(0, 10, 10, 0);
    assert!(a.intersects(&Aabb::new(5, 15, 15, 5)));
    assert!(a.intersects(&Aabb::new(10, 20, 10, 0)));
    assert!(a.intersects(&Aabb::new(10, 20, 20, 10)));
    assert!(a.intersects(&Aabb::new(2, 3, 3, 2)));
    assert!(!a.intersects(&Aabb::new(11, 20, 10, 0)));
    assert!(!a.intersects(&Aabb::new(0, 10, 20, 11)));
    assert!(!a.intersects(&Aabb::new(-5, -1, 10, 0)));
    assert!(!a.intersects(&Aabb::new(0, 10, -1, -5)));
}

#[test]
fn aabb_intersects_is_symmetric() {
    let boxes = random_entries(11, 40, 60, 15);
    for a in &boxes {
        for b in &boxes {
            assert_eq!(a.aabb.intersects(&b.aabb), b.aabb.intersects(&a.aabb));
        }
    }
}

#[test]
fn aabb_merge_is_the_hull() {
    let mut a = Aabb::new(0, 4, 6, 2);
    let b = Aabb::new(-3, 1, 3, -5);
    let merged = a.merge(&b);
    assert_eq!(Aabb::new(-3, 4, 6, -5), merged);
    assert_eq!(Aabb::new(0, 4, 6, 2), a);
    let mut inner = Aabb::new(1, 2, 2, 1);
    assert_eq!(Aabb::new(0, 3, 3, 0), inner.merge(&Aabb::new(0, 3, 3, 0)));
}

#[test]
fn aabb_merged_of_nothing_is_nothing() {
    assert_eq!(None, Aabb::merged(&[]));
}

#[test]
fn aabb_merged_contains_every_box() {
    let single = Aabb::new(1, 2, 4, 3);
    assert_eq!(Some(single), Aabb::merged(&[single]));

    let entries = random_entries(5, 50, 1000, 40);
    let boxes: Vec<Aabb> = entries.iter().map(|e| e.aabb).collect();
    let hull = Aabb::merged(&boxes).unwrap();
    for b in &boxes {
        assert!(hull.left() <= b.left());
        assert!(b.right() <= hull.right());
        assert!(hull.bottom() <= b.bottom());
        assert!(b.top() <= hull.top());
    }
    assert_eq!(boxes.iter().map(|b| b.left()).min().unwrap(), hull.left());
    assert_eq!(boxes.iter().map(|b| b.right()).max().unwrap(), hull.right());
    assert_eq!(boxes.iter().map(|b| b.bottom()).min().unwrap(), hull.bottom());
    assert_eq!(boxes.iter().map(|b| b.top()).max().unwrap(), hull.top());
}

#[test]
fn aabb_partition_splits_along_each_axis() {
    let aabb = Aabb::new(0, 10, 8, 2);
    let (low, high) = aabb.partition(Partition { dimension: Dimension::X, value: 4 }).unwrap();
    assert_eq!(Aabb::new(0, 4, 8, 2), low);
    assert_eq!(Aabb::new(4, 10, 8, 2), high);
    let (low, high) = aabb.partition(Partition { dimension: Dimension::Y, value: 5 }).unwrap();
    assert_eq!(Aabb::new(0, 10, 5, 2), low);
    assert_eq!(Aabb::new(0, 10, 8, 5), high);
    let (low, high) = aabb.partition(Partition { dimension: Dimension::X, value: 0 }).unwrap();
    assert_eq!(Aabb::new(0, 0, 8, 2), low);
    assert_eq!(aabb, high);
    let (low, high) = aabb.partition(Partition { dimension: Dimension::Y, value: 8 }).unwrap();
    assert_eq!(aabb, low);
    assert_eq!(Aabb::new(0, 10, 8, 8), high);
}

#[test]
fn aabb_partition_reports_a_value_outside_the_box() {
    let aabb = Aabb::new(0, 10, 8, 2);
    assert_eq!(
        Err(PartitionError { min: 0, max: 10, partition: 11 }),
        aabb.partition(Partition { dimension: Dimension::X, value: 11 })
    );
    assert_eq!(
        Err(PartitionError { min: 0, max: 10, partition: -1 }),
        aabb.partition(Partition { dimension: Dimension::X, value: -1 })
    );
    assert_eq!(
        Err(PartitionError { min: 2, max: 8, partition: 1 }),
        aabb.partition(Partition { dimension: Dimension::Y, value: 1 })
    );
    assert_eq!(
        Err(PartitionError { min: 2, max: 8, partition: 9 }),
        aabb.partition(Partition { dimension: Dimension::Y, value: 9 })
    );
}

#[test]
fn dimension_negation_gives_the_other_axis() {
    assert!(-Dimension::X == Dimension::Y);
    assert!(-Dimension::Y == Dimension::X);
    assert!(-(-Dimension::X) == Dimension::X);
}

#[test]
fn classify_puts_ties_into_intersecting() {
    let x = Partition { dimension: Dimension::X, value: 5 };
    assert_eq!(Bucket::Below, x.classify(&Aabb::new(0, 4, 100, -100)));
    assert_eq!(Bucket::Intersecting, x.classify(&Aabb::new(0, 5, 1, 0)));
    assert_eq!(Bucket::Intersecting, x.classify(&Aabb::new(3, 8, 1, 0)));
    assert_eq!(Bucket::Intersecting, x.classify(&Aabb::new(5, 8, 1, 0)));
    assert_eq!(Bucket::Above, x.classify(&Aabb::new(6, 8, 1, 0)));

    let y = Partition { dimension: Dimension::Y, value: -2 };
    assert_eq!(Bucket::Below, y.classify(&Aabb::new(-100, 100, -3, -9)));
    assert_eq!(Bucket::Intersecting, y.classify(&Aabb::new(0, 1, -2, -9)));
    assert_eq!(Bucket::Intersecting, y.classify(&Aabb::new(0, 1, 0, -4)));
    assert_eq!(Bucket::Intersecting, y.classify(&Aabb::new(0, 1, 7, -2)));
    assert_eq!(Bucket::Above, y.classify(&Aabb::new(0, 1, 7, -1)));
}

#[test]
fn classify_intersecting_means_the_box_meets_the_plane() {
    let entries = random_entries(23, 60, 200, 30);
    for dimension in [Dimension::X, Dimension::Y] {
        for value in [-120, -40, -1, 0, 17, 63, 130] {
            let partition = Partition { dimension, value };
            for e in &entries {
                let (low, high) = match dimension {
                    Dimension::X => (e.aabb.left(), e.aabb.right()),
                    Dimension::Y => (e.aabb.bottom(), e.aabb.top()),
                };
                let on_plane = Aabb::new(value, value, value, value);
                let line = match dimension {
                    Dimension::X => Aabb::new(value, value, i64::MAX, i64::MIN),
                    Dimension::Y => Aabb::new(i64::MIN, i64::MAX, value, value),
                };
                let bucket = partition.classify(&e.aabb);
                assert_eq!(bucket == Bucket::Intersecting, low <= value && value <= high);
                assert_eq!(bucket == Bucket::Intersecting, e.aabb.intersects(&line));
                assert_eq!(Bucket::Intersecting, partition.classify(&on_plane));
            }
        }
    }
}

#[test]
fn node_with_up_to_two_entries_is_a_leaf() {
    let node = Node::new_with(vec![], Dimension::X);
    assert!(node.entries.is_empty());
    assert!(node.entries_aabb.is_none());
    assert!(node.children.is_none());
    assert!(node.partition.is_none());

    let a = entry(1, 0, 2, 2, 0);
    let b = entry(2, 10, 12, 5, 3);
    let node = Node::new_with(vec![b, a], Dimension::Y);
    assert_eq!(vec![b, a], node.entries);
    assert_eq!(Some(Aabb::new(0, 12, 5, 0)), node.entries_aabb);
    assert!(node.children.is_none());
    assert!(node.partition.is_none());
}

#[test]
fn node_splits_at_the_midpoint_of_the_extent() {
    let a = entry(1, 0, 2, 1, 0);
    let b = entry(2, 4, 7, 9, 8);
    let c = entry(3, 9, 10, 5, 4);
    let d = entry(4, 3, 5, 3, 2);
    let node = Node::new_with(vec![a, b, c, d], Dimension::X);
    assert_eq!(Some(Partition { dimension: Dimension::X, value: 5 }), node.partition);
    assert_eq!(vec![d, b], node.entries);
    assert_eq!(Some(Aabb::new(3, 7, 9, 2)), node.entries_aabb);
    let children = node.children.unwrap();
    assert_eq!(vec![a], children.left_child.entries);
    assert!(children.left_child.children.is_none());
    assert_eq!(Some(a.aabb), children.left_child.entries_aabb);
    assert_eq!(vec![c], children.right_child.entries);
    assert!(children.right_child.partition.is_none());
}

#[test]
fn node_alternates_the_axis_and_sorts_its_own_entries() {
    let mut entries = vec![];
    for i in 0..6 {
        entries.push(entry(i, 0, 1, 10 * (i as i64) + 1, 10 * (i as i64)));
    }
    entries.push(entry(6, 20, 21, 1, 0));
    entries.push(entry(7, 10, 11, 40, 0));
    entries.push(entry(8, 10, 12, 7, 5));
    entries.push(entry(9, 9, 10, 23, 20));
    let node = Node::new_with(entries.clone(), Dimension::X);
    assert_eq!(Some(Partition { dimension: Dimension::X, value: 10 }), node.partition);
    let own: Vec<usize> = node.entries.iter().map(|e| e.id).collect();
    assert_eq!(vec![8, 9, 7], own);
    let children = node.children.unwrap();
    let left = children.left_child;
    assert_eq!(Some(Partition { dimension: Dimension::Y, value: 25 }), left.partition);
    assert!(left.entries.is_empty());
    assert!(left.entries_aabb.is_none());
    let below = left.children.unwrap();
    assert_eq!(Some(Partition { dimension: Dimension::X, value: 0 }), below.left_child.partition);
    let straddling: Vec<usize> = below.left_child.entries.iter().map(|e| e.id).collect();
    assert_eq!(vec![0, 1, 2], straddling);
    assert_eq!(1, children.right_child.entries.len());
}

#[test]
fn node_sorts_straddling_entries_by_the_right_edge_when_split_along_y() {
    let a = entry(1, 0, 9, 6, 4);
    let b = entry(2, 0, 3, 5, 5);
    let c = entry(3, 0, 6, 10, 0);
    let d = entry(4, 0, 1, 5, 1);
    let node = Node::new_with(vec![a, b, c, d], Dimension::Y);
    assert_eq!(Some(Partition { dimension: Dimension::Y, value: 5 }), node.partition);
    assert_eq!(vec![d, b, c, a], node.entries);
}

#[test]
fn tree_of_nothing_finds_nothing() {
    assert!(Tree::new_with(vec![]).internal_collisions().is_empty());
    assert!(Tree::new_with(vec![entry(7, 0, 1, 1, 0)]).internal_collisions().is_empty());
}

#[test]
fn tree_reports_each_pair_in_both_orders() {
    let entries = vec![
        entry(10, 0, 4, 4, 0),
        entry(20, 3, 8, 8, 3),
        entry(30, 100, 101, 1, 0),
        entry(40, 8, 9, 3, 2),
    ];
    let pairs = Tree::new_with(entries).internal_collisions();
    assert_eq!(vec![(10, 20), (20, 10), (20, 40), (40, 20)], normalized(pairs.clone()));
    assert_eq!(4, pairs.len());
}

#[test]
fn tree_never_pairs_an_identifier_with_itself() {
    let entries = vec![entry(1, 0, 4, 4, 0), entry(1, 1, 2, 2, 1), entry(2, 3, 5, 5, 3)];
    let pairs = normalized(Tree::new_with(entries).internal_collisions());
    assert_eq!(vec![(1, 2), (2, 1)], pairs);
}

#[test]
fn tree_finds_what_pairwise_comparison_finds() {
    for seed in 0..40u64 {
        let count = 1 + (seed as usize * 7) % 90;
        let entries = random_entries(seed, count, 400, 35);
        let expected = brute_force(&entries);
        let found = normalized(Tree::new_with(entries).internal_collisions());
        assert_eq!(expected, found);
    }
}

#[test]
fn tree_finds_all_pairs_in_a_crowded_scene() {
    let entries = random_entries(99, 120, 30, 25);
    let expected = brute_force(&entries);
    let found = Tree::new_with(entries).internal_collisions();
    for pair in &found {
        assert_ne!(pair.0, pair.1);
    }
    assert_eq!(expected.len(), found.len());
    assert_eq!(expected, normalized(found));
}

#[test]
fn tree_handles_identical_and_extreme_boxes() {
    let mut entries = vec![];
    for id in 0..9 {
        entries.push(entry(id, 5, 5, 5, 5));
    }
    entries.push(entry(9, i64::MIN, i64::MAX, i64::MAX, i64::MIN));
    entries.push(entry(10, i64::MIN, i64::MIN, i64::MIN, i64::MIN));
    entries.push(entry(11, i64::MAX, i64::MAX, i64::MAX, i64::MAX));
    let expected = brute_force(&entries);
    let found = normalized(Tree::new_with(entries).internal_collisions());
    assert_eq!(expected, found);
    assert_eq!(9 * 8 + 2 * 11, found.len());
}

#[test]
fn entity_compares_by_identifier() {
    let a = Entity { id: 1 };
    let b = Entity { id: 2 };
    assert_eq!(a, Entity { id: 1 });
    assert_ne!(a, b);
    assert!(a < b);
    assert_eq!(Entry::default().id, 0);
    assert_eq!(Entry::default().aabb, Aabb::default());
}

#[test]
fn tree_reports_a_pair_once_for_each_two_entries_that_form_it() {
    let mut entries = random_entries(7, 80, 120, 30);
    for (index, e) in entries.iter_mut().enumerate() {
        e.id = index % 25;
    }
    let mut expected = vec![];
    for a in &entries {
        for b in &entries {
            if a.id != b.id && a.aabb.intersects(&b.aabb) {
                expected.push((a.id, b.id));
            }
        }
    }
    expected.sort();
    let mut found = Tree::new_with(entries).internal_collisions();
    found.sort();
    assert_eq!(expected, found);
    let mut swapped: Vec<(usize, usize)> = found.iter().map(|pair| (pair.1, pair.0)).collect();
    swapped.sort();
    assert_eq!(found, swapped);
}
