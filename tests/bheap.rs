use raytracer::bheap::{BinaryMaxHeap, Uid};

fn drain(h: &mut BinaryMaxHeap<(u64, u64)>) -> Vec<(u64, u64)> {
    let mut out = Vec::new();
    while let Some(e) = h.pop() {
        out.push(e);
    }
    out
}

#[test]
fn new_heap_is_empty() {
    let mut h: BinaryMaxHeap<(u64, u64)> = BinaryMaxHeap::new();
    assert!(h.is_empty());
    assert_eq!(h.len(), 0);
    assert!(h.peek().is_none());
    assert!(h.pop().is_none());
}

#[test]
fn push_then_pop_gives_descending_order() {
    let mut h = BinaryMaxHeap::new();
    for (p, id) in [(5u64, 1u64), (9, 2), (1, 3), (7, 4), (3, 5), (8, 6)] {
        h.push((p, id));
    }
    assert_eq!(h.len(), 6);
    assert_eq!(h.peek(), Some(&(9, 2)));
    let out = drain(&mut h);
    assert_eq!(out, vec![(9, 2), (8, 6), (7, 4), (5, 1), (3, 5), (1, 3)]);
    assert!(h.is_empty());
}

#[test]
fn equal_priorities_break_ties_by_id() {
    let mut h = BinaryMaxHeap::new();
    h.push((4u64, 10u64));
    h.push((4, 30));
    h.push((4, 20));
    assert_eq!(drain(&mut h), vec![(4, 30), (4, 20), (4, 10)]);
}

#[test]
fn from_vec_builds_heap_and_index() {
    let mut h = BinaryMaxHeap::from_vec(vec![(2u64, 1u64), (6, 2), (4, 3), (10, 4), (1, 5)]);
    assert_eq!(h.len(), 5);
    assert_eq!(h.peek(), Some(&(10, 4)));
    for uid in 1..=5u64 {
        let pos = h.index_in_heap_from_uid(uid).expect("every element is indexed");
        assert_eq!(h.get(pos).map(|e| e.1), Some(uid));
    }
    assert_eq!(drain(&mut h), vec![(10, 4), (6, 2), (4, 3), (2, 1), (1, 5)]);
}

#[test]
fn from_empty_vec() {
    let h: BinaryMaxHeap<(u64, u64)> = BinaryMaxHeap::from_vec(vec![]);
    assert!(h.is_empty());
    assert_eq!(h.index_in_heap_from_uid(0), None);
}

#[test]
fn index_tracks_positions_after_pops() {
    let mut h = BinaryMaxHeap::new();
    for i in 0..20u64 {
        h.push(((i * 7) % 11, i));
    }
    h.pop();
    h.pop();
    for i in 0..20u64 {
        match h.index_in_heap(&(0, i)) {
            Some(pos) => assert_eq!(h.get(pos).map(|e| e.1), Some(i)),
            None => assert!(i == 3 || i == 14),
        }
    }
    assert_eq!(h.len(), 18);
}

#[test]
fn index_in_heap_unknown_uid() {
    let mut h = BinaryMaxHeap::new();
    h.push((1u64, 1u64));
    assert_eq!(h.index_in_heap(&(1, 2)), None);
    assert_eq!(h.index_in_heap(&(99, 1)), Some(0));
}

#[test]
fn raising_priority_moves_element_to_top() {
    let mut h = BinaryMaxHeap::from_vec(vec![(5u64, 1u64), (3, 2), (8, 3), (1, 4)]);
    let pos = h.index_in_heap_from_uid(4).unwrap();
    if let Some(e) = h.get(pos) {
        e.0 = 100;
    }
    let moved = h.restore_heap_property(pos);
    assert_eq!(moved, Some(0));
    assert_eq!(h.index_in_heap_from_uid(4), Some(0));
    assert_eq!(h.peek(), Some(&(100, 4)));
    assert_eq!(drain(&mut h), vec![(100, 4), (8, 3), (5, 1), (3, 2)]);
}

#[test]
fn lowering_priority_moves_element_down() {
    let mut h = BinaryMaxHeap::from_vec(vec![(5u64, 1u64), (3, 2), (8, 3), (1, 4)]);
    assert_eq!(h.peek(), Some(&(8, 3)));
    if let Some(e) = h.get(0) {
        e.0 = 0;
    }
    let moved = h.restore_heap_property(0);
    assert!(moved.is_some());
    assert_ne!(moved, Some(0));
    assert_eq!(h.peek(), Some(&(5, 1)));
    assert_eq!(drain(&mut h), vec![(5, 1), (3, 2), (1, 4), (0, 3)]);
}

#[test]
fn restore_without_change_reports_no_move() {
    let mut h = BinaryMaxHeap::from_vec(vec![(5u64, 1u64), (3, 2), (8, 3)]);
    assert_eq!(h.restore_heap_property(1), None);
    assert_eq!(h.restore_heap_property(7), None);
    assert_eq!(h.len(), 3);
}

#[test]
fn get_out_of_range_is_none() {
    let mut h = BinaryMaxHeap::new();
    h.push((1u64, 1u64));
    assert!(h.get(1).is_none());
    assert!(h.get(0).is_some());
}

#[test]
fn build_heap_reorders_and_reindexes() {
    let mut h = BinaryMaxHeap::from_vec(vec![(1u64, 1u64), (2, 2), (3, 3)]);
    h.build_index();
    h.build_heap();
    assert_eq!(h.peek(), Some(&(3, 3)));
    for uid in 1..=3u64 {
        let pos = h.index_in_heap_from_uid(uid).unwrap();
        assert_eq!(h.get(pos).map(|e| e.1), Some(uid));
    }
}

#[test]
fn pair_uid_is_second_component() {
    assert_eq!((7u64, 42u64).uid(), 42);
}

#[test]
fn lowering_priority_inside_subtree_keeps_rest_in_place() {
    let mut h = BinaryMaxHeap::from_vec(vec![(50u64, 1u64), (40, 2), (30, 3), (20, 4), (10, 5), (25, 6), (5, 7)]);
    let pos = h.index_in_heap_from_uid(2).unwrap();
    let root_before = h.peek().copied();
    if let Some(e) = h.get(pos) {
        e.0 = 1;
    }
    let moved = h.restore_heap_property(pos);
    assert!(moved.is_some());
    assert_eq!(h.peek().copied(), root_before);
    assert_eq!(
        drain(&mut h),
        vec![(50, 1), (30, 3), (25, 6), (20, 4), (10, 5), (5, 7), (1, 2)]
    );
}

#[test]
fn restore_past_the_end_changes_nothing() {
    let mut h = BinaryMaxHeap::from_vec(vec![(1u64, 1u64), (9, 2)]);
    assert_eq!(h.restore_heap_property(2), None);
    assert_eq!(drain(&mut h), vec![(9, 2), (1, 1)]);
}
