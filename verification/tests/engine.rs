use fnv::{FnvHashMap, FnvHashSet};
use retained_heap_calculator::calculator::RetainedHeapCalculator;
use retained_heap_calculator::graph::{HeapObject, ThreadRootSet};

fn set_of(items: &[u64]) -> FnvHashSet<u64> {
    let mut set = FnvHashSet::default();
    for item in items {
        set.insert(*item);
    }
    set
}

fn heap_object(size: u32, referents: &[u64], inbound: &[u64]) -> HeapObject {
    HeapObject { size, referents: set_of(referents), inbound_references: set_of(inbound) }
}

fn counts(entries: &[(u64, i128)]) -> FnvHashMap<u64, i128> {
    let mut view = FnvHashMap::default();
    for (address, count) in entries {
        view.insert(*address, *count);
    }
    view
}

fn tree() -> RetainedHeapCalculator {
    // 1 -> {2, 3}, 2 -> {4}, 3 -> {4, 5}, 5 -> {6}
    let mut objects = FnvHashMap::default();
    objects.insert(1, heap_object(1, &[2, 3], &[]));
    objects.insert(2, heap_object(2, &[4], &[1]));
    objects.insert(3, heap_object(4, &[4, 5], &[1]));
    objects.insert(4, heap_object(8, &[], &[2, 3]));
    objects.insert(5, heap_object(16, &[6], &[3]));
    objects.insert(6, heap_object(32, &[], &[5]));
    RetainedHeapCalculator::new(objects, vec![])
}

#[test]
fn engine_releases_the_closure() {
    let calculator = tree();
    let outcome = calculator.retained_heap0(counts(&[(1, 0)]), vec![1], false).unwrap();
    assert_eq!(outcome.size, 63);
    assert!(outcome.passes >= 1 && outcome.passes <= 6);
}

#[test]
fn engine_stops_at_positive_counts() {
    let calculator = tree();
    let outcome = calculator.retained_heap0(counts(&[(3, 0)]), vec![3], false).unwrap();
    // 4 keeps the reference from 2.
    assert_eq!(outcome.size, 4 + 16 + 32);
    let held = calculator.retained_heap0(counts(&[(3, 1)]), vec![3], false).unwrap();
    assert_eq!(held.size, 0);
    assert_eq!(held.passes, 0);
}

#[test]
fn engine_takes_the_lowest_counts_first() {
    let calculator = tree();
    let outcome = calculator
        .retained_heap0(counts(&[(2, 0), (3, 0), (4, 2), (1, 5)]), vec![1, 4, 2, 3], false)
        .unwrap();
    assert_eq!(outcome.size, 2 + 4 + 8 + 16 + 32);
}

#[test]
fn engine_with_repeated_front_entries() {
    let calculator = tree();
    let outcome =
        calculator.retained_heap0(counts(&[(5, 0), (6, -3)]), vec![5, 6, 5, 6], false).unwrap();
    assert_eq!(outcome.size, 48);
}

#[test]
fn engine_counts_dangling_addresses_as_nothing() {
    let mut objects = FnvHashMap::default();
    objects.insert(1, heap_object(7, &[2, 3], &[]));
    let calculator = RetainedHeapCalculator::new(objects, vec![]);
    let outcome = calculator.retained_heap0(counts(&[(1, 0)]), vec![1], false).unwrap();
    assert_eq!(outcome.size, 7);
    assert_eq!(outcome.passes, 2);
}

#[test]
fn engine_uses_recorded_subtree_sizes() {
    let mut calculator = tree();
    assert!(calculator.find_strict_subtrees());
    assert_eq!(calculator.subtree_roots, set_of(&[5, 6]));
    assert_eq!(calculator.object_retained_heap[&5], 48);
    assert_eq!(calculator.object_retained_heap[&6], 32);
    // A recorded size is taken as it stands, and the root is not descended into.
    calculator.object_retained_heap.insert(5, 1000);
    let with_memo = calculator.retained_heap0(counts(&[(3, 0)]), vec![3], true).unwrap();
    assert_eq!(with_memo.size, 4 + 1000);
    let without = calculator.retained_heap0(counts(&[(3, 0)]), vec![3], false).unwrap();
    assert_eq!(without.size, 4 + 16 + 32);
}

#[test]
fn engine_reports_overflow() {
    let mut objects = FnvHashMap::default();
    objects.insert(1, heap_object(u32::MAX, &[], &[]));
    objects.insert(2, heap_object(1, &[], &[]));
    let calculator = RetainedHeapCalculator::new(objects, vec![]);
    assert!(calculator.retained_heap0(counts(&[(1, 0), (2, 0)]), vec![1, 2], false).is_none());
    let one = calculator.retained_heap0(counts(&[(1, 0), (2, 1)]), vec![1, 2], false).unwrap();
    assert_eq!(one.size, u32::MAX);
}

#[test]
fn engine_passes_are_bounded_by_released_addresses() {
    // A chain of five objects is released one per pass.
    let mut objects = FnvHashMap::default();
    for address in 1..=5u64 {
        let referents: Vec<u64> = if address < 5 { vec![address + 1] } else { vec![] };
        let inbound: Vec<u64> = if address > 1 { vec![address - 1] } else { vec![] };
        objects.insert(address, heap_object(1, &referents, &inbound));
    }
    let calculator = RetainedHeapCalculator::new(objects, vec![]);
    let outcome = calculator.retained_heap0(counts(&[(1, 0)]), vec![1], false).unwrap();
    assert_eq!(outcome.size, 5);
    assert_eq!(outcome.passes, 5);
}

#[test]
fn update_view_takes_one_off_each_count() {
    let calculator = tree();
    let mut view = counts(&[(2, 3), (9, -1)]);
    calculator.update_inbound_references_view(&vec![2, 4, 6, 77, 9], &mut view);
    assert_eq!(view.len(), 5);
    assert_eq!(view[&2], 2);
    assert_eq!(view[&4], 1);
    assert_eq!(view[&6], 0);
    assert_eq!(view[&77], 0);
    assert_eq!(view[&9], -2);
}

#[test]
fn root_live_count_adds_other_holders() {
    let mut objects = FnvHashMap::default();
    objects.insert(1, heap_object(1, &[], &[5, 6]));
    let threads = vec![
        ThreadRootSet { name: "a".to_string(), roots: set_of(&[1, 2]) },
        ThreadRootSet { name: "b".to_string(), roots: set_of(&[1]) },
        ThreadRootSet { name: "c".to_string(), roots: set_of(&[2]) },
    ];
    let calculator = RetainedHeapCalculator::new(objects, threads);
    assert_eq!(calculator.root_live_count(0, 1), 3);
    assert_eq!(calculator.root_live_count(1, 1), 3);
    assert_eq!(calculator.root_live_count(2, 1), 4);
    assert_eq!(calculator.root_live_count(0, 2), 1);
    assert_eq!(calculator.root_live_count(2, 2), 1);
}

#[test]
fn recorded_subtree_sizes_change_no_result() {
    // 1 -> {2, 3}, 2 -> {4}, 3 -> {4, 5}, 5 -> {6, 7}, 7 -> {8}
    let mut objects = FnvHashMap::default();
    objects.insert(1, heap_object(1, &[2, 3], &[]));
    objects.insert(2, heap_object(2, &[4], &[1]));
    objects.insert(3, heap_object(4, &[4, 5], &[1]));
    objects.insert(4, heap_object(8, &[], &[2, 3]));
    objects.insert(5, heap_object(16, &[6, 7], &[3]));
    objects.insert(6, heap_object(32, &[], &[5]));
    objects.insert(7, heap_object(64, &[8], &[5]));
    objects.insert(8, heap_object(128, &[], &[7]));
    let mut calculator = RetainedHeapCalculator::new(objects, vec![]);
    assert!(calculator.find_strict_subtrees());
    assert_eq!(calculator.subtree_roots, set_of(&[5, 6, 7, 8]));
    let expected = [(1u64, 255u32), (2, 2), (3, 244), (4, 8), (5, 240), (6, 32), (7, 192), (8, 128)];
    for (address, size) in expected {
        let with = calculator.retained_heap0(counts(&[(address, 0)]), vec![address], true);
        let without = calculator.retained_heap0(counts(&[(address, 0)]), vec![address], false);
        assert_eq!(with.unwrap().size, size);
        assert_eq!(without.unwrap().size, size);
    }
}

fn chain_of_three() -> RetainedHeapCalculator {
    let mut objects = FnvHashMap::default();
    objects.insert(2, heap_object(20, &[6], &[]));
    objects.insert(6, heap_object(60, &[7], &[2]));
    objects.insert(7, heap_object(70, &[], &[6]));
    let mut calculator = RetainedHeapCalculator::new(objects, vec![]);
    assert!(calculator.find_strict_subtrees());
    calculator
}

#[test]
fn pass_releases_a_subtree_root_as_a_whole() {
    let calculator = chain_of_three();
    let mut front = vec![2];
    let mut view = counts(&[(2, 0)]);
    let mut deleted = FnvHashSet::default();
    let out =
        calculator.retained_heap_calculation_iteration(&mut front, &mut view, &mut deleted, true);
    assert_eq!(out, (150, true));
    assert_eq!(deleted, set_of(&[2]));
    assert!(front.is_empty());
    assert_eq!(view, counts(&[(2, 0)]));
}

#[test]
fn pass_descends_into_an_object_without_a_known_size() {
    let calculator = chain_of_three();
    let mut front = vec![2];
    let mut view = counts(&[(2, 0)]);
    let mut deleted = FnvHashSet::default();
    let out =
        calculator.retained_heap_calculation_iteration(&mut front, &mut view, &mut deleted, false);
    assert_eq!(out, (20, true));
    assert_eq!(deleted, set_of(&[2]));
    assert_eq!(front, vec![6]);
    assert_eq!(view, counts(&[(2, 0), (6, 0)]));
}

#[test]
fn pass_that_releases_nothing_changes_nothing() {
    let calculator = chain_of_three();
    let mut front = vec![6, 2, 7];
    let mut view = counts(&[(6, 1), (2, 0), (7, -1)]);
    let mut deleted = set_of(&[7, 2]);
    let out =
        calculator.retained_heap_calculation_iteration(&mut front, &mut view, &mut deleted, false);
    assert_eq!(out, (0, false));
    assert_eq!(front, vec![6, 2, 7]);
    assert_eq!(view, counts(&[(6, 1), (2, 0), (7, -1)]));
    assert_eq!(deleted, set_of(&[7, 2]));
}

#[test]
fn pass_ends_at_the_first_positive_count() {
    let calculator = tree();
    // 4 is released already, 2 is released, 3 stops the pass, 5 is not come to.
    let mut front = vec![5, 3, 2, 4];
    let mut view = counts(&[(5, 0), (3, 1), (2, 0), (4, 0)]);
    let mut deleted = set_of(&[4]);
    let out =
        calculator.retained_heap_calculation_iteration(&mut front, &mut view, &mut deleted, false);
    assert_eq!(out, (2, true));
    assert_eq!(front, vec![5, 3, 4]);
    assert_eq!(view, counts(&[(5, 0), (3, 1), (2, 0), (4, 0)]));
    assert_eq!(deleted, set_of(&[4, 2]));
}

#[test]
fn pass_takes_one_off_a_count_for_each_released_object() {
    let calculator = tree();
    // 2 and 3 both refer to 4, 3 also to 5.
    let mut front = vec![2, 3];
    let mut view = counts(&[(2, 0), (3, 0)]);
    let mut deleted = FnvHashSet::default();
    let out =
        calculator.retained_heap_calculation_iteration(&mut front, &mut view, &mut deleted, false);
    assert_eq!(out, (6, true));
    assert_eq!(deleted, set_of(&[2, 3]));
    assert_eq!(view, counts(&[(2, 0), (3, 0), (4, 0), (5, 0)]));
    let mut joined = front.clone();
    joined.sort();
    assert_eq!(joined, vec![4, 4, 5]);
}
