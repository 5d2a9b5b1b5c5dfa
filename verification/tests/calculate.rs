use fnv::{FnvHashMap, FnvHashSet};
use retained_heap_calculator::calculator::RetainedHeapCalculator;
use retained_heap_calculator::graph::{HeapObject, ThreadRootSet};

fn addresses(items: &[u64]) -> FnvHashSet<u64> {
    let mut set = FnvHashSet::default();
    for item in items {
        set.insert(*item);
    }
    set
}

fn object(size: u32, referents: &[u64], inbound: &[u64]) -> HeapObject {
    HeapObject {
        size,
        referents: addresses(referents),
        inbound_references: addresses(inbound),
    }
}

fn thread(name: &str, roots: &[u64]) -> ThreadRootSet {
    ThreadRootSet { name: name.to_string(), roots: addresses(roots) }
}

fn graph(objects: Vec<(u64, HeapObject)>) -> FnvHashMap<u64, HeapObject> {
    let mut map = FnvHashMap::default();
    for (address, obj) in objects {
        map.insert(address, obj);
    }
    map
}

fn calculated(
    objects: Vec<(u64, HeapObject)>,
    threads: Vec<ThreadRootSet>,
) -> RetainedHeapCalculator {
    let mut calculator = RetainedHeapCalculator::new(graph(objects), threads);
    assert!(calculator.calculate().is_ok());
    calculator
}

fn seven_objects() -> Vec<(u64, HeapObject)> {
    vec![
        (1, object(10, &[], &[])),
        (2, object(20, &[6], &[])),
        (3, object(30, &[4, 5], &[])),
        (4, object(40, &[5], &[3])),
        (5, object(50, &[], &[3, 4])),
        (6, object(60, &[7], &[2])),
        (7, object(70, &[], &[6])),
    ]
}

#[test]
fn new_starts_with_nothing_on_record() {
    let calculator = RetainedHeapCalculator::new(graph(seven_objects()), vec![thread("t", &[1])]);
    assert_eq!(calculator.objects.len(), 7);
    assert_eq!(calculator.threads.len(), 1);
    assert!(calculator.object_retained_heap.is_empty());
    assert!(calculator.thread_retained_heap.is_empty());
    assert!(calculator.subtree_roots.is_empty());
}

#[test]
fn seven_objects_two_threads() {
    let calculator = calculated(
        seven_objects(),
        vec![thread("thread1", &[1, 2]), thread("thread2", &[5, 7])],
    );
    let sizes = &calculator.object_retained_heap;
    assert_eq!(sizes.len(), 7);
    assert_eq!(sizes[&1], 10);
    assert_eq!(sizes[&2], 150);
    assert_eq!(sizes[&3], 120);
    assert_eq!(sizes[&4], 40);
    assert_eq!(sizes[&5], 50);
    assert_eq!(sizes[&6], 130);
    assert_eq!(sizes[&7], 70);
    assert_eq!(calculator.thread_retained_heap, vec![160, 0]);
    assert_eq!(calculator.subtree_roots, addresses(&[1, 2, 6, 7]));
}

#[test]
fn lone_leaf_retains_its_own_size() {
    let calculator = calculated(
        vec![(1, object(11, &[], &[])), (2, object(22, &[], &[9])), (3, object(5, &[], &[8, 9]))],
        vec![],
    );
    assert_eq!(calculator.object_retained_heap[&1], 11);
    assert_eq!(calculator.object_retained_heap[&2], 22);
    assert_eq!(calculator.object_retained_heap[&3], 5);
    assert_eq!(calculator.subtree_roots, addresses(&[1, 2]));
}

#[test]
fn every_object_retains_at_least_itself() {
    let objects = seven_objects();
    let own: Vec<(u64, u32)> = objects.iter().map(|(a, o)| (*a, o.size)).collect();
    let calculator = calculated(objects, vec![]);
    for (address, size) in own {
        assert!(calculator.object_retained_heap[&address] >= size);
    }
}

#[test]
fn linear_chain_sums_downwards() {
    let calculator = calculated(
        vec![(1, object(1, &[2], &[])), (2, object(2, &[3], &[1])), (3, object(4, &[], &[2]))],
        vec![],
    );
    assert_eq!(calculator.object_retained_heap[&1], 7);
    assert_eq!(calculator.object_retained_heap[&2], 6);
    assert_eq!(calculator.object_retained_heap[&3], 4);
    assert_eq!(calculator.subtree_roots, addresses(&[1, 2, 3]));
}

#[test]
fn diamond_counts_the_shared_object_once() {
    let calculator = calculated(
        vec![
            (1, object(1, &[2, 3], &[])),
            (2, object(2, &[4], &[1])),
            (3, object(4, &[4], &[1])),
            (4, object(8, &[], &[2, 3])),
        ],
        vec![],
    );
    assert_eq!(calculator.object_retained_heap[&1], 15);
    assert_eq!(calculator.object_retained_heap[&2], 2);
    assert_eq!(calculator.object_retained_heap[&3], 4);
    assert_eq!(calculator.object_retained_heap[&4], 8);
    assert!(calculator.subtree_roots.is_empty());
}

#[test]
fn cycle_is_released_from_its_entry() {
    let calculator = calculated(
        vec![
            (1, object(1, &[2], &[])),
            (2, object(2, &[3], &[1, 3])),
            (3, object(4, &[2], &[2])),
        ],
        vec![thread("main", &[1])],
    );
    assert_eq!(calculator.object_retained_heap[&1], 1);
    assert_eq!(calculator.object_retained_heap[&2], 6);
    assert_eq!(calculator.object_retained_heap[&3], 4);
    assert_eq!(calculator.thread_retained_heap, vec![1]);
}

#[test]
fn self_reference_is_not_counted_twice() {
    let calculator = calculated(vec![(1, object(9, &[1], &[1]))], vec![]);
    assert_eq!(calculator.object_retained_heap[&1], 9);
    assert!(calculator.subtree_roots.is_empty());
}

#[test]
fn dangling_references_are_tolerated() {
    let calculator = calculated(
        vec![(1, object(10, &[2, 99], &[77])), (2, object(5, &[], &[1]))],
        vec![thread("main", &[1, 55])],
    );
    assert_eq!(calculator.object_retained_heap[&1], 15);
    assert_eq!(calculator.object_retained_heap[&2], 5);
    assert_eq!(calculator.subtree_roots, addresses(&[2]));
    assert_eq!(calculator.thread_retained_heap, vec![0]);
}

#[test]
fn root_held_by_two_threads_is_released_by_neither() {
    let calculator = calculated(
        vec![(1, object(10, &[2], &[])), (2, object(20, &[], &[1]))],
        vec![thread("a", &[1]), thread("b", &[1])],
    );
    assert_eq!(calculator.thread_retained_heap, vec![0, 0]);
    assert_eq!(calculator.object_retained_heap[&1], 30);
}

#[test]
fn thread_releases_what_another_thread_roots_further_down() {
    let calculator = calculated(
        vec![(1, object(10, &[2], &[])), (2, object(20, &[], &[1]))],
        vec![thread("a", &[1]), thread("b", &[2])],
    );
    assert_eq!(calculator.thread_retained_heap, vec![30, 0]);
}

#[test]
fn shared_object_without_all_its_inbound_references_is_counted_twice() {
    // 3 is held by 1 and by 2, but records one inbound reference only.
    let calculator = calculated(
        vec![
            (1, object(10, &[3], &[])),
            (2, object(20, &[3], &[])),
            (3, object(40, &[], &[1])),
        ],
        vec![thread("a", &[1]), thread("b", &[2])],
    );
    assert_eq!(calculator.thread_retained_heap, vec![50, 60]);
    assert_eq!(calculator.object_retained_heap[&1], 50);
    assert_eq!(calculator.object_retained_heap[&2], 60);
    let total: u32 = 10 + 20 + 40;
    assert!(calculator.thread_retained_heap.iter().sum::<u32>() > total);
}

#[test]
fn thread_with_private_and_shared_roots() {
    let calculator = calculated(
        vec![
            (1, object(1, &[], &[])),
            (2, object(2, &[], &[])),
            (3, object(4, &[], &[])),
        ],
        vec![thread("a", &[1, 2]), thread("b", &[2, 3]), thread("c", &[2])],
    );
    assert_eq!(calculator.thread_retained_heap, vec![1, 4, 0]);
}

#[test]
fn empty_snapshot() {
    let calculator = calculated(vec![], vec![thread("idle", &[])]);
    assert!(calculator.object_retained_heap.is_empty());
    assert_eq!(calculator.thread_retained_heap, vec![0]);
}

#[test]
fn calculating_twice_gives_the_same() {
    let mut calculator = RetainedHeapCalculator::new(
        graph(seven_objects()),
        vec![thread("thread1", &[1, 2]), thread("thread2", &[5, 7])],
    );
    assert!(calculator.calculate().is_ok());
    let objects_first = calculator.object_retained_heap.clone();
    let threads_first = calculator.thread_retained_heap.clone();
    let roots_first = calculator.subtree_roots.clone();
    assert!(calculator.calculate().is_ok());
    assert_eq!(calculator.object_retained_heap, objects_first);
    assert_eq!(calculator.thread_retained_heap, threads_first);
    assert_eq!(calculator.subtree_roots, roots_first);
    let other = calculated(
        seven_objects(),
        vec![thread("thread1", &[1, 2]), thread("thread2", &[5, 7])],
    );
    assert_eq!(other.object_retained_heap, objects_first);
    assert_eq!(other.thread_retained_heap, threads_first);
}

#[test]
fn largest_size_that_fits() {
    let calculator = calculated(
        vec![(1, object(u32::MAX - 1, &[2], &[])), (2, object(1, &[], &[1]))],
        vec![thread("main", &[1])],
    );
    assert_eq!(calculator.object_retained_heap[&1], u32::MAX);
    assert_eq!(calculator.thread_retained_heap, vec![u32::MAX]);
}

#[test]
fn subtree_size_overflow_is_an_error() {
    let mut calculator = RetainedHeapCalculator::new(
        graph(vec![(1, object(u32::MAX, &[2], &[])), (2, object(1, &[], &[1]))]),
        vec![],
    );
    assert!(calculator.calculate().is_err());
    assert!(calculator.object_retained_heap.is_empty());
    assert!(calculator.thread_retained_heap.is_empty());
    assert!(calculator.subtree_roots.is_empty());
}

#[test]
fn object_size_overflow_is_an_error() {
    let mut calculator = RetainedHeapCalculator::new(
        graph(vec![
            (1, object(u32::MAX, &[2, 3], &[])),
            (2, object(1, &[4], &[1])),
            (3, object(1, &[4], &[1])),
            (4, object(1, &[], &[2, 3])),
        ]),
        vec![],
    );
    assert!(calculator.calculate().is_err());
    assert!(calculator.object_retained_heap.is_empty());
}

#[test]
fn thread_size_overflow_is_an_error() {
    let mut calculator = RetainedHeapCalculator::new(
        graph(vec![(1, object(u32::MAX, &[], &[])), (2, object(1, &[], &[]))]),
        vec![thread("main", &[1, 2])],
    );
    assert!(calculator.calculate().is_err());
    assert!(calculator.thread_retained_heap.is_empty());
    assert!(calculator.object_retained_heap.is_empty());
}

#[test]
fn graph_lookups() {
    let calculator = RetainedHeapCalculator::new(
        graph(seven_objects()),
        vec![thread("thread1", &[1, 2]), thread("thread2", &[5, 7])],
    );
    assert_eq!(calculator.get(3).map(|o| o.size), Some(30));
    assert_eq!(calculator.get(3).map(|o| o.referents.clone()), Some(addresses(&[4, 5])));
    assert!(calculator.get(8).is_none());
    let mut all = calculator.all_addresses();
    all.sort();
    assert_eq!(all, vec![1, 2, 3, 4, 5, 6, 7]);
    let threads = calculator.thread_root_sets();
    assert_eq!(threads.len(), 2);
    assert_eq!(threads[1].name, "thread2");
    assert_eq!(threads[1].roots, addresses(&[5, 7]));
}
