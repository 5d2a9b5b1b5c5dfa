//! The calculator: a heap graph with the thread root sets, and the retained sizes that are
//! computed from them.
use crate::graph::{
    distinct_names, heap_model, heap_wf, inbound_count, lemma_heap_model_wf, named_threads,
    thread_model, HeapObject, ObjectModel, ThreadRootSet,
};
use crate::hashing::{
    addresses_of, fnv_modelled, keys_of, lemma_address_set_finite, new_address_set,
};
use crate::ownership::{lemma_sizes_fit_when_total_fits, references_recorded, total_size};
use crate::removal::{
    feeders, removed, removed_next, removed_within, retained, weight_fn, Removal,
};
use crate::subtree::{
    is_subtree_root, lemma_subtree_root_eligible_any, lemma_subtree_size_unfolds, subtree_roots,
    subtree_size, subtree_sizes,
};
use crate::sums::{lemma_set_sum_empty, lemma_set_sum_insert};
use fnv::{FnvHashMap, FnvHashSet};
use vstd::prelude::*;

verus! {

/// The removal of the single object at `a`: it starts at `a` alone, whose live count is
/// taken to be 0, and uses the sizes in `memo` that are known beforehand.
pub open spec fn object_removal(memo: Map<u64, int>, a: u64) -> Removal {
    Removal { view: Map::<u64, int>::empty().insert(a, 0), front: Set::<u64>::empty().insert(a), memo }
}

/// The retained size of the object at `a`: what the removal of `a` releases, where a
/// subtree root is released with its retained size as a whole.
pub open spec fn object_retained(g: Map<u64, ObjectModel>, a: u64) -> int {
    retained(g, object_removal(subtree_sizes(g), a))
}

/// The number of threads among the first `n`, other than thread `t`, that have `r` among
/// their roots.
pub open spec fn holders_among(threads: Seq<Set<u64>>, t: int, r: u64, n: int) -> int
    decreases n,
{
    if n <= 0 {
        0
    } else {
        holders_among(threads, t, r, n - 1) + if n - 1 != t && threads[n - 1].contains(r) {
            1int
        } else {
            0int
        }
    }
}

/// The number of threads other than thread `t` that have `r` among their roots.
pub open spec fn other_holders(threads: Seq<Set<u64>>, t: int, r: u64) -> int {
    holders_among(threads, t, r, threads.len() as int)
}

/// The live counts with which the removal of thread `t` starts: for each of its roots,
/// the recorded inbound references and one for every other thread that holds the root.
pub open spec fn thread_view(g: Map<u64, ObjectModel>, threads: Seq<Set<u64>>, t: int) -> Map<
    u64,
    int,
> {
    Map::new(
        |r: u64| threads[t].contains(r),
        |r: u64| inbound_count(g, r) + other_holders(threads, t, r),
    )
}

/// The removal of thread `t`: it starts at the roots of the thread and knows no size
/// beforehand.
pub open spec fn thread_removal(g: Map<u64, ObjectModel>, threads: Seq<Set<u64>>, t: int) -> Removal {
    Removal { view: thread_view(g, threads, t), front: threads[t], memo: Map::empty() }
}

/// The retained size of thread `t`: what the removal of its roots releases.
pub open spec fn thread_retained(g: Map<u64, ObjectModel>, threads: Seq<Set<u64>>, t: int) -> int {
    retained(g, thread_removal(g, threads, t))
}

/// Every retained size of the snapshot fits in 32 bits.
pub open spec fn sizes_fit(g: Map<u64, ObjectModel>, threads: Seq<Set<u64>>) -> bool {
    &&& forall|a: u64| #[trigger] g.contains_key(a) ==> object_retained(g, a) <= u32::MAX
    &&& forall|t: int| 0 <= t < threads.len() ==> #[trigger] thread_retained(g, threads, t) <= u32::MAX
}

/// A retained size does not fit in 32 bits.
#[derive(Debug)]
pub struct RetainedSizeOverflow;

/// The removal of an address whose size is known beforehand releases that address alone.
pub proof fn lemma_known_released_alone(g: Map<u64, ObjectModel>, memo: Map<u64, int>, a: u64, k: nat)
    requires
        memo.contains_key(a),
        k > 0,
    ensures
        removed_within(g, object_removal(memo, a), k) == Set::<u64>::empty().insert(a),
    decreases k,
{
    let rm = object_removal(memo, a);
    let gone = removed_within(g, rm, (k - 1) as nat);
    if k > 1 {
        lemma_known_released_alone(g, memo, a, (k - 1) as nat);
    }
    assert(feeders(g, memo, gone, a) =~= Set::<u64>::empty());
    assert(removed_next(g, rm, gone).contains(a));
    assert(removed_next(g, rm, gone) =~= Set::<u64>::empty().insert(a));
}

/// The removal of an address whose size is known beforehand retains that size.
pub proof fn lemma_known_retains_memo(g: Map<u64, ObjectModel>, memo: Map<u64, int>, a: u64)
    requires
        memo.contains_key(a),
    ensures
        removed(g, object_removal(memo, a)) == Set::<u64>::empty().insert(a),
        retained(g, object_removal(memo, a)) == memo[a],
{
    let rm = object_removal(memo, a);
    let single = Set::<u64>::empty().insert(a);
    lemma_known_released_alone(g, memo, a, 1);
    assert forall|x: u64| removed(g, rm).contains(x) implies single.contains(x) by {
        let k = choose|k: nat| (#[trigger] removed_within(g, rm, k)).contains(x);
        lemma_known_released_alone(g, memo, a, k);
    }
    assert(removed_within(g, rm, 1).contains(a));
    assert(removed(g, rm) =~= single);
    lemma_set_sum_empty(weight_fn(g, memo));
    lemma_set_sum_insert(Set::<u64>::empty(), weight_fn(g, memo), a);
}

/// Computes the retained size of every object and of every thread of one heap snapshot.
pub struct RetainedHeapCalculator {
    /// The objects of the snapshot, by address.
    pub objects: FnvHashMap<u64, HeapObject>,
    /// The threads of the snapshot with their root sets.
    pub threads: Vec<ThreadRootSet>,
    /// The retained size of each object, by address, as far as it is computed.
    pub object_retained_heap: FnvHashMap<u64, u32>,
    /// The retained size of each thread, in the order of `threads`, as far as it is
    /// computed.
    pub thread_retained_heap: Vec<u32>,
    /// The addresses found to be roots of strict subtrees.
    pub subtree_roots: FnvHashSet<u64>,
}

impl RetainedHeapCalculator {
    /// No two threads of a calculator have the same name, and its collections hash by
    /// FNV, as vstd's model of a hash table needs it. `new` learns the latter where it
    /// makes the empty collections.
    pub open spec fn wf(&self) -> bool {
        &&& fnv_modelled()
        &&& distinct_names(named_threads(self.threads@))
    }

    /// The graph of the snapshot.
    pub open spec fn graph(&self) -> Map<u64, ObjectModel> {
        heap_model(self.objects@)
    }

    /// The root sets of the threads, in the order of `threads`.
    pub open spec fn thread_roots(&self) -> Seq<Set<u64>> {
        thread_model(self.threads@)
    }

    /// A calculator for the given objects and threads, with nothing computed yet. The
    /// name of a thread is its key: no two threads may have the same.
    pub fn new(objects: FnvHashMap<u64, HeapObject>, threads: Vec<ThreadRootSet>) -> (calculator:
        RetainedHeapCalculator)
        requires
            distinct_names(named_threads(threads@)),
        ensures
            calculator.wf(),
            calculator.objects == objects,
            calculator.threads == threads,
            calculator.object_retained_heap@ == Map::<u64, u32>::empty(),
            calculator.thread_retained_heap@ == Seq::<u32>::empty(),
            calculator.subtree_roots@ == Set::<u64>::empty(),
    {
        let subtree_roots = new_address_set();
        RetainedHeapCalculator {
            objects,
            threads,
            object_retained_heap: FnvHashMap::default(),
            thread_retained_heap: Vec::new(),
            subtree_roots,
        }
    }

    /// The object at `address`, where the snapshot has one.
    pub fn get(&self, address: u64) -> (object: Option<&HeapObject>)
        requires
            self.wf(),
        ensures
            object is Some <==> self.graph().contains_key(address),
            object matches Some(obj) ==> obj@ == self.graph()[address] && *obj
                == self.objects@[address],
    {
        self.objects.get(&address)
    }

    /// The addresses of all objects, each once.
    pub fn all_addresses(&self) -> (addresses: Vec<u64>)
        requires
            self.wf(),
        ensures
            addresses@.no_duplicates(),
            addresses@.to_set() == self.graph().dom(),
    {
        proof {
            assert(self.graph().dom() =~= self.objects@.dom());
        }
        keys_of(&self.objects)
    }

    /// The threads with their root sets.
    pub fn thread_root_sets(&self) -> (threads: &Vec<ThreadRootSet>)
        ensures
            threads == self.threads,
            thread_model(threads@) == self.thread_roots(),
    {
        &self.threads
    }

    /// The retained sizes on record are those of all objects and threads of the snapshot,
    /// and the subtree roots on record are those of the graph.
    pub open spec fn is_calculated(&self) -> bool {
        &&& self.subtree_roots@ == subtree_roots(self.graph())
        &&& self.object_retained_heap@.dom() == self.graph().dom()
        &&& forall|a: u64| #[trigger]
            self.graph().contains_key(a) ==> self.object_retained_heap@[a] == object_retained(
                self.graph(),
                a,
            )
        &&& self.thread_retained_heap@.len() == self.threads@.len()
        &&& forall|t: int|
            0 <= t < self.threads@.len() ==> (#[trigger] self.thread_retained_heap@[t])
                == thread_retained(self.graph(), self.thread_roots(), t)
    }

    /// What is on record of the objects is right: the subtree roots are those of the
    /// graph, each has its size on record, and every size on record is the retained size
    /// of the object at its address.
    pub open spec fn sizes_sound(&self) -> bool {
        &&& self.subtree_roots@ == subtree_roots(self.graph())
        &&& self.memo_ready()
        &&& forall|a: u64| #[trigger]
            self.object_retained_heap@.contains_key(a) ==> self.graph().contains_key(a)
                && self.object_retained_heap@[a] == object_retained(self.graph(), a)
    }

    /// A record of strict subtrees that is right and complete is a right record of the
    /// objects.
    pub proof fn lemma_found_is_sound(&self)
        requires
            self.subtrees_found(),
        ensures
            self.sizes_sound(),
    {
        let g = self.graph();
        assert forall|a: u64| #[trigger]
            self.object_retained_heap@.contains_key(a) implies g.contains_key(a)
            && self.object_retained_heap@[a] == object_retained(g, a) by {
            assert(self.subtree_roots@.contains(a));
            lemma_subtree_root_eligible_any(g, a);
            lemma_known_retains_memo(g, subtree_sizes(g), a);
        }
        assert forall|a: u64| #[trigger]
            self.subtree_roots@.contains(a) implies self.object_retained_heap@.contains_key(
            a,
        ) by {
            assert(self.object_retained_heap@.dom().contains(a));
        }
    }

    /// Computes the retained size of every object, each by the removal of that object
    /// alone with the subtree roots released as a whole, and records it in place of what
    /// was on record for the address. The result is `false` where one of the sizes does
    /// not fit in 32 bits.
    pub fn calculate_for_all_objects(&mut self) -> (done: bool)
        requires
            old(self).wf(),
            old(self).sizes_sound(),
        ensures
            final(self).wf(),
            final(self).sizes_sound(),
            final(self).objects == old(self).objects,
            final(self).threads == old(self).threads,
            final(self).thread_retained_heap == old(self).thread_retained_heap,
            final(self).subtree_roots == old(self).subtree_roots,
            done <==> forall|a: u64| #[trigger]
                old(self).graph().contains_key(a) ==> object_retained(old(self).graph(), a)
                    <= u32::MAX,
            done ==> final(self).object_retained_heap@.dom() == old(self).graph().dom(),
            forall|a: u64| #[trigger]
                final(self).object_retained_heap@.contains_key(a) ==> old(self).graph().contains_key(
                    a,
                ) && final(self).object_retained_heap@[a] == object_retained(old(self).graph(), a),
            forall|a: u64| #[trigger]
                old(self).object_retained_heap@.contains_key(a) ==> final(self)
                    .object_retained_heap@.contains_key(a),
    {
        let ghost g = self.graph();
        let ghost memo = subtree_sizes(g);
        let ghost sizes0 = self.object_retained_heap@;
        proof {
            lemma_heap_model_wf(&self.objects);
            assert(g.dom() =~= self.objects@.dom());
            assert forall|x: u64| #[trigger]
                self.subtree_roots@.contains(x) implies self.object_retained_heap@[x]
                == subtree_size(g, x) by {
                lemma_known_retains_memo(g, memo, x);
            }
        }
        let addrs = self.all_addresses();
        let mut i: usize = 0;
        while i < addrs.len()
            invariant
                self.wf(),
                self.objects == old(self).objects,
                self.threads == old(self).threads,
                self.thread_retained_heap == old(self).thread_retained_heap,
                self.subtree_roots == old(self).subtree_roots,
                g == self.graph(),
                memo == subtree_sizes(g),
                heap_wf(g),
                i <= addrs@.len(),
                addrs@.to_set() == g.dom(),
                self.subtree_roots@ == subtree_roots(g),
                forall|x: u64| #[trigger]
                    self.subtree_roots@.contains(x) ==> self.object_retained_heap@.contains_key(x)
                        && self.object_retained_heap@[x] == subtree_size(g, x),
                forall|x: u64| #[trigger]
                    self.object_retained_heap@.contains_key(x) ==> g.contains_key(x)
                        && self.object_retained_heap@[x] == object_retained(g, x),
                forall|x: u64| #[trigger]
                    sizes0.contains_key(x) ==> self.object_retained_heap@.contains_key(x),
                sizes0 == old(self).object_retained_heap@,
                forall|j: int|
                    0 <= j < i ==> self.object_retained_heap@.contains_key(#[trigger] addrs@[j]),
            decreases addrs@.len() - i,
        {
            let addr = addrs[i];
            let ghost sizes_before = self.object_retained_heap@;
            let mut inbound_reference_view: FnvHashMap<u64, i128> = FnvHashMap::default();
            // The object itself counts as released.
            inbound_reference_view.insert(addr, 0);
            let mut front: Vec<u64> = Vec::new();
            front.push(addr);
            proof {
                assert(addrs@.to_set().contains(addr));
                let rm = self.removal(inbound_reference_view@, front@, true);
                assert(rm.view =~= object_removal(memo, addr).view);
                assert(rm.front =~= object_removal(memo, addr).front) by {
                    assert(front@[0] == addr);
                }
                assert(rm.memo =~= memo);
                assert(rm =~= object_removal(memo, addr));
                assert(front@[0] == addr);
            }
            let outcome = self.retained_heap0(inbound_reference_view, front, true);
            match outcome {
                Some(reclaimed) => {
                    proof {
                        if self.subtree_roots@.contains(addr) {
                            lemma_known_retains_memo(g, memo, addr);
                        }
                    }
                    self.object_retained_heap.insert(addr, reclaimed.size);
                    proof {
                        assert forall|j: int| 0 <= j < i + 1 implies self.object_retained_heap@.contains_key(
                            #[trigger] addrs@[j],
                        ) by {
                            if j < i && addrs@[j] != addr {
                                assert(sizes_before.contains_key(addrs@[j]));
                            }
                        }
                    }
                },
                None => {
                    proof {
                        assert(old(self).graph() == g);
                        assert(g.contains_key(addr) && object_retained(g, addr) > u32::MAX);
                    }
                    return false;
                },
            }
            i = i + 1;
        }
        proof {
            assert forall|a: u64| #[trigger] g.contains_key(a) implies self.object_retained_heap@.contains_key(
                a,
            ) && self.object_retained_heap@[a] == object_retained(g, a) && object_retained(g, a)
                <= u32::MAX by {
                assert(addrs@.to_set().contains(a));
                let j = choose|j: int| 0 <= j < addrs@.len() && addrs@[j] == a;
                assert(self.object_retained_heap@.contains_key(addrs@[j]));
            }
            assert(self.object_retained_heap@.dom() =~= g.dom());
        }
        true
    }

    /// The live count with which the removal of thread `thread` starts at `root`: the
    /// recorded inbound references of `root`, none where no object is at it, and one for
    /// every other thread that has `root` among its roots.
    pub fn root_live_count(&self, thread: usize, root: u64) -> (count: i128)
        requires
            self.wf(),
        ensures
            count == inbound_count(self.graph(), root) + other_holders(
                self.thread_roots(),
                thread as int,
                root,
            ),
    {
        let ghost threads = self.thread_roots();
        let mut count: i128 = match self.objects.get(&root) {
            Some(obj) => obj.inbound_references.len() as i128,
            None => 0,
        };
        let ghost inbound = count as int;
        let mut j: usize = 0;
        while j < self.threads.len()
            invariant
                self.wf(),
                threads == self.thread_roots(),
                j <= self.threads@.len(),
                inbound == inbound_count(self.graph(), root),
                0 <= inbound <= usize::MAX,
                count == inbound + holders_among(threads, thread as int, root, j as int),
                0 <= holders_among(threads, thread as int, root, j as int) <= j,
            decreases self.threads@.len() - j,
        {
            if j != thread && self.threads[j].roots.contains(&root) {
                count = count + 1;
            }
            j = j + 1;
        }
        count
    }

    /// Computes the retained size of every thread, each by the removal of the roots of
    /// that thread alone without any size known beforehand, and records the sizes in the
    /// order of the threads. The result is `false` where one of the sizes does not fit in
    /// 32 bits.
    pub fn calculate_for_all_threads(&mut self) -> (done: bool)
        requires
            old(self).wf(),
        ensures
            final(self).wf(),
            final(self).objects == old(self).objects,
            final(self).threads == old(self).threads,
            final(self).object_retained_heap == old(self).object_retained_heap,
            final(self).subtree_roots == old(self).subtree_roots,
            done <==> forall|t: int|
                0 <= t < old(self).threads@.len() ==> #[trigger] thread_retained(
                    old(self).graph(),
                    old(self).thread_roots(),
                    t,
                ) <= u32::MAX,
            done ==> final(self).thread_retained_heap@.len() == old(self).threads@.len(),
            final(self).thread_retained_heap@.len() <= old(self).threads@.len(),
            forall|t: int|
                0 <= t < final(self).thread_retained_heap@.len() ==> (#[trigger] final(self)
                    .thread_retained_heap@[t]) == thread_retained(
                    old(self).graph(),
                    old(self).thread_roots(),
                    t,
                ),
            !done ==> thread_retained(
                old(self).graph(),
                old(self).thread_roots(),
                final(self).thread_retained_heap@.len() as int,
            ) > u32::MAX,
    {
        self.thread_retained_heap.clear();
        let ghost g = self.graph();
        let ghost threads = self.thread_roots();
        let mut t: usize = 0;
        while t < self.threads.len()
            invariant
                self.wf(),
                self.objects == old(self).objects,
                self.threads == old(self).threads,
                self.object_retained_heap == old(self).object_retained_heap,
                self.subtree_roots == old(self).subtree_roots,
                g == self.graph(),
                threads == self.thread_roots(),
                t <= self.threads@.len(),
                self.thread_retained_heap@.len() == t,
                forall|k: int|
                    0 <= k < t ==> (#[trigger] self.thread_retained_heap@[k]) == thread_retained(
                        g,
                        threads,
                        k,
                    ),
            decreases self.threads@.len() - t,
        {
            let locals = addresses_of(&self.threads[t].roots);
            let mut inbound_reference_view: FnvHashMap<u64, i128> = FnvHashMap::default();
            let mut k: usize = 0;
            while k < locals.len()
                invariant
                    self.wf(),
                    g == self.graph(),
                    threads == self.thread_roots(),
                    t < self.threads@.len(),
                    k <= locals@.len(),
                    locals@.to_set() == threads[t as int],
                    forall|r: u64| #[trigger]
                        inbound_reference_view@.contains_key(r) ==> locals@.to_set().contains(r)
                            && inbound_reference_view@[r] == inbound_count(g, r) + other_holders(
                            threads,
                            t as int,
                            r,
                        ),
                    forall|j: int|
                        0 <= j < k ==> inbound_reference_view@.contains_key(#[trigger] locals@[j]),
                decreases locals@.len() - k,
            {
                let root = locals[k];
                let count = self.root_live_count(t, root);
                proof {
                    assert(locals@.to_set().contains(root));
                }
                inbound_reference_view.insert(root, count);
                k = k + 1;
            }
            proof {
                let rm = self.removal(inbound_reference_view@, locals@, false);
                let want = thread_removal(g, threads, t as int);
                assert forall|r: u64| threads[t as int].contains(r) implies #[trigger]
                    inbound_reference_view@.contains_key(r) by {
                    assert(locals@.to_set().contains(r));
                    let j = choose|j: int| 0 <= j < locals@.len() && locals@[j] == r;
                    assert(inbound_reference_view@.contains_key(locals@[j]));
                }
                assert(rm.view =~= want.view);
                assert(rm.memo =~= want.memo);
                assert(rm =~= want);
                assert forall|r: u64| #[trigger]
                    inbound_reference_view@.contains_key(r) implies inbound_reference_view@[r]
                    >= 0 by {
                    lemma_holders_bounds(threads, t as int, r, threads.len() as int);
                }
            }
            match self.retained_heap0(inbound_reference_view, locals, false) {
                Some(reclaimed) => {
                    self.thread_retained_heap.push(reclaimed.size);
                },
                None => {
                    proof {
                        assert(old(self).graph() == g);
                        assert(old(self).thread_roots() == threads);
                        assert(thread_retained(g, threads, t as int) > u32::MAX);
                    }
                    return false;
                },
            }
            t = t + 1;
        }
        proof {
            assert forall|k: int| 0 <= k < self.threads@.len() implies #[trigger] thread_retained(
                g,
                threads,
                k,
            ) <= u32::MAX by {
                assert(self.thread_retained_heap@[k] == thread_retained(g, threads, k));
            }
        }
        true
    }

    /// Computes the retained size of every object and of every thread.
    ///
    /// First the strict subtrees are found, then each object is removed by itself, then
    /// the roots of each thread. What was on record before is dropped. Where a retained
    /// size does not fit in 32 bits nothing is left on record and the error is returned.
    /// All sizes fit where the sizes of all objects together fit and every reference from
    /// an object to an object is on record at its target.
    pub fn calculate(&mut self) -> (done: Result<(), RetainedSizeOverflow>)
        requires
            old(self).wf(),
        ensures
            final(self).wf(),
            final(self).objects == old(self).objects,
            final(self).threads == old(self).threads,
            done is Ok <==> sizes_fit(old(self).graph(), old(self).thread_roots()),
            references_recorded(old(self).graph()) && total_size(old(self).graph()) <= u32::MAX
                ==> done is Ok,
            done is Ok ==> final(self).is_calculated(),
            done is Err ==> final(self).subtree_roots@ == Set::<u64>::empty(),
            done is Err ==> final(self).object_retained_heap@ == Map::<u64, u32>::empty(),
            done is Err ==> final(self).thread_retained_heap@ == Seq::<u32>::empty(),
    {
        let ghost g = self.graph();
        let ghost threads = self.thread_roots();
        proof {
            if references_recorded(g) && total_size(g) <= u32::MAX {
                lemma_heap_model_wf(&self.objects);
                assert forall|t: int| 0 <= t < threads.len() implies (#[trigger] threads[t])
                    .finite() by {
                    lemma_address_set_finite(&self.threads@[t].roots);
                }
                lemma_sizes_fit_when_total_fits(g, threads);
            }
        }
        let mut done = self.find_strict_subtrees();
        proof {
            assert(self.graph() == g && self.thread_roots() == threads);
            if !done {
                let x = choose|x: u64| is_subtree_root(g, x) && subtree_size(g, x) > u32::MAX;
                lemma_heap_model_wf(&self.objects);
                lemma_subtree_size_unfolds(g, x);
                lemma_known_retains_memo(g, subtree_sizes(g), x);
                assert(g.contains_key(x) && object_retained(g, x) > u32::MAX);
                assert(!sizes_fit(g, threads));
            }
        }
        if done {
            proof {
                self.lemma_found_is_sound();
            }
            done = self.calculate_for_all_objects();
            proof {
                assert(self.graph() == g && self.thread_roots() == threads);
                if !done {
                    let a = choose|a: u64| g.contains_key(a) && object_retained(g, a) > u32::MAX;
                    assert(!sizes_fit(g, threads));
                } else {
                    assert(forall|a: u64| #[trigger]
                        g.contains_key(a) ==> object_retained(g, a) <= u32::MAX);
                }
            }
            if done {
                let ghost objects_done = self.object_retained_heap;
                done = self.calculate_for_all_threads();
                proof {
                    assert(self.graph() == g && self.thread_roots() == threads);
                    assert(self.object_retained_heap == objects_done);
                    if !done {
                        let t = choose|t: int|
                            0 <= t < threads.len() && thread_retained(g, threads, t) > u32::MAX;
                        assert(!sizes_fit(g, threads));
                    } else {
                        assert(forall|t: int|
                            0 <= t < threads.len() ==> #[trigger] thread_retained(g, threads, t)
                                <= u32::MAX);
                        assert(sizes_fit(g, threads));
                        assert(self.is_calculated());
                    }
                }
            }
        }
        if done {
            Ok(())
        } else {
            self.subtree_roots.clear();
            self.object_retained_heap.clear();
            self.thread_retained_heap.clear();
            Err(RetainedSizeOverflow)
        }
    }
}

/// The count of other holders among the first `n` threads lies between 0 and `n`.
pub proof fn lemma_holders_bounds(threads: Seq<Set<u64>>, t: int, r: u64, n: int)
    ensures
        0 <= holders_among(threads, t, r, n),
        n >= 0 ==> holders_among(threads, t, r, n) <= n,
    decreases n,
{
    if n > 0 {
        lemma_holders_bounds(threads, t, r, n - 1);
    }
}

} // verus!
