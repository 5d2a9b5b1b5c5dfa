//! What holds of the retained sizes of every snapshot.
use crate::calculator::{
    holders_among, lemma_holders_bounds, lemma_known_retains_memo, object_removal,
    object_retained, thread_removal, RetainedHeapCalculator,
};
use crate::graph::{heap_wf, ObjectModel};
use crate::removal::{
    feeders, feeds, lemma_removed_finite, lemma_removed_within_grows, live_count,
    reachable_addresses, reached, removed, removed_next, removed_within, weight_fn, Removal,
};
use crate::subtree::{
    eligible, is_subtree_root, joins, lemma_joins_is_root, lemma_subtree_size_at,
    lemma_subtree_size_unfolds, lone_leaf, names_parent, size_fn, subtree_roots, subtree_size,
    subtree_size_fn, subtree_sizes, subtrees_within,
};
use crate::sums::{lemma_set_sum_empty, lemma_set_sum_insert, lemma_set_sum_subset, set_sum};
use vstd::prelude::*;

verus! {

/// Every reference between two objects is on record at its target: where an object
/// refers to `x`, the inbound references of `x` name that object.
pub open spec fn references_recorded_at(g: Map<u64, ObjectModel>, x: u64) -> bool {
    forall|p: u64|
        g.contains_key(p) && #[trigger] g[p].referents.contains(x) ==> g[x].inbound_references.contains(
            p,
        )
}

/// The recomputed retained size of a subtree root is the size found for it by the search
/// for strict subtrees.
pub proof fn lemma_subtree_root_retains_subtree_size(g: Map<u64, ObjectModel>, x: u64)
    requires
        is_subtree_root(g, x),
    ensures
        object_retained(g, x) == subtree_size(g, x),
{
    lemma_known_retains_memo(g, subtree_sizes(g), x);
}

/// An object without referents and with at most one inbound reference retains exactly its
/// own size.
pub proof fn lemma_lone_leaf_retains_own_size(g: Map<u64, ObjectModel>, a: u64)
    requires
        g.contains_key(a),
        g[a].referents.is_empty(),
        g[a].inbound_references.len() <= 1,
    ensures
        object_retained(g, a) == g[a].size,
{
    assert(lone_leaf(g, a));
    assert(subtrees_within(g, 0).contains_key(a));
    lemma_subtree_size_at(g, 0, a);
    lemma_subtree_root_retains_subtree_size(g, a);
}

/// The size found for a subtree root is at least the root's own size.
pub proof fn lemma_subtree_size_covers_own(g: Map<u64, ObjectModel>, h: nat, x: u64)
    requires
        heap_wf(g),
        subtrees_within(g, h).contains_key(x),
    ensures
        subtrees_within(g, h)[x] >= g[x].size,
    decreases h,
{
    if h > 0 {
        let prev = subtrees_within(g, (h - 1) as nat);
        if prev.contains_key(x) {
            lemma_subtree_size_covers_own(g, (h - 1) as nat, x);
        } else {
            assert forall|r: u64| #[trigger] g[x].referents.contains(r) implies size_fn(prev)(r)
                >= 0 by {
                assert(prev.dom().contains(r));
                lemma_subtree_size_covers_own(g, (h - 1) as nat, r);
            }
            lemma_set_sum_subset(g[x].referents, g[x].referents, size_fn(prev));
        }
    }
}

/// No address has a negative weight where the sizes known beforehand are those of the
/// subtree roots.
pub proof fn lemma_weights_not_negative(g: Map<u64, ObjectModel>)
    requires
        heap_wf(g),
    ensures
        forall|x: u64| #[trigger] weight_fn(g, subtree_sizes(g))(x) >= 0,
{
    assert forall|x: u64| #[trigger] weight_fn(g, subtree_sizes(g))(x) >= 0 by {
        if is_subtree_root(g, x) {
            let h = choose|h: nat| (#[trigger] subtrees_within(g, h)).contains_key(x);
            lemma_subtree_size_covers_own(g, h, x);
        }
    }
}

/// Every object retains at least its own size.
pub proof fn lemma_object_retains_at_least_itself(g: Map<u64, ObjectModel>, a: u64)
    requires
        heap_wf(g),
        g.contains_key(a),
    ensures
        object_retained(g, a) >= g[a].size,
{
    let memo = subtree_sizes(g);
    if is_subtree_root(g, a) {
        let h = choose|h: nat| (#[trigger] subtrees_within(g, h)).contains_key(a);
        lemma_subtree_size_covers_own(g, h, a);
        lemma_subtree_root_retains_subtree_size(g, a);
    } else {
        let rm = object_removal(memo, a);
        let w = weight_fn(g, memo);
        let single = Set::<u64>::empty().insert(a);
        lemma_removed_finite(g, rm);
        lemma_weights_not_negative(g);
        assert(removed_within(g, rm, 1).contains(a)) by {
            assert(feeders(g, memo, removed_within(g, rm, 0), a) =~= Set::<u64>::empty());
        }
        assert(single.subset_of(removed(g, rm)));
        lemma_set_sum_subset(single, removed(g, rm), w);
        lemma_set_sum_empty(w);
        lemma_set_sum_insert(Set::<u64>::empty(), w, a);
    }
}

/// Where every reference into the referents of `x` is on record at its target, `x` is a
/// subtree root exactly if it is an object with at most one inbound reference whose
/// referents are all subtree roots.
pub proof fn lemma_subtree_root_by_referents(g: Map<u64, ObjectModel>, x: u64)
    requires
        heap_wf(g),
        forall|r: u64|
            g.contains_key(x) && #[trigger] g[x].referents.contains(r) ==> references_recorded_at(
                g,
                r,
            ),
    ensures
        is_subtree_root(g, x) <==> eligible(g, x) && forall|r: u64| #[trigger]
            g[x].referents.contains(r) ==> is_subtree_root(g, r),
{
    if is_subtree_root(g, x) {
        lemma_subtree_size_unfolds(g, x);
    }
    if eligible(g, x) && (forall|r: u64| #[trigger]
        g[x].referents.contains(r) ==> is_subtree_root(g, r)) {
        if g[x].referents.is_empty() {
            assert(subtrees_within(g, 0).contains_key(x));
        } else {
            let r = choose|r: u64| g[x].referents.contains(r);
            assert(is_subtree_root(g, r));
            lemma_subtree_size_unfolds(g, r);
            assert(references_recorded_at(g, r));
            assert(names_parent(g, r, x));
            assert(subtree_roots(g).contains(r));
            assert(joins(g, subtree_roots(g), x));
            lemma_joins_is_root(g, subtree_roots(g), x);
        }
    }
}

/// Another thread that holds `r` is counted among the other holders of `r`.
pub proof fn lemma_holder_is_counted(threads: Seq<Set<u64>>, t: int, r: u64, u: int, n: int)
    requires
        0 <= u < n,
        u != t,
        threads[u].contains(r),
    ensures
        holders_among(threads, t, r, n) >= 1,
    decreases n,
{
    lemma_holders_bounds(threads, t, r, n - 1);
    if u < n - 1 {
        lemma_holder_is_counted(threads, t, r, u, n - 1);
    }
}

/// An object that two threads have among their roots is not released by the removal of
/// one of the two, where every reference into the object is on record at it.
pub proof fn lemma_shared_root_survives(
    g: Map<u64, ObjectModel>,
    threads: Seq<Set<u64>>,
    t: int,
    u: int,
    x: u64,
    k: nat,
)
    requires
        heap_wf(g),
        0 <= t < threads.len(),
        0 <= u < threads.len(),
        t != u,
        threads[t].contains(x),
        threads[u].contains(x),
        g.contains_key(x),
        references_recorded_at(g, x),
    ensures
        !removed_within(g, thread_removal(g, threads, t), k).contains(x),
    decreases k,
{
    if k > 0 {
        let rm = thread_removal(g, threads, t);
        let gone = removed_within(g, rm, (k - 1) as nat);
        lemma_shared_root_survives(g, threads, t, u, x, (k - 1) as nat);
        lemma_holder_is_counted(threads, t, x, u, threads.len() as int);
        assert(feeders(g, rm.memo, gone, x).subset_of(g[x].inbound_references));
        vstd::set_lib::lemma_len_subset(feeders(g, rm.memo, gone, x), g[x].inbound_references);
    }
}

/// An object that two threads have among their roots is not among what the removal of
/// one of the two releases, where every reference into the object is on record at it.
pub proof fn lemma_thread_isolation(
    g: Map<u64, ObjectModel>,
    threads: Seq<Set<u64>>,
    t: int,
    u: int,
    x: u64,
)
    requires
        heap_wf(g),
        0 <= t < threads.len(),
        0 <= u < threads.len(),
        t != u,
        threads[t].contains(x),
        threads[u].contains(x),
        g.contains_key(x),
        references_recorded_at(g, x),
    ensures
        !removed(g, thread_removal(g, threads, t)).contains(x),
{
    if removed(g, thread_removal(g, threads, t)).contains(x) {
        let rm = thread_removal(g, threads, t);
        let k = choose|k: nat| (#[trigger] removed_within(g, rm, k)).contains(x);
        lemma_shared_root_survives(g, threads, t, u, x, k);
    }
}

/// Two calculators that hold the results for the same graph and the same threads hold
/// the same results: the computation is a function of the snapshot.
pub proof fn lemma_results_determined(a: &RetainedHeapCalculator, b: &RetainedHeapCalculator)
    requires
        a.is_calculated(),
        b.is_calculated(),
        a.graph() == b.graph(),
        a.thread_roots() == b.thread_roots(),
    ensures
        a.subtree_roots@ == b.subtree_roots@,
        a.object_retained_heap@ == b.object_retained_heap@,
        a.thread_retained_heap@ == b.thread_retained_heap@,
{
    assert(a.object_retained_heap@ =~= b.object_retained_heap@);
    assert(a.threads@.len() == a.thread_roots().len());
    assert(b.threads@.len() == b.thread_roots().len());
    assert(a.thread_retained_heap@ =~= b.thread_retained_heap@);
}

/// A removal that comes to objects only releases no more addresses than the graph has
/// objects, so the engine, which releases an address in every pass but its last, makes no
/// more releasing passes than that.
pub proof fn lemma_released_at_most_objects(g: Map<u64, ObjectModel>, rm: Removal)
    requires
        heap_wf(g),
        rm.front.finite(),
        reachable_addresses(g, rm).subset_of(g.dom()),
    ensures
        removed(g, rm).len() <= g.dom().len(),
{
    lemma_removed_finite(g, rm);
    vstd::set_lib::lemma_len_subset(removed(g, rm), g.dom());
}

/// The sum over a set of one address is the weight of that address.
pub proof fn lemma_set_sum_single(a: u64, f: spec_fn(u64) -> int)
    ensures
        set_sum(Set::<u64>::empty().insert(a), f) == f(a),
{
    lemma_set_sum_empty(f);
    lemma_set_sum_insert(Set::<u64>::empty(), f, a);
}

/// In a chain `a -> b -> c` in which `b` and `c` have the one inbound reference of the
/// chain and `a` has at most one, `c` retains its own size, `b` retains its own and that
/// of `c`, and `a` retains the sizes of all three.
pub proof fn lemma_chain_sums(g: Map<u64, ObjectModel>, a: u64, b: u64, c: u64)
    requires
        heap_wf(g),
        g.contains_key(a) && g.contains_key(b) && g.contains_key(c),
        g[a].referents == Set::<u64>::empty().insert(b),
        g[b].referents == Set::<u64>::empty().insert(c),
        g[c].referents == Set::<u64>::empty(),
        g[a].inbound_references.len() <= 1,
        g[b].inbound_references == Set::<u64>::empty().insert(a),
        g[c].inbound_references == Set::<u64>::empty().insert(b),
    ensures
        object_retained(g, c) == g[c].size,
        object_retained(g, b) == g[b].size + g[c].size,
        object_retained(g, a) == g[a].size + g[b].size + g[c].size,
{
    let f = subtree_size_fn(g);
    assert(lone_leaf(g, c));
    assert(subtrees_within(g, 0).contains_key(c));
    lemma_subtree_size_at(g, 0, c);
    assert(joins(g, subtrees_within(g, 0).dom(), b)) by {
        assert(names_parent(g, c, b));
    }
    assert(subtrees_within(g, 1).contains_key(b));
    lemma_subtree_size_at(g, 1, b);
    assert(joins(g, subtrees_within(g, 1).dom(), a)) by {
        assert(names_parent(g, b, a));
    }
    assert(subtrees_within(g, 2).contains_key(a));
    lemma_subtree_size_unfolds(g, b);
    lemma_subtree_size_unfolds(g, a);
    lemma_set_sum_single(c, f);
    lemma_set_sum_single(b, f);
    lemma_subtree_root_retains_subtree_size(g, a);
    lemma_subtree_root_retains_subtree_size(g, b);
    lemma_subtree_root_retains_subtree_size(g, c);
}

/// A removal whose released addresses no longer grow after `k` rounds releases what it
/// has released within those.
pub proof fn lemma_removed_settles(
    g: Map<u64, ObjectModel>,
    rm: Removal,
    k: nat,
    j: nat,
)
    requires
        removed_next(g, rm, removed_within(g, rm, k)) == removed_within(g, rm, k),
    ensures
        removed_within(g, rm, j).subset_of(removed_within(g, rm, k)),
    decreases j,
{
    if j > k {
        lemma_removed_settles(g, rm, k, (j - 1) as nat);
        let prev = removed_within(g, rm, (j - 1) as nat);
        if prev != removed_within(g, rm, k) {
            lemma_removed_within_grows(g, rm, k, (j - 1) as nat);
            assert(prev =~= removed_within(g, rm, k));
        }
    } else {
        lemma_removed_within_grows(g, rm, j, k);
    }
}

/// In a diamond, where `a` refers to `b` and `c`, both refer to the leaf `d` and nothing
/// else refers to `b`, `c` or `d`, the removal of `a` retains the four sizes, that of `d`
/// once.
pub proof fn lemma_diamond_counts_once(g: Map<u64, ObjectModel>, a: u64, b: u64, c: u64, d: u64)
    requires
        heap_wf(g),
        g.contains_key(a) && g.contains_key(b) && g.contains_key(c) && g.contains_key(d),
        a != b && a != c && a != d && b != c && b != d && c != d,
        g[a].referents == Set::<u64>::empty().insert(b).insert(c),
        g[b].referents == Set::<u64>::empty().insert(d),
        g[c].referents == Set::<u64>::empty().insert(d),
        g[d].referents == Set::<u64>::empty(),
        g[b].inbound_references == Set::<u64>::empty().insert(a),
        g[c].inbound_references == Set::<u64>::empty().insert(a),
        g[d].inbound_references == Set::<u64>::empty().insert(b).insert(c),
    ensures
        object_retained(g, a) == g[a].size + g[b].size + g[c].size + g[d].size,
        removed(g, object_removal(subtree_sizes(g), a)) == Set::<u64>::empty().insert(a).insert(
            b,
        ).insert(c).insert(d),
{
    let memo = subtree_sizes(g);
    let rm = object_removal(memo, a);
    let w = weight_fn(g, memo);
    let none = Set::<u64>::empty();
    assert(!is_subtree_root(g, d)) by {
        if is_subtree_root(g, d) {
            lemma_subtree_size_unfolds(g, d);
        }
    }
    assert(!is_subtree_root(g, b)) by {
        if is_subtree_root(g, b) {
            lemma_subtree_size_unfolds(g, b);
            assert(g[b].referents.contains(d));
        }
    }
    assert(!is_subtree_root(g, c)) by {
        if is_subtree_root(g, c) {
            lemma_subtree_size_unfolds(g, c);
            assert(g[c].referents.contains(d));
        }
    }
    assert(!is_subtree_root(g, a)) by {
        if is_subtree_root(g, a) {
            lemma_subtree_size_unfolds(g, a);
            assert(g[a].referents.contains(b));
        }
    }
    let r1 = none.insert(a);
    let r2 = r1.insert(b).insert(c);
    let r3 = r2.insert(d);
    assert(removed_within(g, rm, 1) =~= r1) by {
        assert(removed_within(g, rm, 0) =~= none);
        assert forall|x: u64| feeders(g, memo, none, x) =~= none by {}
        assert(feeders(g, memo, none, a) =~= none);
    }
    assert(removed_within(g, rm, 2) =~= r2) by {
        assert(removed_within(g, rm, 2) == removed_next(g, rm, r1));
        assert(r1.contains(a));
        assert(feeds(g, rm.memo, a, b) && feeds(g, rm.memo, a, c));
        assert(reached(g, rm, r1, b));
        assert(reached(g, rm, r1, c));
        assert(feeders(g, memo, r1, b) =~= none.insert(a));
        assert(feeders(g, memo, r1, c) =~= none.insert(a));
        assert(live_count(g, rm, r1, b) == 0);
        assert(live_count(g, rm, r1, c) == 0);
        assert forall|x: u64| removed_next(g, rm, r1).contains(x) implies r2.contains(
            x,
        ) by {
            if !r1.contains(x) {
                let p = choose|p: u64| r1.contains(p) && #[trigger] feeds(g, memo, p, x);
                assert(p == a);
            }
        }
        assert forall|x: u64| r2.contains(x) implies removed_next(
            g,
            rm,
            r1,
        ).contains(x) by {}
    }
    assert(removed_within(g, rm, 3) =~= r3) by {
        assert(removed_within(g, rm, 3) == removed_next(g, rm, r2));
        assert(r2.contains(b) && r2.contains(c));
        assert(feeds(g, rm.memo, b, d) && feeds(g, rm.memo, c, d));
        assert(reached(g, rm, r2, d));
        assert(feeders(g, memo, r2, d) =~= none.insert(b).insert(c));
        assert(none.insert(b).insert(c).len() == 2);
        assert(live_count(g, rm, r2, d) == 0);
        assert forall|x: u64| removed_next(g, rm, r2).contains(x) implies r3.contains(
            x,
        ) by {
            if !r2.contains(x) {
                let p = choose|p: u64| r2.contains(p) && #[trigger] feeds(g, memo, p, x);
                assert(p == a || p == b || p == c);
            }
        }
        assert forall|x: u64| r3.contains(x) implies removed_next(
            g,
            rm,
            r2,
        ).contains(x) by {}
    }
    assert(removed_next(g, rm, r3) =~= r3) by {
        assert forall|x: u64| removed_next(g, rm, r3).contains(x) implies r3.contains(
            x,
        ) by {
            if !r3.contains(x) {
                let p = choose|p: u64| r3.contains(p) && #[trigger] feeds(g, memo, p, x);
                assert(p == a || p == b || p == c || p == d);
            }
        }
    }
    assert(removed(g, rm) =~= r3) by {
        assert forall|x: u64| removed(g, rm).contains(x) implies r3.contains(x) by {
            let j = choose|j: nat| (#[trigger] removed_within(g, rm, j)).contains(x);
            lemma_removed_settles(g, rm, 3, j);
        }
        assert(removed_within(g, rm, 3).subset_of(removed(g, rm)));
    }
    lemma_set_sum_empty(w);
    lemma_set_sum_insert(none, w, a);
    lemma_set_sum_insert(r1, w, b);
    lemma_set_sum_insert(r1.insert(b), w, c);
    lemma_set_sum_insert(r2, w, d);
}

} // verus!
