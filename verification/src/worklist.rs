//! The retention worklist engine: the released addresses are found by passes over a
//! frontier that is ordered by live count, and their weights are summed.
use crate::calculator::RetainedHeapCalculator;
use crate::graph::{heap_model, heap_wf, lemma_heap_model_wf, HeapObject, ObjectModel};
use crate::hashing::{
    addresses_outside, count_of, count_or_zero, fnv_modelled, new_address_set,
    reverse_addresses, sort_by_live_count,
};
use crate::removal::{
    base_count, expands, feeders, feeds, lemma_feeders_finite, lemma_feeders_grow,
    lemma_removed_finite, lemma_removed_within_grows, live_count, reached, removed,
    removed_next, removed_within, retained, weight, weight_fn, Removal,
};
use crate::sums::{
    lemma_set_sum_bound, lemma_set_sum_empty, lemma_set_sum_insert, lemma_take_one_more,
    set_sum,
};
use fnv::{FnvHashMap, FnvHashSet};
use vstd::multiset::Multiset;
use vstd::prelude::*;

verus! {

/// No live count that a removal is started with may lie below this.
pub const LIVE_COUNT_FLOOR: i128 = -0x8000_0000_0000_0000;

/// No live count that a pass is started with may lie below this.
pub const WORKING_COUNT_FLOOR: i128 = -0x2_0000_0000_0000_0000;

/// The live counts of a working view as integers.
pub open spec fn live_counts(view: Map<u64, i128>) -> Map<u64, int> {
    Map::new(|r: u64| view.contains_key(r), |r: u64| view[r] as int)
}

/// The sizes known beforehand that a table of subtree roots holds.
pub open spec fn memo_table(roots: Set<u64>, sizes: Map<u64, u32>) -> Map<u64, int> {
    Map::new(|x: u64| roots.contains(x), |x: u64| sizes[x] as int)
}

/// Whether the working view has for `r` the live count that the released addresses leave:
/// an address without an entry has no entry at the outset and no released object refers to
/// it.
pub open spec fn count_kept(
    g: Map<u64, ObjectModel>,
    rm: Removal,
    view: Map<u64, i128>,
    deleted: Set<u64>,
    r: u64,
) -> bool {
    if view.contains_key(r) {
        view[r] as int == live_count(g, rm, deleted, r)
    } else {
        !rm.view.contains_key(r) && forall|p: u64|
            deleted.contains(p) ==> !#[trigger] feeds(g, rm.memo, p, r)
    }
}

/// What holds of the frontier, the working view and the released addresses between any
/// two steps of the engine.
pub open spec fn worklist_inv(
    g: Map<u64, ObjectModel>,
    rm: Removal,
    pending: Set<u64>,
    view: Map<u64, i128>,
    deleted: Set<u64>,
) -> bool {
    &&& deleted.finite()
    &&& deleted.subset_of(removed(g, rm))
    &&& forall|r: u64| #[trigger]
        pending.contains(r) ==> view.contains_key(r) && reached(g, rm, deleted, r)
    &&& forall|r: u64| #[trigger] rm.front.contains(r) ==> pending.contains(r) || deleted.contains(r)
    &&& forall|p: u64, r: u64|
        deleted.contains(p) && #[trigger] feeds(g, rm.memo, p, r) ==> pending.contains(r)
            || deleted.contains(r)
    &&& forall|r: u64| !deleted.contains(r) ==> #[trigger] count_kept(g, rm, view, deleted, r)
}

/// Nothing on the frontier can be released: each address there is released already or
/// has a positive live count.
pub open spec fn quiescent(pending: Set<u64>, view: Map<u64, i128>, deleted: Set<u64>) -> bool {
    forall|r: u64| #[trigger] pending.contains(r) ==> deleted.contains(r) || view[r] > 0
}

/// Finitely many released addresses are all released within some number of rounds.
pub proof fn lemma_common_round(g: Map<u64, ObjectModel>, rm: Removal, s: Set<u64>) -> (k: nat)
    requires
        s.finite(),
        s.subset_of(removed(g, rm)),
    ensures
        s.subset_of(removed_within(g, rm, k)),
    decreases s.len(),
{
    if s.is_empty() {
        0
    } else {
        let a = s.choose();
        let k1 = lemma_common_round(g, rm, s.remove(a));
        let k2 = choose|k: nat| (#[trigger] removed_within(g, rm, k)).contains(a);
        let k = if k1 <= k2 {
            k2
        } else {
            k1
        };
        lemma_removed_within_grows(g, rm, k1, k);
        lemma_removed_within_grows(g, rm, k2, k);
        assert forall|x: u64| s.contains(x) implies removed_within(g, rm, k).contains(x) by {
            if x != a {
                assert(s.remove(a).contains(x));
            }
        }
        k
    }
}

/// An address on the frontier whose live count is not positive is one that the removal
/// releases.
pub proof fn lemma_release_sound(
    g: Map<u64, ObjectModel>,
    rm: Removal,
    pending: Set<u64>,
    view: Map<u64, i128>,
    deleted: Set<u64>,
    x: u64,
)
    requires
        g.dom().finite(),
        worklist_inv(g, rm, pending, view, deleted),
        pending.contains(x),
        !deleted.contains(x),
        view[x] <= 0,
    ensures
        removed(g, rm).contains(x),
{
    let k = lemma_common_round(g, rm, deleted);
    let gone = removed_within(g, rm, k);
    assert(count_kept(g, rm, view, deleted, x));
    lemma_feeders_grow(g, rm.memo, deleted, gone, x);
    assert(reached(g, rm, gone, x)) by {
        if !rm.front.contains(x) {
            let p = choose|p: u64| deleted.contains(p) && #[trigger] feeds(g, rm.memo, p, x);
            assert(gone.contains(p));
        }
    }
    assert(removed_next(g, rm, gone).contains(x));
    assert(removed_within(g, rm, k + 1).contains(x));
}

/// Releasing `x` keeps what holds between two steps, where the frontier loses at most
/// `x` and gains the addresses in `added`, and the working view has one taken off the
/// count of each of those.
pub proof fn lemma_release(
    g: Map<u64, ObjectModel>,
    rm: Removal,
    pending0: Set<u64>,
    view0: Map<u64, i128>,
    deleted0: Set<u64>,
    x: u64,
    pending1: Set<u64>,
    view1: Map<u64, i128>,
    added: Set<u64>,
)
    requires
        g.dom().finite(),
        worklist_inv(g, rm, pending0, view0, deleted0),
        pending0.contains(x),
        !deleted0.contains(x),
        view0[x] <= 0,
        added == if expands(g, rm.memo, x) {
            g[x].referents.difference(deleted0.insert(x))
        } else {
            Set::<u64>::empty()
        },
        forall|r: u64| #[trigger] pending1.contains(r) ==> pending0.contains(r) || added.contains(r),
        forall|r: u64| #[trigger] pending0.contains(r) && r != x ==> pending1.contains(r),
        forall|r: u64| #[trigger] added.contains(r) ==> pending1.contains(r),
        forall|r: u64| #[trigger]
            view1.contains_key(r) <==> view0.contains_key(r) || added.contains(r),
        forall|r: u64| #[trigger]
            added.contains(r) ==> view1[r] == base_count(g, live_counts(view0), r) - 1,
        forall|r: u64|
            !added.contains(r) && #[trigger] view0.contains_key(r) ==> view1[r] == view0[r],
    ensures
        worklist_inv(g, rm, pending1, view1, deleted0.insert(x)),
        removed(g, rm).contains(x),
{
    let deleted1 = deleted0.insert(x);
    lemma_release_sound(g, rm, pending0, view0, deleted0, x);
    assert forall|r: u64| #[trigger] pending1.contains(r) implies view1.contains_key(r) && reached(
        g,
        rm,
        deleted1,
        r,
    ) by {
        if added.contains(r) {
            assert(deleted1.contains(x) && feeds(g, rm.memo, x, r));
        } else {
            assert(pending0.contains(r));
            if !rm.front.contains(r) {
                let p = choose|p: u64| deleted0.contains(p) && #[trigger] feeds(g, rm.memo, p, r);
                assert(deleted1.contains(p));
            }
        }
    }
    assert forall|p: u64, r: u64|
        deleted1.contains(p) && #[trigger] feeds(g, rm.memo, p, r) implies pending1.contains(r)
        || deleted1.contains(r) by {
        if p == x {
            if !deleted1.contains(r) {
                assert(added.contains(r));
            }
        } else {
            if pending0.contains(r) && r != x {
                assert(pending1.contains(r));
            }
        }
    }
    assert forall|r: u64| #[trigger] rm.front.contains(r) implies pending1.contains(r)
        || deleted1.contains(r) by {
        if pending0.contains(r) && r != x {
            assert(pending1.contains(r));
        }
    }
    assert forall|r: u64| !deleted1.contains(r) implies #[trigger] count_kept(
        g,
        rm,
        view1,
        deleted1,
        r,
    ) by {
        assert(count_kept(g, rm, view0, deleted0, r));
        let f0 = feeders(g, rm.memo, deleted0, r);
        let f1 = feeders(g, rm.memo, deleted1, r);
        lemma_feeders_finite(g, rm.memo, deleted0, r);
        if feeds(g, rm.memo, x, r) {
            assert(added.contains(r));
            assert(f1 =~= f0.insert(x));
            if !view0.contains_key(r) {
                assert(f0 =~= Set::<u64>::empty());
            }
        } else {
            assert(!added.contains(r));
            assert(f1 =~= f0);
        }
    }
}

/// Once nothing on the frontier can be released, all that the removal releases within
/// any number of rounds has been released.
pub proof fn lemma_quiescent_complete(
    g: Map<u64, ObjectModel>,
    rm: Removal,
    pending: Set<u64>,
    view: Map<u64, i128>,
    deleted: Set<u64>,
    k: nat,
)
    requires
        g.dom().finite(),
        worklist_inv(g, rm, pending, view, deleted),
        quiescent(pending, view, deleted),
    ensures
        removed_within(g, rm, k).subset_of(deleted),
    decreases k,
{
    if k > 0 {
        let gone = removed_within(g, rm, (k - 1) as nat);
        lemma_quiescent_complete(g, rm, pending, view, deleted, (k - 1) as nat);
        assert forall|x: u64| removed_within(g, rm, k).contains(x) implies deleted.contains(
            x,
        ) by {
            if !gone.contains(x) && !deleted.contains(x) {
                assert(reached(g, rm, gone, x) && live_count(g, rm, gone, x) <= 0);
                assert(pending.contains(x)) by {
                    if !rm.front.contains(x) {
                        let p = choose|p: u64| gone.contains(p) && #[trigger] feeds(g, rm.memo, p, x);
                        assert(deleted.contains(p));
                    }
                }
                assert(count_kept(g, rm, view, deleted, x));
                lemma_feeders_grow(g, rm.memo, gone, deleted, x);
                assert(false);
            }
        }
    }
}

/// Once nothing on the frontier can be released, the released addresses are those that
/// the removal releases.
pub proof fn lemma_quiescent_is_removed(
    g: Map<u64, ObjectModel>,
    rm: Removal,
    pending: Set<u64>,
    view: Map<u64, i128>,
    deleted: Set<u64>,
)
    requires
        g.dom().finite(),
        worklist_inv(g, rm, pending, view, deleted),
        quiescent(pending, view, deleted),
    ensures
        deleted == removed(g, rm),
{
    assert forall|x: u64| removed(g, rm).contains(x) implies deleted.contains(x) by {
        let k = choose|k: nat| (#[trigger] removed_within(g, rm, k)).contains(x);
        lemma_quiescent_complete(g, rm, pending, view, deleted, k);
    }
    assert(deleted =~= removed(g, rm));
}

/// The frontier stands in descending order of live count.
pub open spec fn descending(front: Seq<u64>, view: Map<u64, i128>) -> bool {
    forall|a: int, b: int|
        0 <= a <= b < front.len() ==> count_or_zero(view, front[a]) >= count_or_zero(
            view,
            front[b],
        )
}

/// The working view once one is taken off the live count of each address in `added`. An
/// address that has no count yet starts from the number of its recorded inbound
/// references, or from 1 where no object is at it.
pub open spec fn taken_off(
    g: Map<u64, ObjectModel>,
    view: Map<u64, i128>,
    added: Set<u64>,
) -> Map<u64, i128> {
    Map::new(
        |r: u64| view.contains_key(r) || added.contains(r),
        |r: u64|
            if added.contains(r) {
                (base_count(g, live_counts(view), r) - 1) as i128
            } else {
                view[r]
            },
    )
}

/// The items of a set, each once.
pub open spec fn each_once(s: Set<u64>) -> Multiset<u64> {
    Multiset::from_map(Map::new(|x: u64| s.contains(x), |x: u64| 1nat))
}

/// Where one pass stands.
#[verifier::ext_equal]
pub struct PassState {
    /// The working view.
    pub view: Map<u64, i128>,
    /// The released addresses.
    pub deleted: Set<u64>,
    /// The weight that the pass has released.
    pub size: int,
    /// The entries of the frontier that the pass has come to and left there, and at its
    /// end also those that it has not come to, in their order.
    pub kept: Seq<u64>,
    /// The addresses that have joined the frontier, each as often as it has.
    pub joined: Multiset<u64>,
}

/// The state after `current` is released: its weight is added, and where it is an object
/// without a size known beforehand, one is taken off the count of each address that it
/// refers to and that is not released, and those addresses join the frontier.
pub open spec fn release_step(
    g: Map<u64, ObjectModel>,
    memo: Map<u64, int>,
    st: PassState,
    current: u64,
) -> PassState {
    let deleted = st.deleted.insert(current);
    if expands(g, memo, current) {
        let added = g[current].referents.difference(deleted);
        PassState {
            view: taken_off(g, st.view, added),
            deleted,
            size: st.size + weight(g, memo, current),
            kept: st.kept,
            joined: st.joined.add(each_once(added)),
        }
    } else {
        PassState {
            view: st.view,
            deleted,
            size: st.size + weight(g, memo, current),
            kept: st.kept,
            joined: st.joined,
        }
    }
}

/// The state at the end of a pass that has still to come to the first `n` entries of
/// `front`. The pass goes from the last of them to the first. It ends at an entry with a
/// positive live count, leaves an entry that is released already where it is, and
/// releases any other.
pub open spec fn scan(
    g: Map<u64, ObjectModel>,
    memo: Map<u64, int>,
    front: Seq<u64>,
    n: nat,
    st: PassState,
) -> PassState
    decreases n,
{
    if n == 0 {
        st
    } else {
        let current = front[n - 1];
        if count_or_zero(st.view, current) > 0 {
            PassState {
                view: st.view,
                deleted: st.deleted,
                size: st.size,
                kept: front.take(n as int) + st.kept,
                joined: st.joined,
            }
        } else if st.deleted.contains(current) {
            scan(
                g,
                memo,
                front,
                (n - 1) as nat,
                PassState {
                    view: st.view,
                    deleted: st.deleted,
                    size: st.size,
                    kept: seq![current] + st.kept,
                    joined: st.joined,
                },
            )
        } else {
            scan(g, memo, front, (n - 1) as nat, release_step(g, memo, st, current))
        }
    }
}

/// The state at the end of one pass over `front`.
pub open spec fn pass(
    g: Map<u64, ObjectModel>,
    memo: Map<u64, int>,
    front: Seq<u64>,
    view: Map<u64, i128>,
    deleted: Set<u64>,
) -> PassState {
    scan(
        g,
        memo,
        front,
        front.len(),
        PassState { view, deleted, size: 0, kept: Seq::empty(), joined: Multiset::empty() },
    )
}

/// The addresses that are on the frontier while a pass has still to come to the first
/// `n` entries of `front`.
pub open spec fn pending(front: Seq<u64>, n: nat, st: PassState) -> Set<u64> {
    Set::new(
        |r: u64| front.take(n as int).contains(r) || st.kept.contains(r) || st.joined.count(r) > 0,
    )
}

/// No live count of the working view lies further below the floor of the starting counts
/// than the graph has objects.
pub open spec fn counts_bounded(g: Map<u64, ObjectModel>, view: Map<u64, i128>) -> bool {
    forall|r: u64| #[trigger] view.contains_key(r) ==> view[r] >= LIVE_COUNT_FLOOR - g.dom().len()
}

/// The graph has no more objects, and no object more recorded inbound references, than
/// can be counted. Every graph that is held in memory is of this kind.
pub open spec fn lengths_fit(g: Map<u64, ObjectModel>) -> bool {
    &&& g.dom().len() <= usize::MAX
    &&& forall|a: u64| #[trigger]
        g.contains_key(a) ==> g[a].inbound_references.len() <= usize::MAX
}

/// The numbers of objects and of inbound references of a graph that is held in memory
/// can be counted.
pub proof fn lemma_lengths_fit(objects: &FnvHashMap<u64, HeapObject>)
    requires
        fnv_modelled(),
    ensures
        lengths_fit(heap_model(objects@)),
{
    let g = heap_model(objects@);
    assert(g.dom() =~= objects@.dom());
    assert(objects.len() == objects@.len());
    assert forall|a: u64| #[trigger] g.contains_key(a) implies g[a].inbound_references.len()
        <= usize::MAX by {
        let inbound = &objects@[a].inbound_references;
        assert(inbound.len() == inbound@.len());
    }
}

/// A sequence without repetitions holds the items of the set of its entries, each once.
pub proof fn lemma_each_once(v: Seq<u64>)
    requires
        v.no_duplicates(),
    ensures
        v.to_multiset() == each_once(v.to_set()),
{
    let m = Map::new(|x: u64| v.to_set().contains(x), |x: u64| 1nat);
    vstd::seq_lib::seq_to_set_is_finite(v);
    assert(m.dom() =~= v.to_set());
    v.lemma_multiset_has_no_duplicates();
    assert forall|x: u64| v.to_multiset().count(x) == each_once(v.to_set()).count(x) by {
        vstd::seq_lib::to_multiset_contains(v, x);
        if v.contains(x) {
            vstd::multiset::axiom_multiset_contained(m, x);
        } else {
            vstd::multiset::axiom_multiset_new_not_contained(m, x);
        }
    }
    assert(v.to_multiset() =~= each_once(v.to_set()));
}

/// The items of a finite set, each once, are the items of the set.
pub proof fn lemma_each_once_count(s: Set<u64>, x: u64)
    requires
        s.finite(),
    ensures
        each_once(s).count(x) > 0 <==> s.contains(x),
{
    let m = Map::new(|y: u64| s.contains(y), |y: u64| 1nat);
    assert(m.dom() =~= s);
    if s.contains(x) {
        vstd::multiset::axiom_multiset_contained(m, x);
    } else {
        vstd::multiset::axiom_multiset_new_not_contained(m, x);
    }
}

/// The entries of a frontier that begins with `kept` and goes on with the entries of
/// `joined` are those of the two.
pub proof fn lemma_front_entries(front: Seq<u64>, kept: Seq<u64>, joined: Multiset<u64>)
    requires
        kept.len() <= front.len(),
        front.take(kept.len() as int) == kept,
        front.skip(kept.len() as int).to_multiset() == joined,
    ensures
        forall|r: u64| front.contains(r) <==> kept.contains(r) || joined.count(r) > 0,
{
    let rest = front.skip(kept.len() as int);
    assert(front =~= kept + rest);
    vstd::seq_lib::seq_to_set_distributes_over_add(kept, rest);
    assert forall|r: u64| front.contains(r) <==> kept.contains(r) || joined.count(r) > 0 by {
        vstd::seq_lib::to_multiset_contains(rest, r);
        assert(front.to_set().contains(r) <==> kept.to_set().contains(r) || rest.to_set().contains(r));
    }
}

/// A pass keeps what holds between two steps of the engine, adds to the released weight
/// the weights of what it releases, and releases nothing only where nothing on the
/// frontier can be released.
pub proof fn lemma_scan(
    g: Map<u64, ObjectModel>,
    rm: Removal,
    front: Seq<u64>,
    n: nat,
    st: PassState,
    d0: Set<u64>,
    v0: Map<u64, i128>,
)
    requires
        heap_wf(g),
        lengths_fit(g),
        forall|r: u64| #[trigger] rm.view.contains_key(r) ==> rm.view[r] >= LIVE_COUNT_FLOOR,
        n <= front.len(),
        worklist_inv(g, rm, pending(front, n, st), st.view, st.deleted),
        counts_bounded(g, st.view),
        d0.finite(),
        d0.subset_of(st.deleted),
        st.size == set_sum(st.deleted, weight_fn(g, rm.memo)) - set_sum(d0, weight_fn(g, rm.memo)),
        descending(front, v0),
        st.deleted == d0 ==> st.view == v0 && forall|j: int|
            n <= j < front.len() ==> d0.contains(#[trigger] front[j]),
    ensures
        ({
            let p = scan(g, rm.memo, front, n, st);
            &&& worklist_inv(g, rm, pending(front, 0, p), p.view, p.deleted)
            &&& counts_bounded(g, p.view)
            &&& st.deleted.subset_of(p.deleted)
            &&& p.size == set_sum(p.deleted, weight_fn(g, rm.memo)) - set_sum(
                d0,
                weight_fn(g, rm.memo),
            )
            &&& p.deleted != d0 ==> p.deleted.len() > d0.len()
            &&& p.deleted == d0 ==> quiescent(front.to_set(), v0, d0)
        }),
    decreases n,
{
    let w = weight_fn(g, rm.memo);
    let p = scan(g, rm.memo, front, n, st);
    if n == 0 {
        assert(st.deleted != d0 ==> st.deleted.len() > d0.len()) by {
            if st.deleted != d0 {
                lemma_strict_subset_len(d0, st.deleted);
            }
        }
        if st.deleted == d0 {
            assert forall|r: u64| #[trigger] front.to_set().contains(r) implies d0.contains(r)
                || v0[r] > 0 by {
                let j = choose|j: int| 0 <= j < front.len() && front[j] == r;
                assert(d0.contains(front[j]));
            }
        }
    } else {
        let current = front[n - 1];
        lemma_take_one_more(front, n - 1);
        assert(front.take(n as int)[n - 1] == current);
        assert(pending(front, n, st).contains(current));
        if count_or_zero(st.view, current) > 0 {
            assert(pending(front, 0, p) =~= pending(front, n, st)) by {
                assert(front.take(0) =~= Seq::<u64>::empty());
                vstd::seq_lib::seq_to_set_distributes_over_add(front.take(n as int), st.kept);
                assert forall|r: u64| p.kept.contains(r) <==> front.take(n as int).contains(r)
                    || st.kept.contains(r) by {
                    assert(p.kept.to_set().contains(r) <==> front.take(n as int).to_set().contains(
                        r,
                    ) || st.kept.to_set().contains(r));
                }
            }
            assert(st.deleted != d0 ==> st.deleted.len() > d0.len()) by {
                if st.deleted != d0 {
                    lemma_strict_subset_len(d0, st.deleted);
                }
            }
            if st.deleted == d0 {
                assert forall|r: u64| #[trigger] front.to_set().contains(r) implies d0.contains(r)
                    || v0[r] > 0 by {
                    let j = choose|j: int| 0 <= j < front.len() && front[j] == r;
                    if j < n {
                        assert(count_or_zero(v0, front[j]) >= count_or_zero(v0, front[n - 1]));
                    } else {
                        assert(d0.contains(front[j]));
                    }
                }
            }
        } else if st.deleted.contains(current) {
            let next = PassState {
                view: st.view,
                deleted: st.deleted,
                size: st.size,
                kept: seq![current] + st.kept,
                joined: st.joined,
            };
            assert(pending(front, (n - 1) as nat, next) =~= pending(front, n, st)) by {
                vstd::seq_lib::seq_to_set_distributes_over_add(seq![current], st.kept);
                assert forall|r: u64| next.kept.contains(r) <==> r == current || st.kept.contains(
                    r,
                ) by {
                    assert(next.kept.to_set().contains(r) <==> seq![current].to_set().contains(r)
                        || st.kept.to_set().contains(r));
                    if r == current {
                        assert(seq![current][0] == r);
                    }
                }
            }
            lemma_scan(g, rm, front, (n - 1) as nat, next, d0, v0);
        } else {
            let next = release_step(g, rm.memo, st, current);
            let added = if expands(g, rm.memo, current) {
                g[current].referents.difference(st.deleted.insert(current))
            } else {
                Set::<u64>::empty()
            };
            assert(st.view.contains_key(current));
            assert forall|r: u64| #[trigger] added.contains(r) implies next.view[r] == base_count(
                g,
                live_counts(st.view),
                r,
            ) - 1 by {
                if st.view.contains_key(r) {
                    assert(st.view[r] >= LIVE_COUNT_FLOOR - g.dom().len());
                }
            }
            assert forall|r: u64| #[trigger]
                pending(front, (n - 1) as nat, next).contains(r) implies pending(
                front,
                n,
                st,
            ).contains(r) || added.contains(r) by {
                if next.joined.count(r) > 0 && st.joined.count(r) == 0 {
                    lemma_each_once_count(added, r);
                }
            }
            assert forall|r: u64| #[trigger] added.contains(r) implies pending(
                front,
                (n - 1) as nat,
                next,
            ).contains(r) by {
                lemma_each_once_count(added, r);
            }
            lemma_release(
                g,
                rm,
                pending(front, n, st),
                st.view,
                st.deleted,
                current,
                pending(front, (n - 1) as nat, next),
                next.view,
                added,
            );
            lemma_set_sum_insert(st.deleted, w, current);
            assert(counts_bounded(g, next.view)) by {
                assert forall|r: u64| #[trigger] next.view.contains_key(r) implies next.view[r]
                    >= LIVE_COUNT_FLOOR - g.dom().len() by {
                    if added.contains(r) {
                        assert(count_kept(g, rm, next.view, next.deleted, r));
                        lemma_feeders_finite(g, rm.memo, next.deleted, r);
                    }
                }
            }
            assert(next.deleted != d0);
            lemma_scan(g, rm, front, (n - 1) as nat, next, d0, v0);
            assert(p.deleted != d0);
        }
    }
}

/// A finite set that holds another and is not equal to it has more items.
pub proof fn lemma_strict_subset_len(small: Set<u64>, large: Set<u64>)
    requires
        large.finite(),
        small.subset_of(large),
        small != large,
    ensures
        small.len() < large.len(),
{
    vstd::set_lib::lemma_len_subset(small, large);
    if small.len() == large.len() {
        vstd::set_lib::lemma_subset_equality(small, large);
    }
}

/// Two sequences with the same entries, each as often, have the same set of entries.
pub proof fn lemma_same_entries(a: Seq<u64>, b: Seq<u64>)
    requires
        a.to_multiset() == b.to_multiset(),
    ensures
        a.to_set() == b.to_set(),
{
    assert forall|x: u64| a.contains(x) <==> b.contains(x) by {
        vstd::seq_lib::to_multiset_contains(a, x);
        vstd::seq_lib::to_multiset_contains(b, x);
    }
    assert(a.to_set() =~= b.to_set());
}

/// What one engine run gives back.
pub struct Reclaimed {
    /// The retained size in bytes.
    pub size: u32,
    /// The number of passes in which an address was released.
    pub passes: usize,
}

impl RetainedHeapCalculator {
    /// The sizes known beforehand that the engine uses: those of the subtree roots where
    /// it is told to use them, and none else.
    pub open spec fn memo(&self, use_subtrees: bool) -> Map<u64, int> {
        if use_subtrees {
            memo_table(self.subtree_roots@, self.object_retained_heap@)
        } else {
            Map::empty()
        }
    }

    /// Every subtree root has its retained size on record.
    pub open spec fn memo_ready(&self) -> bool {
        forall|x: u64| #[trigger]
            self.subtree_roots@.contains(x) ==> self.object_retained_heap@.contains_key(x)
    }

    /// The removal that an engine run with these arguments computes.
    pub open spec fn removal(
        &self,
        view: Map<u64, i128>,
        front: Seq<u64>,
        use_subtrees: bool,
    ) -> Removal {
        Removal { view: live_counts(view), front: front.to_set(), memo: self.memo(use_subtrees) }
    }

    /// Takes one off the live count of each address in `to_be_added_to_front`. An address
    /// that has no count yet starts from the number of its recorded inbound references, or
    /// from 1 where no object is at it.
    pub fn update_inbound_references_view(
        &self,
        to_be_added_to_front: &Vec<u64>,
        inbound_reference_view: &mut FnvHashMap<u64, i128>,
    )
        requires
            self.wf(),
            to_be_added_to_front@.no_duplicates(),
            forall|r: u64|
                to_be_added_to_front@.contains(r) && old(inbound_reference_view)@.contains_key(r)
                    ==> old(inbound_reference_view)@[r] > i128::MIN,
        ensures
            final(inbound_reference_view)@ == taken_off(
                self.graph(),
                old(inbound_reference_view)@,
                to_be_added_to_front@.to_set(),
            ),
    {
        let ghost view0 = inbound_reference_view@;
        let ghost g = self.graph();
        let mut j: usize = 0;
        proof {
            assert(to_be_added_to_front@.take(0) =~= Seq::<u64>::empty());
            assert(inbound_reference_view@ =~= taken_off(
                g,
                view0,
                to_be_added_to_front@.take(0).to_set(),
            ));
        }
        while j < to_be_added_to_front.len()
            invariant
                self.wf(),
                g == self.graph(),
                j <= to_be_added_to_front@.len(),
                to_be_added_to_front@.no_duplicates(),
                forall|r: u64|
                    to_be_added_to_front@.contains(r) && view0.contains_key(r) ==> view0[r]
                        > i128::MIN,
                inbound_reference_view@ == taken_off(
                    g,
                    view0,
                    to_be_added_to_front@.take(j as int).to_set(),
                ),
            decreases to_be_added_to_front@.len() - j,
        {
            let r = to_be_added_to_front[j];
            let ghost seen = to_be_added_to_front@.take(j as int);
            let ghost next = to_be_added_to_front@.take(j as int + 1);
            let ghost before = inbound_reference_view@;
            proof {
                lemma_take_one_more(to_be_added_to_front@, j as int);
                assert(to_be_added_to_front@.contains(r));
                assert(!seen.to_set().contains(r));
            }
            let next_count: i128 = match inbound_reference_view.get(&r) {
                Some(v) => *v - 1,
                None => match self.objects.get(&r) {
                    Some(obj) => obj.inbound_references.len() as i128 - 1,
                    None => 0,
                },
            };
            inbound_reference_view.insert(r, next_count);
            proof {
                assert(next_count == base_count(g, live_counts(view0), r) - 1);
                assert forall|y: u64| next.to_set().contains(y) <==> seen.to_set().contains(y)
                    || y == r by {
                    assert(next.contains(y) <==> seen.contains(y) || y == r);
                }
                assert(inbound_reference_view@ =~= taken_off(g, view0, next.to_set()));
            }
            j = j + 1;
        }
        proof {
            assert(to_be_added_to_front@.take(j as int) =~= to_be_added_to_front@);
        }
    }

    /// One pass over the frontier, from its end, where the lowest live counts stand.
    ///
    /// An address whose live count is not positive and that is not yet released is
    /// released: it leaves the frontier and its weight is added. Where it is an object
    /// without a size known beforehand, one is taken off the count of each address that it
    /// refers to and that is not released, and those addresses join the frontier at its
    /// end. The pass ends at the first address with a positive count. It returns the
    /// weight that it released and whether it released anything.
    pub fn retained_heap_calculation_iteration(
        &self,
        front: &mut Vec<u64>,
        inbound_reference_view: &mut FnvHashMap<u64, i128>,
        deleted: &mut FnvHashSet<u64>,
        use_subtrees: bool,
    ) -> (out: (u128, bool))
        requires
            self.wf(),
            use_subtrees ==> self.memo_ready(),
            forall|i: int|
                0 <= i < old(front)@.len() ==> old(inbound_reference_view)@.contains_key(
                    #[trigger] old(front)@[i],
                ),
            forall|r: u64| #[trigger]
                old(inbound_reference_view)@.contains_key(r) ==> old(inbound_reference_view)@[r]
                    >= WORKING_COUNT_FLOOR,
        ensures
            ({
                let p = pass(
                    self.graph(),
                    self.memo(use_subtrees),
                    old(front)@,
                    old(inbound_reference_view)@,
                    old(deleted)@,
                );
                &&& final(deleted)@ == p.deleted
                &&& final(inbound_reference_view)@ == p.view
                &&& out.0 == p.size
                &&& out.1 == (p.deleted != old(deleted)@)
                &&& p.kept.len() <= final(front)@.len()
                &&& final(front)@.take(p.kept.len() as int) == p.kept
                &&& final(front)@.skip(p.kept.len() as int).to_multiset() == p.joined
            }),
            !out.1 ==> final(front)@ == old(front)@ && final(inbound_reference_view)@ == old(
                inbound_reference_view,
            )@,
    {
        let ghost g = self.graph();
        let ghost memo = self.memo(use_subtrees);
        let ghost front0 = front@;
        let ghost view0 = inbound_reference_view@;
        let ghost deleted0 = deleted@;
        let ghost mut kept: Seq<u64> = Seq::empty();
        let ghost mut joined: Seq<u64> = Seq::empty();
        let n0 = front.len();
        let mut i: usize = n0;
        let mut retained: u128 = 0;
        let mut deletion_happened = false;
        proof {
            lemma_heap_model_wf(&self.objects);
            lemma_lengths_fit(&self.objects);
            assert(front0.take(n0 as int) =~= front0);
            assert(front@ =~= front0.take(i as int) + kept + joined);
            assert(joined.to_multiset() =~= Multiset::<u64>::empty()) by {
                broadcast use vstd::seq_lib::group_to_multiset_ensures;
            }
        }
        while i > 0
            invariant_except_break
                front@ == front0.take(i as int) + kept + joined,
                pass(g, memo, front0, view0, deleted0) == scan(
                    g,
                    memo,
                    front0,
                    i as nat,
                    PassState {
                        view: inbound_reference_view@,
                        deleted: deleted@,
                        size: retained as int,
                        kept,
                        joined: joined.to_multiset(),
                    },
                ),
            invariant
                self.wf(),
                g == self.graph(),
                heap_wf(g),
                lengths_fit(g),
                memo == self.memo(use_subtrees),
                use_subtrees ==> self.memo_ready(),
                n0 == front0.len(),
                i <= n0,
                forall|j: int|
                    0 <= j < n0 ==> inbound_reference_view@.contains_key(#[trigger] front0[j]),
                forall|r: u64| #[trigger]
                    inbound_reference_view@.contains_key(r) ==> inbound_reference_view@[r]
                        >= WORKING_COUNT_FLOOR - (n0 - i),
                deleted0.subset_of(deleted@),
                deletion_happened <==> deleted@ != deleted0,
                !deletion_happened ==> inbound_reference_view@ == view0 && front@ == front0,
                retained <= (n0 - i) * 0xFFFF_FFFF,
            ensures
                pass(g, memo, front0, view0, deleted0) == (PassState {
                    view: inbound_reference_view@,
                    deleted: deleted@,
                    size: retained as int,
                    kept,
                    joined: joined.to_multiset(),
                }),
                front@ == kept + joined,
            decreases i,
        {
            let ghost st = PassState {
                view: inbound_reference_view@,
                deleted: deleted@,
                size: retained as int,
                kept,
                joined: joined.to_multiset(),
            };
            i = i - 1;
            let current = front[i];
            proof {
                lemma_take_one_more(front0, i as int);
                assert(front@[i as int] == front0[i as int]);
            }
            let count = count_of(inbound_reference_view, current);
            if count > 0 {
                proof {
                    kept = front0.take(i as int + 1) + kept;
                    assert(front@ =~= kept + joined);
                }
                break ;
            }
            if deleted.contains(&current) {
                proof {
                    kept = seq![current] + kept;
                    assert(front@ =~= front0.take(i as int) + kept + joined);
                }
                continue ;
            }
            let ghost front_before = front@;
            let ghost view_before = inbound_reference_view@;
            front.remove(i);
            deleted.insert(current);
            deletion_happened = true;
            proof {
                assert(front@ =~= front0.take(i as int) + kept + joined);
                assert(deleted@.contains(current) && !deleted0.contains(current));
            }
            if use_subtrees && self.subtree_roots.contains(&current) {
                let known: u32 = match self.object_retained_heap.get(&current) {
                    Some(size) => *size,
                    None => 0,
                };
                retained = retained + known as u128;
            } else {
                match self.objects.get(&current) {
                    Some(obj) => {
                        let mut to_be_added_to_front = addresses_outside(&obj.referents, deleted);
                        let ghost added_entries = to_be_added_to_front@;
                        self.update_inbound_references_view(
                            &to_be_added_to_front,
                            inbound_reference_view,
                        );
                        let ghost front_mid = front@;
                        front.append(&mut to_be_added_to_front);
                        proof {
                            lemma_each_once(added_entries);
                            vstd::seq_lib::lemma_multiset_commutative(joined, added_entries);
                            joined = joined + added_entries;
                            assert(front@ =~= front0.take(i as int) + kept + joined);
                            assert forall|r: u64| #[trigger]
                                inbound_reference_view@.contains_key(
                                    r,
                                ) implies inbound_reference_view@[r] >= WORKING_COUNT_FLOOR - (n0
                                - i) by {
                                if view_before.contains_key(r) {
                                    assert(view_before[r] >= WORKING_COUNT_FLOOR - (n0 - (i + 1)));
                                }
                                if g.contains_key(r) {
                                    assert(g[r].inbound_references.len() <= usize::MAX);
                                }
                            }
                        }
                        retained = retained + obj.size as u128;
                    },
                    None => {},
                }
            }
            proof {
                let next = PassState {
                    view: inbound_reference_view@,
                    deleted: deleted@,
                    size: retained as int,
                    kept,
                    joined: joined.to_multiset(),
                };
                assert(next =~= release_step(g, memo, st, current));
            }
        }
        proof {
            assert(front@.take(kept.len() as int) =~= kept);
            assert(front@.skip(kept.len() as int) =~= joined);
        }
        (retained, deletion_happened)
    }

    /// The retained size of the removal that starts at the addresses in `front` with the
    /// live counts in `inbound_reference_view`.
    ///
    /// Passes over the frontier, each in descending order of live count, are made until
    /// one releases nothing. With `use_subtrees`, a subtree root is released with the size
    /// on record for it and is not descended into. The result is `None` where the
    /// retained size does not fit in 32 bits.
    pub fn retained_heap0(
        &self,
        inbound_reference_view: FnvHashMap<u64, i128>,
        front: Vec<u64>,
        use_subtrees: bool,
    ) -> (outcome: Option<Reclaimed>)
        requires
            self.wf(),
            use_subtrees ==> self.memo_ready(),
            forall|i: int|
                0 <= i < front@.len() ==> inbound_reference_view@.contains_key(#[trigger] front@[i]),
            forall|r: u64| #[trigger]
                inbound_reference_view@.contains_key(r) ==> inbound_reference_view@[r]
                    >= LIVE_COUNT_FLOOR,
        ensures
            outcome is Some <==> retained(
                self.graph(),
                self.removal(inbound_reference_view@, front@, use_subtrees),
            ) <= u32::MAX,
            outcome matches Some(reclaimed) ==> {
                let rm = self.removal(inbound_reference_view@, front@, use_subtrees);
                &&& reclaimed.size == retained(self.graph(), rm)
                &&& reclaimed.passes <= removed(self.graph(), rm).len()
            },
    {
        let ghost g = self.graph();
        let ghost rm = self.removal(inbound_reference_view@, front@, use_subtrees);
        let ghost w = weight_fn(g, rm.memo);
        let mut front = front;
        let mut inbound_reference_view = inbound_reference_view;
        let mut deleted = new_address_set();
        let mut result: u128 = 0;
        let mut passes: usize = 0;
        proof {
            lemma_heap_model_wf(&self.objects);
            lemma_lengths_fit(&self.objects);
            vstd::seq_lib::seq_to_set_is_finite(front@);
            lemma_removed_finite(g, rm);
            lemma_set_sum_empty(w);
            assert forall|r: u64| !deleted@.contains(r) implies #[trigger] count_kept(
                g,
                rm,
                inbound_reference_view@,
                deleted@,
                r,
            ) by {
                assert(feeders(g, rm.memo, deleted@, r) =~= Set::<u64>::empty());
            }
            assert(deleted.len() == deleted@.len());
        }
        loop
            invariant
                self.wf(),
                g == self.graph(),
                heap_wf(g),
                lengths_fit(g),
                use_subtrees ==> self.memo_ready(),
                rm.memo == self.memo(use_subtrees),
                rm.front.finite(),
                removed(g, rm).finite(),
                w == weight_fn(g, rm.memo),
                forall|r: u64| #[trigger] rm.view.contains_key(r) ==> rm.view[r] >= LIVE_COUNT_FLOOR,
                worklist_inv(g, rm, front@.to_set(), inbound_reference_view@, deleted@),
                counts_bounded(g, inbound_reference_view@),
                result == set_sum(deleted@, w),
                deleted@.len() <= usize::MAX,
                passes <= deleted@.len(),
            ensures
                quiescent(front@.to_set(), inbound_reference_view@, deleted@),
                worklist_inv(g, rm, front@.to_set(), inbound_reference_view@, deleted@),
                result == set_sum(deleted@, w),
                passes <= deleted@.len(),
            decreases removed(g, rm).len() - deleted@.len(),
        {
            let ghost before = front@;
            let ghost deleted_before = deleted@;
            let ghost view_before = inbound_reference_view@;
            sort_by_live_count(&mut front, &inbound_reference_view);
            proof {
                lemma_same_entries(before, front@);
            }
            let ghost ascending = front@;
            reverse_addresses(&mut front);
            let ghost sorted = front@;
            proof {
                assert forall|a: int, b: int| 0 <= a <= b < front@.len() implies count_or_zero(
                    inbound_reference_view@,
                    front@[a],
                ) >= count_or_zero(inbound_reference_view@, front@[b]) by {
                    assert(front@[a] == ascending[ascending.len() - 1 - a]);
                    assert(front@[b] == ascending[ascending.len() - 1 - b]);
                }
                assert forall|i: int| 0 <= i < front@.len() implies inbound_reference_view@.contains_key(
                    #[trigger] front@[i],
                ) by {
                    assert(front@.to_set().contains(front@[i]));
                }
                let start = PassState {
                    view: view_before,
                    deleted: deleted_before,
                    size: 0,
                    kept: Seq::<u64>::empty(),
                    joined: Multiset::<u64>::empty(),
                };
                assert(pending(sorted, sorted.len(), start) =~= sorted.to_set()) by {
                    assert(sorted.take(sorted.len() as int) =~= sorted);
                }
                lemma_scan(g, rm, sorted, sorted.len(), start, deleted_before, view_before);
            }
            let (retained_now, deletion_happened) = self.retained_heap_calculation_iteration(
                &mut front,
                &mut inbound_reference_view,
                &mut deleted,
                use_subtrees,
            );
            proof {
                let p = pass(g, rm.memo, sorted, view_before, deleted_before);
                lemma_front_entries(front@, p.kept, p.joined);
                assert(front@.to_set() =~= pending(sorted, 0, p)) by {
                    assert(sorted.take(0) =~= Seq::<u64>::empty());
                }
                vstd::set_lib::lemma_len_subset(deleted@, removed(g, rm));
                assert(deleted.len() == deleted@.len());
                assert forall|x: u64| #[trigger] deleted@.contains(x) implies 0 <= w(x)
                    <= 0xFFFF_FFFF by {}
                lemma_set_sum_bound(deleted@, w, 0xFFFF_FFFF);
            }
            if !deletion_happened {
                break ;
            }
            result = result + retained_now;
            passes = passes + 1;
        }
        proof {
            lemma_quiescent_is_removed(g, rm, front@.to_set(), inbound_reference_view@, deleted@);
        }
        if result <= 0xFFFF_FFFF {
            Some(Reclaimed { size: result as u32, passes })
        } else {
            None
        }
    }
}

} // verus!
