//! Why the size found for a subtree root may stand for its whole subtree: where every
//! reference between objects is on record at its target, the removal of a subtree root
//! without any size known beforehand releases exactly that size.
use crate::calculator::{
    lemma_known_retains_memo, object_removal, object_retained, sizes_fit, thread_removal,
    thread_retained,
};
use crate::graph::{heap_wf, ObjectModel};
use crate::laws::references_recorded_at;
use crate::removal::{
    feeders, feeds, lemma_feeders_finite, lemma_removed_finite, lemma_removed_within_grows,
    live_count, reached, removed, removed_next, removed_within, retained, weight_fn, Removal,
};
use crate::subtree::{
    is_subtree_root, lemma_subtree_root_eligible, lemma_subtree_size_at,
    lemma_subtree_size_unfolds, lemma_subtree_unfolds, lemma_subtrees_grow, subtree_size,
    subtree_size_fn, subtree_sizes, subtrees_within,
};
use crate::sums::{
    lemma_set_sum_agree, lemma_set_sum_empty, lemma_set_sum_insert, lemma_set_sum_remove, set_sum,
};
use crate::worklist::lemma_common_round;
use vstd::prelude::*;

verus! {

/// Every reference from an object to an object is on record at its target.
pub open spec fn references_recorded(g: Map<u64, ObjectModel>) -> bool {
    forall|x: u64| #[trigger] g.contains_key(x) ==> references_recorded_at(g, x)
}

/// The removal of the single object at `a` without any size known beforehand.
pub open spec fn plain_removal(a: u64) -> Removal {
    object_removal(Map::<u64, int>::empty(), a)
}

/// What the plain removals of the referents of `x` release.
pub open spec fn released_below(g: Map<u64, ObjectModel>, x: u64) -> Set<u64> {
    Set::new(
        |y: u64|
            exists|r: u64| #[trigger]
                g[x].referents.contains(r) && removed(g, plain_removal(r)).contains(y),
    )
}

/// What the plain removal of `r` releases, as a function of `r`.
pub open spec fn released_fn(g: Map<u64, ObjectModel>) -> spec_fn(u64) -> Set<u64> {
    |r: u64| removed(g, plain_removal(r))
}

/// All that the sets `parts(r)` hold for the `r` in `keys`.
pub open spec fn union_of(keys: Set<u64>, parts: spec_fn(u64) -> Set<u64>) -> Set<u64> {
    Set::new(|y: u64| exists|r: u64| #[trigger] keys.contains(r) && parts(r).contains(y))
}

/// The sum of `f` over `parts(r)`, as a function of `r`.
pub open spec fn part_sum_fn(parts: spec_fn(u64) -> Set<u64>, f: spec_fn(u64) -> int) -> spec_fn(
    u64,
) -> int {
    |r: u64| set_sum(parts(r), f)
}

/// Two sets without a common item sum to the sum of their sums.
pub proof fn lemma_set_sum_union(a: Set<u64>, b: Set<u64>, f: spec_fn(u64) -> int)
    requires
        a.finite(),
        b.finite(),
        a.disjoint(b),
    ensures
        set_sum(a.union(b), f) == set_sum(a, f) + set_sum(b, f),
    decreases b.len(),
{
    if b.is_empty() {
        assert(a.union(b) =~= a);
        lemma_set_sum_empty(f);
        assert(b =~= Set::<u64>::empty());
    } else {
        let e = b.choose();
        let rest = b.remove(e);
        lemma_set_sum_union(a, rest, f);
        lemma_set_sum_remove(b, f, e);
        assert(a.union(b) =~= a.union(rest).insert(e));
        lemma_set_sum_insert(a.union(rest), f, e);
    }
}

/// Finitely many finite sets, no two with a common item, sum to the sum of their sums.
pub proof fn lemma_set_sum_family(
    keys: Set<u64>,
    parts: spec_fn(u64) -> Set<u64>,
    f: spec_fn(u64) -> int,
)
    requires
        keys.finite(),
        forall|r: u64| #[trigger] keys.contains(r) ==> parts(r).finite(),
        forall|r: u64, s: u64|
            #[trigger] keys.contains(r) && #[trigger] keys.contains(s) && r != s ==> parts(
                r,
            ).disjoint(parts(s)),
    ensures
        union_of(keys, parts).finite(),
        set_sum(union_of(keys, parts), f) == set_sum(keys, part_sum_fn(parts, f)),
    decreases keys.len(),
{
    if keys.is_empty() {
        assert(union_of(keys, parts) =~= Set::<u64>::empty());
        assert(keys =~= Set::<u64>::empty());
        lemma_set_sum_empty(f);
        lemma_set_sum_empty(part_sum_fn(parts, f));
    } else {
        let e = keys.choose();
        let rest = keys.remove(e);
        lemma_set_sum_family(rest, parts, f);
        let below = union_of(rest, parts);
        assert(union_of(keys, parts) =~= parts(e).union(below)) by {
            assert forall|y: u64| union_of(keys, parts).contains(y) implies parts(e).union(
                below,
            ).contains(y) by {
                let r = choose|r: u64| #[trigger] keys.contains(r) && parts(r).contains(y);
                if r != e {
                    assert(rest.contains(r));
                }
            }
            assert forall|y: u64| parts(e).union(below).contains(y) implies union_of(
                keys,
                parts,
            ).contains(y) by {
                if parts(e).contains(y) {
                    assert(keys.contains(e));
                } else {
                    let r = choose|r: u64| #[trigger] rest.contains(r) && parts(r).contains(y);
                    assert(keys.contains(r));
                }
            }
        }
        assert(parts(e).disjoint(below)) by {
            assert forall|y: u64| parts(e).contains(y) implies !below.contains(y) by {
                if below.contains(y) {
                    let r = choose|r: u64| #[trigger] rest.contains(r) && parts(r).contains(y);
                    assert(keys.contains(r) && keys.contains(e));
                    assert(parts(e).disjoint(parts(r)));
                }
            }
        }
        lemma_set_sum_union(parts(e), below, f);
        lemma_set_sum_remove(keys, part_sum_fn(parts, f), e);
    }
}

/// A finite set of at most one item has no two different items.
pub proof fn lemma_at_most_one(s: Set<u64>, a: u64, b: u64)
    requires
        s.finite(),
        s.len() <= 1,
        s.contains(a),
        s.contains(b),
    ensures
        a == b,
{
    if a != b {
        assert(s.remove(a).contains(b));
        assert(s.remove(a).len() == s.len() - 1);
    }
}

/// What a subtree root of some round refers to is a subtree root of the round before.
pub proof fn lemma_referents_one_round_earlier(g: Map<u64, ObjectModel>, h: nat, x: u64, r: u64)
    requires
        subtrees_within(g, h).contains_key(x),
        g[x].referents.contains(r),
    ensures
        h >= 1,
        subtrees_within(g, (h - 1) as nat).contains_key(r),
    decreases h,
{
    if h == 0 {
        assert(g[x].referents =~= Set::<u64>::empty());
    } else {
        let prev = subtrees_within(g, (h - 1) as nat);
        if prev.contains_key(x) {
            lemma_referents_one_round_earlier(g, (h - 1) as nat, x, r);
            lemma_subtrees_grow(g, (h - 2) as nat, (h - 1) as nat);
        } else {
            assert(prev.dom().contains(r));
        }
    }
}

/// The plain removal of a subtree root releases subtree roots only, and but for the root
/// itself they are subtree roots of the round before.
pub proof fn lemma_released_are_earlier_roots(g: Map<u64, ObjectModel>, h: nat, x: u64, k: nat)
    requires
        subtrees_within(g, h).contains_key(x),
    ensures
        forall|y: u64| #[trigger]
            removed_within(g, plain_removal(x), k).contains(y) ==> y == x || (h >= 1
                && subtrees_within(g, (h - 1) as nat).contains_key(y)),
    decreases k,
{
    if k > 0 {
        let rm = plain_removal(x);
        let gone = removed_within(g, rm, (k - 1) as nat);
        lemma_released_are_earlier_roots(g, h, x, (k - 1) as nat);
        assert forall|y: u64| #[trigger] removed_within(g, rm, k).contains(y) implies y == x || (h
            >= 1 && subtrees_within(g, (h - 1) as nat).contains_key(y)) by {
            if !gone.contains(y) && y != x {
                let p = choose|p: u64| gone.contains(p) && #[trigger] feeds(g, rm.memo, p, y);
                if p == x {
                    lemma_referents_one_round_earlier(g, h, x, y);
                } else {
                    lemma_referents_one_round_earlier(g, (h - 1) as nat, p, y);
                    lemma_subtrees_grow(g, (h - 2) as nat, (h - 1) as nat);
                }
            }
        }
    }
}

/// The plain removal of what a subtree root refers to does not release the root.
pub proof fn lemma_root_not_released_below(g: Map<u64, ObjectModel>, h: nat, x: u64, r: u64, k: nat)
    requires
        subtrees_within(g, h).contains_key(x),
        g[x].referents.contains(r),
    ensures
        !removed_within(g, plain_removal(r), k).contains(x),
    decreases h,
{
    lemma_referents_one_round_earlier(g, h, x, r);
    if removed_within(g, plain_removal(r), k).contains(x) {
        lemma_released_are_earlier_roots(g, (h - 1) as nat, r, k);
        if x != r {
            lemma_subtrees_grow(g, (h - 2) as nat, (h - 1) as nat);
        }
        lemma_root_not_released_below(g, (h - 1) as nat, x, r, k);
    }
}

/// A removal releases its starting address with a live count of 0 in the first round.
pub proof fn lemma_start_released(g: Map<u64, ObjectModel>, x: u64, k: nat)
    requires
        k >= 1,
    ensures
        removed_within(g, plain_removal(x), k).contains(x),
{
    let rm = plain_removal(x);
    assert(feeders(g, rm.memo, removed_within(g, rm, 0), x) =~= Set::<u64>::empty());
    assert(removed_within(g, rm, 1).contains(x));
    lemma_removed_within_grows(g, rm, 1, k);
}

/// An address with at most one recorded inbound reference is released once an object
/// that refers to it is.
pub proof fn lemma_fed_root_released(
    g: Map<u64, ObjectModel>,
    rm: Removal,
    gone: Set<u64>,
    p: u64,
    y: u64,
)
    requires
        heap_wf(g),
        gone.contains(p),
        feeds(g, rm.memo, p, y),
        g.contains_key(y),
        g[y].inbound_references.len() <= 1,
        rm.view.contains_key(y) ==> rm.view[y] <= 1,
    ensures
        removed_next(g, rm, gone).contains(y),
{
    lemma_feeders_finite(g, rm.memo, gone, y);
    assert(feeders(g, rm.memo, gone, y).contains(p));
}

/// What the plain removal of a referent of a subtree root releases, the plain removal of
/// the root releases one round later.
pub proof fn lemma_release_carries_up(g: Map<u64, ObjectModel>, h: nat, x: u64, r: u64, k: nat)
    requires
        heap_wf(g),
        subtrees_within(g, h).contains_key(x),
        g[x].referents.contains(r),
    ensures
        removed_within(g, plain_removal(r), k).subset_of(
            removed_within(g, plain_removal(x), k + 1),
        ),
    decreases k,
{
    if k > 0 {
        let rm_r = plain_removal(r);
        let rm_x = plain_removal(x);
        let gone_r = removed_within(g, rm_r, (k - 1) as nat);
        let gone_x = removed_within(g, rm_x, k);
        lemma_release_carries_up(g, h, x, r, (k - 1) as nat);
        lemma_referents_one_round_earlier(g, h, x, r);
        lemma_subtree_root_eligible(g, h, x);
        lemma_start_released(g, x, k);
        assert forall|y: u64| removed_within(g, rm_r, k).contains(y) implies removed_within(
            g,
            rm_x,
            k + 1,
        ).contains(y) by {
            lemma_root_not_released_below(g, h, x, r, k);
            lemma_released_are_earlier_roots(g, (h - 1) as nat, r, k);
            if !gone_r.contains(y) {
                assert(y != x);
                if y == r {
                    lemma_subtree_root_eligible(g, (h - 1) as nat, r);
                    lemma_fed_root_released(g, rm_x, gone_x, x, r);
                } else {
                    let p = choose|p: u64| gone_r.contains(p) && #[trigger] feeds(g, rm_r.memo, p, y);
                    lemma_subtree_root_eligible(g, (h - 2) as nat, y);
                    lemma_fed_root_released(g, rm_x, gone_x, p, y);
                }
            }
        }
    }
}

/// What the plain removal of a subtree root releases is the root or is released by the
/// plain removal of one of its referents.
pub proof fn lemma_release_comes_from_below(g: Map<u64, ObjectModel>, h: nat, x: u64, k: nat)
    requires
        heap_wf(g),
        subtrees_within(g, h).contains_key(x),
    ensures
        forall|y: u64| #[trigger]
            removed_within(g, plain_removal(x), k).contains(y) ==> y == x || released_below(
                g,
                x,
            ).contains(y),
    decreases k,
{
    if k > 0 {
        let rm_x = plain_removal(x);
        let gone_x = removed_within(g, rm_x, (k - 1) as nat);
        lemma_release_comes_from_below(g, h, x, (k - 1) as nat);
        assert forall|y: u64| #[trigger] removed_within(g, rm_x, k).contains(y) implies y == x
            || released_below(g, x).contains(y) by {
            if !gone_x.contains(y) && y != x {
                let p = choose|p: u64| gone_x.contains(p) && #[trigger] feeds(g, rm_x.memo, p, y);
                if p == x {
                    lemma_start_released(g, y, 1);
                    assert(g[x].referents.contains(y) && removed(g, plain_removal(y)).contains(y));
                } else {
                    assert(released_below(g, x).contains(p));
                    let r = choose|r: u64| #[trigger]
                        g[x].referents.contains(r) && removed(g, plain_removal(r)).contains(p);
                    let rm_r = plain_removal(r);
                    let j = choose|j: nat| (#[trigger] removed_within(g, rm_r, j)).contains(p);
                    lemma_referents_one_round_earlier(g, h, x, r);
                    lemma_released_are_earlier_roots(g, (h - 1) as nat, r, j);
                    if y == r {
                        lemma_start_released(g, r, 1);
                    } else {
                        lemma_subtrees_grow(g, (h - 2) as nat, (h - 1) as nat);
                        lemma_referents_one_round_earlier(g, (h - 1) as nat, p, y);
                        lemma_subtree_root_eligible(g, (h - 2) as nat, y);
                        lemma_fed_root_released(g, rm_r, removed_within(g, rm_r, j), p, y);
                        assert(removed_within(g, rm_r, j + 1).contains(y));
                    }
                    assert(g[x].referents.contains(r) && removed(g, rm_r).contains(y));
                }
            }
        }
    }
}

/// An address that a removal releases without starting at it is referred to by an object
/// that the removal releases.
pub proof fn lemma_released_has_feeder(g: Map<u64, ObjectModel>, rm: Removal, y: u64, k: nat) -> (p:
    u64)
    requires
        removed_within(g, rm, k).contains(y),
        !rm.front.contains(y),
    ensures
        removed(g, rm).contains(p),
        feeds(g, rm.memo, p, y),
    decreases k,
{
    let gone = removed_within(g, rm, (k - 1) as nat);
    if k > 0 && gone.contains(y) {
        lemma_released_has_feeder(g, rm, y, (k - 1) as nat)
    } else {
        let p = choose|p: u64| gone.contains(p) && #[trigger] feeds(g, rm.memo, p, y);
        p
    }
}

/// The plain removals of two different referents of a subtree root release nothing in
/// common, where every reference is on record at its target.
pub proof fn lemma_referents_release_apart(
    g: Map<u64, ObjectModel>,
    h: nat,
    x: u64,
    r1: u64,
    r2: u64,
    k: nat,
)
    requires
        heap_wf(g),
        references_recorded(g),
        subtrees_within(g, h).contains_key(x),
        g[x].referents.contains(r1),
        g[x].referents.contains(r2),
        r1 != r2,
    ensures
        forall|y: u64| #[trigger]
            removed_within(g, plain_removal(r1), k).contains(y) ==> !removed(
                g,
                plain_removal(r2),
            ).contains(y),
    decreases k,
{
    if k > 0 {
        let rm1 = plain_removal(r1);
        let rm2 = plain_removal(r2);
        let gone1 = removed_within(g, rm1, (k - 1) as nat);
        lemma_referents_release_apart(g, h, x, r1, r2, (k - 1) as nat);
        lemma_referents_one_round_earlier(g, h, x, r1);
        lemma_referents_one_round_earlier(g, h, x, r2);
        lemma_subtree_root_eligible(g, h, x);
        assert forall|y: u64| #[trigger] removed_within(g, rm1, k).contains(y) implies !removed(
            g,
            rm2,
        ).contains(y) by {
            if !gone1.contains(y) && removed(g, rm2).contains(y) {
                let j = choose|j: nat| (#[trigger] removed_within(g, rm2, j)).contains(y);
                lemma_released_are_earlier_roots(g, (h - 1) as nat, r1, k);
                if y != r1 {
                    lemma_subtrees_grow(g, (h - 2) as nat, (h - 1) as nat);
                }
                lemma_subtree_root_eligible(g, (h - 1) as nat, y);
                assert(references_recorded_at(g, y));
                // The object through which the first removal comes to `y`.
                let p1 = if y == r1 {
                    x
                } else {
                    choose|p: u64| gone1.contains(p) && #[trigger] feeds(g, rm1.memo, p, y)
                };
                // The object through which the second removal comes to `y`.
                let p2 = if y == r2 {
                    x
                } else {
                    lemma_released_has_feeder(g, rm2, y, j)
                };
                assert(g.contains_key(p1) && g[p1].referents.contains(y));
                assert(g.contains_key(p2) && g[p2].referents.contains(y));
                lemma_at_most_one(g[y].inbound_references, p1, p2);
                if y == r1 {
                    // `x` would be released below itself.
                    let i = choose|i: nat| (#[trigger] removed_within(g, rm2, i)).contains(p2);
                    lemma_root_not_released_below(g, h, x, r2, i);
                } else if y == r2 {
                    lemma_root_not_released_below(g, h, x, r1, (k - 1) as nat);
                } else {
                    assert(gone1.contains(p1) && removed(g, rm2).contains(p1));
                }
            }
        }
    }
}

/// The plain removal of a subtree root releases the size that the search for strict
/// subtrees finds for it, where every reference is on record at its target.
pub proof fn lemma_subtree_size_released(g: Map<u64, ObjectModel>, h: nat, x: u64)
    requires
        heap_wf(g),
        references_recorded(g),
        subtrees_within(g, h).contains_key(x),
    ensures
        retained(g, plain_removal(x)) == subtrees_within(g, h)[x],
    decreases h,
{
    let rm = plain_removal(x);
    let w = weight_fn(g, Map::<u64, int>::empty());
    let parts = released_fn(g);
    let below = released_below(g, x);
    lemma_subtree_root_eligible(g, h, x);
    lemma_subtree_unfolds(g, h, x);
    lemma_removed_finite(g, rm);
    assert(below =~= union_of(g[x].referents, parts));
    assert(removed(g, rm) =~= below.insert(x)) by {
        assert forall|y: u64| removed(g, rm).contains(y) implies below.insert(x).contains(y) by {
            let k = choose|k: nat| (#[trigger] removed_within(g, rm, k)).contains(y);
            lemma_release_comes_from_below(g, h, x, k);
        }
        assert forall|y: u64| below.insert(x).contains(y) implies removed(g, rm).contains(y) by {
            if y == x {
                lemma_start_released(g, x, 1);
            } else {
                let r = choose|r: u64| #[trigger]
                    g[x].referents.contains(r) && removed(g, plain_removal(r)).contains(y);
                let k = choose|k: nat| (#[trigger] removed_within(g, plain_removal(r), k)).contains(
                    y,
                );
                lemma_release_carries_up(g, h, x, r, k);
                assert(removed_within(g, rm, k + 1).contains(y));
            }
        }
    }
    assert(!below.contains(x)) by {
        if below.contains(x) {
            let r = choose|r: u64| #[trigger]
                g[x].referents.contains(r) && removed(g, plain_removal(r)).contains(x);
            let k = choose|k: nat| (#[trigger] removed_within(g, plain_removal(r), k)).contains(x);
            lemma_root_not_released_below(g, h, x, r, k);
        }
    }
    assert forall|r: u64| #[trigger] g[x].referents.contains(r) implies parts(r).finite()
        && part_sum_fn(parts, w)(r) == subtree_size_fn(g)(r) by {
        lemma_removed_finite(g, plain_removal(r));
        lemma_referents_one_round_earlier(g, h, x, r);
        lemma_subtree_size_released(g, (h - 1) as nat, r);
        lemma_subtree_size_at(g, (h - 1) as nat, r);
    }
    assert forall|r: u64, s: u64|
        #[trigger] g[x].referents.contains(r) && #[trigger] g[x].referents.contains(s) && r
            != s implies parts(r).disjoint(parts(s)) by {
        assert forall|y: u64| #[trigger]
            removed(g, plain_removal(r)).contains(y) implies !removed(g, plain_removal(s)).contains(
            y,
        ) by {
            let k = choose|k: nat| (#[trigger] removed_within(g, plain_removal(r), k)).contains(y);
            lemma_referents_release_apart(g, h, x, r, s, k);
        }
        assert(parts(r) == removed(g, plain_removal(r)));
        assert(parts(s) == removed(g, plain_removal(s)));
    }
    lemma_set_sum_family(g[x].referents, parts, w);
    lemma_set_sum_agree(g[x].referents, part_sum_fn(parts, w), subtree_size_fn(g));
    lemma_set_sum_insert(below, w, x);
}

/// The size that the search for strict subtrees finds for a subtree root is what the
/// removal of the root releases when no size is known beforehand, where every reference
/// from an object to an object is on record at its target.
pub proof fn lemma_subtree_size_is_retained(g: Map<u64, ObjectModel>, x: u64)
    requires
        heap_wf(g),
        references_recorded(g),
        is_subtree_root(g, x),
    ensures
        subtree_size(g, x) == retained(g, plain_removal(x)),
{
    let h = choose|h: nat| (#[trigger] subtrees_within(g, h)).contains_key(x);
    lemma_subtree_size_released(g, h, x);
}

/// The removal of the single object at `a` with the sizes of the subtree roots known
/// beforehand.
pub open spec fn memo_removal(g: Map<u64, ObjectModel>, a: u64) -> Removal {
    object_removal(subtree_sizes(g), a)
}

/// The subtree roots that the removal of `a` releases as a whole.
pub open spec fn released_roots(g: Map<u64, ObjectModel>, a: u64) -> Set<u64> {
    Set::new(|s: u64| removed(g, memo_removal(g, a)).contains(s) && is_subtree_root(g, s))
}

/// What the removal of `a` releases one by one: all but the subtree roots.
pub open spec fn released_singly(g: Map<u64, ObjectModel>, a: u64) -> Set<u64> {
    Set::new(|y: u64| removed(g, memo_removal(g, a)).contains(y) && !is_subtree_root(g, y))
}

/// What the plain removal of a subtree root releases are subtree roots.
pub proof fn lemma_released_below_root_are_roots(g: Map<u64, ObjectModel>, s: u64, y: u64)
    requires
        is_subtree_root(g, s),
        removed(g, plain_removal(s)).contains(y),
    ensures
        is_subtree_root(g, y),
{
    let h = choose|h: nat| (#[trigger] subtrees_within(g, h)).contains_key(s);
    let k = choose|k: nat| (#[trigger] removed_within(g, plain_removal(s), k)).contains(y);
    lemma_released_are_earlier_roots(g, h, s, k);
}

/// What the removal with known sizes releases within some rounds, the plain removal
/// releases within as many.
pub proof fn lemma_memo_released_is_plain_released(g: Map<u64, ObjectModel>, a: u64, k: nat)
    requires
        heap_wf(g),
    ensures
        removed_within(g, memo_removal(g, a), k).subset_of(
            removed_within(g, plain_removal(a), k),
        ),
    decreases k,
{
    if k > 0 {
        let rm1 = memo_removal(g, a);
        let rm0 = plain_removal(a);
        let gone1 = removed_within(g, rm1, (k - 1) as nat);
        let gone0 = removed_within(g, rm0, (k - 1) as nat);
        lemma_memo_released_is_plain_released(g, a, (k - 1) as nat);
        assert forall|y: u64| removed_within(g, rm1, k).contains(y) implies removed_within(
            g,
            rm0,
            k,
        ).contains(y) by {
            if !gone1.contains(y) {
                assert(reached(g, rm0, gone0, y)) by {
                    if !rm1.front.contains(y) {
                        let p = choose|p: u64| gone1.contains(p) && #[trigger] feeds(g, rm1.memo, p, y);
                        assert(gone0.contains(p) && feeds(g, rm0.memo, p, y));
                    }
                }
                lemma_feeders_finite(g, rm0.memo, gone0, y);
                assert(feeders(g, rm1.memo, gone1, y).subset_of(feeders(g, rm0.memo, gone0, y)));
                vstd::set_lib::lemma_len_subset(
                    feeders(g, rm1.memo, gone1, y),
                    feeders(g, rm0.memo, gone0, y),
                );
            }
        }
    }
}

/// Once the plain removal of `a` has released a subtree root, it releases all that the
/// plain removal of that root releases.
pub proof fn lemma_subtree_follows_root(g: Map<u64, ObjectModel>, a: u64, s: u64, k: nat, j: nat)
    requires
        heap_wf(g),
        is_subtree_root(g, s),
        removed_within(g, plain_removal(a), k).contains(s),
    ensures
        removed_within(g, plain_removal(s), j).subset_of(removed_within(g, plain_removal(a), k + j)),
    decreases j,
{
    if j > 0 {
        let rm_s = plain_removal(s);
        let rm_a = plain_removal(a);
        let gone_s = removed_within(g, rm_s, (j - 1) as nat);
        let gone_a = removed_within(g, rm_a, (k + j - 1) as nat);
        lemma_subtree_follows_root(g, a, s, k, (j - 1) as nat);
        lemma_removed_within_grows(g, rm_a, k, k + j);
        lemma_removed_within_grows(g, rm_a, (k + j - 1) as nat, k + j);
        assert forall|y: u64| removed_within(g, rm_s, j).contains(y) implies removed_within(
            g,
            rm_a,
            k + j,
        ).contains(y) by {
            if !gone_s.contains(y) && y != s {
                let p = choose|p: u64| gone_s.contains(p) && #[trigger] feeds(g, rm_s.memo, p, y);
                assert(removed(g, rm_s).contains(p));
                lemma_released_below_root_are_roots(g, s, p);
                lemma_subtree_size_unfolds(g, p);
                lemma_subtree_size_unfolds(g, y);
                lemma_fed_root_released(g, rm_a, gone_a, p, y);
            }
        }
    }
}

/// What the plain removal of `a` releases, the removal with known sizes releases too,
/// singly or within a subtree root that it releases as a whole.
pub proof fn lemma_plain_released_is_covered(g: Map<u64, ObjectModel>, a: u64, k: nat)
    requires
        heap_wf(g),
        references_recorded(g),
    ensures
        forall|y: u64| #[trigger]
            removed_within(g, plain_removal(a), k).contains(y) ==> removed(
                g,
                memo_removal(g, a),
            ).contains(y) || union_of(released_roots(g, a), released_fn(g)).contains(y),
    decreases k,
{
    if k > 0 {
        let rm1 = memo_removal(g, a);
        let rm0 = plain_removal(a);
        let gone0 = removed_within(g, rm0, (k - 1) as nat);
        let all1 = removed(g, rm1);
        let hanging = union_of(released_roots(g, a), released_fn(g));
        lemma_plain_released_is_covered(g, a, (k - 1) as nat);
        assert(removed_within(g, rm1, 1).contains(a)) by {
            assert(feeders(g, rm1.memo, removed_within(g, rm1, 0), a) =~= Set::<u64>::empty());
        }
        assert forall|y: u64| #[trigger] removed_within(g, rm0, k).contains(y) implies all1.contains(
            y,
        ) || hanging.contains(y) by {
            if !gone0.contains(y) && y != a {
                let p = choose|p: u64| gone0.contains(p) && #[trigger] feeds(g, rm0.memo, p, y);
                if hanging.contains(p) {
                    let s = choose|s: u64| #[trigger]
                        released_roots(g, a).contains(s) && released_fn(g)(s).contains(p);
                    lemma_through_root(g, s, p, y);
                    assert(released_roots(g, a).contains(s) && released_fn(g)(s).contains(y));
                } else if is_subtree_root(g, p) {
                    lemma_start_released(g, p, 1);
                    lemma_through_root(g, p, p, y);
                    assert(released_roots(g, a).contains(p) && released_fn(g)(p).contains(y));
                } else if is_subtree_root(g, y) {
                    let j = choose|j: nat| (#[trigger] removed_within(g, rm1, j)).contains(p);
                    lemma_subtree_size_unfolds(g, y);
                    lemma_fed_root_released(g, rm1, removed_within(g, rm1, j), p, y);
                    assert(removed_within(g, rm1, j + 1).contains(y));
                } else {
                    let f0 = feeders(g, rm0.memo, gone0, y);
                    lemma_feeders_finite(g, rm0.memo, gone0, y);
                    assert forall|q: u64| f0.contains(q) implies all1.contains(q)
                        && !is_subtree_root(g, q) by {
                        if is_subtree_root(g, q) {
                            lemma_subtree_size_unfolds(g, q);
                        }
                        if hanging.contains(q) {
                            let s = choose|s: u64| #[trigger]
                                released_roots(g, a).contains(s) && released_fn(g)(s).contains(q);
                            lemma_released_below_root_are_roots(g, s, q);
                        }
                    }
                    let round = lemma_common_round(g, rm1, f0);
                    let gone1 = removed_within(g, rm1, round);
                    lemma_feeders_finite(g, rm1.memo, gone1, y);
                    assert(f0.subset_of(feeders(g, rm1.memo, gone1, y)));
                    vstd::set_lib::lemma_len_subset(f0, feeders(g, rm1.memo, gone1, y));
                    assert(f0.contains(p));
                    assert(gone1.contains(p) && feeds(g, rm1.memo, p, y));
                    assert(reached(g, rm1, gone1, y));
                    assert(live_count(g, rm0, gone0, y) <= 0);
                    assert(removed_within(g, rm1, round + 1).contains(y));
                }
            }
        }
    }
}

/// What an object refers to that the plain removal of the subtree root `s` releases, that
/// removal releases too.
pub proof fn lemma_through_root(g: Map<u64, ObjectModel>, s: u64, p: u64, y: u64)
    requires
        heap_wf(g),
        is_subtree_root(g, s),
        removed(g, plain_removal(s)).contains(p),
        g.contains_key(p),
        g[p].referents.contains(y),
    ensures
        removed(g, plain_removal(s)).contains(y),
{
    let rm = plain_removal(s);
    let j = choose|j: nat| (#[trigger] removed_within(g, rm, j)).contains(p);
    lemma_released_below_root_are_roots(g, s, p);
    lemma_subtree_size_unfolds(g, p);
    lemma_subtree_size_unfolds(g, y);
    if y == s {
        lemma_start_released(g, s, 1);
    } else {
        assert(feeds(g, rm.memo, p, y));
        lemma_fed_root_released(g, rm, removed_within(g, rm, j), p, y);
        assert(removed_within(g, rm, j + 1).contains(y));
    }
}

/// Where the plain removals of two subtree roots release a common address, one of the
/// roots is released by the plain removal of the other.
pub proof fn lemma_roots_apart_or_nested(
    g: Map<u64, ObjectModel>,
    s1: u64,
    s2: u64,
    k: nat,
    y: u64,
)
    requires
        heap_wf(g),
        references_recorded(g),
        is_subtree_root(g, s1),
        is_subtree_root(g, s2),
        removed_within(g, plain_removal(s1), k).contains(y),
        removed(g, plain_removal(s2)).contains(y),
    ensures
        removed(g, plain_removal(s2)).contains(s1) || removed(g, plain_removal(s1)).contains(s2),
    decreases k,
{
    let rm1 = plain_removal(s1);
    let rm2 = plain_removal(s2);
    if k > 0 {
        let gone1 = removed_within(g, rm1, (k - 1) as nat);
        if gone1.contains(y) {
            lemma_roots_apart_or_nested(g, s1, s2, (k - 1) as nat, y);
        } else if y != s1 && y != s2 {
            let p1 = choose|p: u64| gone1.contains(p) && #[trigger] feeds(g, rm1.memo, p, y);
            let j = choose|j: nat| (#[trigger] removed_within(g, rm2, j)).contains(y);
            let p2 = lemma_released_has_feeder(g, rm2, y, j);
            assert(removed(g, rm1).contains(y));
            lemma_released_below_root_are_roots(g, s1, y);
            lemma_subtree_size_unfolds(g, y);
            assert(references_recorded_at(g, y));
            lemma_at_most_one(g[y].inbound_references, p1, p2);
            lemma_roots_apart_or_nested(g, s1, s2, (k - 1) as nat, p1);
        } else if y == s2 {
            assert(removed(g, rm1).contains(s2));
        }
    }
}

/// Of two different subtree roots that the removal of `a` releases as a whole, the plain
/// removal of neither releases the other.
pub proof fn lemma_released_roots_not_nested(g: Map<u64, ObjectModel>, a: u64, s1: u64, s2: u64)
    requires
        heap_wf(g),
        references_recorded(g),
        !is_subtree_root(g, a),
        released_roots(g, a).contains(s1),
        released_roots(g, a).contains(s2),
        s1 != s2,
    ensures
        !removed(g, plain_removal(s1)).contains(s2),
{
    let rm1 = memo_removal(g, a);
    let rm_s = plain_removal(s1);
    if removed(g, rm_s).contains(s2) {
        let j = choose|j: nat| (#[trigger] removed_within(g, rm_s, j)).contains(s2);
        let p = lemma_released_has_feeder(g, rm_s, s2, j);
        let i = choose|i: nat| (#[trigger] removed_within(g, rm1, i)).contains(s2);
        let q = lemma_released_has_feeder(g, rm1, s2, i);
        lemma_released_below_root_are_roots(g, s1, p);
        lemma_subtree_size_unfolds(g, s2);
        assert(references_recorded_at(g, s2));
        lemma_at_most_one(g[s2].inbound_references, p, q);
    }
}

/// Whether or not the sizes of the subtree roots are known beforehand, the removal of an
/// address releases the same size, where every reference from an object to an object is
/// on record at its target.
pub proof fn lemma_known_sizes_change_nothing(g: Map<u64, ObjectModel>, a: u64)
    requires
        heap_wf(g),
        references_recorded(g),
    ensures
        object_retained(g, a) == retained(g, plain_removal(a)),
{
    let memo = subtree_sizes(g);
    let rm1 = memo_removal(g, a);
    let rm0 = plain_removal(a);
    let w1 = weight_fn(g, memo);
    let w0 = weight_fn(g, Map::<u64, int>::empty());
    if is_subtree_root(g, a) {
        lemma_known_retains_memo(g, memo, a);
        lemma_subtree_size_is_retained(g, a);
    } else {
        let tops = released_roots(g, a);
        let others = released_singly(g, a);
        let parts = released_fn(g);
        let hanging = union_of(tops, parts);
        lemma_removed_finite(g, rm1);
        lemma_removed_finite(g, rm0);
        vstd::set_lib::lemma_set_subset_finite(removed(g, rm1), tops);
        vstd::set_lib::lemma_set_subset_finite(removed(g, rm1), others);
        assert forall|s: u64| #[trigger] tops.contains(s) implies parts(s).finite()
            && part_sum_fn(parts, w0)(s) == w1(s) by {
            lemma_removed_finite(g, plain_removal(s));
            lemma_subtree_size_is_retained(g, s);
        }
        assert forall|s: u64, t: u64|
            #[trigger] tops.contains(s) && #[trigger] tops.contains(t) && s != t implies parts(
                s,
            ).disjoint(parts(t)) by {
            assert forall|y: u64| #[trigger]
                removed(g, plain_removal(s)).contains(y) implies !removed(
                g,
                plain_removal(t),
            ).contains(y) by {
                if removed(g, plain_removal(t)).contains(y) {
                    let k = choose|k: nat| (#[trigger] removed_within(g, plain_removal(s), k)).contains(
                        y,
                    );
                    lemma_roots_apart_or_nested(g, s, t, k, y);
                    lemma_released_roots_not_nested(g, a, s, t);
                    lemma_released_roots_not_nested(g, a, t, s);
                }
            }
            assert(parts(s) == removed(g, plain_removal(s)));
            assert(parts(t) == removed(g, plain_removal(t)));
        }
        lemma_set_sum_family(tops, parts, w0);
        lemma_set_sum_agree(tops, part_sum_fn(parts, w0), w1);
        assert(others.disjoint(hanging)) by {
            assert forall|y: u64| others.contains(y) implies !hanging.contains(y) by {
                if hanging.contains(y) {
                    let s = choose|s: u64| #[trigger] tops.contains(s) && parts(s).contains(y);
                    lemma_released_below_root_are_roots(g, s, y);
                }
            }
        }
        assert(removed(g, rm0) =~= others.union(hanging)) by {
            assert forall|y: u64| removed(g, rm0).contains(y) implies others.union(hanging).contains(
                y,
            ) by {
                let k = choose|k: nat| (#[trigger] removed_within(g, rm0, k)).contains(y);
                lemma_plain_released_is_covered(g, a, k);
                if removed(g, rm1).contains(y) && is_subtree_root(g, y) {
                    lemma_start_released(g, y, 1);
                    assert(tops.contains(y) && parts(y).contains(y));
                }
            }
            assert forall|y: u64| others.union(hanging).contains(y) implies removed(g, rm0).contains(
                y,
            ) by {
                if others.contains(y) {
                    let k = choose|k: nat| (#[trigger] removed_within(g, rm1, k)).contains(y);
                    lemma_memo_released_is_plain_released(g, a, k);
                } else {
                    let s = choose|s: u64| #[trigger] tops.contains(s) && parts(s).contains(y);
                    let k = choose|k: nat| (#[trigger] removed_within(g, rm1, k)).contains(s);
                    lemma_memo_released_is_plain_released(g, a, k);
                    let j = choose|j: nat| (#[trigger] removed_within(g, plain_removal(s), j)).contains(
                        y,
                    );
                    lemma_subtree_follows_root(g, a, s, k, j);
                    assert(removed_within(g, rm0, k + j).contains(y));
                }
            }
        }
        assert(removed(g, rm1) =~= others.union(tops));
        assert(others.disjoint(tops));
        lemma_set_sum_union(others, hanging, w0);
        lemma_set_sum_union(others, tops, w1);
        lemma_set_sum_agree(others, w0, w1);
    }
}

/// The sizes of all objects of the graph together.
pub open spec fn total_size(g: Map<u64, ObjectModel>) -> int {
    set_sum(g.dom(), weight_fn(g, Map::<u64, int>::empty()))
}

/// A set sums to no more than another, where its items outside the other weigh nothing
/// and no item of the other has a negative weight.
pub proof fn lemma_set_sum_within(s: Set<u64>, d: Set<u64>, f: spec_fn(u64) -> int)
    requires
        s.finite(),
        d.finite(),
        forall|y: u64| #[trigger] d.contains(y) ==> f(y) >= 0,
        forall|y: u64| #[trigger] s.contains(y) && !d.contains(y) ==> f(y) == 0,
    ensures
        set_sum(s, f) <= set_sum(d, f),
    decreases s.len(),
{
    if s.is_empty() {
        crate::sums::lemma_set_sum_subset(s, d, f);
    } else {
        let x = s.choose();
        lemma_set_sum_remove(s, f, x);
        if d.contains(x) {
            lemma_set_sum_remove(d, f, x);
            lemma_set_sum_within(s.remove(x), d.remove(x), f);
        } else {
            lemma_set_sum_within(s.remove(x), d, f);
        }
    }
}

/// A removal without sizes known beforehand retains no more than all objects together.
pub proof fn lemma_retained_at_most_total(g: Map<u64, ObjectModel>, rm: Removal)
    requires
        heap_wf(g),
        rm.front.finite(),
        rm.memo == Map::<u64, int>::empty(),
    ensures
        retained(g, rm) <= total_size(g),
{
    lemma_removed_finite(g, rm);
    lemma_set_sum_within(removed(g, rm), g.dom(), weight_fn(g, rm.memo));
}

/// Where the sizes of all objects together fit in 32 bits and every reference from an
/// object to an object is on record at its target, every retained size fits in 32 bits,
/// so that the calculation succeeds.
pub proof fn lemma_sizes_fit_when_total_fits(g: Map<u64, ObjectModel>, threads: Seq<Set<u64>>)
    requires
        heap_wf(g),
        references_recorded(g),
        forall|t: int| 0 <= t < threads.len() ==> (#[trigger] threads[t]).finite(),
        total_size(g) <= u32::MAX,
    ensures
        sizes_fit(g, threads),
{
    assert forall|a: u64| #[trigger] g.contains_key(a) implies object_retained(g, a)
        <= u32::MAX by {
        lemma_known_sizes_change_nothing(g, a);
        lemma_retained_at_most_total(g, plain_removal(a));
    }
    assert forall|t: int| 0 <= t < threads.len() implies #[trigger] thread_retained(g, threads, t)
        <= u32::MAX by {
        lemma_retained_at_most_total(g, thread_removal(g, threads, t));
    }
}

} // verus!
