//! What a removal releases: the mathematical account of the counting of live references.
//!
//! A removal starts from a set of addresses, each with a count of the references that
//! still hold it. An address that is reached and whose count is not positive is released;
//! releasing an object takes one off the count of each address it refers to, which may
//! release that address in turn. The released addresses are defined round by round, and the
//! retained size is the sum of their weights.
use crate::graph::{heap_wf, lemma_referenced_finite, referenced_by, ObjectModel};
use crate::sums::set_sum;
use vstd::prelude::*;

verus! {

/// One removal: where it starts and what it is told.
#[verifier::ext_equal]
pub struct Removal {
    /// The live count that each starting address has at the outset. An address without an
    /// entry starts, once a released object refers to it, from the number of its recorded
    /// inbound references, or from 1 where no object is at it.
    pub view: Map<u64, int>,
    /// The addresses at which the removal starts.
    pub front: Set<u64>,
    /// Addresses whose retained size is known beforehand. Such an address is released with
    /// that size, and the removal does not go on to what it refers to.
    pub memo: Map<u64, int>,
}

/// Whether releasing `p` goes on to the addresses that `p` refers to.
pub open spec fn expands(g: Map<u64, ObjectModel>, memo: Map<u64, int>, p: u64) -> bool {
    g.contains_key(p) && !memo.contains_key(p)
}

/// Whether releasing `p` takes one off the live count of `r`.
pub open spec fn feeds(g: Map<u64, ObjectModel>, memo: Map<u64, int>, p: u64, r: u64) -> bool {
    expands(g, memo, p) && g[p].referents.contains(r)
}

/// The released addresses, among `gone`, that have taken one off the live count of `r`.
pub open spec fn feeders(
    g: Map<u64, ObjectModel>,
    memo: Map<u64, int>,
    gone: Set<u64>,
    r: u64,
) -> Set<u64> {
    Set::new(|p: u64| gone.contains(p) && feeds(g, memo, p, r))
}

/// The live count from which `r` starts.
pub open spec fn base_count(g: Map<u64, ObjectModel>, view: Map<u64, int>, r: u64) -> int {
    if view.contains_key(r) {
        view[r]
    } else if g.contains_key(r) {
        g[r].inbound_references.len() as int
    } else {
        1
    }
}

/// The live count of `r` once the addresses in `gone` are released.
pub open spec fn live_count(g: Map<u64, ObjectModel>, rm: Removal, gone: Set<u64>, r: u64) -> int {
    base_count(g, rm.view, r) - feeders(g, rm.memo, gone, r).len()
}

/// Whether the removal has come to `r`: it starts there, or a released object refers to it.
pub open spec fn reached(g: Map<u64, ObjectModel>, rm: Removal, gone: Set<u64>, r: u64) -> bool {
    rm.front.contains(r) || exists|p: u64| gone.contains(p) && #[trigger] feeds(g, rm.memo, p, r)
}

/// The addresses released one round after `gone`.
pub open spec fn removed_next(g: Map<u64, ObjectModel>, rm: Removal, gone: Set<u64>) -> Set<u64> {
    Set::new(
        |x: u64| gone.contains(x) || (reached(g, rm, gone, x) && live_count(g, rm, gone, x) <= 0),
    )
}

/// The addresses released within `k` rounds.
pub open spec fn removed_within(g: Map<u64, ObjectModel>, rm: Removal, k: nat) -> Set<u64>
    decreases k,
{
    if k == 0 {
        Set::empty()
    } else {
        removed_next(g, rm, removed_within(g, rm, (k - 1) as nat))
    }
}

/// The addresses that the removal releases.
pub open spec fn removed(g: Map<u64, ObjectModel>, rm: Removal) -> Set<u64> {
    Set::new(|x: u64| exists|k: nat| (#[trigger] removed_within(g, rm, k)).contains(x))
}

/// The bytes that releasing `x` gives back: the size known beforehand, else the size of
/// the object at `x`, and nothing where no object is at `x`.
pub open spec fn weight(g: Map<u64, ObjectModel>, memo: Map<u64, int>, x: u64) -> int {
    if memo.contains_key(x) {
        memo[x]
    } else if g.contains_key(x) {
        g[x].size as int
    } else {
        0
    }
}

/// `weight` as a function of the address.
pub open spec fn weight_fn(g: Map<u64, ObjectModel>, memo: Map<u64, int>) -> spec_fn(u64) -> int {
    |x: u64| weight(g, memo, x)
}

/// The retained size of the removal: the sum of the weights of the released addresses.
pub open spec fn retained(g: Map<u64, ObjectModel>, rm: Removal) -> int {
    set_sum(removed(g, rm), weight_fn(g, rm.memo))
}

/// Every address that a removal can come to.
pub open spec fn reachable_addresses(g: Map<u64, ObjectModel>, rm: Removal) -> Set<u64> {
    rm.front.union(referenced_by(g, g.dom()))
}

/// Only objects feed, so the feeders of an address are finitely many.
pub proof fn lemma_feeders_finite(
    g: Map<u64, ObjectModel>,
    memo: Map<u64, int>,
    gone: Set<u64>,
    r: u64,
)
    requires
        g.dom().finite(),
    ensures
        feeders(g, memo, gone, r).finite(),
        feeders(g, memo, gone, r).len() <= g.dom().len(),
{
    assert(feeders(g, memo, gone, r).subset_of(g.dom()));
    vstd::set_lib::lemma_len_subset(feeders(g, memo, gone, r), g.dom());
}

/// More released addresses feed an address at least as often.
pub proof fn lemma_feeders_grow(
    g: Map<u64, ObjectModel>,
    memo: Map<u64, int>,
    gone: Set<u64>,
    more: Set<u64>,
    r: u64,
)
    requires
        g.dom().finite(),
        gone.subset_of(more),
    ensures
        feeders(g, memo, gone, r).len() <= feeders(g, memo, more, r).len(),
{
    lemma_feeders_finite(g, memo, more, r);
    assert(feeders(g, memo, gone, r).subset_of(feeders(g, memo, more, r)));
    vstd::set_lib::lemma_len_subset(feeders(g, memo, gone, r), feeders(g, memo, more, r));
}

/// What is released within some rounds stays released in every later round.
pub proof fn lemma_removed_within_grows(g: Map<u64, ObjectModel>, rm: Removal, j: nat, k: nat)
    requires
        j <= k,
    ensures
        removed_within(g, rm, j).subset_of(removed_within(g, rm, k)),
    decreases k,
{
    if j < k {
        lemma_removed_within_grows(g, rm, j, (k - 1) as nat);
    }
}

/// Every released address is one that the removal can come to.
pub proof fn lemma_removed_within_reachable(g: Map<u64, ObjectModel>, rm: Removal, k: nat)
    ensures
        removed_within(g, rm, k).subset_of(reachable_addresses(g, rm)),
    decreases k,
{
    if k > 0 {
        let gone = removed_within(g, rm, (k - 1) as nat);
        lemma_removed_within_reachable(g, rm, (k - 1) as nat);
        assert forall|x: u64| removed_within(g, rm, k).contains(x) implies reachable_addresses(
            g,
            rm,
        ).contains(x) by {
            if !gone.contains(x) && !rm.front.contains(x) {
                let p = choose|p: u64| gone.contains(p) && #[trigger] feeds(g, rm.memo, p, x);
                assert(g.dom().contains(p) && g[p].referents.contains(x));
            }
        }
    }
}

/// A removal in a well-formed graph from finitely many addresses releases finitely many.
pub proof fn lemma_removed_finite(g: Map<u64, ObjectModel>, rm: Removal)
    requires
        heap_wf(g),
        rm.front.finite(),
    ensures
        reachable_addresses(g, rm).finite(),
        removed(g, rm).subset_of(reachable_addresses(g, rm)),
        removed(g, rm).finite(),
        forall|k: nat| (#[trigger] removed_within(g, rm, k)).finite(),
{
    lemma_referenced_finite(g, g.dom());
    assert forall|x: u64| removed(g, rm).contains(x) implies reachable_addresses(g, rm).contains(
        x,
    ) by {
        let k = choose|k: nat| (#[trigger] removed_within(g, rm, k)).contains(x);
        lemma_removed_within_reachable(g, rm, k);
    }
    vstd::set_lib::lemma_set_subset_finite(reachable_addresses(g, rm), removed(g, rm));
    assert forall|k: nat| (#[trigger] removed_within(g, rm, k)).finite() by {
        lemma_removed_within_reachable(g, rm, k);
        vstd::set_lib::lemma_set_subset_finite(reachable_addresses(g, rm), removed_within(g, rm, k));
    }
}

} // verus!
