//! Strict subtrees: the objects that are owned through a single chain of single inbound
//! references, with the retained size that each has once and for all.
use crate::calculator::RetainedHeapCalculator;
use crate::graph::{heap_wf, lemma_heap_model_wf, HeapObject, ObjectModel};
use crate::hashing::{
    addresses_of, addresses_outside, insert_all, keys_of, lemma_address_set_finite,
    new_address_set,
};
use crate::sums::{
    lemma_seq_sum_is_set_sum, lemma_seq_sum_push, lemma_set_sum_agree, lemma_take_one_more,
    seq_sum, set_sum,
};
use vstd::prelude::*;

verus! {

/// An object without referents and with at most one inbound reference.
pub open spec fn lone_leaf(g: Map<u64, ObjectModel>, x: u64) -> bool {
    g.contains_key(x) && g[x].referents.is_empty() && g[x].inbound_references.len() <= 1
}

/// Whether the object at `s` records `p` among the addresses that refer to it.
pub open spec fn names_parent(g: Map<u64, ObjectModel>, s: u64, p: u64) -> bool {
    g.contains_key(s) && g[s].inbound_references.contains(p)
}

/// Whether one of the `known` subtree roots records `p` among the addresses that refer to
/// it. The search for subtree roots comes to an address only this way.
pub open spec fn announced(g: Map<u64, ObjectModel>, known: Set<u64>, p: u64) -> bool {
    exists|s: u64| known.contains(s) && #[trigger] names_parent(g, s, p)
}

/// Whether `x` can be a subtree root at all: an object with at most one inbound
/// reference.
pub open spec fn eligible(g: Map<u64, ObjectModel>, x: u64) -> bool {
    g.contains_key(x) && g[x].inbound_references.len() <= 1
}

/// Whether `x` becomes a subtree root once the `known` ones are found: it is eligible,
/// all that it refers to are known subtree roots, and one of them announces it.
pub open spec fn joins(g: Map<u64, ObjectModel>, known: Set<u64>, x: u64) -> bool {
    &&& eligible(g, x)
    &&& g[x].referents.subset_of(known)
    &&& announced(g, known, x)
}

/// The entry of `sizes` at an address, as a function of the address.
pub open spec fn size_fn(sizes: Map<u64, int>) -> spec_fn(u64) -> int {
    |r: u64| sizes[r]
}

/// The subtree roots found within `h` rounds after the lone leaves, each with its retained
/// size: its own size and the retained sizes of all that it refers to.
pub open spec fn subtrees_within(g: Map<u64, ObjectModel>, h: nat) -> Map<u64, int>
    decreases h,
{
    if h == 0 {
        Map::new(|x: u64| lone_leaf(g, x), |x: u64| g[x].size as int)
    } else {
        let prev = subtrees_within(g, (h - 1) as nat);
        Map::new(
            |x: u64| prev.contains_key(x) || joins(g, prev.dom(), x),
            |x: u64|
                if prev.contains_key(x) {
                    prev[x]
                } else {
                    g[x].size + set_sum(g[x].referents, size_fn(prev))
                },
        )
    }
}

/// Whether `x` is the root of a strict subtree.
pub open spec fn is_subtree_root(g: Map<u64, ObjectModel>, x: u64) -> bool {
    exists|h: nat| (#[trigger] subtrees_within(g, h)).contains_key(x)
}

/// The roots of the strict subtrees of the graph.
pub open spec fn subtree_roots(g: Map<u64, ObjectModel>) -> Set<u64> {
    Set::new(|x: u64| is_subtree_root(g, x))
}

/// The retained size of the subtree root `x`.
pub open spec fn subtree_size(g: Map<u64, ObjectModel>, x: u64) -> int {
    let h = choose|h: nat| (#[trigger] subtrees_within(g, h)).contains_key(x);
    subtrees_within(g, h)[x]
}

/// `subtree_size` as a function of the address.
pub open spec fn subtree_size_fn(g: Map<u64, ObjectModel>) -> spec_fn(u64) -> int {
    |x: u64| subtree_size(g, x)
}

/// The retained sizes of all subtree roots, by address.
pub open spec fn subtree_sizes(g: Map<u64, ObjectModel>) -> Map<u64, int> {
    Map::new(|x: u64| is_subtree_root(g, x), |x: u64| subtree_size(g, x))
}

/// A subtree root that is found stays one, with the same size, in every later round.
pub proof fn lemma_subtrees_grow(g: Map<u64, ObjectModel>, j: nat, k: nat)
    requires
        j <= k,
    ensures
        forall|x: u64| #[trigger]
            subtrees_within(g, j).contains_key(x) ==> subtrees_within(g, k).contains_key(x)
                && subtrees_within(g, k)[x] == subtrees_within(g, j)[x],
    decreases k,
{
    if j < k {
        lemma_subtrees_grow(g, j, (k - 1) as nat);
    }
}

/// The size with which a subtree root is found in any round is its retained size.
pub proof fn lemma_subtree_size_at(g: Map<u64, ObjectModel>, h: nat, x: u64)
    requires
        subtrees_within(g, h).contains_key(x),
    ensures
        is_subtree_root(g, x),
        subtree_size(g, x) == subtrees_within(g, h)[x],
{
    let c = choose|c: nat| (#[trigger] subtrees_within(g, c)).contains_key(x);
    if c <= h {
        lemma_subtrees_grow(g, c, h);
    } else {
        lemma_subtrees_grow(g, h, c);
    }
}

/// Every subtree root is an object.
pub proof fn lemma_subtree_root_eligible_any(g: Map<u64, ObjectModel>, x: u64)
    requires
        is_subtree_root(g, x),
    ensures
        eligible(g, x),
{
    let h = choose|h: nat| (#[trigger] subtrees_within(g, h)).contains_key(x);
    lemma_subtree_root_eligible(g, h, x);
}

/// A lone leaf is a subtree root whose retained size is its own size.
pub proof fn lemma_lone_leaf_size(g: Map<u64, ObjectModel>, x: u64)
    requires
        lone_leaf(g, x),
    ensures
        is_subtree_root(g, x),
        subtree_size(g, x) == g[x].size,
{
    assert(subtrees_within(g, 0).contains_key(x));
    lemma_subtree_size_at(g, 0, x);
}

/// Every subtree root is an eligible object.
pub proof fn lemma_subtree_root_eligible(g: Map<u64, ObjectModel>, h: nat, x: u64)
    requires
        subtrees_within(g, h).contains_key(x),
    ensures
        eligible(g, x),
    decreases h,
{
    if h > 0 && subtrees_within(g, (h - 1) as nat).contains_key(x) {
        lemma_subtree_root_eligible(g, (h - 1) as nat, x);
    }
}

/// A subtree root refers to subtree roots only, and its retained size is its own size and
/// the retained sizes of those.
pub proof fn lemma_subtree_unfolds(g: Map<u64, ObjectModel>, h: nat, x: u64)
    requires
        heap_wf(g),
        subtrees_within(g, h).contains_key(x),
    ensures
        forall|r: u64| g[x].referents.contains(r) ==> is_subtree_root(g, r),
        subtrees_within(g, h)[x] == g[x].size + set_sum(g[x].referents, subtree_size_fn(g)),
    decreases h,
{
    lemma_subtree_root_eligible(g, h, x);
    if h == 0 {
        assert(g[x].referents =~= Set::<u64>::empty());
    } else {
        let prev = subtrees_within(g, (h - 1) as nat);
        if prev.contains_key(x) {
            lemma_subtree_unfolds(g, (h - 1) as nat, x);
        } else {
            assert forall|r: u64| #[trigger] g[x].referents.contains(r) implies is_subtree_root(
                g,
                r,
            ) && size_fn(prev)(r) == subtree_size_fn(g)(r) by {
                assert(prev.dom().contains(r));
                lemma_subtree_size_at(g, (h - 1) as nat, r);
            }
            lemma_set_sum_agree(g[x].referents, size_fn(prev), subtree_size_fn(g));
        }
    }
}

/// The retained size of a subtree root is its own size and the retained sizes of all that
/// it refers to, which are subtree roots too.
pub proof fn lemma_subtree_size_unfolds(g: Map<u64, ObjectModel>, x: u64)
    requires
        heap_wf(g),
        is_subtree_root(g, x),
    ensures
        eligible(g, x),
        forall|r: u64| g[x].referents.contains(r) ==> is_subtree_root(g, r),
        subtree_size(g, x) == g[x].size + set_sum(g[x].referents, subtree_size_fn(g)),
{
    let h = choose|h: nat| (#[trigger] subtrees_within(g, h)).contains_key(x);
    lemma_subtree_unfolds(g, h, x);
    lemma_subtree_root_eligible(g, h, x);
}

/// Finitely many subtree roots are all found within some number of rounds.
pub proof fn lemma_common_layer(g: Map<u64, ObjectModel>, s: Set<u64>) -> (h: nat)
    requires
        s.finite(),
        s.subset_of(subtree_roots(g)),
    ensures
        s.subset_of(subtrees_within(g, h).dom()),
    decreases s.len(),
{
    if s.is_empty() {
        0
    } else {
        let a = s.choose();
        let h1 = lemma_common_layer(g, s.remove(a));
        assert(subtree_roots(g).contains(a));
        let h2 = choose|h: nat| (#[trigger] subtrees_within(g, h)).contains_key(a);
        let h = if h1 <= h2 {
            h2
        } else {
            h1
        };
        lemma_subtrees_grow(g, h1, h);
        lemma_subtrees_grow(g, h2, h);
        assert forall|x: u64| s.contains(x) implies subtrees_within(g, h).dom().contains(x) by {
            if x != a {
                assert(s.remove(a).contains(x));
                assert(subtrees_within(g, h1).contains_key(x));
            }
        }
        h
    }
}

/// An eligible object that refers to subtree roots only and that one of them announces is
/// a subtree root.
pub proof fn lemma_joins_is_root(g: Map<u64, ObjectModel>, known: Set<u64>, x: u64)
    requires
        heap_wf(g),
        known.subset_of(subtree_roots(g)),
        joins(g, known, x),
    ensures
        is_subtree_root(g, x),
{
    let s = choose|s: u64| known.contains(s) && #[trigger] names_parent(g, s, x);
    let need = g[x].referents.insert(s);
    let h = lemma_common_layer(g, need);
    let prev = subtrees_within(g, h);
    assert(need.contains(s));
    assert(prev.dom().contains(s) && names_parent(g, s, x));
    assert(g[x].referents.subset_of(prev.dom())) by {
        assert forall|r: u64| g[x].referents.contains(r) implies prev.dom().contains(r) by {
            assert(need.contains(r));
        }
    }
    assert(joins(g, prev.dom(), x));
    assert(subtrees_within(g, h + 1).contains_key(x));
}

/// A set that holds the lone leaves and every address that joins it holds all subtree
/// roots.
pub proof fn lemma_closed_holds_all(g: Map<u64, ObjectModel>, known: Set<u64>, h: nat)
    requires
        forall|x: u64| lone_leaf(g, x) ==> known.contains(x),
        forall|x: u64| #[trigger] joins(g, known, x) ==> known.contains(x),
    ensures
        subtrees_within(g, h).dom().subset_of(known),
    decreases h,
{
    if h > 0 {
        let prev = subtrees_within(g, (h - 1) as nat);
        lemma_closed_holds_all(g, known, (h - 1) as nat);
        assert forall|x: u64| subtrees_within(g, h).contains_key(x) implies known.contains(x) by {
            if !prev.contains_key(x) {
                let s = choose|s: u64| prev.dom().contains(s) && #[trigger] names_parent(g, s, x);
                assert(known.contains(s));
                assert(joins(g, known, x));
            }
        }
    }
}

/// The size on record at an address, as a function of the address.
pub open spec fn known_size_fn(sizes: Map<u64, u32>) -> spec_fn(u64) -> int {
    |r: u64| sizes[r] as int
}

/// Whether the search is done with `x` as long as no further subtree root is known: `x`
/// is not eligible, or is known already, or refers to an address that is not known.
pub open spec fn stuck(g: Map<u64, ObjectModel>, known: Set<u64>, x: u64) -> bool {
    ||| !eligible(g, x)
    ||| known.contains(x)
    ||| exists|r: u64| #[trigger] g[x].referents.contains(r) && !known.contains(r)
}

impl RetainedHeapCalculator {
    /// What is on record of strict subtrees is right: each recorded root is one, the
    /// recorded sizes are those of the recorded roots, and each is the root's retained
    /// size.
    pub open spec fn subtrees_sound(&self) -> bool {
        &&& self.subtree_roots@.subset_of(subtree_roots(self.graph()))
        &&& self.object_retained_heap@.dom() == self.subtree_roots@
        &&& forall|x: u64| #[trigger]
            self.subtree_roots@.contains(x) ==> self.object_retained_heap@[x] == subtree_size(
                self.graph(),
                x,
            )
    }

    /// The record of strict subtrees is right and holds every subtree root.
    pub open spec fn subtrees_found(&self) -> bool {
        &&& self.subtrees_sound()
        &&& self.subtree_roots@ == subtree_roots(self.graph())
    }

    /// The own size of `obj` and the recorded retained sizes of all that it refers to.
    pub(crate) fn size_with_referents(&self, obj: &HeapObject) -> (sum: u128)
        requires
            self.wf(),
            forall|r: u64| #[trigger]
                obj.referents@.contains(r) ==> self.object_retained_heap@.contains_key(r),
        ensures
            sum == obj.size + set_sum(obj.referents@, known_size_fn(self.object_retained_heap@)),
    {
        let referents = addresses_of(&obj.referents);
        let ghost f = known_size_fn(self.object_retained_heap@);
        let mut sum: u128 = obj.size as u128;
        let mut k: usize = 0;
        while k < referents.len()
            invariant
                self.wf(),
                k <= referents@.len(),
                referents@.to_set() == obj.referents@,
                f == known_size_fn(self.object_retained_heap@),
                forall|r: u64| #[trigger]
                    obj.referents@.contains(r) ==> self.object_retained_heap@.contains_key(r),
                sum == obj.size + seq_sum(referents@.take(k as int), f),
                sum <= (k + 1) * 0xFFFF_FFFF,
            decreases referents@.len() - k,
        {
            let r = referents[k];
            proof {
                assert(referents@.to_set().contains(r));
                assert(referents@.take(k as int + 1) =~= referents@.take(k as int).push(r));
                lemma_seq_sum_push(referents@.take(k as int), f, r);
            }
            let known: u32 = match self.object_retained_heap.get(&r) {
                Some(size) => *size,
                None => 0,
            };
            sum = sum + known as u128;
            k = k + 1;
        }
        proof {
            assert(referents@.take(k as int) =~= referents@);
            lemma_seq_sum_is_set_sum(referents@, f);
        }
        sum
    }

    /// Finds the roots of the strict subtrees and records each with its retained size.
    ///
    /// The search starts at the lone leaves and goes up through the recorded inbound
    /// references. A candidate with more than one inbound reference is dropped; one that
    /// refers to an address not yet known as a subtree root waits for a later pass; any
    /// other becomes a subtree root, and the addresses that refer to it become
    /// candidates. A pass that finds no new subtree root ends the search, since no later
    /// pass could find one. The result is `false` where the retained size of a subtree
    /// root does not fit in 32 bits.
    pub fn find_strict_subtrees(&mut self) -> (found: bool)
        requires
            old(self).wf(),
        ensures
            final(self).wf(),
            final(self).objects == old(self).objects,
            final(self).threads == old(self).threads,
            final(self).thread_retained_heap == old(self).thread_retained_heap,
            final(self).subtrees_sound(),
            found <==> forall|x: u64|
                is_subtree_root(old(self).graph(), x) ==> subtree_size(old(self).graph(), x)
                    <= u32::MAX,
            found ==> final(self).subtrees_found(),
            forall|x: u64| #[trigger]
                lone_leaf(old(self).graph(), x) ==> final(self).subtree_roots@.contains(x)
                    && final(self).object_retained_heap@.contains_key(x) && final(self)
                    .object_retained_heap@[x] == old(self).graph()[x].size,
    {
        self.subtree_roots.clear();
        self.object_retained_heap.clear();
        let ghost g = self.graph();
        let ghost objects0 = self.objects;
        let ghost threads0 = self.threads;
        let ghost sizes0 = self.thread_retained_heap;
        proof {
            lemma_heap_model_wf(&self.objects);
            assert(g.dom() =~= self.objects@.dom());
        }
        let mut front = new_address_set();
        let addresses = keys_of(&self.objects);
        let mut i: usize = 0;
        while i < addresses.len()
            invariant
                self.wf(),
                self.objects == objects0,
                self.threads == threads0,
                self.thread_retained_heap == sizes0,
                g == self.graph(),
                heap_wf(g),
                i <= addresses@.len(),
                addresses@.to_set() == g.dom(),
                forall|x: u64|
                    self.subtree_roots@.contains(x) <==> lone_leaf(g, x) && addresses@.take(
                        i as int,
                    ).contains(x),
                self.object_retained_heap@.dom() == self.subtree_roots@,
                forall|x: u64| #[trigger]
                    self.subtree_roots@.contains(x) ==> g.contains_key(x)
                        && self.object_retained_heap@[x] == g[x].size,
                forall|p: u64| #[trigger]
                    front@.contains(p) ==> announced(g, self.subtree_roots@, p),
                forall|s: u64, p: u64|
                    self.subtree_roots@.contains(s) && #[trigger] names_parent(g, s, p)
                        ==> front@.contains(p),
            decreases addresses@.len() - i,
        {
            let addr = addresses[i];
            let ghost seen = addresses@.take(i as int);
            let ghost next = addresses@.take(i as int + 1);
            let ghost roots_before = self.subtree_roots@;
            proof {
                lemma_take_one_more(addresses@, i as int);
                assert(addresses@.to_set().contains(addr));
            }
            match self.objects.get(&addr) {
                Some(obj) => {
                    if obj.referents.is_empty() && obj.inbound_references.len() < 2 {
                        self.subtree_roots.insert(addr);
                        self.object_retained_heap.insert(addr, obj.size);
                        insert_all(&mut front, &obj.inbound_references);
                        proof {
                            assert(self.object_retained_heap@.dom() =~= self.subtree_roots@);
                            assert forall|p: u64| #[trigger] front@.contains(p) implies announced(
                                g,
                                self.subtree_roots@,
                                p,
                            ) by {
                                if obj.inbound_references@.contains(p) {
                                    assert(names_parent(g, addr, p));
                                } else {
                                    let s = choose|s: u64|
                                        roots_before.contains(s) && #[trigger] names_parent(g, s, p);
                                    assert(self.subtree_roots@.contains(s));
                                }
                            }
                        }
                    }
                },
                None => {},
            }
            proof {
                assert(g.contains_key(addr));
                assert(g[addr].referents == self.objects@[addr].referents@);
                assert(g[addr].inbound_references == self.objects@[addr].inbound_references@);
                assert forall|x: u64|
                    self.subtree_roots@.contains(x) <==> lone_leaf(g, x) && next.contains(x) by {
                    assert(roots_before.contains(x) <==> lone_leaf(g, x) && seen.contains(x));
                    assert(next.contains(x) <==> seen.contains(x) || x == addr);
                    if lone_leaf(g, addr) {
                        assert(self.subtree_roots@ == roots_before.insert(addr));
                    } else {
                        assert(self.subtree_roots@ == roots_before);
                    }
                }
            }
            i = i + 1;
        }
        proof {
            assert(addresses@.take(i as int) =~= addresses@);
            assert forall|x: u64| lone_leaf(g, x) implies self.subtree_roots@.contains(x) by {
                assert(addresses@.to_set().contains(x));
            }
            assert forall|x: u64| #[trigger] self.subtree_roots@.contains(x) implies subtree_roots(
                g,
            ).contains(x) && self.object_retained_heap@[x] == subtree_size(g, x) by {
                assert(subtrees_within(g, 0).contains_key(x));
                lemma_subtree_size_at(g, 0, x);
            }
        }
        loop
            invariant
                self.wf(),
                self.objects == objects0,
                self.threads == threads0,
                self.thread_retained_heap == sizes0,
                objects0 == old(self).objects,
                threads0 == old(self).threads,
                sizes0 == old(self).thread_retained_heap,
                g == self.graph(),
                heap_wf(g),
                self.subtrees_sound(),
                forall|x: u64| lone_leaf(g, x) ==> self.subtree_roots@.contains(x),
                forall|p: u64| #[trigger]
                    front@.contains(p) ==> announced(g, self.subtree_roots@, p),
                forall|s: u64, p: u64|
                    self.subtree_roots@.contains(s) && #[trigger] names_parent(g, s, p) && eligible(
                        g,
                        p,
                    ) && !self.subtree_roots@.contains(p) ==> front@.contains(p),
            ensures
                self.wf(),
                self.objects == objects0,
                self.threads == threads0,
                self.thread_retained_heap == sizes0,
                self.subtrees_sound(),
                forall|x: u64| lone_leaf(g, x) ==> self.subtree_roots@.contains(x),
                forall|x: u64| #[trigger]
                    joins(g, self.subtree_roots@, x) ==> self.subtree_roots@.contains(x),
            decreases g.dom().len() - self.subtree_roots@.len(),
        {
            if front.is_empty() {
                proof {
                    assert forall|x: u64| #[trigger]
                        joins(g, self.subtree_roots@, x) implies self.subtree_roots@.contains(
                        x,
                    ) by {
                        let s = choose|s: u64|
                            self.subtree_roots@.contains(s) && #[trigger] names_parent(g, s, x);
                        if !self.subtree_roots@.contains(x) {
                            assert(front@.contains(x));
                        }
                    }
                }
                break ;
            }
            let candidates = addresses_of(&front);
            let mut next_front = new_address_set();
            let mut progress = false;
            let ghost roots_before = self.subtree_roots@;
            proof {
                lemma_address_set_finite(&self.subtree_roots);
            }
            let mut c: usize = 0;
            while c < candidates.len()
                invariant
                    self.wf(),
                    self.objects == objects0,
                    self.threads == threads0,
                    self.thread_retained_heap == sizes0,
                    objects0 == old(self).objects,
                    threads0 == old(self).threads,
                    sizes0 == old(self).thread_retained_heap,
                    g == self.graph(),
                    heap_wf(g),
                    self.subtrees_sound(),
                    forall|x: u64| lone_leaf(g, x) ==> self.subtree_roots@.contains(x),
                    c <= candidates@.len(),
                    candidates@.to_set() == front@,
                    roots_before.finite(),
                    roots_before.subset_of(self.subtree_roots@),
                    self.subtree_roots@.finite(),
                    forall|p: u64| #[trigger]
                        front@.contains(p) ==> announced(g, self.subtree_roots@, p),
                    forall|p: u64| #[trigger]
                        next_front@.contains(p) ==> announced(g, self.subtree_roots@, p),
                    forall|s: u64, p: u64|
                        self.subtree_roots@.contains(s) && #[trigger] names_parent(g, s, p)
                            && eligible(g, p) && !self.subtree_roots@.contains(p)
                            ==> next_front@.contains(p) || exists|j: int|
                            c <= j < candidates@.len() && candidates@[j] == p,
                    !progress ==> self.subtree_roots@ == roots_before && forall|j: int|
                        0 <= j < c ==> stuck(g, roots_before, #[trigger] candidates@[j]),
                    progress ==> self.subtree_roots@.len() > roots_before.len(),
                decreases candidates@.len() - c,
            {
                let cand = candidates[c];
                let ghost roots_mid = self.subtree_roots@;
                let ghost next_mid = next_front@;
                proof {
                    assert(candidates@.to_set().contains(cand));
                    assert(announced(g, roots_mid, cand));
                }
                match self.objects.get(&cand) {
                    Some(obj) => {
                        if obj.inbound_references.len() > 1 {
                            proof {
                                assert(!eligible(g, cand));
                            }
                        } else {
                            let missing = addresses_outside(&obj.referents, &self.subtree_roots);
                            if missing.len() > 0 {
                                next_front.insert(cand);
                                proof {
                                    assert(missing@.to_set().contains(missing@[0]));
                                    assert(g[cand].referents.contains(missing@[0])
                                        && !roots_mid.contains(missing@[0]));
                                }
                            } else {
                                proof {
                                    assert(g[cand].referents.subset_of(roots_mid)) by {
                                        assert forall|r: u64|
                                            g[cand].referents.contains(r) implies roots_mid.contains(
                                            r,
                                        ) by {
                                            if !roots_mid.contains(r) {
                                                assert(missing@.to_set().contains(r));
                                                let m = choose|m: int|
                                                    0 <= m < missing@.len() && missing@[m] == r;
                                            }
                                        }
                                    }
                                    assert(joins(g, roots_mid, cand));
                                    lemma_joins_is_root(g, roots_mid, cand);
                                    lemma_subtree_size_unfolds(g, cand);
                                    assert forall|r: u64| #[trigger]
                                        g[cand].referents.contains(r) implies known_size_fn(
                                        self.object_retained_heap@,
                                    )(r) == subtree_size_fn(g)(r) by {
                                        assert(roots_mid.contains(r));
                                    }
                                    lemma_set_sum_agree(
                                        g[cand].referents,
                                        known_size_fn(self.object_retained_heap@),
                                        subtree_size_fn(g),
                                    );
                                }
                                let sum = self.size_with_referents(obj);
                                if sum > 0xFFFF_FFFF {
                                    proof {
                                        assert(old(self).graph() == g);
                                        assert(is_subtree_root(g, cand) && subtree_size(g, cand)
                                            > u32::MAX);
                                        assert forall|x: u64| #[trigger]
                                            lone_leaf(g, x) implies self.object_retained_heap@[x]
                                            == g[x].size by {
                                            lemma_lone_leaf_size(g, x);
                                        }
                                    }
                                    return false;
                                }
                                let fresh = self.subtree_roots.insert(cand);
                                self.object_retained_heap.insert(cand, sum as u32);
                                insert_all(&mut next_front, &obj.inbound_references);
                                if fresh {
                                    progress = true;
                                }
                                proof {
                                    assert(self.object_retained_heap@.dom()
                                        =~= self.subtree_roots@);
                                    if !fresh {
                                        assert(self.subtree_roots@ =~= roots_mid);
                                    }
                                    assert forall|p: u64| #[trigger]
                                        next_front@.contains(p) implies announced(
                                        g,
                                        self.subtree_roots@,
                                        p,
                                    ) by {
                                        if next_mid.contains(p) {
                                            let s = choose|s: u64|
                                                roots_mid.contains(s) && #[trigger] names_parent(
                                                    g,
                                                    s,
                                                    p,
                                                );
                                            assert(self.subtree_roots@.contains(s));
                                        } else {
                                            assert(names_parent(g, cand, p));
                                        }
                                    }
                                    assert forall|p: u64| #[trigger]
                                        front@.contains(p) implies announced(
                                        g,
                                        self.subtree_roots@,
                                        p,
                                    ) by {
                                        let s = choose|s: u64|
                                            roots_mid.contains(s) && #[trigger] names_parent(g, s, p);
                                        assert(self.subtree_roots@.contains(s));
                                    }
                                }
                            }
                        }
                    },
                    None => {},
                }
                proof {
                    assert forall|s: u64, p: u64|
                        self.subtree_roots@.contains(s) && #[trigger] names_parent(g, s, p)
                            && eligible(g, p) && !self.subtree_roots@.contains(
                            p,
                        ) implies next_front@.contains(p) || exists|j: int|
                        c + 1 <= j < candidates@.len() && candidates@[j] == p by {
                        if roots_mid.contains(s) {
                            if !next_mid.contains(p) {
                                let j = choose|j: int|
                                    c <= j < candidates@.len() && candidates@[j] == p;
                                if j == c {
                                    assert(p == cand);
                                }
                            }
                        }
                    }
                }
                c = c + 1;
            }
            if !progress {
                proof {
                    assert forall|x: u64| #[trigger]
                        joins(g, self.subtree_roots@, x) implies self.subtree_roots@.contains(
                        x,
                    ) by {
                        let s = choose|s: u64|
                            self.subtree_roots@.contains(s) && #[trigger] names_parent(g, s, x);
                        if !self.subtree_roots@.contains(x) {
                            assert(front@.contains(x));
                            assert(candidates@.to_set().contains(x));
                            let j = choose|j: int| 0 <= j < candidates@.len() && candidates@[j] == x;
                            assert(stuck(g, roots_before, candidates@[j]));
                        }
                    }
                }
                break ;
            }
            proof {
                assert(self.subtree_roots@.subset_of(g.dom())) by {
                    assert forall|x: u64| self.subtree_roots@.contains(x) implies g.dom().contains(
                        x,
                    ) by {
                        assert(subtree_roots(g).contains(x));
                        lemma_subtree_size_unfolds(g, x);
                    }
                }
                vstd::set_lib::lemma_len_subset(self.subtree_roots@, g.dom());
            }
            front = next_front;
        }
        proof {
            assert forall|x: u64| subtree_roots(g).contains(x) implies self.subtree_roots@.contains(
                x,
            ) by {
                let h = choose|h: nat| (#[trigger] subtrees_within(g, h)).contains_key(x);
                lemma_closed_holds_all(g, self.subtree_roots@, h);
            }
            assert(self.subtree_roots@ =~= subtree_roots(g));
            assert forall|x: u64| is_subtree_root(g, x) implies subtree_size(g, x) <= u32::MAX by {
                assert(self.subtree_roots@.contains(x));
            }
            assert forall|x: u64| #[trigger] lone_leaf(g, x) implies self.object_retained_heap@[x]
                == g[x].size by {
                lemma_lone_leaf_size(g, x);
            }
        }
        true
    }
}

} // verus!
