//! The hash collections of this crate are std's, hashing with the FNV function of the `fnv`
//! crate. What is assumed of that crate stands here; the rest of the crate reasons about
//! the collections through vstd's model of `HashMap` and `HashSet`.
use crate::sums::lemma_take_one_more;
use fnv::{FnvBuildHasher, FnvHashMap, FnvHashSet, FnvHasher};
use vstd::prelude::*;
use vstd::std_specs::hash::*;
use vstd::std_specs::iter::IteratorSpec;

verus! {

/// `fnv::FnvHasher`, the state of one FNV-1a hash computation. Nothing is read from it.
#[verifier::external_type_specification]
#[verifier::external_body]
pub struct ExFnvHasher(FnvHasher);

/// `std::hash::BuildHasherDefault`, which makes a hasher by `H::default()`.
/// `fnv::FnvBuildHasher` is this type at `FnvHasher`.
#[verifier::external_type_specification]
#[verifier::external_body]
#[verifier::reject_recursive_types(H)]
pub struct ExBuildHasherDefault<H>(std::hash::BuildHasherDefault<H>);

/// Whether `fnv::FnvBuildHasher` is a hasher builder as vstd's model of a hash table needs
/// it: any two hashers that it builds give the same digest after the same writes.
pub open spec fn fnv_modelled() -> bool {
    builds_valid_hashers::<FnvBuildHasher>()
}

/// `fnv_modelled()`, said of a set. It is a fact about the type of `s` and not about what
/// `s` holds: all sets of this type have the one hasher builder. It stands over the result
/// of `new_address_set`, the place where the fact is taken on trust.
pub open spec fn hashes_as_modelled(s: &FnvHashSet<u64>) -> bool {
    fnv_modelled()
}

/// An empty set of addresses, made by `FnvHashSet::default()` and so by
/// `FnvBuildHasher::default()`.
///
/// Trusted: the set is empty, and its hasher builder meets vstd's model. In the `fnv`
/// crate every `FnvHasher` that `default()` makes starts from the same offset basis,
/// `write` folds the bytes in one by one without reading anything else, and `finish`
/// returns the state, so equal writes give equal digests.
#[verifier::external_body]
pub(crate) fn new_address_set() -> (s: FnvHashSet<u64>)
    ensures
        s@ == Set::<u64>::empty(),
        hashes_as_modelled(&s),
{
    FnvHashSet::default()
}

/// An empty map by address. That its hashing is as vstd's model needs it is learned from
/// an empty set, which has the same hasher builder.
pub(crate) fn new_address_map<V>() -> (m: FnvHashMap<u64, V>)
    ensures
        m@ == Map::<u64, V>::empty(),
        fnv_modelled(),
{
    let _witness = new_address_set();
    FnvHashMap::default()
}

/// The set behind a hash set is finite.
pub proof fn lemma_address_set_finite(s: &FnvHashSet<u64>)
    ensures
        s@.finite(),
{
    broadcast use axiom_spec_hash_keys_iter;
    let items = spec_hash_keys_iter(s).remaining();
    assert(items.unref().to_set() == s@);
    vstd::seq_lib::seq_to_set_is_finite(items.unref());
}

/// The keys of a hash map are finitely many.
pub proof fn lemma_address_map_finite<V>(m: &FnvHashMap<u64, V>)
    ensures
        m@.dom().finite(),
{
    broadcast use axiom_spec_keys_iter;
    let keys = spec_keys_iter(m).remaining();
    assert(keys.unref().to_set() == m@.dom());
    vstd::seq_lib::seq_to_set_is_finite(keys.unref());
}

/// The items of `s`, each once, in the order in which the set is walked.
pub(crate) fn addresses_of(s: &FnvHashSet<u64>) -> (v: Vec<u64>)
    requires
        fnv_modelled(),
    ensures
        v@.no_duplicates(),
        v@.to_set() == s@,
        v@.len() == s@.len(),
{
    let mut v: Vec<u64> = Vec::new();
    let ghost items = s.iter().remaining();
    proof {
        broadcast use axiom_spec_hash_keys_iter;
    }
    for x in it: s.iter()
        invariant
            it.seq() == items,
            v@.len() == it.index(),
            forall|i: int| 0 <= i < v@.len() ==> v@[i] == *items[i],
    {
        v.push(*x);
    }
    proof {
        broadcast use axiom_spec_hash_keys_iter;
        assert(v@ =~= items.unref());
        assert(items.no_duplicates());
    }
    v
}

/// The keys of `m`, each once, in the order in which the map is walked.
pub(crate) fn keys_of<V>(m: &FnvHashMap<u64, V>) -> (v: Vec<u64>)
    requires
        fnv_modelled(),
    ensures
        v@.no_duplicates(),
        v@.to_set() == m@.dom(),
        v@.len() == m@.dom().len(),
{
    let mut v: Vec<u64> = Vec::new();
    let ghost keys = m.keys().remaining();
    proof {
        broadcast use axiom_spec_keys_iter;
    }
    for x in it: m.keys()
        invariant
            it.seq() == keys,
            v@.len() == it.index(),
            forall|i: int| 0 <= i < v@.len() ==> v@[i] == *keys[i],
    {
        v.push(*x);
    }
    proof {
        broadcast use axiom_spec_keys_iter;
        assert(v@ =~= keys.unref());
        assert(keys.no_duplicates());
    }
    v
}

/// The items of `s` that are not in `excluded`, each once.
pub(crate) fn addresses_outside(s: &FnvHashSet<u64>, excluded: &FnvHashSet<u64>) -> (v: Vec<u64>)
    requires
        fnv_modelled(),
    ensures
        v@.no_duplicates(),
        v@.to_set() == s@.difference(excluded@),
{
    let all = addresses_of(s);
    let mut v: Vec<u64> = Vec::new();
    let mut i: usize = 0;
    while i < all.len()
        invariant
            fnv_modelled(),
            i <= all@.len(),
            all@.no_duplicates(),
            all@.to_set() == s@,
            v@.no_duplicates(),
            forall|x: u64|
                v@.contains(x) <==> all@.take(i as int).contains(x) && !excluded@.contains(x),
        decreases all@.len() - i,
    {
        let x = all[i];
        let ghost seen = all@.take(i as int);
        let ghost next = all@.take(i as int + 1);
        let ghost before = v@;
        proof {
            lemma_take_one_more(all@, i as int);
        }
        if !excluded.contains(&x) {
            v.push(x);
            proof {
                assert forall|y: u64| v@.contains(y) <==> before.contains(y) || y == x by {
                    if v@.contains(y) {
                        let j = choose|j: int| 0 <= j < v@.len() && v@[j] == y;
                        if j < before.len() {
                            assert(before[j] == y);
                        }
                    }
                    if before.contains(y) {
                        let j = choose|j: int| 0 <= j < before.len() && before[j] == y;
                        assert(v@[j] == y);
                    }
                    if y == x {
                        assert(v@[before.len() as int] == y);
                    }
                }
            }
        }
        proof {
            assert forall|y: u64|
                v@.contains(y) <==> next.contains(y) && !excluded@.contains(y) by {
                assert(before.contains(y) <==> seen.contains(y) && !excluded@.contains(y));
                assert(next.contains(y) <==> seen.contains(y) || y == x);
                if excluded@.contains(x) {
                    assert(v@ == before);
                } else {
                    assert(v@.contains(y) <==> before.contains(y) || y == x);
                }
            }
        }
        i = i + 1;
    }
    proof {
        assert(all@.take(i as int) =~= all@);
        assert(v@.to_set() =~= s@.difference(excluded@));
    }
    v
}

/// Puts every item of `source` into `target`.
pub(crate) fn insert_all(target: &mut FnvHashSet<u64>, source: &FnvHashSet<u64>)
    requires
        fnv_modelled(),
    ensures
        final(target)@ == old(target)@.union(source@),
{
    let items = addresses_of(source);
    let ghost target0 = target@;
    let mut i: usize = 0;
    while i < items.len()
        invariant
            fnv_modelled(),
            i <= items@.len(),
            items@.to_set() == source@,
            target0.subset_of(target@),
            forall|x: u64|
                target@.contains(x) ==> target0.contains(x) || source@.contains(x),
            forall|j: int| 0 <= j < i ==> target@.contains(#[trigger] items@[j]),
        decreases items@.len() - i,
    {
        proof {
            assert(items@.to_set().contains(items@[i as int]));
        }
        target.insert(items[i]);
        i = i + 1;
    }
    proof {
        assert forall|x: u64| source@.contains(x) implies target@.contains(x) by {
            assert(items@.to_set().contains(x));
            let j = choose|j: int| 0 <= j < items@.len() && items@[j] == x;
            assert(target@.contains(items@[j]));
        }
        assert(target@ =~= target0.union(source@));
    }
}

/// The live count that `view` holds for `x`, and 0 where it holds none.
pub(crate) fn count_of(view: &FnvHashMap<u64, i128>, x: u64) -> (c: i128)
    requires
        fnv_modelled(),
    ensures
        c == count_or_zero(view@, x),
{
    match view.get(&x) {
        Some(c) => *c,
        None => 0,
    }
}

/// The live count that `view` holds for `x`, and 0 where it holds none.
pub open spec fn count_or_zero(view: Map<u64, i128>, x: u64) -> i128 {
    if view.contains_key(x) {
        view[x]
    } else {
        0
    }
}

/// Turns `v` round: the last entry comes first.
pub(crate) fn reverse_addresses(v: &mut Vec<u64>)
    ensures
        final(v)@ == old(v)@.reverse(),
        final(v)@.to_set() == old(v)@.to_set(),
{
    let n = v.len();
    let mut out: Vec<u64> = Vec::new();
    let mut i: usize = n;
    while i > 0
        invariant
            i <= n,
            n == v@.len(),
            out@.len() == n - i,
            forall|k: int| 0 <= k < out@.len() ==> out@[k] == v@[n - 1 - k],
        decreases i,
    {
        i = i - 1;
        out.push(v[i]);
    }
    proof {
        assert(out@ =~= v@.reverse());
        assert(out@.to_set() =~= v@.to_set()) by {
            assert forall|x: u64| out@.to_set().contains(x) implies v@.to_set().contains(x) by {
                let k = choose|k: int| 0 <= k < out@.len() && out@[k] == x;
                assert(v@[n - 1 - k] == x);
            }
            assert forall|x: u64| v@.to_set().contains(x) implies out@.to_set().contains(x) by {
                let k = choose|k: int| 0 <= k < v@.len() && v@[k] == x;
                assert(out@[n - 1 - k] == x);
            }
        }
    }
    *v = out;
}

/// Sorts `front` by the live counts in `view`, lowest first, with std's `sort_by_key`.
///
/// Trusted, as std documents the sort: the entries are the same, each as often as before,
/// and they stand in ascending order of their key. The key of an address is its live
/// count in `view`, and 0 where it has none.
#[verifier::external_body]
pub(crate) fn sort_by_live_count(front: &mut Vec<u64>, view: &FnvHashMap<u64, i128>)
    requires
        fnv_modelled(),
    ensures
        final(front)@.to_multiset() == old(front)@.to_multiset(),
        forall|a: int, b: int|
            0 <= a <= b < final(front)@.len() ==> count_or_zero(view@, final(front)@[a])
                <= count_or_zero(view@, final(front)@[b]),
{
    front.sort_by_key(|x| count_of(view, *x));
}

} // verus!
