//! Sums of an integer weight over a finite set of addresses, and what the proofs of this
//! crate need of them.
use vstd::prelude::*;

verus! {

/// The sum of `f(x)` over the items `x` of the finite set `s`.
pub open spec fn set_sum(s: Set<u64>, f: spec_fn(u64) -> int) -> int
    decreases s.len(),
    when s.finite()
{
    if s.is_empty() {
        0
    } else {
        let x = s.choose();
        f(x) + set_sum(s.remove(x), f)
    }
}

/// The sum of `f(x)` over the entries `x` of `v`, each counted as often as it occurs.
pub open spec fn seq_sum(v: Seq<u64>, f: spec_fn(u64) -> int) -> int
    decreases v.len(),
{
    if v.len() == 0 {
        0
    } else {
        seq_sum(v.drop_last(), f) + f(v.last())
    }
}

/// Taking one item out of a set takes its weight out of the sum.
pub proof fn lemma_set_sum_remove(s: Set<u64>, f: spec_fn(u64) -> int, a: u64)
    requires
        s.finite(),
        s.contains(a),
    ensures
        set_sum(s, f) == f(a) + set_sum(s.remove(a), f),
    decreases s.len(),
{
    let x = s.choose();
    if x != a {
        lemma_set_sum_remove(s.remove(x), f, a);
        lemma_set_sum_remove(s.remove(a), f, x);
        assert(s.remove(x).remove(a) =~= s.remove(a).remove(x));
    }
}

/// Adding a new item to a set adds its weight to the sum.
pub proof fn lemma_set_sum_insert(s: Set<u64>, f: spec_fn(u64) -> int, a: u64)
    requires
        s.finite(),
        !s.contains(a),
    ensures
        set_sum(s.insert(a), f) == set_sum(s, f) + f(a),
{
    lemma_set_sum_remove(s.insert(a), f, a);
    assert(s.insert(a).remove(a) =~= s);
}

/// The sum over the empty set is zero.
pub proof fn lemma_set_sum_empty(f: spec_fn(u64) -> int)
    ensures
        set_sum(Set::<u64>::empty(), f) == 0,
{
}

/// Two weights that agree on a set have the same sum over it.
pub proof fn lemma_set_sum_agree(s: Set<u64>, f: spec_fn(u64) -> int, g: spec_fn(u64) -> int)
    requires
        s.finite(),
        forall|x: u64| #[trigger] s.contains(x) ==> f(x) == g(x),
    ensures
        set_sum(s, f) == set_sum(s, g),
    decreases s.len(),
{
    if !s.is_empty() {
        let x = s.choose();
        lemma_set_sum_agree(s.remove(x), f, g);
        lemma_set_sum_remove(s, g, x);
    }
}

/// With weights that are not negative, a part of a set sums to no more than the whole.
pub proof fn lemma_set_sum_subset(sub: Set<u64>, s: Set<u64>, f: spec_fn(u64) -> int)
    requires
        s.finite(),
        sub.subset_of(s),
        forall|x: u64| #[trigger] s.contains(x) ==> f(x) >= 0,
    ensures
        0 <= set_sum(sub, f) <= set_sum(s, f),
    decreases s.len(),
{
    vstd::set_lib::lemma_set_subset_finite(s, sub);
    if s.is_empty() {
        assert(sub =~= s);
    } else {
        let x = s.choose();
        lemma_set_sum_remove(s, f, x);
        if sub.contains(x) {
            lemma_set_sum_remove(sub, f, x);
            lemma_set_sum_subset(sub.remove(x), s.remove(x), f);
        } else {
            lemma_set_sum_subset(sub, s.remove(x), f);
        }
    }
}

/// With weights between zero and `bound`, a set sums to no more than `bound` times its size.
pub proof fn lemma_set_sum_bound(s: Set<u64>, f: spec_fn(u64) -> int, bound: int)
    requires
        s.finite(),
        forall|x: u64| #[trigger] s.contains(x) ==> 0 <= f(x) <= bound,
    ensures
        0 <= set_sum(s, f) <= s.len() * bound,
    decreases s.len(),
{
    if !s.is_empty() {
        let x = s.choose();
        lemma_set_sum_bound(s.remove(x), f, bound);
        assert((s.len() - 1) * bound + bound == s.len() * bound) by (nonlinear_arith);
    }
}

/// A sequence without repetitions sums to what the set of its entries sums to.
pub proof fn lemma_seq_sum_is_set_sum(v: Seq<u64>, f: spec_fn(u64) -> int)
    requires
        v.no_duplicates(),
    ensures
        v.to_set().finite(),
        seq_sum(v, f) == set_sum(v.to_set(), f),
    decreases v.len(),
{
    vstd::seq_lib::seq_to_set_is_finite(v);
    if v.len() == 0 {
        assert(v.to_set() =~= Set::<u64>::empty());
    } else {
        let front = v.drop_last();
        lemma_seq_sum_is_set_sum(front, f);
        assert(!front.to_set().contains(v.last())) by {
            if front.to_set().contains(v.last()) {
                let i = choose|i: int| 0 <= i < front.len() && front[i] == v.last();
                assert(v[i] == v[v.len() - 1]);
            }
        }
        assert(v.to_set() =~= front.to_set().insert(v.last())) by {
            assert forall|x: u64| v.to_set().contains(x) implies front.to_set().insert(
                v.last(),
            ).contains(x) by {
                let i = choose|i: int| 0 <= i < v.len() && v[i] == x;
                if i < v.len() - 1 {
                    assert(front[i] == x);
                }
            }
            assert forall|x: u64| front.to_set().insert(v.last()).contains(x) implies v.to_set().contains(
                x,
            ) by {
                if x == v.last() {
                    assert(v[v.len() - 1] == x);
                } else {
                    let i = choose|i: int| 0 <= i < front.len() && front[i] == x;
                    assert(v[i] == x);
                }
            }
        }
        lemma_set_sum_insert(front.to_set(), f, v.last());
    }
}

/// The entries among the first `i + 1` of a sequence are those among the first `i` and the
/// entry at `i`, which is not among the first `i` where the sequence has no repetitions.
pub proof fn lemma_take_one_more(v: Seq<u64>, i: int)
    requires
        0 <= i < v.len(),
    ensures
        v.take(i + 1) == v.take(i).push(v[i]),
        forall|y: u64| v.take(i + 1).contains(y) <==> v.take(i).contains(y) || y == v[i],
        v.no_duplicates() ==> !v.take(i).contains(v[i]),
{
    let seen = v.take(i);
    let next = v.take(i + 1);
    assert(next =~= seen.push(v[i]));
    assert forall|y: u64| next.contains(y) <==> seen.contains(y) || y == v[i] by {
        if next.contains(y) {
            let m = choose|m: int| 0 <= m < next.len() && next[m] == y;
            if m < seen.len() {
                assert(seen[m] == y);
            }
        }
        if seen.contains(y) {
            let m = choose|m: int| 0 <= m < seen.len() && seen[m] == y;
            assert(next[m] == y);
        }
        if y == v[i] {
            assert(next[seen.len() as int] == y);
        }
    }
    if v.no_duplicates() && seen.contains(v[i]) {
        let j = choose|j: int| 0 <= j < seen.len() && seen[j] == v[i];
        assert(v[j] == v[i]);
    }
}

/// Appending an entry to a sequence adds its weight to the sum.
pub proof fn lemma_seq_sum_push(v: Seq<u64>, f: spec_fn(u64) -> int, a: u64)
    ensures
        seq_sum(v.push(a), f) == seq_sum(v, f) + f(a),
{
    assert(v.push(a).drop_last() =~= v);
}

} // verus!
