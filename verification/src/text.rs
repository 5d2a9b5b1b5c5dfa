//! The pieces of the snapshot's text form: decimal numbers and lists of addresses that
//! white space separates.
use crate::hashing::{fnv_modelled, new_address_set};
use fnv::FnvHashSet;
use vstd::prelude::*;

verus! {

/// The characters that separate the entries of a list: those with the Unicode property
/// White_Space.
pub open spec fn is_space(c: char) -> bool {
    let code = c as u32;
    ||| 0x09 <= code <= 0x0D
    ||| code == 0x20
    ||| code == 0x85
    ||| code == 0xA0
    ||| code == 0x1680
    ||| 0x2000 <= code <= 0x200A
    ||| code == 0x2028
    ||| code == 0x2029
    ||| code == 0x202F
    ||| code == 0x205F
    ||| code == 0x3000
}

/// A decimal digit.
pub open spec fn is_digit(c: char) -> bool {
    0x30 <= c as u32 <= 0x39
}

/// Only decimal digits.
pub open spec fn all_digits(s: Seq<char>) -> bool {
    forall|i: int| 0 <= i < s.len() ==> is_digit(#[trigger] s[i])
}

/// The number that a sequence of decimal digits writes.
pub open spec fn decimal_value(s: Seq<char>) -> nat
    decreases s.len(),
{
    if s.len() == 0 {
        0
    } else {
        (10 * decimal_value(s.drop_last()) + (s.last() as u32 - 0x30)) as nat
    }
}

/// What follows the `+` that `s` may begin with.
pub open spec fn unsigned_part(s: Seq<char>) -> Seq<char> {
    if s.len() > 0 && s[0] == '+' {
        s.drop_first()
    } else {
        s
    }
}

/// The number that `s` writes, where it writes one that is at most `max`: one or more
/// decimal digits, with or without a `+` before them.
pub open spec fn number(s: Seq<char>, max: nat) -> Option<nat> {
    let digits = unsigned_part(s);
    if digits.len() > 0 && all_digits(digits) && decimal_value(digits) <= max {
        Some(decimal_value(digits))
    } else {
        None
    }
}

/// The words of `s` that are complete, and the word that is still open at its end.
pub open spec fn split_state(s: Seq<char>) -> (Seq<Seq<char>>, Seq<char>)
    decreases s.len(),
{
    if s.len() == 0 {
        (Seq::empty(), Seq::empty())
    } else {
        let (done, word) = split_state(s.drop_last());
        if !is_space(s.last()) {
            (done, word.push(s.last()))
        } else if word.len() > 0 {
            (done.push(word), Seq::empty())
        } else {
            (done, word)
        }
    }
}

/// The words of `s`: its longest stretches without white space, in their order.
pub open spec fn words(s: Seq<char>) -> Seq<Seq<char>> {
    let (done, word) = split_state(s);
    if word.len() > 0 {
        done.push(word)
    } else {
        done
    }
}

/// The addresses that the words of `s` write, where each of them writes one.
pub open spec fn addresses_in(s: Seq<char>) -> Option<Set<u64>> {
    let ws = words(s);
    if forall|i: int| 0 <= i < ws.len() ==> (#[trigger] number(ws[i], u64::MAX as nat)) is Some {
        Some(
            Set::new(
                |a: u64|
                    exists|i: int|
                        0 <= i < ws.len() && #[trigger] number(ws[i], u64::MAX as nat) == Some(
                            a as nat,
                        ),
            ),
        )
    } else {
        None
    }
}

/// The views of a list of words.
pub open spec fn word_views(v: Seq<Vec<char>>) -> Seq<Seq<char>> {
    Seq::new(v.len(), |i: int| v[i]@)
}

/// A longer sequence of digits writes no smaller number than its beginning.
pub proof fn lemma_decimal_value_grows(s: Seq<char>, k: int)
    requires
        0 <= k <= s.len(),
        all_digits(s),
    ensures
        decimal_value(s.take(k)) <= decimal_value(s),
    decreases s.len() - k,
{
    if k < s.len() {
        lemma_decimal_value_grows(s, k + 1);
        assert(s.take(k + 1).drop_last() =~= s.take(k));
        assert(is_digit(s[k]));
        assert(s.take(k + 1).last() == s[k]);
    } else {
        assert(s.take(k) =~= s);
    }
}

/// The characters of `s`.
pub fn chars_of(s: &str) -> (v: Vec<char>)
    ensures
        v@ == s@,
{
    let mut v: Vec<char> = Vec::new();
    proof {
        broadcast use vstd::string::axiom_spec_iter;
    }
    for c in it: s.chars()
        invariant
            it.seq() == s@,
            v@.len() == it.index(),
            forall|i: int| 0 <= i < v@.len() ==> v@[i] == s@[i],
    {
        v.push(c);
    }
    proof {
        assert(v@ =~= s@);
    }
    v
}

/// Whether `c` is white space.
pub fn is_space_char(c: char) -> (b: bool)
    ensures
        b == is_space(c),
{
    let code = c as u32;
    (0x09 <= code && code <= 0x0D) || code == 0x20 || code == 0x85 || code == 0xA0 || code
        == 0x1680 || (0x2000 <= code && code <= 0x200A) || code == 0x2028 || code == 0x2029 || code
        == 0x202F || code == 0x205F || code == 0x3000
}

/// Reads a decimal number that is at most `max`.
pub fn parse_decimal(s: &Vec<char>, max: u64) -> (r: Option<u64>)
    ensures
        match number(s@, max as nat) {
            Some(n) => r == Some(n as u64),
            None => r is None,
        },
{
    let n = s.len();
    let start: usize = if n > 0 && s[0] == '+' {
        1
    } else {
        0
    };
    let ghost digits = s@.subrange(start as int, n as int);
    proof {
        if start == 1 {
            assert(digits =~= s@.drop_first());
        } else {
            assert(digits =~= s@);
        }
    }
    if start == n {
        return None;
    }
    let mut acc: u64 = 0;
    let mut i: usize = start;
    while i < n
        invariant
            start <= i <= n,
            n == s@.len(),
            digits == s@.subrange(start as int, n as int),
            digits == unsigned_part(s@),
            all_digits(digits.take(i - start)),
            acc == decimal_value(digits.take(i - start)),
            acc <= max,
        decreases n - i,
    {
        let code = s[i] as u32;
        let ghost seen = digits.take(i - start);
        let ghost next = digits.take(i - start + 1);
        proof {
            assert(next.drop_last() =~= seen);
            assert(next.last() == s@[i as int]);
            assert(digits[i - start] == s@[i as int]);
        }
        if code < 0x30 || code > 0x39 {
            proof {
                assert(!is_digit(digits[i - start]));
            }
            return None;
        }
        let d: u64 = (code - 0x30) as u64;
        proof {
            assert forall|j: int| 0 <= j < next.len() implies is_digit(#[trigger] next[j]) by {
                if j < seen.len() {
                    assert(seen[j] == next[j]);
                }
            }
        }
        if d > max || acc > (max - d) / 10 {
            proof {
                assert(decimal_value(next) > max);
                if all_digits(digits) {
                    lemma_decimal_value_grows(digits, i - start + 1);
                }
            }
            return None;
        }
        acc = acc * 10 + d;
        i = i + 1;
    }
    proof {
        assert(digits.take(n - start) =~= digits);
    }
    Some(acc)
}

/// Splits `s` into its words.
pub fn split_words(s: &Vec<char>) -> (ws: Vec<Vec<char>>)
    ensures
        word_views(ws@) == words(s@),
{
    let mut done: Vec<Vec<char>> = Vec::new();
    let mut word: Vec<char> = Vec::new();
    let mut i: usize = 0;
    while i < s.len()
        invariant
            i <= s@.len(),
            split_state(s@.take(i as int)) == (word_views(done@), word@),
        decreases s@.len() - i,
    {
        let c = s[i];
        proof {
            assert(s@.take(i as int + 1).drop_last() =~= s@.take(i as int));
            assert(s@.take(i as int + 1).last() == c);
        }
        if !is_space_char(c) {
            word.push(c);
        } else if word.len() > 0 {
            let ghost before = word_views(done@);
            let ghost closed = word@;
            done.push(word);
            word = Vec::new();
            proof {
                assert(word_views(done@) =~= before.push(closed));
                assert(word@ =~= Seq::<char>::empty());
            }
        }
        i = i + 1;
    }
    proof {
        assert(s@.take(i as int) =~= s@);
    }
    if word.len() > 0 {
        let ghost before = word_views(done@);
        let ghost closed = word@;
        done.push(word);
        proof {
            assert(word_views(done@) =~= before.push(closed));
        }
    }
    done
}

/// Reads a list of addresses that white space separates, where `s` is one.
pub fn parse_address_list(s: &str) -> (set: FnvHashSet<u64>)
    requires
        addresses_in(s@) is Some,
    ensures
        set@ == addresses_in(s@)->0,
{
    match try_parse_address_list(s) {
        Some(set) => set,
        None => vstd::pervasive::unreached(),
    }
}

/// Tests whether `s` is a list of addresses that white space separates, and reads it
/// where it is one. The result is `None` where a word of `s` does not write an address.
pub fn try_parse_address_list(s: &str) -> (r: Option<FnvHashSet<u64>>)
    ensures
        match addresses_in(s@) {
            Some(addresses) => r matches Some(set) && set@ == addresses,
            None => r is None,
        },
{
    let chars = chars_of(s);
    let ws = split_words(&chars);
    let mut set = new_address_set();
    let ghost views = words(s@);
    let mut i: usize = 0;
    while i < ws.len()
        invariant
            fnv_modelled(),
            i <= ws@.len(),
            views == word_views(ws@),
            views == words(s@),
            forall|j: int| 0 <= j < i ==> (#[trigger] number(views[j], u64::MAX as nat)) is Some,
            forall|a: u64|
                set@.contains(a) <==> exists|j: int|
                    0 <= j < i && #[trigger] number(views[j], u64::MAX as nat) == Some(a as nat),
        decreases ws@.len() - i,
    {
        let ghost before = set@;
        proof {
            assert(views[i as int] == ws@[i as int]@);
        }
        match parse_decimal(&ws[i], u64::MAX) {
            Some(a) => {
                set.insert(a);
                proof {
                    assert forall|b: u64|
                        set@.contains(b) <==> exists|j: int|
                            0 <= j < i + 1 && #[trigger] number(views[j], u64::MAX as nat) == Some(
                                b as nat,
                            ) by {
                        if set@.contains(b) {
                            if b == a {
                                assert(number(views[i as int], u64::MAX as nat) == Some(b as nat));
                            } else {
                                assert(before.contains(b));
                                let j = choose|j: int|
                                    0 <= j < i && #[trigger] number(views[j], u64::MAX as nat)
                                        == Some(b as nat);
                                assert(0 <= j < i + 1);
                            }
                        }
                        if exists|j: int|
                            0 <= j < i + 1 && #[trigger] number(views[j], u64::MAX as nat) == Some(
                                b as nat,
                            ) {
                            let j = choose|j: int|
                                0 <= j < i + 1 && #[trigger] number(views[j], u64::MAX as nat)
                                    == Some(b as nat);
                            if j < i {
                                assert(before.contains(b));
                            }
                        }
                    }
                }
            },
            None => {
                proof {
                    assert(number(views[i as int], u64::MAX as nat) is None);
                }
                return None;
            },
        }
        i = i + 1;
    }
    proof {
        assert(set@ =~= addresses_in(s@)->0);
    }
    Some(set)
}

} // verus!
