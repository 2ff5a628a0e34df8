//! What holds of chords as a set.

use vstd::prelude::*;
use vstd::arithmetic::div_mod::{
    lemma_add_mod_noop, lemma_mod_sub_multiples_vanish, lemma_mod_twice, lemma_small_mod,
};
use vstd::arithmetic::power::pow;
use crate::chords::cycle::{lemma_blocks_form_de_bruijn, occurs};
use crate::chords::debruijn::{chord, cycle_numbers, spelled};
use crate::chords::words::{is_word, window};

verus! {

proof fn lemma_power_exceeds_exponent(k: int, n: nat)
    requires
        k >= 2,
    ensures
        pow(k, n) > n,
    decreases n,
{
    reveal(pow);
    if n > 0 {
        lemma_power_exceeds_exponent(k, (n - 1) as nat);
        let p = pow(k, (n - 1) as nat);
        assert(k * p >= 2 * p) by (nonlinear_arith)
            requires
                k >= 2,
                p >= 0,
        ;
    }
}

/// Where the letters of chord `i`, read backwards, start in the cycle.
spec fn cut_point(m: int, length: nat, i: int) -> int {
    (2 * m - i - length) % m
}

/// A chord, read backwards, is a window of the cycle.
proof fn lemma_chord_is_window(alphabet: Seq<char>, s: Seq<int>, length: nat, i: int)
    requires
        0 <= i < s.len(),
        length <= s.len(),
    ensures
        0 <= cut_point(s.len() as int, length, i) < s.len(),
        chord(spelled(alphabet, s), length, i as nat) == spelled(
            alphabet,
            window(s, cut_point(s.len() as int, length, i), length),
        ).reverse(),
{
    let m = s.len() as int;
    let t = spelled(alphabet, s);
    let c = chord(t, length, i as nat);
    let at = cut_point(m, length, i);
    let w = window(s, at, length);
    let e = spelled(alphabet, w).reverse();
    assert forall|x: int| 0 <= x < length implies c[x] == e[x] by {
        let y = length - 1 - x;
        lemma_add_mod_noop(2 * m - i - length, y, m);
        lemma_add_mod_noop(at, y, m);
        lemma_mod_twice(2 * m - i - length, m);
        let z = 2 * m - 1 - (i + x);
        assert((at + y) % m == z % m);
        if i + x < m {
            lemma_mod_sub_multiples_vanish(z, m);
            lemma_small_mod((z - m) as nat, m as nat);
            assert(c[x] == t[m - 1 - (i + x)]);
        } else {
            lemma_small_mod(z as nat, m as nat);
            assert(c[x] == t[m - 1 - (i + x - m)]);
        }
    }
    assert(c =~= e);
}

/// As many chords as there are words of `length` letters have all their
/// letters, and no two of them are alike.
pub proof fn chords_are_distinct(alphabet: Seq<char>, length: nat, i: nat, j: nat)
    requires
        alphabet.no_duplicates(),
        2 <= alphabet.len() <= 256,
        length >= 1,
        i < j < pow(alphabet.len() as int, length),
    ensures
        ({
            let s = spelled(alphabet, cycle_numbers(alphabet.len() as int, length));
            &&& chord(s, length, i).len() == length
            &&& chord(s, length, j).len() == length
            &&& chord(s, length, i) != chord(s, length, j)
        }),
{
    let k = alphabet.len() as int;
    let s = cycle_numbers(k, length);
    let m = s.len() as int;
    lemma_blocks_form_de_bruijn(k, length);
    lemma_power_exceeds_exponent(k, length);
    lemma_chord_is_window(alphabet, s, length, i as int);
    lemma_chord_is_window(alphabet, s, length, j as int);
    let p = cut_point(m, length, i as int);
    let q = cut_point(m, length, j as int);
    assert(p != q) by {
        if p == q {
            lemma_cut_points_differ(m, length, i as int, j as int);
        }
    }
    let a = window(s, p, length);
    let b = window(s, q, length);
    assert(a != b) by {
        if p < q {
            assert(window(s, p, length) != window(s, q, length));
        } else {
            assert(window(s, q, length) != window(s, p, length));
        }
    }
    let x = choose|x: int| 0 <= x < length && a[x] != b[x];
    assert(0 <= x < length && a[x] != b[x]) by {
        if forall|x: int| 0 <= x < length ==> a[x] == b[x] {
            assert(a =~= b);
        }
    }
    lemma_window_letter(s, k, p, length, x);
    lemma_window_letter(s, k, q, length, x);
    assert(alphabet[a[x]] != alphabet[b[x]]);
    let ca = spelled(alphabet, a);
    let cb = spelled(alphabet, b);
    assert(ca[x] != cb[x]);
    assert(ca.reverse()[length - 1 - x] != cb.reverse()[length - 1 - x]);
}

proof fn lemma_window_letter(s: Seq<int>, k: int, i: int, n: nat, x: int)
    requires
        is_word(s, k, s.len()),
        s.len() > 0,
        0 <= x < n,
    ensures
        0 <= window(s, i, n)[x] < k,
{
    let y = (i + x) % (s.len() as int);
    assert(0 <= y < s.len());
    assert(0 <= s[y] < k);
}

proof fn lemma_cut_points_differ(m: int, length: nat, i: int, j: int)
    requires
        0 <= i < j < m,
    ensures
        cut_point(m, length, i) != cut_point(m, length, j),
{
    let a = 2 * m - i - length;
    let b = 2 * m - j - length;
    if a % m == b % m {
        vstd::arithmetic::div_mod::lemma_sub_mod_noop(a, b, m);
        lemma_small_mod(0, m as nat);
        assert((a - b) % m == 0);
        lemma_small_mod((j - i) as nat, m as nat);
    }
}

/// A chord holds letters of the alphabet only.
pub proof fn chords_use_the_alphabet(alphabet: Seq<char>, length: nat, i: nat, x: int)
    requires
        2 <= alphabet.len() <= 256,
        length >= 1,
        ({
            let s = spelled(alphabet, cycle_numbers(alphabet.len() as int, length));
            0 <= x < chord(s, length, i).len()
        }),
    ensures
        ({
            let s = spelled(alphabet, cycle_numbers(alphabet.len() as int, length));
            alphabet.contains(chord(s, length, i)[x])
        }),
{
    let k = alphabet.len() as int;
    let n = cycle_numbers(k, length);
    let s = spelled(alphabet, n);
    let m = s.len() as int;
    lemma_blocks_form_de_bruijn(k, length);
    let twice = s.reverse() + s.reverse();
    let y = i + x;
    let z = if y < m {
        m - 1 - y
    } else {
        2 * m - 1 - y
    };
    assert(chord(s, length, i)[x] == twice[y]);
    assert(twice[y] == s[z]);
    assert(0 <= n[z] < k);
    assert(s[z] == alphabet[n[z]]);
}

/// Every word of `length` letters of the alphabet is a chord.
pub proof fn chords_cover_all_words(alphabet: Seq<char>, length: nat, w: Seq<char>) -> (i: nat)
    requires
        2 <= alphabet.len() <= 256,
        length >= 1,
        w.len() == length,
        forall|x: int| 0 <= x < w.len() ==> alphabet.contains(#[trigger] w[x]),
    ensures
        i < pow(alphabet.len() as int, length),
        chord(
            spelled(alphabet, cycle_numbers(alphabet.len() as int, length)),
            length,
            i,
        ) == w,
{
    let k = alphabet.len() as int;
    let s = cycle_numbers(k, length);
    let m = s.len() as int;
    lemma_blocks_form_de_bruijn(k, length);
    lemma_power_exceeds_exponent(k, length);
    // The word, backwards, as numbers.
    let u = Seq::new(length, |x: int| alphabet.index_of(w[length - 1 - x]));
    assert forall|x: int| 0 <= x < length implies 0 <= #[trigger] u[x] < k && alphabet[u[x]]
        == w[length - 1 - x] by {
        assert(alphabet.contains(w[length - 1 - x]));
    }
    assert(is_word(u, k, length));
    assert(occurs(s, u));
    let p = choose|p: int| 0 <= p < s.len() && #[trigger] window(s, p, u.len()) == u;
    let d = 2 * m - length - p;
    let i = d % m;
    assert(0 <= i < m);
    lemma_chord_is_window(alphabet, s, length, i);
    assert(cut_point(m, length, i) == p) by {
        vstd::arithmetic::div_mod::lemma_sub_mod_noop(2 * m - length, d, m);
        vstd::arithmetic::div_mod::lemma_sub_mod_noop(2 * m - length, i, m);
        lemma_mod_twice(d, m);
        assert((2 * m - length - i) % m == (2 * m - length - d) % m);
        lemma_small_mod(p as nat, m as nat);
    }
    assert(spelled(alphabet, u).reverse() =~= w);
    i as nat
}

} // verus!
