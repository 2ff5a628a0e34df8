//! Chords.

use vstd::arithmetic::power::pow;
use vstd::prelude::*;
use crate::chords::cycle::{lemma_blocks_form_de_bruijn, occurs};
use crate::chords::debruijn::{chord, cycle_numbers, spelled, without_repeats};
use crate::chords::necklaces::{
    all_blocks, blocks, is_block, joined, later_blocks, leads_its_suffixes,
    leads_suffix, lemma_all_blocks, repeats, suffix_exceeds,
};
use crate::chords::words::{differs_at, is_word, precedes, window};

verus! {

/// A letter joins the alphabet, unless it is the one given just before it.
pub proof fn runs_of_a_letter_count_once(s: Seq<char>, c: char)
    ensures
        without_repeats(Seq::empty()) == Seq::<char>::empty(),
        without_repeats(seq![c]) == seq![c],
        s.len() > 0 && s[s.len() - 1] == c ==> without_repeats(s.push(c)) == without_repeats(s),
        s.len() > 0 && s[s.len() - 1] != c ==> without_repeats(s.push(c)) == without_repeats(
            s,
        ).push(c),
{
    let t = s.push(c);
    assert(t.drop_last() =~= s);
    if s.len() > 0 {
        assert(t[t.len() - 2] == s[s.len() - 1]);
    }
}

/// No letter of the alphabet stands next to itself, and the first and the last letters
/// given are its first and its last.
pub proof fn letters_do_not_repeat(s: Seq<char>, i: int)
    ensures
        0 <= i < without_repeats(s).len() - 1 ==> without_repeats(s)[i] != without_repeats(s)[i
            + 1],
        without_repeats(s).len() <= s.len(),
        s.len() > 0 ==> {
            &&& without_repeats(s).len() > 0
            &&& without_repeats(s)[0] == s[0]
            &&& without_repeats(s).last() == s.last()
        },
    decreases s.len(),
{
    if s.len() >= 2 {
        letters_do_not_repeat(s.drop_last(), i);
        assert(s.drop_last()[0] == s[0]);
        assert(s.drop_last().last() == s[s.len() - 2]);
    }
}

/// Each number stands for the letter at its position in the alphabet.
pub proof fn numbers_stand_for_letters(alphabet: Seq<char>, s: Seq<int>, i: int)
    requires
        0 <= i < s.len(),
    ensures
        spelled(alphabet, s).len() == s.len(),
        spelled(alphabet, s)[i] == alphabet[s[i]],
{
}

/// A chord holds the letters backwards from one position of the cycle on: the first
/// chord from its end, each further one from a letter earlier, twice around at most.
pub proof fn chords_read_the_cycle_backwards(s: Seq<char>, length: nat, i: nat, x: int)
    requires
        s.len() > 0,
    ensures
        i + length <= 2 * s.len() ==> chord(s, length, i).len() == length,
        i <= 2 * s.len() < i + length ==> chord(s, length, i).len() == 2 * s.len() - i,
        2 * s.len() < i ==> chord(s, length, i).len() == 0,
        0 <= x < chord(s, length, i).len() ==> chord(s, length, i)[x] == s[(2 * s.len() - 1 - i - x)
            % (s.len() as int)],
{
    let m = s.len() as int;
    let twice = s.reverse() + s.reverse();
    if 0 <= x < chord(s, length, i).len() {
        let y = i + x;
        assert(chord(s, length, i)[x] == twice[y]);
        let z = 2 * m - 1 - y;
        if y < m {
            assert(twice[y] == s[m - 1 - y]);
            vstd::arithmetic::div_mod::lemma_mod_sub_multiples_vanish(z, m);
            vstd::arithmetic::div_mod::lemma_small_mod((z - m) as nat, m as nat);
        } else {
            assert(twice[y] == s[z]);
            vstd::arithmetic::div_mod::lemma_small_mod(z as nat, m as nat);
        }
    }
}

/// Chords that follow each other overlap: each goes on from the second letter of the
/// one before.
pub proof fn chords_overlap(s: Seq<char>, length: nat, i: nat, x: int)
    requires
        s.len() > 0,
        i + 1 + length <= 2 * s.len(),
        0 <= x < length - 1,
    ensures
        chord(s, length, i + 1)[x] == chord(s, length, i)[x + 1],
{
    chords_read_the_cycle_backwards(s, length, i + 1, x);
    chords_read_the_cycle_backwards(s, length, i, x + 1);
}

/// What follows the first `g` letters of `w` differs from its start, first in a letter
/// that is larger.
pub open spec fn is_larger_from(w: Seq<int>, g: int) -> bool {
    exists|q: int|
        #![trigger w[q]]
        0 <= q < w.len() - g && w[q] < w[g + q] && forall|x: int|
            0 <= x < q ==> #[trigger] w[x] == w[g + x]
}

/// `w` comes before each of its own endings.
pub open spec fn is_least(w: Seq<int>) -> bool {
    forall|g: int| 0 < g < w.len() ==> #[trigger] is_larger_from(w, g)
}

/// Of `a` and `b`, each repeated, the first letters to differ within `n` come at `q`,
/// and the smaller one is in `a`.
pub open spec fn is_smaller_at(a: Seq<int>, b: Seq<int>, n: nat, q: int) -> bool {
    &&& 0 <= q < n
    &&& a[q % (a.len() as int)] < b[q % (b.len() as int)]
    &&& forall|x: int|
        #![trigger a[x % (a.len() as int)]]
        0 <= x < q ==> a[x % (a.len() as int)] == b[x % (b.len() as int)]
}

/// `a`, repeated, comes before `b`, repeated.
pub open spec fn comes_before(a: Seq<int>, b: Seq<int>, n: nat) -> bool {
    exists|q: int| is_smaller_at(a, b, n, q)
}

/// The words, one after the other.
pub open spec fn strung(words: Seq<Seq<int>>) -> Seq<int>
    decreases words.len(),
{
    if words.len() == 0 {
        Seq::empty()
    } else {
        strung(words.drop_last()) + words.last()
    }
}

/// The first parts of the blocks.
spec fn words_of(bs: Seq<(Seq<int>, int)>) -> Seq<Seq<int>> {
    bs.map_values(|b: (Seq<int>, int)| b.0.take(b.1))
}

proof fn lemma_strung(bs: Seq<(Seq<int>, int)>)
    ensures
        strung(words_of(bs)) == joined(bs),
    decreases bs.len(),
{
    if bs.len() > 0 {
        lemma_strung(bs.drop_last());
        assert(words_of(bs).drop_last() =~= words_of(bs.drop_last()));
        assert(words_of(bs).last() == bs.last().0.take(bs.last().1));
    }
}

proof fn lemma_is_least(w: Seq<int>, p: int)
    requires
        1 <= p <= w.len(),
        leads_its_suffixes(w, p),
    ensures
        is_least(w.take(p)),
{
    let v = w.take(p);
    assert forall|g: int| 0 < g < v.len() implies #[trigger] is_larger_from(v, g) by {
        assert(leads_suffix(w, p, g));
        let q = choose|q: int| suffix_exceeds(w, p, g, q);
        assert(v[q] == w[q]);
        assert(v[g + q] == w[g + q]);
        assert forall|x: int| 0 <= x < q implies #[trigger] v[x] == v[g + x] by {
            assert(w[x] == w[g + x]);
        }
    }
}

proof fn lemma_comes_before(a: (Seq<int>, int), b: (Seq<int>, int), n: nat)
    requires
        a.0.len() == n,
        b.0.len() == n,
        1 <= a.1 <= n,
        1 <= b.1 <= n,
        repeats(a.0, a.1),
        repeats(b.0, b.1),
        precedes(a.0, b.0),
    ensures
        comes_before(a.0.take(a.1), b.0.take(b.1), n),
{
    let v = a.0.take(a.1);
    let w = b.0.take(b.1);
    let q = choose|q: int| differs_at(a.0, b.0, q);
    lemma_repeated(a.0, a.1, q);
    lemma_repeated(b.0, b.1, q);
    assert forall|x: int|
        #![trigger v[x % (v.len() as int)]]
        0 <= x < q implies v[x % (v.len() as int)] == w[x % (w.len() as int)] by {
        lemma_repeated(a.0, a.1, x);
        lemma_repeated(b.0, b.1, x);
        assert(a.0[x] == b.0[x]);
    }
    assert(is_smaller_at(v, w, n, q));
}

proof fn lemma_repeated(w: Seq<int>, p: int, x: int)
    requires
        1 <= p <= w.len(),
        0 <= x < w.len(),
        repeats(w, p),
    ensures
        w.take(p)[x % p] == w[x],
{
    assert(w[x] == w[x % p]) by {
        reveal(repeats);
    }
    assert(0 <= x % p < p) by (nonlinear_arith)
        requires
            p >= 1,
    ;
}

/// The cycle is made of words whose lengths divide the length of a chord, each before
/// all of its endings, in ascending order.
pub proof fn cycles_string_words_in_order(k: int, n: nat) -> (words: Seq<Seq<int>>)
    requires
        0 < k <= 256,
        0 < n,
    ensures
        strung(words) == cycle_numbers(k, n),
        forall|i: int|
            0 <= i < words.len() ==> {
                &&& 1 <= (#[trigger] words[i]).len() <= n
                &&& n as int % words[i].len() as int == 0
                &&& is_least(words[i])
                &&& forall|x: int|
                    0 <= x < words[i].len() ==> 0 <= #[trigger] words[i][x] < k
            },
        forall|i: int, j: int|
            0 <= i < j < words.len() ==> comes_before(#[trigger] words[i], #[trigger] words[j], n),
{
    let bs = all_blocks(k, n);
    let words = words_of(bs);
    lemma_all_blocks(k, n);
    lemma_strung(bs);
    assert forall|i: int| 0 <= i < words.len() implies {
        &&& 1 <= (#[trigger] words[i]).len() <= n
        &&& n as int % words[i].len() as int == 0
        &&& is_least(words[i])
        &&& forall|x: int| 0 <= x < words[i].len() ==> 0 <= #[trigger] words[i][x] < k
    } by {
        assert(is_block(k, n, bs[i]));
        assert(words[i] == bs[i].0.take(bs[i].1));
        lemma_is_least(bs[i].0, bs[i].1);
        assert forall|x: int| 0 <= x < words[i].len() implies 0 <= #[trigger] words[i][x] < k by {
            assert(words[i][x] == bs[i].0[x]);
        }
    }
    assert forall|i: int, j: int| 0 <= i < j < words.len() implies comes_before(
        #[trigger] words[i],
        #[trigger] words[j],
        n,
    ) by {
        assert(is_block(k, n, bs[i]));
        assert(is_block(k, n, bs[j]));
        assert(precedes(bs[i].0, bs[j].0));
        lemma_comes_before(bs[i], bs[j], n);
    }
    words
}

/// `w` stands in the cycle from position `i` on, read in a circle.
pub open spec fn stands_at(s: Seq<int>, w: Seq<int>, i: int) -> bool {
    &&& 0 <= i < s.len()
    &&& forall|x: int| 0 <= x < w.len() ==> #[trigger] w[x] == s[(i + x) % (s.len() as int)]
}

/// Each word of `n` numbers below `k` stands at exactly one place of the cycle.
pub proof fn each_word_stands_at_one_place(k: int, n: nat, w: Seq<int>) -> (i: int)
    requires
        2 <= k <= 256,
        0 < n,
        w.len() == n,
        forall|x: int| 0 <= x < w.len() ==> 0 <= #[trigger] w[x] < k,
    ensures
        cycle_numbers(k, n).len() == pow(k, n),
        stands_at(cycle_numbers(k, n), w, i),
        forall|j: int| #[trigger] stands_at(cycle_numbers(k, n), w, j) ==> j == i,
{
    let s = cycle_numbers(k, n);
    lemma_blocks_form_de_bruijn(k, n);
    assert(is_word(w, k, n));
    assert(occurs(s, w));
    let i = choose|i: int| 0 <= i < s.len() && #[trigger] window(s, i, w.len()) == w;
    assert forall|x: int| 0 <= x < w.len() implies #[trigger] w[x] == s[(i + x) % (
    s.len() as int)] by {
        assert(window(s, i, w.len())[x] == w[x]);
    }
    assert forall|j: int| #[trigger] stands_at(s, w, j) implies j == i by {
        assert(window(s, j, n) =~= w);
        if j < i {
            assert(window(s, j, n) != window(s, i, n));
        }
        if i < j {
            assert(window(s, i, n) != window(s, j, n));
        }
    }
    vstd::arithmetic::power::lemma_pow_positive(k, n);
    i
}

/// The walk goes on from a word that is not long enough with the letter that repeats
/// its start, and then with each larger letter in turn. Letters past 255 count as those
/// 256 lower.
pub proof fn walks_go_on_with_each_letter(
    k: int,
    n: nat,
    w: Seq<int>,
    p: int,
    j: int,
    c: int,
    turns: int,
)
    requires
        w.len() < n,
        0 < p,
        0 <= j,
        0 <= c < 256,
        j == c + 256 * turns,
    ensures
        p <= w.len() ==> blocks(k, n, w, p) == blocks(k, n, w.push(w[w.len() - p]), p)
            + later_blocks(k, n, w, w[w.len() - p] + 1),
        w.len() < p ==> blocks(k, n, w, p) == blocks(k, n, w.push(0), p) + later_blocks(
            k,
            n,
            w,
            1,
        ),
        j < k ==> later_blocks(k, n, w, j) == blocks(k, n, w.push(c), w.len() as int + 1)
            + later_blocks(k, n, w, j + 1),
        j >= k ==> later_blocks(k, n, w, j) == Seq::<(Seq<int>, int)>::empty(),
{
    assert(j % 256 == c);
}

/// The walk ends with a word that is long enough: it is listed where the length of its
/// repeated start divides its own, and left out elsewhere.
pub proof fn walks_end_with_whole_repetitions(k: int, n: nat, w: Seq<int>, p: int)
    requires
        w.len() == n,
        0 < p,
    ensures
        n as int % p == 0 ==> joined(blocks(k, n, w, p)) == w.take(p),
        n as int % p != 0 ==> joined(blocks(k, n, w, p)) == Seq::<int>::empty(),
        cycle_numbers(k, n) == joined(blocks(k, n, Seq::empty(), 1)),
{
    let one = seq![(w, p)];
    assert(one.drop_last() =~= Seq::empty());
    assert(joined(one.drop_last()) == Seq::<int>::empty());
    assert(joined(one) =~= w.take(p));
}

} // verus!
