//! Necklaces, and the tree walk that lists them.
//!
//! A necklace is a word that none of its rotations precedes. The walk extends
//! a prefix letter by letter; beside the prefix it keeps the length of the
//! shortest block that the prefix repeats.

use vstd::prelude::*;
use vstd::arithmetic::div_mod::{
    lemma_add_mod_noop, lemma_mod_add_multiples_vanish, lemma_mod_sub_multiples_vanish,
    lemma_mod_twice, lemma_small_mod,
};
use crate::chords::words::{
    differs_at, is_word, lemma_precedes_asymmetric, precedes, rotated,
};

verus! {

/// The letter that continues the repetition of the first `p` letters of `w`.
pub open spec fn next_repeated(w: Seq<int>, p: int) -> int {
    if 0 < p <= w.len() {
        w[w.len() - p]
    } else {
        0
    }
}

/// The blocks that the walk lists below the prefix `w`, whose shortest
/// repeated block has `p` letters: each with the word that it was found in.
///
/// A letter is kept in eight bits, so a letter past 255 is listed modulo 256.
pub open spec fn blocks(k: int, n: nat, w: Seq<int>, p: int) -> Seq<(Seq<int>, int)>
    decreases n - w.len(), 1int, 0int,
{
    if w.len() >= n {
        if n as int % p == 0 {
            seq![(w, p)]
        } else {
            Seq::empty()
        }
    } else {
        blocks(k, n, w.push(next_repeated(w, p)), p) + later_blocks(
            k,
            n,
            w,
            next_repeated(w, p) + 1,
        )
    }
}

/// The blocks below `w` that continue it with a letter of at least `j`.
pub open spec fn later_blocks(k: int, n: nat, w: Seq<int>, j: int) -> Seq<(Seq<int>, int)>
    decreases n - w.len(), 0int, k - j,
{
    if w.len() >= n || j >= k {
        Seq::empty()
    } else {
        blocks(k, n, w.push(j % 256), w.len() as int + 1) + later_blocks(k, n, w, j + 1)
    }
}

/// The letters of the blocks, one block after the other.
pub open spec fn joined(bs: Seq<(Seq<int>, int)>) -> Seq<int>
    decreases bs.len(),
{
    if bs.len() == 0 {
        Seq::empty()
    } else {
        joined(bs.drop_last()) + bs.last().0.take(bs.last().1)
    }
}

/// No rotation of `w` precedes it.
pub open spec fn is_necklace(w: Seq<int>) -> bool {
    forall|g: int| 0 < g < w.len() ==> !precedes(#[trigger] rotated(w, g), w)
}

/// `w` repeats its first `p` letters.
#[verifier::opaque]
pub open spec fn repeats(w: Seq<int>, p: int) -> bool {
    forall|x: int| 0 <= x < w.len() ==> #[trigger] w[x] == w[x % p]
}

/// The first `p` letters of `w` precede what follows their first `g` letters,
/// with the difference at `q`.
pub open spec fn suffix_exceeds(w: Seq<int>, p: int, g: int, q: int) -> bool {
    &&& 0 <= q < p - g
    &&& forall|x: int| 0 <= x < q ==> #[trigger] w[x] == w[g + x]
    &&& w[q] < w[g + q]
}

/// The first `p` letters of `w` precede what follows their first `g` letters.
pub open spec fn leads_suffix(w: Seq<int>, p: int, g: int) -> bool {
    exists|q: int| suffix_exceeds(w, p, g, q)
}

/// The first `p` letters of `w` precede each of their proper suffixes.
pub open spec fn leads_its_suffixes(w: Seq<int>, p: int) -> bool {
    forall|g: int| 0 < g < p ==> #[trigger] leads_suffix(w, p, g)
}

/// What holds of a prefix in the walk.
pub open spec fn is_node(k: int, w: Seq<int>, p: int) -> bool {
    &&& is_word(w, k, w.len())
    &&& 1 <= p
    &&& p <= w.len() || (w.len() == 0 && p == 1)
    &&& repeats(w, p)
    &&& leads_its_suffixes(w, p)
}

proof fn lemma_mod_shift(x: int, p: int)
    requires
        p > 0,
    ensures
        (x - p) % p == x % p,
        (x + p) % p == x % p,
{
    lemma_mod_sub_multiples_vanish(x, p);
    lemma_mod_add_multiples_vanish(x, p);
}

/// Continuing the repetition keeps it.
proof fn lemma_repeats_on(w: Seq<int>, p: int)
    requires
        1 <= p,
        p <= w.len() || (w.len() == 0 && p == 1),
        repeats(w, p),
    ensures
        repeats(w.push(next_repeated(w, p)), p),
{
    reveal(repeats);
    let v = w.push(next_repeated(w, p));
    let len = w.len() as int;
    if len > 0 {
        lemma_mod_shift(len, p);
        assert(w[len - p] == w[(len - p) % p]);
    }
    assert forall|x: int| 0 <= x < v.len() implies #[trigger] v[x] == v[x % p] by {
        assert(0 <= x % p <= x) by (nonlinear_arith)
            requires
                0 <= x,
                p > 0,
        ;
        assert(x % p < p);
        if x < len {
            assert(w[x] == w[x % p]);
        }
    }
}

/// Continuing the repetition leads to another prefix of the walk.
proof fn lemma_repeated_child(k: int, w: Seq<int>, p: int)
    requires
        is_node(k, w, p),
        k > 0,
    ensures
        is_node(k, w.push(next_repeated(w, p)), p),
        0 <= next_repeated(w, p) < k,
{
    let v = w.push(next_repeated(w, p));
    let len = w.len() as int;
    lemma_repeats_on(w, p);
    if len > 0 {
        assert(0 <= w[len - p] < k);
    }
    assert forall|g: int| 0 < g < p implies #[trigger] leads_suffix(v, p, g) by {
        assert(leads_suffix(w, p, g));
        let q = choose|q: int| suffix_exceeds(w, p, g, q);
        assert forall|x: int| 0 <= x < q implies #[trigger] v[x] == v[g + x] by {
            assert(w[x] == w[g + x]);
        }
        assert(suffix_exceeds(v, p, g, q));
    }
    assert forall|x: int| 0 <= x < v.len() implies 0 <= #[trigger] v[x] < k by {
        if x < len {
            assert(v[x] == w[x]);
        }
    }
}

/// The letters of a repetition, `g` letters further on.
proof fn lemma_repeated_letter(w: Seq<int>, p: int, g: int, x: int)
    requires
        p > 0,
        repeats(w, p),
        0 <= g,
        0 <= x,
        g + x < w.len(),
    ensures
        w[g + x] == w[(g % p + x) % p],
        g % p + x < p ==> w[g + x] == w[g % p + x],
        g % p == 0 ==> w[g + x] == w[x],
{
    reveal(repeats);
    assert(w[g + x] == w[(g + x) % p]);
    lemma_add_mod_noop(g, x, p);
    lemma_add_mod_noop(g % p, x, p);
    lemma_mod_twice(g, p);
    assert(0 <= g % p < p);
    if g % p + x < p {
        lemma_small_mod((g % p + x) as nat, p as nat);
    }
    if g % p == 0 {
        assert(w[x] == w[x % p]);
    }
}

/// The suffix of `w.push(j)` past its first `g` letters exceeds it, where `j`
/// exceeds the letter that would continue the repetition.
proof fn lemma_larger_suffix(w: Seq<int>, p: int, j: int, g: int)
    requires
        1 <= p <= w.len(),
        repeats(w, p),
        leads_its_suffixes(w, p),
        next_repeated(w, p) < j,
        0 < g <= w.len(),
    ensures
        leads_suffix(w.push(j), w.len() as int + 1, g),
{
    let v = w.push(j);
    let len = w.len() as int;
    let b = next_repeated(w, p);
    let r = g % p;
    let end = len - g;
    assert(0 <= r < p);
    // The letter that the repetition would have at `len`.
    let ext = v.drop_last().push(b);
    assert(ext =~= w.push(b));
    lemma_repeats_on(w, p);
    assert forall|x: int| 0 <= x < end implies {
        &&& r + x < p ==> #[trigger] w[g + x] == w[r + x]
        &&& r == 0 ==> w[g + x] == w[x]
    } by {
        lemma_repeated_letter(w, p, g, x);
    }
    lemma_repeated_letter(w.push(b), p, g, end);
    assert(w.push(b)[g + end] == b);
    if r == 0 {
        assert(w.push(b)[end] == w[end]);
        assert forall|x: int| 0 <= x < end implies #[trigger] v[x] == v[g + x] by {
            assert(w[g + x] == w[x]);
        }
        assert(suffix_exceeds(v, len + 1, g, end));
    } else {
        assert(leads_suffix(w, p, r));
        let q = choose|q: int| suffix_exceeds(w, p, r, q);
        let t = if q < end {
            q
        } else {
            end
        };
        assert forall|x: int| 0 <= x < t implies #[trigger] v[x] == v[g + x] by {
            assert(w[x] == w[r + x]);
            assert(w[g + x] == w[r + x]);
        }
        if q < end {
            assert(w[g + q] == w[r + q]);
        } else {
            assert(w.push(b)[r + end] == w[r + end]);
            if end < q {
                assert(w[end] == w[r + end]);
            }
            assert(v[end] <= b);
        }
        assert(suffix_exceeds(v, len + 1, g, t));
    }
}

/// Continuing with a larger letter makes the whole prefix one block.
proof fn lemma_larger_child(k: int, w: Seq<int>, p: int, j: int)
    requires
        is_node(k, w, p),
        next_repeated(w, p) < j < k,
        0 <= j,
    ensures
        is_node(k, w.push(j), w.len() as int + 1),
{
    let v = w.push(j);
    let len = w.len() as int;
    assert(repeats(v, len + 1)) by {
        reveal(repeats);
        assert forall|x: int| 0 <= x < v.len() implies #[trigger] v[x] == v[x % (len + 1)] by {
            lemma_small_mod(x as nat, (len + 1) as nat);
        }
    }
    assert forall|x: int| 0 <= x < v.len() implies 0 <= #[trigger] v[x] < k by {
        if x < len {
            assert(v[x] == w[x]);
        }
    }
    assert forall|g: int| 0 < g < len + 1 implies #[trigger] leads_suffix(v, len + 1, g) by {
        lemma_larger_suffix(w, p, j, g);
    }
}

/// What holds of a listed block: the word that it was found in is a necklace,
/// made of whole repetitions of the block.
pub open spec fn is_block(k: int, n: nat, b: (Seq<int>, int)) -> bool {
    &&& b.0.len() == n
    &&& is_node(k, b.0, b.1)
    &&& b.1 <= n
    &&& n as int % b.1 == 0
}

/// The words of the blocks ascend.
pub open spec fn ascending(bs: Seq<(Seq<int>, int)>) -> bool {
    forall|i: int, j: int|
        0 <= i < j < bs.len() ==> precedes((#[trigger] bs[i]).0, (#[trigger] bs[j]).0)
}

/// Every word of the blocks starts with `w`.
pub open spec fn all_start_with(bs: Seq<(Seq<int>, int)>, w: Seq<int>) -> bool {
    forall|i: int| 0 <= i < bs.len() ==> w.is_prefix_of((#[trigger] bs[i]).0)
}

/// The walk below `w` lists blocks, in ascending order of their words, and all
/// of those words start with `w`.
proof fn lemma_blocks_listed(k: int, n: nat, w: Seq<int>, p: int)
    requires
        0 < k <= 256,
        0 < n,
        w.len() <= n,
        is_node(k, w, p),
    ensures
        forall|i: int| 0 <= i < blocks(k, n, w, p).len() ==> is_block(
            k,
            n,
            #[trigger] blocks(k, n, w, p)[i],
        ),
        ascending(blocks(k, n, w, p)),
        all_start_with(blocks(k, n, w, p), w),
    decreases n - w.len(), 1int, 0int,
{
    let bs = blocks(k, n, w, p);
    if w.len() < n {
        let b = next_repeated(w, p);
        let len = w.len() as int;
        lemma_repeated_child(k, w, p);
        let u = w.push(b);
        let first = blocks(k, n, u, p);
        let rest = later_blocks(k, n, w, b + 1);
        lemma_blocks_listed(k, n, u, p);
        lemma_later_blocks_listed(k, n, w, p, b + 1);
        assert forall|i: int| 0 <= i < bs.len() implies is_block(k, n, #[trigger] bs[i])
            && w.is_prefix_of(bs[i].0) by {
            if i < first.len() {
                assert(bs[i] == first[i]);
                lemma_prefix_of_push(w, b, first[i].0);
            } else {
                assert(bs[i] == rest[i - first.len()]);
            }
        }
        lemma_ascending_sum(first, rest, w, b);
    }
}

/// The same for the blocks that continue `w` with a letter of at least `j`.
proof fn lemma_later_blocks_listed(k: int, n: nat, w: Seq<int>, p: int, j: int)
    requires
        0 < k <= 256,
        0 < n,
        w.len() < n,
        is_node(k, w, p),
        0 <= next_repeated(w, p) < j,
    ensures
        forall|i: int| 0 <= i < later_blocks(k, n, w, j).len() ==> is_block(
            k,
            n,
            #[trigger] later_blocks(k, n, w, j)[i],
        ),
        ascending(later_blocks(k, n, w, j)),
        all_start_with(later_blocks(k, n, w, j), w),
        forall|i: int| 0 <= i < later_blocks(k, n, w, j).len() ==> (#[trigger] later_blocks(
            k,
            n,
            w,
            j,
        )[i]).0[w.len() as int] >= j,
    decreases n - w.len(), 0int, k - j,
{
    let bs = later_blocks(k, n, w, j);
    if j < k {
        lemma_larger_child(k, w, p, j);
        lemma_small_mod(j as nat, 256);
        let u = w.push(j);
        let len = w.len() as int;
        let first = blocks(k, n, u, len + 1);
        let rest = later_blocks(k, n, w, j + 1);
        lemma_blocks_listed(k, n, u, len + 1);
        lemma_later_blocks_listed(k, n, w, p, j + 1);
        assert forall|i: int| 0 <= i < bs.len() implies is_block(k, n, #[trigger] bs[i])
            && w.is_prefix_of(bs[i].0) && bs[i].0[len] >= j by {
            if i < first.len() {
                assert(bs[i] == first[i]);
                lemma_prefix_of_push(w, j, first[i].0);
            } else {
                assert(bs[i] == rest[i - first.len()]);
            }
        }
        lemma_ascending_sum(first, rest, w, j);
    }
}

proof fn lemma_prefix_of_push(w: Seq<int>, b: int, v: Seq<int>)
    requires
        w.push(b).is_prefix_of(v),
    ensures
        w.is_prefix_of(v),
        v[w.len() as int] == b,
{
    assert(v.take(w.len() as int + 1) == w.push(b));
    assert(v.take(w.len() as int) =~= v.take(w.len() as int + 1).take(w.len() as int));
    assert(w.push(b).take(w.len() as int) =~= w);
    assert(v.take(w.len() as int + 1)[w.len() as int] == b);
}

/// Blocks that continue `w` with `b`, then blocks that continue it with more.
proof fn lemma_ascending_sum(
    first: Seq<(Seq<int>, int)>,
    rest: Seq<(Seq<int>, int)>,
    w: Seq<int>,
    b: int,
)
    requires
        ascending(first),
        ascending(rest),
        all_start_with(first, w.push(b)),
        all_start_with(rest, w),
        forall|i: int| 0 <= i < rest.len() ==> (#[trigger] rest[i]).0.len() > w.len(),
        forall|i: int| 0 <= i < rest.len() ==> (#[trigger] rest[i]).0[w.len() as int] > b,
    ensures
        ascending(first + rest),
{
    let bs = first + rest;
    let len = w.len() as int;
    assert forall|i: int, j: int| 0 <= i < j < bs.len() implies precedes(
        (#[trigger] bs[i]).0,
        (#[trigger] bs[j]).0,
    ) by {
        if j < first.len() {
            assert(precedes(first[i].0, first[j].0));
        } else if i >= first.len() {
            let s = first.len() as int;
            assert(precedes(rest[i - s].0, rest[j - s].0));
        } else {
            let x = first[i].0;
            let y = rest[j - first.len()].0;
            lemma_prefix_of_push(w, b, x);
            assert(x.take(len) == w && y.take(len) == w);
            assert forall|c: int| 0 <= c < len implies x[c] == y[c] by {
                assert(x.take(len)[c] == y.take(len)[c]);
            }
            assert(differs_at(x, y, len));
        }
    }
}

/// Some block of `bs` was found in the word `v`.
pub open spec fn holds_word(bs: Seq<(Seq<int>, int)>, v: Seq<int>) -> bool {
    exists|i: int| 0 <= i < bs.len() && (#[trigger] bs[i]).0 == v
}

/// In a necklace no letter is below the one that continues the repetition.
proof fn lemma_necklace_letter(v: Seq<int>, w: Seq<int>, p: int)
    requires
        is_necklace(v),
        w.is_prefix_of(v),
        w.len() < v.len(),
        1 <= p <= w.len(),
        repeats(w, p),
    ensures
        next_repeated(w, p) <= v[w.len() as int],
{
    let len = w.len() as int;
    if v[len] < next_repeated(w, p) {
        let r = rotated(v, p);
        assert(v.take(len) == w);
        assert forall|x: int| 0 <= x < len - p implies r[x] == v[x] by {
            lemma_mod_shift(p, p);
            assert(p % p == 0) by {
                lemma_mod_shift(0, p);
            }
            lemma_repeated_letter(w, p, p, x);
            assert(r[x] == v[p + x]);
            assert(v.take(len)[p + x] == w[p + x]);
            assert(v.take(len)[x] == w[x]);
        }
        assert(r[len - p] == v[len]);
        assert(v.take(len)[len - p] == w[len - p]);
        assert(differs_at(r, v, len - p));
        assert(precedes(rotated(v, p), v));
    }
}

/// A necklace consists of whole repetitions of its block.
proof fn lemma_necklace_period(k: int, v: Seq<int>, p: int)
    requires
        is_necklace(v),
        is_node(k, v, p),
        v.len() > 0,
    ensures
        v.len() as int % p == 0,
{
    let n = v.len() as int;
    let r = n % p;
    if r != 0 {
        let g = n - r;
        assert(0 < r < p);
        assert(g % p == 0) by {
            vstd::arithmetic::div_mod::lemma_mod_self_0(p);
            vstd::arithmetic::div_mod::lemma_sub_mod_noop(n, r, p);
            lemma_mod_twice(n, p);
            assert((n - r) % p == (r - r) % p);
            lemma_small_mod(0, p as nat);
        }
        assert(leads_suffix(v, p, r));
        let q = choose|q: int| suffix_exceeds(v, p, r, q);
        let t = rotated(v, g);
        // The rotation starts with the incomplete block, then starts over.
        assert forall|x: int| 0 <= x < r + q implies t[x] == v[x] by {
            if x < r {
                lemma_repeated_letter(v, p, g, x);
                assert(t[x] == v[g + x]);
            } else {
                assert(t[x] == v[x - r]);
                assert(v[x - r] == v[r + (x - r)]);
            }
        }
        assert(t[r + q] == v[q]);
        assert(differs_at(t, v, r + q));
        assert(precedes(rotated(v, g), v));
    }
}

/// The walk below `w` meets every necklace that starts with `w`.
proof fn lemma_blocks_complete(k: int, n: nat, w: Seq<int>, p: int, v: Seq<int>)
    requires
        0 < k <= 256,
        0 < n,
        is_word(v, k, n),
        is_necklace(v),
        w.is_prefix_of(v),
        is_node(k, w, p),
    ensures
        holds_word(blocks(k, n, w, p), v),
    decreases n - w.len(), 1int, 0int,
{
    let bs = blocks(k, n, w, p);
    if w.len() == n {
        assert(w =~= v);
        lemma_necklace_period(k, v, p);
        assert(bs[0].0 == v);
    } else {
        let b = next_repeated(w, p);
        let len = w.len() as int;
        lemma_repeated_child(k, w, p);
        if len > 0 {
            lemma_necklace_letter(v, w, p);
        } else {
            assert(0 <= v[0]);
        }
        let first = blocks(k, n, w.push(b), p);
        let rest = later_blocks(k, n, w, b + 1);
        if v[len] == b {
            assert(w.push(b).is_prefix_of(v));
            lemma_blocks_complete(k, n, w.push(b), p, v);
            let i = choose|i: int| 0 <= i < first.len() && (#[trigger] first[i]).0 == v;
            assert(bs[i].0 == v);
        } else {
            lemma_later_blocks_complete(k, n, w, p, b + 1, v);
            let i = choose|i: int| 0 <= i < rest.len() && (#[trigger] rest[i]).0 == v;
            assert(bs[first.len() + i].0 == v);
        }
    }
}

proof fn lemma_later_blocks_complete(
    k: int,
    n: nat,
    w: Seq<int>,
    p: int,
    j: int,
    v: Seq<int>,
)
    requires
        0 < k <= 256,
        0 < n,
        w.len() < n,
        is_word(v, k, n),
        is_necklace(v),
        w.is_prefix_of(v),
        is_node(k, w, p),
        0 <= next_repeated(w, p) < j <= v[w.len() as int],
    ensures
        holds_word(later_blocks(k, n, w, j), v),
    decreases n - w.len(), 0int, k - j,
{
    let bs = later_blocks(k, n, w, j);
    let len = w.len() as int;
    assert(0 <= v[len] < k);
    lemma_larger_child(k, w, p, j);
    lemma_small_mod(j as nat, 256);
    let first = blocks(k, n, w.push(j), len + 1);
    let rest = later_blocks(k, n, w, j + 1);
    if v[len] == j {
        assert(w.push(j).is_prefix_of(v));
        lemma_blocks_complete(k, n, w.push(j), len + 1, v);
        let i = choose|i: int| 0 <= i < first.len() && (#[trigger] first[i]).0 == v;
        assert(bs[i].0 == v);
    } else {
        lemma_later_blocks_complete(k, n, w, p, j + 1, v);
        let i = choose|i: int| 0 <= i < rest.len() && (#[trigger] rest[i]).0 == v;
        assert(bs[first.len() + i].0 == v);
    }
}

/// Rotating the word of a block by less than the block makes it larger.
pub proof fn lemma_block_rotation(k: int, n: nat, b: (Seq<int>, int), g: int)
    requires
        is_block(k, n, b),
        0 < g < n,
    ensures
        g % b.1 != 0 ==> precedes(b.0, rotated(b.0, g)),
        g % b.1 == 0 ==> rotated(b.0, g) == b.0,
{
    let v = b.0;
    let p = b.1;
    let r = g % p;
    let t = rotated(v, g);
    assert(0 <= r < p);
    if r != 0 {
        assert(leads_suffix(v, p, r));
        let q = choose|q: int| suffix_exceeds(v, p, r, q);
        // The block that `g` falls into ends inside the word.
        assert(g + (p - r) <= n) by {
            lemma_block_end(g, p, n as int);
        }
        assert forall|x: int| 0 <= x <= q implies t[x] == v[r + x] by {
            lemma_repeated_letter(v, p, g, x);
            assert(t[x] == v[g + x]);
        }
        assert(differs_at(v, t, q));
    } else {
        assert forall|x: int| 0 <= x < n implies t[x] == v[x] by {
            if g + x < n {
                lemma_repeated_letter(v, p, g, x);
            } else {
                assert(t[x] == v[g + x - n]);
                let y = g + x - n;
                lemma_repeated_letter(v, p, 0, y);
                lemma_repeated_letter(v, p, 0, x);
                lemma_small_mod(0, p as nat);
                lemma_add_mod_noop(g, x, p);
                lemma_add_mod_noop(n as int, y, p);
                assert((g + x) % p == (0 + x % p) % p);
                assert((n + y) % p == (0 + y % p) % p);
                lemma_mod_twice(x, p);
                lemma_mod_twice(y, p);
            }
        }
        assert(t =~= v);
    }
}

proof fn lemma_block_end(g: int, p: int, n: int)
    requires
        0 < p,
        0 <= g < n,
        n % p == 0,
    ensures
        g + (p - g % p) <= n,
{
    let a = g / p;
    let c = n / p;
    vstd::arithmetic::div_mod::lemma_fundamental_div_mod(g, p);
    vstd::arithmetic::div_mod::lemma_fundamental_div_mod(n, p);
    assert(p * a + p <= p * c) by (nonlinear_arith)
        requires
            0 < p,
            p * a <= g < n,
            n == p * c,
    {
        assert(a < c);
        assert(p * (a + 1) <= p * c);
    }
}

/// The word of a block is a necklace.
pub proof fn lemma_block_is_necklace(k: int, n: nat, b: (Seq<int>, int))
    requires
        is_block(k, n, b),
    ensures
        is_necklace(b.0),
{
    assert forall|g: int| 0 < g < b.0.len() implies !precedes(#[trigger] rotated(b.0, g), b.0) by {
        lemma_block_rotation(k, n, b, g);
        if precedes(rotated(b.0, g), b.0) {
            lemma_precedes_asymmetric(rotated(b.0, g), b.0);
        }
    }
}

/// All the blocks, from the empty prefix on.
pub open spec fn all_blocks(k: int, n: nat) -> Seq<(Seq<int>, int)> {
    blocks(k, n, Seq::empty(), 1)
}

/// The walk lists one block for each necklace, in the order of the necklaces.
pub proof fn lemma_all_blocks(k: int, n: nat)
    requires
        0 < k <= 256,
        0 < n,
    ensures
        forall|i: int| 0 <= i < all_blocks(k, n).len() ==> is_block(
            k,
            n,
            #[trigger] all_blocks(k, n)[i],
        ),
        ascending(all_blocks(k, n)),
{
    assert(is_node(k, Seq::empty(), 1)) by {
        reveal(repeats);
    }
    lemma_blocks_listed(k, n, Seq::empty(), 1);
}

pub proof fn lemma_all_blocks_complete(k: int, n: nat, v: Seq<int>)
    requires
        0 < k <= 256,
        0 < n,
        is_word(v, k, n),
        is_necklace(v),
    ensures
        holds_word(all_blocks(k, n), v),
{
    assert(is_node(k, Seq::empty(), 1)) by {
        reveal(repeats);
    }
    assert(Seq::<int>::empty().is_prefix_of(v));
    lemma_blocks_complete(k, n, Seq::empty(), 1, v);
}

} // verus!
