//! The cycle that the blocks form: read in a circle, it holds every word of a
//! given length exactly once.

use vstd::prelude::*;
use vstd::arithmetic::div_mod::{
    lemma_add_mod_noop, lemma_mod_add_multiples_vanish, lemma_mod_sub_multiples_vanish,
    lemma_mod_twice, lemma_small_mod,
};
use vstd::arithmetic::power::pow;
use crate::chords::necklaces::{
    all_blocks, ascending, is_block, is_necklace, joined, lemma_all_blocks,
    lemma_all_blocks_complete, lemma_block_is_necklace, lemma_block_rotation, leads_suffix,
    repeats, suffix_exceeds,
};
use crate::chords::words::{
    attained, differs_at, is_word, lemma_injection_bound, lemma_least_rotation,
    lemma_precedes_asymmetric, lemma_precedes_total, lemma_rotated_is_word, lemma_rotated_twice,
    lemma_surjection_is_injective, lemma_value_bounded, lemma_value_injective,
    lemma_value_surjective, precedes, rotated, value, window,
};

verus! {

/// Read in a circle, `s` holds each word of `n` letters in `0..k` exactly once.
pub open spec fn is_de_bruijn(s: Seq<int>, k: int, n: nat) -> bool {
    &&& is_word(s, k, pow(k, n) as nat)
    &&& forall|w: Seq<int>| #[trigger] is_word(w, k, n) ==> occurs(s, w)
    &&& forall|i: int, j: int|
        0 <= i < j < s.len() ==> #[trigger] window(s, i, n) != #[trigger] window(s, j, n)
}

/// `w` is a window of `s`.
pub open spec fn occurs(s: Seq<int>, w: Seq<int>) -> bool {
    exists|i: int| 0 <= i < s.len() && #[trigger] window(s, i, w.len()) == w
}

/// The word of `n` letters `c`.
spec fn uniform(c: int, n: nat) -> Seq<int> {
    Seq::new(n, |x: int| c)
}

/// Where block `i` starts in the cycle.
spec fn offset(bs: Seq<(Seq<int>, int)>, i: int) -> int {
    joined(bs.take(i)).len() as int
}

proof fn lemma_uniform_is_necklace(c: int, n: nat)
    ensures
        is_necklace(uniform(c, n)),
{
    let w = uniform(c, n);
    assert forall|g: int| 0 < g < w.len() implies !precedes(#[trigger] rotated(w, g), w) by {
        assert(rotated(w, g) =~= w);
        if precedes(w, w) {
            lemma_precedes_asymmetric(w, w);
        }
    }
}

/// Raising the last letter that can be raised turns a necklace into a necklace.
proof fn lemma_raised_is_necklace(v: Seq<int>, k: int, q: int)
    requires
        is_necklace(v),
        is_word(v, k, v.len()),
        0 <= q < v.len(),
        v[q] < k - 1,
        forall|x: int| q < x < v.len() ==> v[x] == k - 1,
    ensures
        is_necklace(v.update(q, v[q] + 1)),
{
    let m = v.update(q, v[q] + 1);
    let n = v.len() as int;
    assert forall|g: int| 0 < g < m.len() implies !precedes(#[trigger] rotated(m, g), m) by {
        let t = rotated(m, g);
        let u = rotated(v, g);
        if g <= q {
            assert(!precedes(u, v));
            if u == v {
                assert forall|x: int| 0 <= x < q - g implies m[x] == t[x] by {
                    assert(u[x] == v[x]);
                    assert(t[x] == m[x + g]);
                    assert(u[x] == v[x + g]);
                }
                assert(u[q - g] == v[q]);
                assert(t[q - g] == m[q]);
                assert(differs_at(m, t, q - g));
            } else {
                lemma_precedes_total(u, v);
                let r = choose|r: int| differs_at(v, u, r);
                let e = if r < q - g {
                    r
                } else {
                    q - g
                };
                assert forall|x: int| 0 <= x < e implies m[x] == t[x] by {
                    assert(u[x] == v[x]);
                    assert(t[x] == m[x + g]);
                    assert(u[x] == v[x + g]);
                }
                assert(u[e] == v[e + g]);
                assert(t[e] == m[e + g]);
                assert(v[e] <= u[e]);
                assert(differs_at(m, t, e));
            }
            lemma_precedes_asymmetric(m, t);
        } else {
            assert(t[0] == m[g]);
            assert(t[0] == k - 1);
            if m[0] < k - 1 {
                assert(differs_at(m, t, 0));
                lemma_precedes_asymmetric(m, t);
            } else if q > 0 {
                assert(v[0] == k - 1);
                assert(rotated(v, q)[0] == v[q]);
                assert(differs_at(rotated(v, q), v, 0));
                assert(precedes(rotated(v, q), v));
            } else {
                assert(m =~= uniform(k - 1, v.len()));
                lemma_uniform_is_necklace(k - 1, v.len());
            }
        }
    }
}

/// The blocks that the cycle is made of.
spec fn is_listing(bs: Seq<(Seq<int>, int)>, k: int, n: nat) -> bool {
    &&& 2 <= k <= 256
    &&& 0 < n
    &&& bs == all_blocks(k, n)
    &&& forall|i: int| 0 <= i < bs.len() ==> is_block(k, n, #[trigger] bs[i])
    &&& ascending(bs)
}

/// The place in the listing of a necklace.
proof fn lemma_place(bs: Seq<(Seq<int>, int)>, k: int, n: nat, v: Seq<int>) -> (i: int)
    requires
        is_listing(bs, k, n),
        is_word(v, k, n),
        is_necklace(v),
    ensures
        0 <= i < bs.len(),
        bs[i].0 == v,
{
    lemma_all_blocks_complete(k, n, v);
    choose|i: int| 0 <= i < bs.len() && (#[trigger] bs[i]).0 == v
}

/// The listing starts with the smallest word and ends with the largest.
proof fn lemma_ends(bs: Seq<(Seq<int>, int)>, k: int, n: nat)
    requires
        is_listing(bs, k, n),
    ensures
        bs.len() >= 2,
        bs[0].0 == uniform(0, n),
        bs.last().0 == uniform(k - 1, n),
        bs.last().1 == 1,
{
    let lo = uniform(0, n);
    let hi = uniform(k - 1, n);
    lemma_uniform_is_necklace(0, n);
    lemma_uniform_is_necklace(k - 1, n);
    let i = lemma_place(bs, k, n, lo);
    let j = lemma_place(bs, k, n, hi);
    let m = bs.len() as int;
    if i > 0 {
        assert(precedes(bs[0].0, bs[i].0));
        let start = bs[0].0;
        let q = choose|q: int| differs_at(start, lo, q);
        assert(is_block(k, n, bs[0]));
        assert(0 <= start[q]);
    }
    if j < m - 1 {
        assert(precedes(bs[j].0, bs[m - 1].0));
        let end = bs[m - 1].0;
        let q = choose|q: int| differs_at(hi, end, q);
        assert(is_block(k, n, bs[m - 1]));
        assert(end[q] < k);
    }
    assert(lo[0] != hi[0]);
    let b = bs[m - 1];
    assert(is_block(k, n, b));
    if b.1 > 1 {
        assert(leads_suffix(b.0, b.1, 1));
        let q = choose|q: int| suffix_exceeds(b.0, b.1, 1, q);
        assert(b.0[q] == k - 1);
        assert(b.0[1 + q] == k - 1);
    }
}

/// The last letter of `v` below the largest one.
spec fn is_last_low(v: Seq<int>, k: int, q: int) -> bool {
    &&& 0 <= q < v.len()
    &&& v[q] < k - 1
    &&& forall|x: int| q < x < v.len() ==> v[x] == k - 1
}

proof fn lemma_last_low(v: Seq<int>, k: int, n: nat, m: int) -> (q: int)
    requires
        is_word(v, k, n),
        0 <= m <= n,
        v != uniform(k - 1, n),
        forall|x: int| m <= x < n ==> v[x] == k - 1,
    ensures
        is_last_low(v, k, q),
    decreases m,
{
    if m == 0 {
        assert(v =~= uniform(k - 1, n));
        0
    } else {
        assert(0 <= v[m - 1] < k);
        if v[m - 1] < k - 1 {
            m - 1
        } else {
            lemma_last_low(v, k, n, m - 1)
        }
    }
}

/// A word that repeats `d` letters, seen `d` letters further on.
proof fn lemma_one_block_on(v: Seq<int>, d: int, x: int)
    requires
        repeats(v, d),
        0 < d <= x < v.len(),
    ensures
        v[x] == v[x - d],
{
    reveal(repeats);
    lemma_mod_sub_multiples_vanish(x, d);
    assert(v[x] == v[x % d]);
    assert(v[x - d] == v[(x - d) % d]);
}

/// The letter at `y`, seen in the last block.
proof fn lemma_in_last_block(v: Seq<int>, d: int, y: int)
    requires
        repeats(v, d),
        0 <= y < d <= v.len(),
        v.len() as int % d == 0,
    ensures
        v[v.len() - d + y] == v[y],
{
    reveal(repeats);
    let n = v.len() as int;
    let x = n - d + y;
    lemma_mod_sub_multiples_vanish(n, d);
    lemma_add_mod_noop(n - d, y, d);
    lemma_small_mod(y as nat, d as nat);
    lemma_small_mod(0, d as nat);
    assert(x % d == (0 + y) % d);
    assert(v[x] == v[x % d]);
}

/// What follows a necklace in the listing: the letters up to its last low one
/// stay, that one is raised. That letter lies in the last block.
proof fn lemma_successor(bs: Seq<(Seq<int>, int)>, k: int, n: nat, i: int) -> (q: int)
    requires
        is_listing(bs, k, n),
        0 <= i < bs.len() - 1,
    ensures
        is_last_low(bs[i].0, k, q),
        q >= n - bs[i].1,
        forall|x: int| 0 <= x < q ==> bs[i + 1].0[x] == bs[i].0[x],
        bs[i + 1].0[q] == bs[i].0[q] + 1,
{
    let v = bs[i].0;
    let next = bs[i + 1].0;
    let m = bs.len() as int;
    assert(is_block(k, n, bs[i]) && is_block(k, n, bs[i + 1]) && is_block(k, n, bs[m - 1]));
    lemma_ends(bs, k, n);
    assert(precedes(bs[i].0, bs[m - 1].0));
    lemma_precedes_asymmetric(bs[i].0, bs[m - 1].0);
    let q = lemma_last_low(v, k, n, n as int);
    let raised = v.update(q, v[q] + 1);
    lemma_block_is_necklace(k, n, bs[i]);
    lemma_raised_is_necklace(v, k, q);
    assert(is_word(raised, k, n)) by {
        assert forall|x: int| 0 <= x < n implies 0 <= #[trigger] raised[x] < k by {
            assert(0 <= v[x] < k);
        }
    }
    let j = lemma_place(bs, k, n, raised);
    assert(differs_at(v, raised, q));
    if j < i {
        assert(precedes(bs[j].0, bs[i].0));
        lemma_precedes_asymmetric(raised, v);
    }
    assert(j != i) by {
        if j == i {
            lemma_precedes_asymmetric(raised, v);
        }
    }
    assert(precedes(bs[i].0, bs[i + 1].0));
    let r = choose|r: int| differs_at(v, next, r);
    assert(0 <= next[r] < k);
    assert(r <= q);
    if r < q {
        assert(differs_at(raised, next, r));
        if j > i + 1 {
            assert(precedes(bs[i + 1].0, bs[j].0));
            lemma_precedes_asymmetric(next, raised);
        }
    }
    if next[q] > v[q] + 1 {
        assert(differs_at(raised, next, q));
        if j > i + 1 {
            assert(precedes(bs[i + 1].0, bs[j].0));
            lemma_precedes_asymmetric(next, raised);
        }
    }
    let d = bs[i].1;
    if q < n - d {
        reveal(repeats);
        let y = q % d;
        assert(0 <= y < d);
        assert(v[q] == v[y]);
        lemma_in_last_block(v, d, y);
    }
    q
}

/// The last necklace but one is the largest letter but one, followed by the
/// largest letter. It is one block.
proof fn lemma_last_but_one(bs: Seq<(Seq<int>, int)>, k: int, n: nat)
    requires
        is_listing(bs, k, n),
    ensures
        bs.len() >= 2,
        bs[bs.len() - 2].1 == n,
        is_last_low(bs[bs.len() - 2].0, k, 0),
{
    lemma_ends(bs, k, n);
    let i = bs.len() - 2;
    let v = bs[i].0;
    let q = lemma_successor(bs, k, n, i);
    assert(is_block(k, n, bs[i]));
    lemma_block_is_necklace(k, n, bs[i]);
    if q > 0 {
        assert(bs[i + 1].0[0] == k - 1);
        assert(v[0] == k - 1);
        assert(rotated(v, q)[0] == v[q]);
        assert(differs_at(rotated(v, q), v, 0));
        assert(precedes(rotated(v, q), v));
    }
}

/// The letters of block `i`, in the cycle.
proof fn lemma_block_letters(bs: Seq<(Seq<int>, int)>, k: int, n: nat, i: int)
    requires
        is_listing(bs, k, n),
        0 <= i < bs.len(),
    ensures
        0 <= offset(bs, i),
        offset(bs, i + 1) == offset(bs, i) + bs[i].1,
        offset(bs, i + 1) <= joined(bs).len(),
        forall|o: int|
            0 <= o < bs[i].1 ==> #[trigger] joined(bs)[offset(bs, i) + o] == bs[i].0[o],
    decreases bs.len() - i,
{
    assert(is_block(k, n, bs[i]));
    let upto = bs.take(i + 1);
    assert(upto.drop_last() =~= bs.take(i));
    assert(upto.last() == bs[i]);
    lemma_joined_prefix(bs, i + 1);
    let s = joined(bs);
    let part = joined(upto);
    assert forall|o: int| 0 <= o < bs[i].1 implies #[trigger] s[offset(bs, i) + o]
        == bs[i].0[o] by {
        assert(part[offset(bs, i) + o] == bs[i].0.take(bs[i].1)[o]);
        assert(s.take(part.len() as int)[offset(bs, i) + o] == part[offset(bs, i) + o]);
    }
}

proof fn lemma_joined_prefix(bs: Seq<(Seq<int>, int)>, i: int)
    requires
        0 <= i <= bs.len(),
    ensures
        joined(bs.take(i)).len() <= joined(bs).len(),
        joined(bs).take(joined(bs.take(i)).len() as int) == joined(bs.take(i)),
    decreases bs.len(),
{
    let s = joined(bs);
    if i == bs.len() {
        assert(bs.take(i) =~= bs);
        assert(s.take(s.len() as int) =~= s);
    } else {
        lemma_joined_prefix(bs.drop_last(), i);
        assert(bs.drop_last().take(i) =~= bs.take(i));
        let part = joined(bs.take(i));
        assert(s.take(part.len() as int) =~= joined(bs.drop_last()).take(part.len() as int));
    }
}

/// From the start of a block on, the cycle reads the whole necklace of that
/// block, up to the last block but one.
proof fn lemma_text(bs: Seq<(Seq<int>, int)>, k: int, n: nat, i: int, x: int)
    requires
        is_listing(bs, k, n),
        0 <= i < bs.len() - 1,
        0 <= x < n,
    ensures
        0 <= offset(bs, i),
        offset(bs, i) + x < joined(bs).len(),
        joined(bs)[offset(bs, i) + x] == bs[i].0[x],
    decreases bs.len() - i,
{
    lemma_block_letters(bs, k, n, i);
    assert(is_block(k, n, bs[i]));
    let d = bs[i].1;
    if x < d {
        assert(joined(bs)[offset(bs, i) + x] == bs[i].0[x]);
    } else {
        lemma_last_but_one(bs, k, n);
        let q = lemma_successor(bs, k, n, i);
        lemma_one_block_on(bs[i].0, d, x);
        lemma_text(bs, k, n, i + 1, x - d);
        assert(bs[i + 1].0[x - d] == bs[i].0[x - d]);
    }
}

/// The cycle ends with `n` of the largest letter.
proof fn lemma_tail(bs: Seq<(Seq<int>, int)>, k: int, n: nat, x: int)
    requires
        is_listing(bs, k, n),
        0 <= x < n,
    ensures
        n < joined(bs).len(),
        joined(bs)[joined(bs).len() - 1 - x] == k - 1,
{
    let m = bs.len() as int;
    lemma_ends(bs, k, n);
    lemma_last_but_one(bs, k, n);
    lemma_block_letters(bs, k, n, m - 2);
    lemma_block_letters(bs, k, n, m - 1);
    assert(bs.take(m) =~= bs);
    let s = joined(bs);
    if x == 0 {
        assert(s[offset(bs, m - 1) + 0] == bs[m - 1].0[0]);
    } else {
        assert(s[offset(bs, m - 2) + (n - x)] == bs[m - 2].0[n - x]);
    }
}

/// The letters of a rotated necklace, read from the block that they start in.
proof fn lemma_rotated_letter(k: int, n: nat, b: (Seq<int>, int), u: int, x: int)
    requires
        is_block(k, n, b),
        0 <= u < b.1,
        0 <= x < n,
    ensures
        u + x < b.1 ==> rotated(b.0, u)[x] == b.0[u + x],
        u + x >= b.1 ==> rotated(b.0, u)[x] == b.0[u + x - b.1],
{
    let v = b.0;
    let d = b.1;
    if u + x >= d {
        if u + x < n {
            lemma_one_block_on(v, d, u + x);
        } else {
            reveal(repeats);
            let y = u + x - n;
            let t = u + x - d;
            assert(v[y] == v[y % d]);
            assert(v[t] == v[t % d]);
            lemma_add_mod_noop(n as int, y, d);
            lemma_small_mod(0, d as nat);
            lemma_mod_twice(y, d);
            assert((n + y) % d == (0 + y % d) % d);
            lemma_mod_sub_multiples_vanish(u + x, d);
        }
    }
}

/// A rotation of a necklace whose block does not end in the largest letter
/// alone, past the point of rotation: it follows that point in the cycle.
proof fn lemma_occurs_inside(bs: Seq<(Seq<int>, int)>, k: int, n: nat, i: int, u: int, y: int)
    requires
        is_listing(bs, k, n),
        0 <= i < bs.len() - 1,
        0 < u <= y < bs[i].1,
        bs[i].0[y] < k - 1,
    ensures
        occurs(joined(bs), rotated(bs[i].0, u)),
{
    let s = joined(bs);
    let b = bs[i];
    let v = b.0;
    let d = b.1;
    assert(is_block(k, n, b));
    lemma_last_but_one(bs, k, n);
    let q = lemma_successor(bs, k, n, i);
    lemma_in_last_block(v, d, y);
    assert(q >= n - d + y);
    lemma_block_letters(bs, k, n, i);
    let at = offset(bs, i) + u;
    let w = rotated(v, u);
    assert(w.len() == n);
    assert forall|x: int| 0 <= x < n implies #[trigger] reads_at(s, at, w, x) by {
        lemma_rotated_letter(k, n, b, u, x);
        if u + x < d {
            assert(s[offset(bs, i) + (u + x)] == v[u + x]);
        } else {
            lemma_text(bs, k, n, i + 1, u + x - d);
            assert(bs[i + 1].0[u + x - d] == v[u + x - d]);
        }
    }
    lemma_plain_window(s, at, w);
}

/// Letter `x` of `w` stands in `s`, where `w` starts at `at`.
spec fn reads_at(s: Seq<int>, at: int, w: Seq<int>, x: int) -> bool {
    at + x < s.len() && s[at + x] == w[x]
}

/// What stands in `s` without going round is a window of it.
proof fn lemma_plain_window(s: Seq<int>, at: int, w: Seq<int>)
    requires
        0 <= at,
        w.len() > 0,
        forall|x: int| 0 <= x < w.len() ==> #[trigger] reads_at(s, at, w, x),
    ensures
        occurs(s, w),
{
    assert(reads_at(s, at, w, 0));
    assert forall|x: int| 0 <= x < w.len() implies window(s, at, w.len())[x] == w[x] by {
        assert(reads_at(s, at, w, x));
        lemma_small_mod((at + x) as nat, s.len());
    }
    assert(window(s, at, w.len()) =~= w);
}

/// The first necklace of the listing that starts like necklace `i`.
proof fn lemma_first_alike(bs: Seq<(Seq<int>, int)>, len: int, i: int) -> (l: int)
    requires
        0 <= i < bs.len(),
    ensures
        0 <= l <= i,
        forall|x: int| 0 <= x < len ==> bs[l].0[x] == bs[i].0[x],
        l > 0 ==> exists|x: int| 0 <= x < len && bs[l - 1].0[x] != #[trigger] bs[i].0[x],
    decreases i,
{
    if i > 0 && forall|x: int| 0 <= x < len ==> bs[i - 1].0[x] == #[trigger] bs[i].0[x] {
        let l = lemma_first_alike(bs, len, i - 1);
        assert forall|x: int| 0 <= x < len implies bs[l].0[x] == bs[i].0[x] by {
            assert(bs[i - 1].0[x] == bs[i].0[x]);
        }
        if l > 0 {
            let x = choose|x: int|
                0 <= x < len && bs[l - 1].0[x] != #[trigger] bs[i - 1].0[x];
            assert(bs[i - 1].0[x] == bs[i].0[x]);
        }
        l
    } else {
        i
    }
}

/// A rotation whose block ends, from the point of rotation on, in the largest
/// letter alone: those letters stand before the first necklace that starts
/// with what follows them.
proof fn lemma_occurs_between(bs: Seq<(Seq<int>, int)>, k: int, n: nat, i: int, u: int)
    requires
        is_listing(bs, k, n),
        0 <= i < bs.len() - 1,
        0 < u < bs[i].1,
        forall|y: int| u <= y < bs[i].1 ==> bs[i].0[y] == k - 1,
    ensures
        occurs(joined(bs), rotated(bs[i].0, u)),
{
    let s = joined(bs);
    let b = bs[i];
    let v = b.0;
    let d = b.1;
    assert(is_block(k, n, b));
    lemma_ends(bs, k, n);
    let high = d - u;
    let len = n - high;
    let w = rotated(v, u);
    assert(w.len() == n);
    let l = lemma_first_alike(bs, len, i);
    assert forall|x: int| 0 <= x < n implies #[trigger] w[x] == (if x < high {
        k - 1
    } else {
        bs[l].0[x - high]
    }) by {
        lemma_rotated_letter(k, n, b, u, x);
        if x >= high {
            assert(bs[l].0[x - high] == v[x - high]);
        }
    }
    if l == 0 {
        lemma_tail(bs, k, n, 0);
        let at = s.len() - high;
        assert forall|x: int| 0 <= x < n implies window(s, at, n)[x] == w[x] by {
            if x < high {
                lemma_tail(bs, k, n, high - 1 - x);
                lemma_small_mod((at + x) as nat, s.len());
            } else {
                lemma_text(bs, k, n, 0, x - high);
                assert(bs.take(0) =~= Seq::empty());
                assert(offset(bs, 0) == 0);
                lemma_mod_add_multiples_vanish(x - high, s.len() as int);
                lemma_small_mod((x - high) as nat, s.len());
            }
        }
        assert(window(s, at, n) =~= w);
    } else {
        let prev = bs[l - 1];
        assert(is_block(k, n, prev));
        let q = lemma_successor(bs, k, n, l - 1);
        if q >= len {
            let x = choose|x: int| 0 <= x < len && bs[l - 1].0[x] != #[trigger] bs[i].0[x];
            assert(bs[l].0[x] == bs[l - 1].0[x]);
            assert(bs[l].0[x] == bs[i].0[x]);
        }
        lemma_block_letters(bs, k, n, l - 1);
        let at = offset(bs, l) - high;
        assert forall|x: int| 0 <= x < n implies #[trigger] reads_at(s, at, w, x) by {
            if x < high {
                let o = prev.1 - high + x;
                assert(s[offset(bs, l - 1) + o] == prev.0[o]);
                lemma_in_last_block(prev.0, prev.1, o);
                assert(prev.0[n - high + x] == k - 1);
            } else {
                lemma_text(bs, k, n, l, x - high);
            }
        }
        lemma_plain_window(s, at, w);
    }
}

/// The necklace that `w` is a rotation of, and by how much, below its block.
proof fn lemma_as_rotation(bs: Seq<(Seq<int>, int)>, k: int, n: nat, w: Seq<int>) -> (r: (
    int,
    int,
))
    requires
        is_listing(bs, k, n),
        is_word(w, k, n),
    ensures
        0 <= r.0 < bs.len(),
        0 <= r.1 < bs[r.0].1,
        rotated(bs[r.0].0, r.1) == w,
{
    let g = lemma_least_rotation(w, n as int);
    let v = rotated(w, g);
    lemma_rotated_is_word(w, k, n, g);
    assert(is_necklace(v)) by {
        assert forall|h: int| 0 < h < v.len() implies !precedes(#[trigger] rotated(v, h), v) by {
            lemma_rotated_twice(w, g, h);
            if g + h < n {
                assert(!precedes(rotated(w, g + h), rotated(w, g)));
            } else {
                assert(!precedes(rotated(w, g + h - n), rotated(w, g)));
            }
        }
    }
    let i = lemma_place(bs, k, n, v);
    let d = bs[i].1;
    assert(is_block(k, n, bs[i]));
    let back = if g == 0 {
        0
    } else {
        n - g
    };
    assert(rotated(v, back) == w) by {
        lemma_rotated_twice(w, g, back);
        assert(rotated(w, 0) =~= w);
    }
    let u = back % d;
    lemma_reduced_rotation(k, n, bs[i], back);
    (i, u)
}

/// A rotation by whole blocks changes nothing.
proof fn lemma_reduced_rotation(k: int, n: nat, b: (Seq<int>, int), back: int)
    requires
        is_block(k, n, b),
        0 <= back < n,
    ensures
        0 <= back % b.1 < b.1,
        rotated(b.0, back % b.1) == rotated(b.0, back),
{
    let d = b.1;
    let u = back % d;
    assert(0 <= u < d);
    assert(u <= back) by (nonlinear_arith)
        requires
            0 <= back,
            0 < d,
            u == back % d,
    ;
    let h = back - u;
    if h > 0 {
        vstd::arithmetic::div_mod::lemma_sub_mod_noop(back, u, d);
        lemma_mod_twice(back, d);
        lemma_small_mod(0, d as nat);
        assert(h % d == (u - u) % d);
        lemma_block_rotation(k, n, b, h);
        lemma_rotated_twice(b.0, h, u);
    }
}

/// A necklace is a window of the cycle.
proof fn lemma_necklace_occurs(bs: Seq<(Seq<int>, int)>, k: int, n: nat, i: int)
    requires
        is_listing(bs, k, n),
        0 <= i < bs.len(),
    ensures
        occurs(joined(bs), bs[i].0),
{
    let s = joined(bs);
    let w = bs[i].0;
    let m = bs.len() as int;
    assert(is_block(k, n, bs[i]));
    if i < m - 1 {
        let at = offset(bs, i);
        assert forall|x: int| 0 <= x < n implies #[trigger] reads_at(s, at, w, x) by {
            lemma_text(bs, k, n, i, x);
        }
        lemma_plain_window(s, at, w);
    } else {
        lemma_ends(bs, k, n);
        lemma_tail(bs, k, n, 0);
        let at = s.len() - n;
        assert forall|x: int| 0 <= x < n implies #[trigger] reads_at(s, at, w, x) by {
            lemma_tail(bs, k, n, n - 1 - x);
        }
        lemma_plain_window(s, at, w);
    }
}

/// Every word is a window of the cycle.
proof fn lemma_every_word_occurs(bs: Seq<(Seq<int>, int)>, k: int, n: nat, w: Seq<int>)
    requires
        is_listing(bs, k, n),
        is_word(w, k, n),
    ensures
        occurs(joined(bs), w),
{
    let (i, u) = lemma_as_rotation(bs, k, n, w);
    let b = bs[i];
    let d = b.1;
    assert(is_block(k, n, b));
    lemma_ends(bs, k, n);
    if u == 0 {
        assert(rotated(b.0, 0) =~= b.0);
        lemma_necklace_occurs(bs, k, n, i);
    } else if exists|y: int| u <= y < d && b.0[y] != k - 1 {
        let y = choose|y: int| u <= y < d && b.0[y] != k - 1;
        assert(0 <= b.0[y] < k);
        lemma_occurs_inside(bs, k, n, i, u, y);
    } else {
        lemma_occurs_between(bs, k, n, i, u);
    }
}

/// Position `x` of the cycle lies in block `i`.
spec fn lies_in(bs: Seq<(Seq<int>, int)>, i: int, x: int) -> bool {
    &&& 0 <= i < bs.len()
    &&& offset(bs, i) <= x < offset(bs, i) + bs[i].1
}

/// Every position lies in some block.
proof fn lemma_located(bs: Seq<(Seq<int>, int)>, k: int, n: nat, m: int, x: int) -> (i: int)
    requires
        is_listing(bs, k, n),
        0 <= m <= bs.len(),
        0 <= x < offset(bs, m),
    ensures
        lies_in(bs, i, x),
    decreases m,
{
    if m == 0 {
        assert(bs.take(0) =~= Seq::empty());
        0
    } else {
        lemma_block_letters(bs, k, n, m - 1);
        if x < offset(bs, m - 1) {
            lemma_located(bs, k, n, m - 1, x)
        } else {
            m - 1
        }
    }
}

/// Necklaces that are rotations of one another are the same.
proof fn lemma_same_class(a: Seq<int>, b: Seq<int>, x: int, y: int)
    requires
        is_necklace(a),
        is_necklace(b),
        a.len() == b.len(),
        0 <= x < a.len(),
        0 <= y < a.len(),
        rotated(a, x) == rotated(b, y),
    ensures
        a == b,
{
    let n = a.len() as int;
    lemma_undone(a, b, x, y);
    lemma_undone(b, a, y, x);
    if a != b {
        lemma_precedes_total(a, b);
    }
}

/// If a rotation of `a` is a rotation of the necklace `b`, then `a` does not
/// precede `b`.
proof fn lemma_undone(a: Seq<int>, b: Seq<int>, x: int, y: int)
    requires
        is_necklace(b),
        a.len() == b.len(),
        0 <= x < a.len(),
        0 <= y < a.len(),
        rotated(a, x) == rotated(b, y),
    ensures
        !precedes(a, b),
{
    let n = a.len() as int;
    lemma_rotated_twice(a, x, n - x);
    lemma_rotated_twice(b, y, n - x);
    assert(rotated(a, n) =~= a);
    assert(rotated(a, 0) =~= a);
    assert(rotated(b, n) =~= b);
    assert(rotated(b, 0) =~= b);
    let h = if y + n - x <= n {
        y + n - x
    } else {
        y - x
    };
    assert(a == rotated(b, h));
    if precedes(b, b) {
        lemma_precedes_asymmetric(b, b);
    }
}

/// Rotations of a block's word by different amounts, below the block, differ.
proof fn lemma_rotations_differ(k: int, n: nat, b: (Seq<int>, int), x: int, y: int)
    requires
        is_block(k, n, b),
        0 <= x < y < b.1,
    ensures
        rotated(b.0, x) != rotated(b.0, y),
{
    let v = b.0;
    let g = y - x;
    if rotated(v, x) == rotated(v, y) {
        lemma_rotated_twice(v, x, n - x);
        lemma_rotated_twice(v, y, n - x);
        assert(rotated(v, n as int) =~= v);
        assert(rotated(v, 0) =~= v);
        assert(v == rotated(v, g));
        lemma_small_mod(g as nat, b.1 as nat);
        lemma_block_rotation(k, n, b, g);
        lemma_precedes_asymmetric(v, v);
    }
}

/// The word that stands for a position: the word of its block, rotated to it.
spec fn word_for(bs: Seq<(Seq<int>, int)>, x: int) -> Seq<int> {
    let i = choose|i: int| lies_in(bs, i, x);
    rotated(bs[i].0, x - offset(bs, i))
}

proof fn lemma_word_for(bs: Seq<(Seq<int>, int)>, k: int, n: nat, x: int) -> (i: int)
    requires
        is_listing(bs, k, n),
        0 <= x < joined(bs).len(),
    ensures
        lies_in(bs, i, x),
        word_for(bs, x) == rotated(bs[i].0, x - offset(bs, i)),
        is_word(word_for(bs, x), k, n),
{
    assert(bs.take(bs.len() as int) =~= bs);
    let j = lemma_located(bs, k, n, bs.len() as int, x);
    assert(lies_in(bs, j, x));
    let i = choose|i: int| lies_in(bs, i, x);
    assert(is_block(k, n, bs[i]));
    lemma_rotated_is_word(bs[i].0, k, n, x - offset(bs, i));
    i
}

/// Different positions have different words.
proof fn lemma_words_for_differ(bs: Seq<(Seq<int>, int)>, k: int, n: nat, x: int, y: int)
    requires
        is_listing(bs, k, n),
        0 <= x < y < joined(bs).len(),
    ensures
        word_for(bs, x) != word_for(bs, y),
{
    let i = lemma_word_for(bs, k, n, x);
    let j = lemma_word_for(bs, k, n, y);
    assert(is_block(k, n, bs[i]) && is_block(k, n, bs[j]));
    if word_for(bs, x) == word_for(bs, y) {
        if i == j {
            lemma_rotations_differ(k, n, bs[i], x - offset(bs, i), y - offset(bs, i));
        } else {
            lemma_block_is_necklace(k, n, bs[i]);
            lemma_block_is_necklace(k, n, bs[j]);
            lemma_same_class(bs[i].0, bs[j].0, x - offset(bs, i), y - offset(bs, j));
            if i < j {
                assert(precedes(bs[i].0, bs[j].0));
            } else {
                assert(precedes(bs[j].0, bs[i].0));
            }
            lemma_precedes_asymmetric(bs[i].0, bs[i].0);
        }
    }
}

/// All letters of the cycle are letters of the alphabet.
proof fn lemma_cycle_letters(bs: Seq<(Seq<int>, int)>, k: int, n: nat)
    requires
        is_listing(bs, k, n),
    ensures
        is_word(joined(bs), k, joined(bs).len()),
{
    let s = joined(bs);
    assert(bs.take(bs.len() as int) =~= bs);
    assert forall|x: int| 0 <= x < s.len() implies 0 <= #[trigger] s[x] < k by {
        let i = lemma_located(bs, k, n, bs.len() as int, x);
        lemma_block_letters(bs, k, n, i);
        assert(is_block(k, n, bs[i]));
        let o = x - offset(bs, i);
        assert(s[offset(bs, i) + o] == bs[i].0[o]);
        assert(0 <= bs[i].0[o] < k);
    }
}

/// The blocks, one after the other, form a cycle in which every word of `n`
/// letters occurs exactly once.
pub proof fn lemma_blocks_form_de_bruijn(k: int, n: nat)
    requires
        2 <= k <= 256,
        0 < n,
    ensures
        is_de_bruijn(joined(all_blocks(k, n)), k, n),
{
    let bs = all_blocks(k, n);
    lemma_all_blocks(k, n);
    assert(is_listing(bs, k, n));
    let s = joined(bs);
    let len = s.len() as int;
    let total = pow(k, n);
    // There are no more positions than words ...
    let f = |x: int| value(word_for(bs, x), k);
    assert forall|x: int| 0 <= x < len implies 0 <= #[trigger] f(x) < total by {
        let i = lemma_word_for(bs, k, n, x);
        lemma_value_bounded(word_for(bs, x), k, n);
    }
    assert forall|x: int, y: int| 0 <= x < y < len implies #[trigger] f(x) != #[trigger] f(y) by {
        let i = lemma_word_for(bs, k, n, x);
        let j = lemma_word_for(bs, k, n, y);
        lemma_words_for_differ(bs, k, n, x, y);
        if f(x) == f(y) {
            lemma_value_injective(word_for(bs, x), word_for(bs, y), k, n);
        }
    }
    vstd::arithmetic::power::lemma_pow_positive(k, n);
    lemma_injection_bound(f, len, total);
    // ... and each word occurs, so none occurs twice.
    let g = |x: int| value(window(s, x, n), k);
    assert forall|v: int| 0 <= v < total implies attained(g, len, v) by {
        let w = lemma_value_surjective(v, k, n);
        lemma_every_word_occurs(bs, k, n, w);
        let i = choose|i: int| 0 <= i < s.len() && #[trigger] window(s, i, w.len()) == w;
        assert(g(i) == v);
    }
    lemma_surjection_is_injective(g, len, total);
    assert forall|i: int, j: int| 0 <= i < j < s.len() implies #[trigger] window(s, i, n)
        != #[trigger] window(s, j, n) by {
        assert(g(i) != g(j));
    }
    assert forall|w: Seq<int>| #[trigger] is_word(w, k, n) implies occurs(s, w) by {
        lemma_every_word_occurs(bs, k, n, w);
    }
    lemma_cycle_letters(bs, k, n);
}

} // verus!
