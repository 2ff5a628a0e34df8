//! Words over an alphabet of consecutive integers: their order, their
//! rotations, and how many there are.

use vstd::prelude::*;
use vstd::arithmetic::power::pow;

verus! {

/// `w` is a word of `n` letters, each of them in `0..k`.
pub open spec fn is_word(w: Seq<int>, k: int, n: nat) -> bool {
    &&& w.len() == n
    &&& forall|x: int| 0 <= x < n ==> 0 <= #[trigger] w[x] < k
}

/// `a` and `b` first differ at `q`, where `a` has the smaller letter.
pub open spec fn differs_at(a: Seq<int>, b: Seq<int>, q: int) -> bool {
    &&& 0 <= q < a.len()
    &&& q < b.len()
    &&& forall|x: int| 0 <= x < q ==> a[x] == b[x]
    &&& a[q] < b[q]
}

/// The lexicographic order on words of one length.
pub open spec fn precedes(a: Seq<int>, b: Seq<int>) -> bool {
    exists|q: int| differs_at(a, b, q)
}

/// `w` with its first `g` letters moved to its end.
pub open spec fn rotated(w: Seq<int>, g: int) -> Seq<int> {
    w.skip(g) + w.take(g)
}

/// The word of `n` letters that starts at position `i` of `s`, read in a circle.
pub open spec fn window(s: Seq<int>, i: int, n: nat) -> Seq<int> {
    Seq::new(n, |x: int| s[(i + x) % (s.len() as int)])
}

/// The number that `w` denotes in base `k`.
pub open spec fn value(w: Seq<int>, k: int) -> int
    decreases w.len(),
{
    if w.len() == 0 {
        0
    } else {
        value(w.drop_last(), k) * k + w.last()
    }
}

pub proof fn lemma_precedes_asymmetric(a: Seq<int>, b: Seq<int>)
    requires
        precedes(a, b),
    ensures
        !precedes(b, a),
        a != b,
{
    let q = choose|q: int| differs_at(a, b, q);
    assert forall|r: int| !differs_at(b, a, r) by {
        if differs_at(b, a, r) {
            if r < q {
                assert(a[r] == b[r]);
            } else if q < r {
                assert(b[q] == a[q]);
            }
        }
    }
}

pub proof fn lemma_precedes_transitive(a: Seq<int>, b: Seq<int>, c: Seq<int>)
    requires
        precedes(a, b),
        precedes(b, c),
    ensures
        precedes(a, c),
{
    let q = choose|q: int| differs_at(a, b, q);
    let r = choose|r: int| differs_at(b, c, r);
    let t = if q < r { q } else { r };
    assert(differs_at(a, c, t));
}

pub proof fn lemma_precedes_total(a: Seq<int>, b: Seq<int>)
    requires
        a.len() == b.len(),
        a != b,
    ensures
        precedes(a, b) || precedes(b, a),
{
    let n = a.len() as int;
    let q = lemma_first_difference(a, b, n);
    if a[q] < b[q] {
        assert(differs_at(a, b, q));
    } else {
        assert(differs_at(b, a, q));
    }
}

proof fn lemma_first_difference(a: Seq<int>, b: Seq<int>, m: int) -> (q: int)
    requires
        a.len() == b.len(),
        0 <= m <= a.len(),
        a != b,
        forall|x: int| m <= x < a.len() ==> a[x] == b[x],
    ensures
        0 <= q < a.len(),
        a[q] != b[q],
        forall|x: int| 0 <= x < q ==> a[x] == b[x],
    decreases m,
{
    if m == 0 {
        assert(a =~= b);
        0
    } else if a[m - 1] == b[m - 1] {
        lemma_first_difference(a, b, m - 1)
    } else if a.take(m - 1) =~= b.take(m - 1) {
        assert forall|x: int| 0 <= x < m - 1 implies a[x] == b[x] by {
            assert(a.take(m - 1)[x] == b.take(m - 1)[x]);
        }
        m - 1
    } else {
        let q = lemma_first_difference(a.take(m - 1), b.take(m - 1), m - 1);
        assert forall|x: int| 0 <= x < q implies a[x] == b[x] by {
            assert(a.take(m - 1)[x] == b.take(m - 1)[x]);
        }
        q
    }
}

pub proof fn lemma_rotated_is_word(w: Seq<int>, k: int, n: nat, g: int)
    requires
        is_word(w, k, n),
        0 <= g <= n,
    ensures
        is_word(rotated(w, g), k, n),
{
    assert forall|x: int| 0 <= x < n implies 0 <= #[trigger] rotated(w, g)[x] < k by {
        if x + g < n {
            assert(rotated(w, g)[x] == w[x + g]);
        } else {
            assert(rotated(w, g)[x] == w[x + g - n]);
        }
    }
}

/// Two rotations in a row are one rotation.
pub proof fn lemma_rotated_twice(w: Seq<int>, g: int, h: int)
    requires
        0 <= g <= w.len(),
        0 <= h <= w.len(),
    ensures
        g + h <= w.len() ==> rotated(rotated(w, g), h) == rotated(w, g + h),
        g + h >= w.len() ==> rotated(rotated(w, g), h) == rotated(w, g + h - w.len()),
{
    if g + h <= w.len() {
        assert(rotated(rotated(w, g), h) =~= rotated(w, g + h));
    }
    if g + h >= w.len() {
        assert(rotated(rotated(w, g), h) =~= rotated(w, g + h - w.len()));
    }
}

/// Some rotation of `w` has no rotation of `w` before it.
pub proof fn lemma_least_rotation(w: Seq<int>, m: int) -> (g: int)
    requires
        0 < m <= w.len(),
    ensures
        0 <= g < m,
        forall|h: int| 0 <= h < m ==> !precedes(#[trigger] rotated(w, h), rotated(w, g)),
    decreases m,
{
    if m == 1 {
        if precedes(rotated(w, 0), rotated(w, 0)) {
            lemma_precedes_asymmetric(rotated(w, 0), rotated(w, 0));
        }
        0
    } else {
        let g = lemma_least_rotation(w, m - 1);
        if precedes(rotated(w, m - 1), rotated(w, g)) {
            assert forall|h: int| 0 <= h < m implies !precedes(
                #[trigger] rotated(w, h),
                rotated(w, m - 1),
            ) by {
                if precedes(rotated(w, h), rotated(w, m - 1)) {
                    if h < m - 1 {
                        lemma_precedes_transitive(
                            rotated(w, h),
                            rotated(w, m - 1),
                            rotated(w, g),
                        );
                    } else {
                        lemma_precedes_asymmetric(rotated(w, h), rotated(w, m - 1));
                    }
                }
            }
            m - 1
        } else {
            g
        }
    }
}

pub proof fn lemma_value_bounded(w: Seq<int>, k: int, n: nat)
    requires
        is_word(w, k, n),
        k > 0,
    ensures
        0 <= value(w, k) < pow(k, n),
    decreases n,
{
    reveal(pow);
    if n > 0 {
        let v = w.drop_last();
        assert(is_word(v, k, (n - 1) as nat)) by {
            assert forall|x: int| 0 <= x < n - 1 implies 0 <= #[trigger] v[x] < k by {
                assert(v[x] == w[x]);
            }
        }
        lemma_value_bounded(v, k, (n - 1) as nat);
        let p = pow(k, (n - 1) as nat);
        let y = value(v, k);
        assert(0 <= w[n - 1] < k);
        assert(0 <= y * k + w.last() < k * p) by (nonlinear_arith)
            requires
                0 <= y < p,
                0 <= w.last() < k,
        ;
    }
}

pub proof fn lemma_value_injective(a: Seq<int>, b: Seq<int>, k: int, n: nat)
    requires
        is_word(a, k, n),
        is_word(b, k, n),
        k > 0,
        value(a, k) == value(b, k),
    ensures
        a == b,
    decreases n,
{
    if n == 0 {
        assert(a =~= b);
    } else {
        let c = a.drop_last();
        let d = b.drop_last();
        let m = (n - 1) as nat;
        assert(is_word(c, k, m)) by {
            assert forall|x: int| 0 <= x < m implies 0 <= #[trigger] c[x] < k by {
                assert(c[x] == a[x]);
            }
        }
        assert(is_word(d, k, m)) by {
            assert forall|x: int| 0 <= x < m implies 0 <= #[trigger] d[x] < k by {
                assert(d[x] == b[x]);
            }
        }
        let y = value(c, k);
        let z = value(d, k);
        let p = a.last();
        let q = b.last();
        assert(0 <= a[n - 1] < k && 0 <= b[n - 1] < k);
        assert(y == z && p == q) by (nonlinear_arith)
            requires
                y * k + p == z * k + q,
                0 <= p < k,
                0 <= q < k,
        {
            if y < z {
                assert((z - y) * k >= k);
            } else if z < y {
                assert((y - z) * k >= k);
            }
        }
        lemma_value_injective(c, d, k, m);
        assert(a =~= c.push(p));
        assert(b =~= d.push(q));
    }
}

/// Every number below `k^n` is the value of a word.
pub proof fn lemma_value_surjective(v: int, k: int, n: nat) -> (w: Seq<int>)
    requires
        k > 0,
        0 <= v < pow(k, n),
    ensures
        is_word(w, k, n),
        value(w, k) == v,
    decreases n,
{
    reveal(pow);
    if n == 0 {
        Seq::empty()
    } else {
        let m = (n - 1) as nat;
        let p = pow(k, m);
        let y = v / k;
        let r = v % k;
        assert(0 <= y < p && 0 <= r < k && y * k + r == v) by (nonlinear_arith)
            requires
                0 <= v < k * p,
                k > 0,
                y == v / k,
                r == v % k,
        ;
        let u = lemma_value_surjective(y, k, m);
        let w = u.push(r);
        assert(w.drop_last() =~= u);
        w
    }
}

/// An injection of `0..a` into `0..b` needs `a <= b`.
pub proof fn lemma_injection_bound(f: spec_fn(int) -> int, a: int, b: int)
    requires
        0 <= a,
        0 <= b,
        forall|x: int| 0 <= x < a ==> 0 <= #[trigger] f(x) < b,
        forall|x: int, y: int| 0 <= x < y < a ==> #[trigger] f(x) != #[trigger] f(y),
    ensures
        a <= b,
    decreases a,
{
    if a > 0 {
        let last = f(a - 1);
        assert(0 <= last < b);
        let g = |x: int| if f(x) == b - 1 { last } else { f(x) };
        assert forall|x: int| 0 <= x < a - 1 implies 0 <= #[trigger] g(x) < b - 1 by {
            assert(f(x) != f(a - 1));
        }
        assert forall|x: int, y: int| 0 <= x < y < a - 1 implies #[trigger] g(x) != #[trigger] g(
            y,
        ) by {
            assert(f(x) != f(y));
            assert(f(x) != f(a - 1));
            assert(f(y) != f(a - 1));
        }
        lemma_injection_bound(g, a - 1, b - 1);
    }
}

/// `f` takes the value `v` somewhere in `0..a`.
pub open spec fn attained(f: spec_fn(int) -> int, a: int, v: int) -> bool {
    exists|x: int| 0 <= x < a && #[trigger] f(x) == v
}

/// A surjection of `0..a` onto `0..b`, with `a <= b`, meets no number twice.
pub proof fn lemma_surjection_is_injective(f: spec_fn(int) -> int, a: int, b: int)
    requires
        0 <= a <= b,
        forall|v: int| 0 <= v < b ==> attained(f, a, v),
    ensures
        a == b,
        forall|x: int, y: int| 0 <= x < y < a ==> #[trigger] f(x) != #[trigger] f(y),
{
    let h = |v: int| choose|x: int| 0 <= x < a && #[trigger] f(x) == v;
    assert forall|v: int| 0 <= v < b implies 0 <= #[trigger] h(v) < a && f(h(v)) == v by {
        assert(attained(f, a, v));
    }
    assert forall|v: int, w: int| 0 <= v < w < b implies #[trigger] h(v) != #[trigger] h(w) by {
        assert(f(h(v)) == v);
        assert(f(h(w)) == w);
    }
    lemma_injection_bound(h, b, a);
    assert forall|x: int, y: int| 0 <= x < y < a implies #[trigger] f(x) != #[trigger] f(y) by {
        if f(x) == f(y) {
            // Each number has a preimage other than `y`; close the gap at `y`.
            let e = |v: int| if h(v) == y { x } else { h(v) };
            let g = |v: int| if e(v) > y { e(v) - 1 } else { e(v) };
            assert forall|v: int| 0 <= v < b implies 0 <= #[trigger] g(v) < a - 1 && e(v) != y
                && f(e(v)) == v by {
                assert(f(h(v)) == v);
            }
            assert forall|v: int, w: int| 0 <= v < w < b implies #[trigger] g(v) != #[trigger] g(
                w,
            ) by {
                assert(f(e(v)) == v);
                assert(f(e(w)) == w);
            }
            lemma_injection_bound(g, b, a - 1);
        }
    }
}

} // verus!
