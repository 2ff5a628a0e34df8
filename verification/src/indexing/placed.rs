//! Lists in the order of documents and lines, without duplicates.

use vstd::prelude::*;
use crate::indexing::symbols::{CallSite, Function};
use crate::text::{
    comes_before, lemma_text_before_asymmetric, lemma_text_before_total,
    lemma_text_before_transitive, text_before,
};

verus! {

/// What has a place in a document.
pub trait Placed: View + Sized {
    /// The identifier of the document.
    spec fn place_uri(&self) -> Seq<char>;

    /// The line in the document.
    spec fn place_line(&self) -> u32;

    fn uri_text(&self) -> (r: &str)
        ensures
            r@ == self.place_uri(),
    ;

    fn start_line(&self) -> (r: u32)
        ensures
            r == self.place_line(),
    ;

    fn is_same(&self, other: &Self) -> (r: bool)
        ensures
            r == (self@ == other@),
    ;

    proof fn view_places(&self, other: &Self)
        requires
            self@ == other@,
        ensures
            self.place_uri() == other.place_uri(),
            self.place_line() == other.place_line(),
    ;
}

impl Placed for Function {
    open spec fn place_uri(&self) -> Seq<char> {
        self.0.uri@
    }

    open spec fn place_line(&self) -> u32 {
        self.0.range.start.line
    }

    fn uri_text(&self) -> (r: &str) {
        self.0.uri.as_str()
    }

    fn start_line(&self) -> (r: u32) {
        self.0.range.start.line
    }

    fn is_same(&self, other: &Self) -> (r: bool) {
        self.same(other)
    }

    proof fn view_places(&self, other: &Self) {
    }
}

impl Placed for CallSite {
    open spec fn place_uri(&self) -> Seq<char> {
        self.0.uri@
    }

    open spec fn place_line(&self) -> u32 {
        self.0.range.start.line
    }

    fn uri_text(&self) -> (r: &str) {
        self.0.uri.as_str()
    }

    fn start_line(&self) -> (r: u32) {
        self.0.range.start.line
    }

    fn is_same(&self, other: &Self) -> (r: bool) {
        self.same(other)
    }

    proof fn view_places(&self, other: &Self) {
    }
}

/// `a` stands before `b`: in an earlier document, or on an earlier line of the
/// same one.
pub open spec fn placed_before<T: Placed>(a: T, b: T) -> bool {
    ||| text_before(a.place_uri(), b.place_uri())
    ||| a.place_uri() == b.place_uri() && a.place_line() < b.place_line()
}

/// Nothing in the list stands before what precedes it there.
pub open spec fn in_order<T: Placed>(s: Seq<T>) -> bool {
    forall|i: int, j: int| 0 <= i < j < s.len() ==> !placed_before(#[trigger] s[j], #[trigger] s[i])
}

/// Nothing occurs twice in the list.
pub open spec fn all_different<T: View>(s: Seq<T>) -> bool {
    forall|i: int, j: int| 0 <= i < j < s.len() ==> (#[trigger] s[i])@ != (#[trigger] s[j])@
}

/// `v` occurs in the list.
pub open spec fn holds<T: View>(s: Seq<T>, v: T::V) -> bool {
    exists|i: int| 0 <= i < s.len() && (#[trigger] s[i])@ == v
}

proof fn lemma_before_asymmetric<T: Placed>(a: T, b: T)
    requires
        placed_before(a, b),
    ensures
        !placed_before(b, a),
{
    if text_before(a.place_uri(), b.place_uri()) {
        lemma_text_before_asymmetric(a.place_uri(), b.place_uri());
    } else if text_before(b.place_uri(), a.place_uri()) {
        lemma_text_before_asymmetric(b.place_uri(), a.place_uri());
    }
}

/// What stands before `a` stands before all that does not stand before `a`.
proof fn lemma_before_and_not<T: Placed>(x: T, a: T, b: T)
    requires
        placed_before(x, a),
        !placed_before(b, a),
    ensures
        placed_before(x, b),
{
    let (u, v, w) = (x.place_uri(), a.place_uri(), b.place_uri());
    if text_before(v, w) {
        if text_before(u, v) {
            lemma_text_before_transitive(u, v, w);
        }
    } else {
        let m = if v.len() <= w.len() {
            v.len() as int
        } else {
            w.len() as int
        };
        lemma_text_before_total(v, w, m);
    }
}

/// What does not stand before `a` does not stand before what stands before `a`.
proof fn lemma_not_before_chain<T: Placed>(x: T, a: T, b: T)
    requires
        !placed_before(a, x),
        !placed_before(b, a),
    ensures
        !placed_before(b, x),
{
    if placed_before(b, x) {
        lemma_before_and_not(b, x, a);
    }
}

fn before<T: Placed>(a: &T, b: &T) -> (r: bool)
    ensures
        r == placed_before(*a, *b),
{
    if comes_before(a.uri_text(), b.uri_text()) {
        true
    } else if comes_before(b.uri_text(), a.uri_text()) {
        proof {
            lemma_text_before_asymmetric(b.place_uri(), a.place_uri());
        }
        false
    } else {
        proof {
            let (v, w) = (a.place_uri(), b.place_uri());
            let m = if v.len() <= w.len() {
                v.len() as int
            } else {
                w.len() as int
            };
            lemma_text_before_total(v, w, m);
        }
        a.start_line() < b.start_line()
    }
}

/// Where `x` goes in the list: behind all that it does not stand before.
fn upper_bound<T: Placed>(v: &Vec<T>, x: &T) -> (r: usize)
    requires
        in_order(v@),
    ensures
        r <= v@.len(),
        forall|i: int| 0 <= i < r ==> !placed_before(*x, #[trigger] v@[i]),
        forall|i: int| r <= i < v@.len() ==> placed_before(*x, #[trigger] v@[i]),
{
    let mut lo: usize = 0;
    let mut hi: usize = v.len();
    while lo < hi
        invariant
            lo <= hi <= v@.len(),
            in_order(v@),
            forall|i: int| 0 <= i < lo ==> !placed_before(*x, #[trigger] v@[i]),
            forall|i: int| hi <= i < v@.len() ==> placed_before(*x, #[trigger] v@[i]),
        decreases hi - lo,
    {
        let mid: usize = lo + (hi - lo) / 2;
        if before(x, &v[mid]) {
            assert forall|i: int| mid <= i < v@.len() implies placed_before(
                *x,
                #[trigger] v@[i],
            ) by {
                if i > mid {
                    lemma_before_and_not(*x, v@[mid as int], v@[i]);
                }
            }
            hi = mid;
        } else {
            assert forall|i: int| 0 <= i <= mid implies !placed_before(*x, #[trigger] v@[i]) by {
                if i < mid {
                    lemma_not_before_chain(v@[i], v@[mid as int], *x);
                }
            }
            lo = mid + 1;
        }
    }
    lo
}

/// Whether `x` occurs in the list, given where it would go.
fn occurs_below<T: Placed>(v: &Vec<T>, x: &T, at: usize) -> (r: bool)
    requires
        in_order(v@),
        at <= v@.len(),
        forall|i: int| at <= i < v@.len() ==> placed_before(*x, #[trigger] v@[i]),
    ensures
        r == holds(v@, x@),
{
    let mut i: usize = at;
    proof {
        assert forall|j: int| at <= j < v@.len() implies (#[trigger] v@[j])@ != x@ by {
            if v@[j]@ == x@ {
                v@[j].view_places(x);
                lemma_before_asymmetric(*x, v@[j]);
            }
        }
    }
    while i > 0
        invariant
            i <= at <= v@.len(),
            in_order(v@),
            forall|j: int| i <= j < v@.len() ==> (#[trigger] v@[j])@ != x@,
        decreases i,
    {
        if before(&v[i - 1], x) {
            assert forall|j: int| 0 <= j < v@.len() implies (#[trigger] v@[j])@ != x@ by {
                if j < i && v@[j]@ == x@ {
                    v@[j].view_places(x);
                    if j < i - 1 {
                        lemma_before_and_not(v@[i - 1], *x, v@[j]);
                        lemma_before_asymmetric(v@[i - 1], v@[j]);
                    }
                    lemma_before_asymmetric(v@[i - 1], *x);
                    assert(!placed_before(v@[i - 1], v@[j]));
                }
            }
            return false;
        }
        if v[i - 1].is_same(x) {
            assert(v@[i - 1]@ == x@);
            return true;
        }
        i = i - 1;
    }
    false
}

/// Puts `x` into the list, unless it is there: behind all that it does not stand
/// before.
pub fn insert_placed<T: Placed>(v: &mut Vec<T>, x: T)
    requires
        in_order(old(v)@),
        all_different(old(v)@),
    ensures
        in_order(final(v)@),
        all_different(final(v)@),
        holds(old(v)@, x@) ==> final(v)@ == old(v)@,
        !holds(old(v)@, x@) ==> exists|at: int| #[trigger]
            goes_at(old(v)@, x, at) && final(v)@ == old(v)@.insert(at, x),
{
    let at: usize = upper_bound(v, &x);
    if !occurs_below(v, &x, at) {
        let ghost s = v@;
        v.insert(at, x);
        assert(goes_at(s, x, at as int));
        proof {
            lemma_inserted(s, x, at as int);
        }
    }
}

/// `at` is the end of what `x` does not stand before.
pub open spec fn goes_at<T: Placed>(s: Seq<T>, x: T, at: int) -> bool {
    &&& 0 <= at <= s.len()
    &&& forall|i: int| 0 <= i < at ==> !placed_before(x, #[trigger] s[i])
    &&& forall|i: int| at <= i < s.len() ==> placed_before(x, #[trigger] s[i])
}

proof fn lemma_inserted<T: Placed>(s: Seq<T>, x: T, at: int)
    requires
        in_order(s),
        all_different(s),
        !holds(s, x@),
        goes_at(s, x, at),
    ensures
        in_order(s.insert(at, x)),
        all_different(s.insert(at, x)),
{
    let t = s.insert(at, x);
    assert forall|i: int, j: int| 0 <= i < j < t.len() implies !placed_before(
        #[trigger] t[j],
        #[trigger] t[i],
    ) && t[i]@ != t[j]@ by {
        let a = if i < at {
            i
        } else {
            i - 1
        };
        let b = if j < at {
            j
        } else {
            j - 1
        };
        if i == at {
            assert(t[j] == s[b]);
            lemma_before_asymmetric(x, s[b]);
            assert(s[b]@ != x@);
        } else if j == at {
            assert(t[i] == s[a]);
            assert(s[a]@ != x@);
        } else {
            assert(t[i] == s[a]);
            assert(t[j] == s[b]);
        }
    }
}

} // verus!
