//! The order of documents and lines.

use vstd::prelude::*;
use vstd::std_specs::cmp::PartialEqSpec;
use vstd::std_specs::convert::FromSpec;
use crate::indexing::index::FunctionId;
use crate::indexing::placed::{all_different, goes_at, holds, in_order, placed_before, Placed};
use crate::indexing::symbols::{CallSite, Function};
use crate::text::text_before;

verus! {

/// A function stands before another where its document comes first, or in the same
/// document where its line comes first; so does a call site.
pub proof fn documents_come_before_lines(f: Function, g: Function, a: CallSite, b: CallSite)
    ensures
        placed_before(f, g) <==> {
            ||| text_before(f.0.uri@, g.0.uri@)
            ||| f.0.uri@ == g.0.uri@ && f.0.range.start.line < g.0.range.start.line
        },
        placed_before(a, b) <==> {
            ||| text_before(a.0.uri@, b.0.uri@)
            ||| a.0.uri@ == b.0.uri@ && a.0.range.start.line < b.0.range.start.line
        },
{
}

/// A list is in order where no item stands before an earlier one, and holds nothing
/// twice where all of its items look different.
pub proof fn lists_are_in_order_pair_by_pair<T: Placed>(s: Seq<T>, v: T::V)
    ensures
        in_order(s) <==> forall|i: int, j: int|
            0 <= i < j < s.len() ==> !placed_before(#[trigger] s[j], #[trigger] s[i]),
        all_different(s) <==> forall|i: int, j: int|
            0 <= i < j < s.len() ==> (#[trigger] s[i])@ != (#[trigger] s[j])@,
        holds(s, v) <==> exists|i: int| 0 <= i < s.len() && (#[trigger] s[i])@ == v,
{
}

/// A new item goes behind all that it does not stand before, and before all that it
/// stands before: there is one such place at most.
pub proof fn new_items_have_one_place<T: Placed>(s: Seq<T>, x: T, at: int, other: int)
    requires
        goes_at(s, x, at),
    ensures
        0 <= at <= s.len(),
        at > 0 ==> !placed_before(x, s[at - 1]),
        at < s.len() ==> placed_before(x, s[at]),
        goes_at(s, x, other) ==> other == at,
{
    if at > 0 {
        let i = at - 1;
        assert(!placed_before(x, s[i]));
    }
    if goes_at(s, x, other) {
        if other < at {
            assert(placed_before(x, s[other]));
        }
        if at < other {
            assert(placed_before(x, s[at]));
        }
    }
}

/// Functions are equal where they look the same, as are call sites. Numbers of
/// functions are equal where the numbers are.
pub proof fn equality_goes_by_looks(
    f: Function,
    g: Function,
    a: CallSite,
    b: CallSite,
    x: FunctionId,
    y: FunctionId,
)
    ensures
        Function::obeys_eq_spec(),
        CallSite::obeys_eq_spec(),
        f.eq_spec(&g) <==> f@ == g@,
        a.eq_spec(&b) <==> a@ == b@,
        x == y <==> x.0 == y.0,
{
}

/// The number of a function is the number that it was made of.
pub proof fn numbers_stay_as_they_are(i: usize)
    ensures
        <FunctionId as FromSpec<usize>>::obeys_from_spec(),
        <FunctionId as FromSpec<usize>>::from_spec(i).0 == i,
{
}

} // verus!
