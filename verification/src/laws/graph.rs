//! Graphs of calls.

use vstd::prelude::*;
use crate::indexing::index::FunctionId;
use crate::ui::callgraph::{are_links, at_positions, others, united, with, CallGraph};

verus! {

/// Uniting goes item by item: an item that is there already changes nothing, and
/// another one comes last.
pub proof fn items_are_united_one_by_one<T>(s: Seq<T>, a: Seq<T>, b: Seq<T>, x: T)
    ensures
        united(s, a + b) == united(united(s, a), b),
        united(s, Seq::empty()) == s,
        s.contains(x) ==> united(s, seq![x]) == s,
        !s.contains(x) ==> united(s, seq![x]) == s.push(x),
    decreases b.len(),
{
    let one = seq![x];
    assert(one.drop_last() =~= Seq::<T>::empty());
    assert(united(s, one.drop_last()) == s);
    assert(one.last() == x);
    if b.len() == 0 {
        assert(a + b =~= a);
    } else {
        assert((a + b).drop_last() =~= a + b.drop_last());
        assert((a + b).last() == b.last());
        items_are_united_one_by_one(s, a, b.drop_last(), x);
    }
}

/// What is united holds nothing twice that was not there twice before.
pub proof fn united_items_stay_different<T>(s: Seq<T>, items: Seq<T>)
    requires
        s.no_duplicates(),
    ensures
        united(s, items).no_duplicates(),
    decreases items.len(),
{
    if items.len() > 0 {
        united_items_stay_different(s, items.drop_last());
        let u = united(s, items.drop_last());
        let v = with(u, items.last());
        if !u.contains(items.last()) {
            assert forall|i: int, j: int|
                0 <= i < v.len() && 0 <= j < v.len() && i != j implies v[i] != v[j] by {
                if i < u.len() && j < u.len() {
                    assert(u[i] != u[j]);
                } else if i < u.len() {
                    assert(u.contains(u[i]));
                } else {
                    assert(u.contains(u[j]));
                }
            }
        }
    }
}

/// Leaving out a function goes item by item: that function leaves nothing, and any
/// other one stays, in its place.
pub proof fn items_are_left_out_one_by_one<T>(a: Seq<T>, b: Seq<T>, x: T, y: T)
    ensures
        others(a + b, x) == others(a, x) + others(b, x),
        others(Seq::empty(), x) == Seq::<T>::empty(),
        y == x ==> others(seq![y], x) == Seq::<T>::empty(),
        y != x ==> others(seq![y], x) == seq![y],
    decreases b.len(),
{
    let one = seq![y];
    assert(one.drop_last() =~= Seq::<T>::empty());
    assert(others(one.drop_last(), x) =~= Seq::<T>::empty());
    assert(one.last() == y);
    if y != x {
        assert(others(one, x) =~= seq![y]);
    }
    if b.len() == 0 {
        assert(a + b =~= a);
        assert(others(a, x) + others(b, x) =~= others(a, x));
    } else {
        assert((a + b).drop_last() =~= a + b.drop_last());
        assert((a + b).last() == b.last());
        items_are_left_out_one_by_one(a, b.drop_last(), x, y);
        assert(others(a + b, x) =~= others(a, x) + others(b, x));
    }
}

/// The callees of a function are the functions at the positions in its node's list
/// of outgoing calls, and its callers those in the other list, in their order.
pub proof fn links_lead_to_functions(g: CallGraph, i: int, k: int)
    requires
        g.well_formed(),
        0 <= i < g.elts@.len(),
    ensures
        g.functions().len() == g.elts@.len(),
        g.functions()[i] == g.elts@[i].f,
        g.callees(g.elts@[i].f).len() == g.elts@[i].outgoings@.len(),
        g.callers(g.elts@[i].f).len() == g.elts@[i].incomings@.len(),
        0 <= k < g.elts@[i].outgoings@.len() ==> {
            &&& g.elts@[i].outgoings@[k] < g.elts@.len()
            &&& g.elts@[i].outgoings@[k] != i
            &&& g.callees(g.elts@[i].f)[k] == g.elts@[g.elts@[i].outgoings@[k] as int].f
        },
        0 <= k < g.elts@[i].incomings@.len() ==> {
            &&& g.elts@[i].incomings@[k] < g.elts@.len()
            &&& g.elts@[i].incomings@[k] != i
            &&& g.callers(g.elts@[i].f)[k] == g.elts@[g.elts@[i].incomings@[k] as int].f
        },
{
    let functions = g.functions();
    let f = g.elts@[i].f;
    assert(functions[i] == f);
    assert(functions.contains(f));
    assert(functions.index_of(f) == i);
    assert(g.links(true, i) == g.elts@[i].outgoings@);
    assert(g.links(false, i) == g.elts@[i].incomings@);
    assert(are_links(g.links(true, i), i, g.elts@.len()));
    assert(are_links(g.links(false, i), i, g.elts@.len()));
}

/// Of a function that is not in the graph no calls are known, and no function is in
/// the graph twice.
pub proof fn nodes_are_found_by_their_function(g: CallGraph, f: FunctionId, i: int, j: int)
    requires
        g.well_formed(),
    ensures
        (forall|k: int| 0 <= k < g.elts@.len() ==> (#[trigger] g.elts@[k]).f != f) ==> g.callees(f)
            == Seq::<FunctionId>::empty() && g.callers(f) == Seq::<FunctionId>::empty(),
        0 <= i < j < g.elts@.len() ==> g.elts@[i].f != g.elts@[j].f,
{
    if forall|k: int| 0 <= k < g.elts@.len() ==> (#[trigger] g.elts@[k]).f != f {
        if g.functions().contains(f) {
            let k = choose|k: int| 0 <= k < g.functions().len() && g.functions()[k] == f;
            assert(g.elts@[k].f == f);
        }
    }
    if 0 <= i < j < g.elts@.len() {
        assert(g.functions()[i] != g.functions()[j]);
    }
}

/// Adding calls: the functions that were there keep their positions, and one more
/// call to a new function puts that function last and links it last.
pub proof fn one_more_call_comes_last(
    before: CallGraph,
    after: CallGraph,
    parent: FunctionId,
    forward: bool,
    f: FunctionId,
)
    requires
        after.extends(before, parent, forward, seq![f]),
        f != parent,
    ensures
        before.functions().contains(f) ==> after.functions() == before.functions(),
        !before.functions().contains(f) ==> after.functions() == before.functions().push(f),
        before.linked(forward, parent).contains(f) ==> after.linked(forward, parent)
            == before.linked(forward, parent),
        !before.linked(forward, parent).contains(f) ==> after.linked(forward, parent)
            == before.linked(forward, parent).push(f),
        after.linked(!forward, parent) == before.linked(!forward, parent),
{
    let none = Seq::<FunctionId>::empty();
    items_are_united_one_by_one(before.functions(), none, none, f);
    items_are_left_out_one_by_one(none, none, parent, f);
    items_are_united_one_by_one(before.linked(forward, parent), none, none, f);
}

/// Adding the calls of one list and then those of another is adding both at once.
pub proof fn calls_can_be_added_in_parts(
    before: CallGraph,
    middle: CallGraph,
    after: CallGraph,
    parent: FunctionId,
    forward: bool,
    a: Seq<FunctionId>,
    b: Seq<FunctionId>,
)
    requires
        middle.extends(before, parent, forward, a),
        after.extends(middle, parent, forward, b),
    ensures
        after.extends(before, parent, forward, a + b),
{
    items_are_united_one_by_one(before.functions(), a, b, parent);
    items_are_left_out_one_by_one(a, b, parent, parent);
    items_are_united_one_by_one(
        before.linked(forward, parent),
        others(a, parent),
        others(b, parent),
        parent,
    );
    assert forall|towards: bool, f: FunctionId|
        towards != forward || f != parent implies #[trigger] after.linked(towards, f)
        == before.linked(towards, f) by {
        assert(middle.linked(towards, f) == before.linked(towards, f));
    }
}

/// Adding no calls changes nothing, and adding the call of a function to itself
/// adds nothing for it.
pub proof fn nothing_comes_of_nothing(
    before: CallGraph,
    after: CallGraph,
    parent: FunctionId,
    forward: bool,
    items: Seq<FunctionId>,
)
    requires
        before.functions().contains(parent),
        after.extends(before, parent, forward, items),
        items == Seq::<FunctionId>::empty() || items == seq![parent],
    ensures
        after.functions() == before.functions(),
        forall|towards: bool, f: FunctionId| #[trigger]
            after.linked(towards, f) == before.linked(towards, f),
{
    let none = Seq::<FunctionId>::empty();
    items_are_united_one_by_one(before.functions(), none, none, parent);
    items_are_left_out_one_by_one(none, none, parent, parent);
    items_are_united_one_by_one(before.linked(forward, parent), none, none, parent);
    assert forall|towards: bool, f: FunctionId| #[trigger] after.linked(towards, f)
        == before.linked(towards, f) by {
        if towards == forward && f == parent {
            assert(others(items, parent) == none);
        }
    }
}

/// The positions name functions one by one.
pub proof fn positions_name_functions(functions: Seq<FunctionId>, positions: Seq<usize>, k: int)
    requires
        0 <= k < positions.len(),
    ensures
        at_positions(functions, positions).len() == positions.len(),
        at_positions(functions, positions)[k] == functions[positions[k] as int],
{
}

} // verus!
