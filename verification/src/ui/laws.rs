//! What holds of graphs of calls and of their exploration.

use vstd::prelude::*;
use crate::indexing::index::FunctionId;
use crate::ui::callgraph::{others, united, CallGraph};
use crate::ui::explore::{queued, Exploration};

verus! {

/// What is in `united`: what was there, and the items.
pub proof fn lemma_united_holds<T>(s: Seq<T>, items: Seq<T>, x: T)
    ensures
        united(s, items).contains(x) <==> s.contains(x) || items.contains(x),
        s.is_prefix_of(united(s, items)),
    decreases items.len(),
{
    if items.len() > 0 {
        let before = items.drop_last();
        let last = items.last();
        let u = united(s, before);
        lemma_united_holds(s, before, x);
        if before.contains(x) {
            let k = choose|k: int| 0 <= k < before.len() && before[k] == x;
            assert(items[k] == x);
        }
        if items.contains(x) && x != last {
            let k = choose|k: int| 0 <= k < items.len() && items[k] == x;
            assert(before[k] == x);
        }
        if last == x {
            assert(items[items.len() - 1] == x);
        }
        if !u.contains(last) {
            let v = u.push(last);
            assert(v[u.len() as int] == last);
            if u.contains(x) {
                let k = choose|k: int| 0 <= k < u.len() && u[k] == x;
                assert(v[k] == x);
            }
            if v.contains(x) && x != last {
                let k = choose|k: int| 0 <= k < v.len() && v[k] == x;
                assert(u[k] == x);
            }
            assert(s =~= u.take(s.len() as int));
            assert(s =~= v.take(s.len() as int));
        }
    } else {
        assert(s =~= s.take(s.len() as int));
    }
}

proof fn lemma_others_hold<T>(items: Seq<T>, x: T, y: T)
    ensures
        others(items, x).contains(y) <==> items.contains(y) && y != x,
    decreases items.len(),
{
    if items.len() > 0 {
        let before = items.drop_last();
        let last = items.last();
        lemma_others_hold(before, x, y);
        if before.contains(y) {
            let k = choose|k: int| 0 <= k < before.len() && before[k] == y;
            assert(items[k] == y);
        }
        if items.contains(y) && y != last {
            let k = choose|k: int| 0 <= k < items.len() && items[k] == y;
            assert(before[k] == y);
        }
        let o = others(before, x);
        if last == y {
            assert(items[items.len() - 1] == y);
        }
        if last != x {
            let p = o.push(last);
            assert(p[o.len() as int] == last);
            if o.contains(y) {
                let k = choose|k: int| 0 <= k < o.len() && o[k] == y;
                assert(p[k] == y);
            }
            if p.contains(y) && y != last {
                let k = choose|k: int| 0 <= k < p.len() && p[k] == y;
                assert(o[k] == y);
            }
        }
    }
}

proof fn lemma_united_settled<T>(s: Seq<T>, items: Seq<T>)
    requires
        forall|k: int| 0 <= k < items.len() ==> s.contains(#[trigger] items[k]),
    ensures
        united(s, items) == s,
    decreases items.len(),
{
    if items.len() > 0 {
        let before = items.drop_last();
        assert forall|k: int| 0 <= k < before.len() implies s.contains(#[trigger] before[k]) by {
            assert(items[k] == before[k]);
        }
        lemma_united_settled(s, before);
        assert(s.contains(items[items.len() - 1]));
    }
}

/// What a graph has learnt: the functions named, and the calls named but for
/// those of a function to itself.
pub proof fn added_calls_are_known(
    before: CallGraph,
    after: CallGraph,
    parent: FunctionId,
    forward: bool,
    items: Seq<FunctionId>,
    f: FunctionId,
)
    requires
        after.extends(before, parent, forward, items),
    ensures
        after.functions().contains(f) <==> before.functions().contains(f) || items.contains(f),
        after.linked(forward, parent).contains(f) <==> before.linked(forward, parent).contains(f)
            || items.contains(f) && f != parent,
{
    lemma_united_holds(before.functions(), items, f);
    lemma_united_holds(before.linked(forward, parent), others(items, parent), f);
    lemma_others_hold(items, parent, f);
}

/// A graph forgets nothing: functions keep their positions, and calls stay.
pub proof fn known_calls_stay(
    before: CallGraph,
    after: CallGraph,
    parent: FunctionId,
    forward: bool,
    items: Seq<FunctionId>,
)
    requires
        after.extends(before, parent, forward, items),
    ensures
        before.functions().is_prefix_of(after.functions()),
        forall|towards: bool, f: FunctionId|
            before.linked(towards, f).is_prefix_of(#[trigger] after.linked(towards, f)),
{
    lemma_united_holds(before.functions(), items, parent);
    lemma_united_holds(before.linked(forward, parent), others(items, parent), parent);
    assert forall|towards: bool, f: FunctionId|
        before.linked(towards, f).is_prefix_of(#[trigger] after.linked(towards, f)) by {
        let s = before.linked(towards, f);
        assert(s =~= s.take(s.len() as int));
    }
}

/// Adding the same calls again changes nothing.
pub proof fn adding_twice_is_adding_once(
    before: CallGraph,
    once: CallGraph,
    twice: CallGraph,
    parent: FunctionId,
    forward: bool,
    items: Seq<FunctionId>,
)
    requires
        once.extends(before, parent, forward, items),
        twice.extends(once, parent, forward, items),
    ensures
        twice.functions() == once.functions(),
        forall|towards: bool, f: FunctionId| #[trigger]
            twice.linked(towards, f) == once.linked(towards, f),
{
    assert forall|k: int| 0 <= k < items.len() implies once.functions().contains(
        #[trigger] items[k],
    ) by {
        lemma_united_holds(before.functions(), items, items[k]);
    }
    lemma_united_settled(once.functions(), items);
    let o = others(items, parent);
    assert forall|k: int| 0 <= k < o.len() implies once.linked(forward, parent).contains(
        #[trigger] o[k],
    ) by {
        lemma_united_holds(before.linked(forward, parent), o, o[k]);
    }
    lemma_united_settled(once.linked(forward, parent), o);
}

/// A function that waits to be gone on from, with `n` steps in one direction.
pub open spec fn waiting(f: FunctionId, forward: bool, n: nat) -> (FunctionId, usize, usize) {
    if forward {
        (f, n as usize, 0)
    } else {
        (f, 0, n as usize)
    }
}

/// In one direction, what is within `n` steps of `f` by the given calls is in the
/// graph or will come from the functions that wait.
pub open spec fn is_covered(
    e: Exploration,
    forward: bool,
    calls: spec_fn(FunctionId) -> Seq<FunctionId>,
    f: FunctionId,
    n: nat,
) -> bool
    decreases n,
{
    ||| n == 0
    ||| n <= usize::MAX && e.todos@.contains(waiting(f, forward, n))
    ||| forall|k: int|
        #![trigger calls(f)[k]]
        0 <= k < calls(f).len() ==> {
            &&& calls(f)[k] == f || e.graph.linked(forward, f).contains(calls(f)[k])
            &&& n > 0 && is_covered(e, forward, calls, calls(f)[k], (n - 1) as nat)
        }
}

/// A new exploration covers its function, both ways.
pub proof fn a_new_exploration_covers_its_function(
    e: Exploration,
    callers: spec_fn(FunctionId) -> Seq<FunctionId>,
    callees: spec_fn(FunctionId) -> Seq<FunctionId>,
    f: FunctionId,
    forward: usize,
    backward: usize,
)
    requires
        e.todos@ == seq![(f, forward, 0usize), (f, 0usize, backward)],
    ensures
        is_covered(e, true, callees, f, forward as nat),
        is_covered(e, false, callers, f, backward as nat),
{
    assert(e.todos@[0] == waiting(f, true, forward as nat));
    assert(e.todos@[1] == waiting(f, false, backward as nat));
}

proof fn lemma_step_keeps_calls(
    before: Exploration,
    after: Exploration,
    incomings: Seq<FunctionId>,
    outgoings: Seq<FunctionId>,
    towards: bool,
    f: FunctionId,
    g: FunctionId,
)
    requires
        before.todos@.len() > 0,
        before.is_followed_by(after, incomings, outgoings),
        before.graph.linked(towards, f).contains(g),
    ensures
        after.graph.linked(towards, f).contains(g),
{
    let (first, forward, backward) = before.todos@[0];
    if forward > 0 {
        known_calls_stay(before.graph, after.graph, first, true, outgoings);
    } else if backward > 0 {
        known_calls_stay(before.graph, after.graph, first, false, incomings);
    }
    let s = before.graph.linked(towards, f);
    let t = after.graph.linked(towards, f);
    let k = choose|k: int| 0 <= k < s.len() && s[k] == g;
    assert(s.is_prefix_of(t)) by {
        assert(s =~= s.take(s.len() as int));
    }
    assert(t.take(s.len() as int)[k] == g);
    assert(t[k] == g);
}

/// An exploration that is told the calls of its next function goes on to cover
/// whatever it covered.
pub proof fn absorbing_keeps_coverage(
    before: Exploration,
    after: Exploration,
    callers: spec_fn(FunctionId) -> Seq<FunctionId>,
    callees: spec_fn(FunctionId) -> Seq<FunctionId>,
    towards: bool,
    f: FunctionId,
    n: nat,
)
    requires
        before.todos@.len() > 0,
        before.is_followed_by(after, callers(before.todos@[0].0), callees(before.todos@[0].0)),
        is_covered(before, towards, if towards {
            callees
        } else {
            callers
        }, f, n),
    ensures
        is_covered(after, towards, if towards {
            callees
        } else {
            callers
        }, f, n),
    decreases n,
{
    let calls = if towards {
        callees
    } else {
        callers
    };
    let (first, forward, backward) = before.todos@[0];
    let incomings = callers(first);
    let outgoings = callees(first);
    let rest = before.todos@.skip(1);
    let w = waiting(f, towards, n);
    if n > 0 {
        if n <= usize::MAX && before.todos@.contains(w) {
            let k = choose|k: int| 0 <= k < before.todos@.len() && before.todos@[k] == w;
            if k > 0 {
                assert(rest[k - 1] == w);
                assert(after.todos@[k - 1] == w);
                assert(after.todos@.contains(w));
            } else {
                assert(first == f);
                let items = calls(f);
                assert forall|j: int| 0 <= j < items.len() implies {
                    &&& (#[trigger] items[j]) == f || after.graph.linked(towards, f).contains(
                        items[j],
                    )
                    &&& n > 0 && is_covered(after, towards, calls, items[j], (n - 1) as nat)
                } by {
                    added_calls_are_known(before.graph, after.graph, f, towards, items, items[j]);
                    let q = if towards {
                        queued(items, n - 1, 0)
                    } else {
                        queued(items, 0, n - 1)
                    };
                    assert(q[j] == waiting(items[j], towards, (n - 1) as nat));
                    assert(after.todos@[rest.len() + j] == q[j]);
                }
            }
        } else {
            let items = calls(f);
            assert forall|j: int| 0 <= j < items.len() implies {
                &&& (#[trigger] items[j]) == f || after.graph.linked(towards, f).contains(items[j])
                &&& n > 0 && is_covered(after, towards, calls, items[j], (n - 1) as nat)
            } by {
                if items[j] != f {
                    lemma_step_keeps_calls(
                        before,
                        after,
                        incomings,
                        outgoings,
                        towards,
                        f,
                        items[j],
                    );
                }
                absorbing_keeps_coverage(
                    before,
                    after,
                    callers,
                    callees,
                    towards,
                    items[j],
                    (n - 1) as nat,
                );
            }
        }
    }
}

/// A way from function to function by the given calls.
pub open spec fn is_way(
    calls: spec_fn(FunctionId) -> Seq<FunctionId>,
    way: Seq<FunctionId>,
) -> bool {
    forall|i: int| 0 <= i < way.len() - 1 ==> calls(#[trigger] way[i]).contains(way[i + 1])
}

/// Once nothing waits any more, the graph holds each call on each way of `n`
/// steps at most from a covered function, but for those of a function to itself.
pub proof fn a_finished_exploration_is_complete(
    e: Exploration,
    forward: bool,
    calls: spec_fn(FunctionId) -> Seq<FunctionId>,
    way: Seq<FunctionId>,
    n: nat,
    i: int,
)
    requires
        e.todos@.len() == 0,
        is_way(calls, way),
        0 <= i < way.len() - 1 <= n,
        is_covered(e, forward, calls, way[0], n),
    ensures
        way[i + 1] == way[i] || e.graph.linked(forward, way[i]).contains(way[i + 1]),
    decreases n,
{
    let f = way[0];
    assert(calls(way[0]).contains(way[0int + 1]));
    let items = calls(f);
    let k = choose|k: int| 0 <= k < items.len() && items[k] == way[1];
    assert(!e.todos@.contains(waiting(f, forward, n)));
    assert(is_covered(e, forward, calls, items[k], (n - 1) as nat));
    if i > 0 {
        let rest = way.skip(1);
        assert forall|j: int| 0 <= j < rest.len() - 1 implies calls(#[trigger] rest[j]).contains(
            rest[j + 1],
        ) by {
            assert(calls(way[j + 1]).contains(way[j + 1 + 1]));
        }
        a_finished_exploration_is_complete(e, forward, calls, rest, (n - 1) as nat, i - 1);
    }
}

/// What a step adds to the graph are calls of the function it was told about.
pub proof fn absorbing_adds_only_calls(
    before: Exploration,
    after: Exploration,
    incomings: Seq<FunctionId>,
    outgoings: Seq<FunctionId>,
    towards: bool,
    f: FunctionId,
    g: FunctionId,
)
    requires
        before.todos@.len() > 0,
        before.is_followed_by(after, incomings, outgoings),
        after.graph.linked(towards, f).contains(g),
        !before.graph.linked(towards, f).contains(g),
    ensures
        f == before.todos@[0].0,
        g != f,
        if towards {
            outgoings.contains(g)
        } else {
            incomings.contains(g)
        },
{
    let (first, forward, backward) = before.todos@[0];
    if forward > 0 {
        added_calls_are_known(before.graph, after.graph, first, true, outgoings, g);
    } else if backward > 0 {
        added_calls_are_known(before.graph, after.graph, first, false, incomings, g);
    }
}

/// The steps that it takes at most to go on for `n` steps from one function, where
/// none has more than `width` calls.
pub open spec fn weight(n: nat, width: nat) -> nat
    decreases n,
{
    if n == 0 {
        1
    } else {
        1 + width * weight((n - 1) as nat, width)
    }
}

/// The steps that it takes at most to go on from all functions that wait.
pub open spec fn work(todos: Seq<(FunctionId, usize, usize)>, width: nat) -> nat
    decreases todos.len(),
{
    if todos.len() == 0 {
        0
    } else {
        work(todos.drop_last(), width) + weight((todos.last().1 + todos.last().2) as nat, width)
    }
}

proof fn lemma_work_adds(
    a: Seq<(FunctionId, usize, usize)>,
    b: Seq<(FunctionId, usize, usize)>,
    width: nat,
)
    ensures
        work(a + b, width) == work(a, width) + work(b, width),
    decreases b.len(),
{
    if b.len() == 0 {
        assert(a + b =~= a);
    } else {
        assert((a + b).drop_last() =~= a + b.drop_last());
        lemma_work_adds(a, b.drop_last(), width);
    }
}

proof fn lemma_work_queued(items: Seq<FunctionId>, forward: int, backward: int, width: nat)
    requires
        0 <= forward <= usize::MAX,
        0 <= backward <= usize::MAX,
    ensures
        work(queued(items, forward, backward), width) == items.len() * weight(
            (forward + backward) as nat,
            width,
        ),
    decreases items.len(),
{
    let w = weight((forward + backward) as nat, width);
    if items.len() > 0 {
        let before = items.drop_last();
        assert(queued(items, forward, backward).drop_last() =~= queued(before, forward, backward));
        lemma_work_queued(before, forward, backward, width);
        assert((items.len() - 1) * w + w == items.len() * w) by (nonlinear_arith);
    } else {
        assert(0 * w == 0);
    }
}

/// Explorations end: each step leaves less to do, where no function has more than
/// `width` calls.
pub proof fn absorbing_leaves_less_to_do(
    before: Exploration,
    after: Exploration,
    incomings: Seq<FunctionId>,
    outgoings: Seq<FunctionId>,
    width: nat,
)
    requires
        before.well_formed(),
        before.todos@.len() > 0,
        before.is_followed_by(after, incomings, outgoings),
        incomings.len() <= width,
        outgoings.len() <= width,
    ensures
        work(after.todos@, width) < work(before.todos@, width),
{
    let (first, forward, backward) = before.todos@[0];
    let rest = before.todos@.skip(1);
    let head = seq![before.todos@[0]];
    assert(before.todos@ =~= head + rest);
    lemma_work_adds(head, rest, width);
    assert(head.drop_last() =~= Seq::empty());
    assert(work(head.drop_last(), width) == 0);
    let n = (forward + backward) as nat;
    assert(work(head, width) == weight(n, width));
    if n > 0 {
        let items = if forward > 0 {
            outgoings
        } else {
            incomings
        };
        let (x, y) = if forward > 0 {
            (forward - 1, backward as int)
        } else {
            (forward as int, backward - 1)
        };
        let w = weight((n - 1) as nat, width);
        lemma_work_adds(rest, queued(items, x, y), width);
        lemma_work_queued(items, x, y, width);
        assert(items.len() * w <= width * w) by (nonlinear_arith)
            requires
                items.len() <= width,
        ;
    }
}

} // verus!
