//! What holds of the exploration of a function, from its start to its end.

use vstd::prelude::*;
use crate::indexing::index::FunctionId;
use crate::ui::callgraph::are_links;
use crate::ui::explore::{queued, Exploration};
use crate::ui::laws::{
    a_finished_exploration_is_complete, a_new_exploration_covers_its_function,
    absorbing_adds_only_calls, absorbing_keeps_coverage, added_calls_are_known, is_covered,
    is_way,
};
use crate::ui::session::Ui;

verus! {

/// What is known of calls is true: `callers` and `callees` give the calls to and
/// from each function.
pub open spec fn agrees(
    ui: Ui,
    callers: spec_fn(FunctionId) -> Seq<FunctionId>,
    callees: spec_fn(FunctionId) -> Seq<FunctionId>,
) -> bool {
    forall|f: FunctionId| #[trigger]
        ui.known_calls(f) matches Some(calls) ==> calls.0 == callers(f) && calls.1 == callees(f)
}

/// The calls in one direction.
pub open spec fn calls_towards(
    callers: spec_fn(FunctionId) -> Seq<FunctionId>,
    callees: spec_fn(FunctionId) -> Seq<FunctionId>,
    forward: bool,
) -> spec_fn(FunctionId) -> Seq<FunctionId> {
    if forward {
        callees
    } else {
        callers
    }
}

/// Each link of the graph is a call, from one function to another.
pub open spec fn holds_only_calls(
    e: Exploration,
    callers: spec_fn(FunctionId) -> Seq<FunctionId>,
    callees: spec_fn(FunctionId) -> Seq<FunctionId>,
) -> bool {
    forall|forward: bool, f: FunctionId, g: FunctionId| #[trigger]
        e.graph.linked(forward, f).contains(g) ==> g != f && calls_towards(
            callers,
            callees,
            forward,
        )(f).contains(g)
}

/// An exploration goes on to cover whatever it covered, and to hold only calls,
/// over any number of steps.
pub proof fn runs_keep_coverage(
    ui: Ui,
    before: Exploration,
    after: Exploration,
    steps: nat,
    callers: spec_fn(FunctionId) -> Seq<FunctionId>,
    callees: spec_fn(FunctionId) -> Seq<FunctionId>,
    forward: bool,
    f: FunctionId,
    n: nat,
)
    requires
        ui.runs_to(before, after, steps),
        agrees(ui, callers, callees),
    ensures
        is_covered(before, forward, calls_towards(callers, callees, forward), f, n) ==> is_covered(
            after,
            forward,
            calls_towards(callers, callees, forward),
            f,
            n,
        ),
        holds_only_calls(before, callers, callees) ==> holds_only_calls(after, callers, callees),
    decreases steps,
{
    if steps > 0 {
        let middle = choose|middle: Exploration|
            ui.runs_to(before, middle, (steps - 1) as nat) && #[trigger] ui.steps_to(
                middle,
                after,
            );
        runs_keep_coverage(
            ui,
            before,
            middle,
            (steps - 1) as nat,
            callers,
            callees,
            forward,
            f,
            n,
        );
        let first = middle.todos@[0].0;
        let calls = ui.known_calls(first)->0;
        assert(calls.0 == callers(first) && calls.1 == callees(first));
        if is_covered(middle, forward, calls_towards(callers, callees, forward), f, n) {
            absorbing_keeps_coverage(middle, after, callers, callees, forward, f, n);
        }
        if holds_only_calls(middle, callers, callees) {
            assert forall|towards: bool, x: FunctionId, y: FunctionId| #[trigger]
                after.graph.linked(towards, x).contains(y) implies y != x && calls_towards(
                callers,
                callees,
                towards,
            )(x).contains(y) by {
                if !middle.graph.linked(towards, x).contains(y) {
                    absorbing_adds_only_calls(middle, after, calls.0, calls.1, towards, x, y);
                }
            }
        }
    }
}

/// A new exploration covers its function for as many steps as it is to take, and
/// holds no calls yet.
pub proof fn explorations_start_covered(
    e: Exploration,
    callers: spec_fn(FunctionId) -> Seq<FunctionId>,
    callees: spec_fn(FunctionId) -> Seq<FunctionId>,
    f: FunctionId,
    forward: usize,
    backward: usize,
)
    requires
        e.graph.functions() == seq![f],
        e.graph.callees(f) == Seq::<FunctionId>::empty(),
        e.graph.callers(f) == Seq::<FunctionId>::empty(),
        e.todos@ == seq![(f, forward, 0usize), (f, 0usize, backward)],
    ensures
        is_covered(e, true, callees, f, forward as nat),
        is_covered(e, false, callers, f, backward as nat),
        holds_only_calls(e, callers, callees),
{
    a_new_exploration_covers_its_function(e, callers, callees, f, forward, backward);
    assert forall|towards: bool, x: FunctionId, y: FunctionId| #[trigger]
        e.graph.linked(towards, x).contains(y) implies y != x && calls_towards(
        callers,
        callees,
        towards,
    )(x).contains(y) by {
        if e.graph.functions().contains(x) {
            assert(x == f);
            if towards {
                assert(e.graph.linked(towards, x) == e.graph.callees(f));
            } else {
                assert(e.graph.linked(towards, x) == e.graph.callers(f));
            }
        }
    }
}

/// Of the calls on a way of `n` steps at most from a covered function, an
/// exploration at its end holds exactly those from one function to another.
pub proof fn explored_calls_are_the_calls(
    e: Exploration,
    callers: spec_fn(FunctionId) -> Seq<FunctionId>,
    callees: spec_fn(FunctionId) -> Seq<FunctionId>,
    forward: bool,
    way: Seq<FunctionId>,
    n: nat,
    i: int,
)
    requires
        e.todos@.len() == 0,
        holds_only_calls(e, callers, callees),
        is_way(calls_towards(callers, callees, forward), way),
        0 <= i < way.len() - 1 <= n,
        is_covered(e, forward, calls_towards(callers, callees, forward), way[0], n),
    ensures
        e.graph.linked(forward, way[i]).contains(way[i + 1]) <==> way[i + 1] != way[i],
{
    a_finished_exploration_is_complete(
        e,
        forward,
        calls_towards(callers, callees, forward),
        way,
        n,
        i,
    );
}

/// A way from `f` to `g` of at most `n` steps.
pub open spec fn leads_within(
    calls: spec_fn(FunctionId) -> Seq<FunctionId>,
    way: Seq<FunctionId>,
    f: FunctionId,
    g: FunctionId,
    n: int,
) -> bool {
    &&& is_way(calls, way)
    &&& 1 <= way.len() <= n + 1
    &&& way[0] == f
    &&& way.last() == g
}

/// `g` is at most `n` steps away from `f`.
pub open spec fn is_within(
    calls: spec_fn(FunctionId) -> Seq<FunctionId>,
    f: FunctionId,
    g: FunctionId,
    n: int,
) -> bool {
    exists|way: Seq<FunctionId>| leads_within(calls, way, f, g, n)
}

/// What is in the graph and what waits is not too far away from `f`: of what waits
/// with `k` steps to go on, `k` steps less than may be taken; of what is in the
/// graph, as many as may be taken; of what has links, at least one less.
pub open spec fn is_near(
    e: Exploration,
    callers: spec_fn(FunctionId) -> Seq<FunctionId>,
    callees: spec_fn(FunctionId) -> Seq<FunctionId>,
    f: FunctionId,
    forward: int,
    backward: int,
) -> bool {
    &&& e.graph.functions().contains(f)
    &&& forall|k: int|
        0 <= k < e.todos@.len() ==> (#[trigger] e.todos@[k]).1 == 0 || e.todos@[k].2 == 0
    &&& forall|g: FunctionId| #[trigger]
        e.graph.functions().contains(g) ==> is_within(callees, f, g, forward) || is_within(
            callers,
            f,
            g,
            backward,
        )
    &&& forall|g: FunctionId, h: FunctionId| #[trigger]
        e.graph.linked(true, g).contains(h) ==> is_within(callees, f, g, forward - 1)
    &&& forall|g: FunctionId, h: FunctionId| #[trigger]
        e.graph.linked(false, g).contains(h) ==> is_within(callers, f, g, backward - 1)
    &&& forall|k: int|
        0 <= k < e.todos@.len() && (#[trigger] e.todos@[k]).1 > 0 ==> is_within(
            callees,
            f,
            e.todos@[k].0,
            forward - e.todos@[k].1,
        )
    &&& forall|k: int|
        0 <= k < e.todos@.len() && (#[trigger] e.todos@[k]).2 > 0 ==> is_within(
            callers,
            f,
            e.todos@[k].0,
            backward - e.todos@[k].2,
        )
}

proof fn lemma_one_step_further(
    calls: spec_fn(FunctionId) -> Seq<FunctionId>,
    f: FunctionId,
    g: FunctionId,
    h: FunctionId,
    n: int,
)
    requires
        is_within(calls, f, g, n),
        calls(g).contains(h),
    ensures
        is_within(calls, f, h, n + 1),
{
    let way = choose|way: Seq<FunctionId>| leads_within(calls, way, f, g, n);
    let longer = way.push(h);
    assert forall|i: int| 0 <= i < longer.len() - 1 implies calls(#[trigger] longer[i]).contains(
        longer[i + 1],
    ) by {
        if i < way.len() - 1 {
            assert(calls(way[i]).contains(way[i + 1]));
        }
    }
    let m = n + 1;
    assert(leads_within(calls, longer, f, h, m));
}

proof fn lemma_further_is_within(
    calls: spec_fn(FunctionId) -> Seq<FunctionId>,
    f: FunctionId,
    g: FunctionId,
    m: int,
    n: int,
)
    requires
        is_within(calls, f, g, m),
        m <= n,
    ensures
        is_within(calls, f, g, n),
{
    let way = choose|way: Seq<FunctionId>| leads_within(calls, way, f, g, m);
    assert(leads_within(calls, way, f, g, n));
}

proof fn lemma_step_stays_near(
    before: Exploration,
    after: Exploration,
    callers: spec_fn(FunctionId) -> Seq<FunctionId>,
    callees: spec_fn(FunctionId) -> Seq<FunctionId>,
    f: FunctionId,
    forward: int,
    backward: int,
)
    requires
        before.todos@.len() > 0,
        before.is_followed_by(after, callers(before.todos@[0].0), callees(before.todos@[0].0)),
        is_near(before, callers, callees, f, forward, backward),
    ensures
        is_near(after, callers, callees, f, forward, backward),
{
    let (first, x, y) = before.todos@[0];
    let rest = before.todos@.skip(1);
    let incomings = callers(first);
    let outgoings = callees(first);
    assert(before.todos@[0].1 == x && before.todos@[0].2 == y);
    if x > 0 {
        added_calls_are_known(before.graph, after.graph, first, true, outgoings, f);
    } else if y > 0 {
        added_calls_are_known(before.graph, after.graph, first, false, incomings, f);
    }
    assert forall|g: FunctionId| #[trigger] after.graph.functions().contains(g) implies is_within(
        callees,
        f,
        g,
        forward,
    ) || is_within(callers, f, g, backward) by {
        if !before.graph.functions().contains(g) {
            if x > 0 {
                added_calls_are_known(before.graph, after.graph, first, true, outgoings, g);
                lemma_one_step_further(callees, f, first, g, forward - x);
                lemma_further_is_within(callees, f, g, forward - x + 1, forward);
            } else {
                added_calls_are_known(before.graph, after.graph, first, false, incomings, g);
                lemma_one_step_further(callers, f, first, g, backward - y);
                lemma_further_is_within(callers, f, g, backward - y + 1, backward);
            }
        }
    }
    assert forall|g: FunctionId, h: FunctionId| #[trigger]
        after.graph.linked(true, g).contains(h) implies is_within(callees, f, g, forward - 1) by {
        if !before.graph.linked(true, g).contains(h) {
            absorbing_adds_only_calls(before, after, incomings, outgoings, true, g, h);
            if x > 0 {
                lemma_further_is_within(callees, f, g, forward - x, forward - 1);
            } else {
                lemma_other_direction_stays(before, after, incomings, outgoings, true, g);
            }
        }
    }
    assert forall|g: FunctionId, h: FunctionId| #[trigger]
        after.graph.linked(false, g).contains(h) implies is_within(
        callers,
        f,
        g,
        backward - 1,
    ) by {
        if !before.graph.linked(false, g).contains(h) {
            absorbing_adds_only_calls(before, after, incomings, outgoings, false, g, h);
            if x == 0 && y > 0 {
                lemma_further_is_within(callers, f, g, backward - y, backward - 1);
            } else {
                lemma_other_direction_stays(before, after, incomings, outgoings, false, g);
            }
        }
    }
    lemma_queue_stays_near(before, after, callers, callees, f, forward, backward);
}

proof fn lemma_other_direction_stays(
    before: Exploration,
    after: Exploration,
    incomings: Seq<FunctionId>,
    outgoings: Seq<FunctionId>,
    towards: bool,
    g: FunctionId,
)
    requires
        before.todos@.len() > 0,
        before.is_followed_by(after, incomings, outgoings),
        towards ==> before.todos@[0].1 == 0,
        !towards ==> before.todos@[0].1 > 0 || before.todos@[0].2 == 0,
    ensures
        after.graph.linked(towards, g) == before.graph.linked(towards, g),
{
}

proof fn lemma_queue_stays_near(
    before: Exploration,
    after: Exploration,
    callers: spec_fn(FunctionId) -> Seq<FunctionId>,
    callees: spec_fn(FunctionId) -> Seq<FunctionId>,
    f: FunctionId,
    forward: int,
    backward: int,
)
    requires
        before.todos@.len() > 0,
        before.is_followed_by(after, callers(before.todos@[0].0), callees(before.todos@[0].0)),
        is_near(before, callers, callees, f, forward, backward),
    ensures
        forall|k: int|
            0 <= k < after.todos@.len() ==> (#[trigger] after.todos@[k]).1 == 0
                || after.todos@[k].2 == 0,
        forall|k: int|
            0 <= k < after.todos@.len() && (#[trigger] after.todos@[k]).1 > 0 ==> is_within(
                callees,
                f,
                after.todos@[k].0,
                forward - after.todos@[k].1,
            ),
        forall|k: int|
            0 <= k < after.todos@.len() && (#[trigger] after.todos@[k]).2 > 0 ==> is_within(
                callers,
                f,
                after.todos@[k].0,
                backward - after.todos@[k].2,
            ),
{
    let (first, x, y) = before.todos@[0];
    let rest = before.todos@.skip(1);
    let n = rest.len();
    assert(before.todos@[0].1 == x && before.todos@[0].2 == y);
    assert forall|k: int| 0 <= k < after.todos@.len() implies {
        &&& (#[trigger] after.todos@[k]).1 == 0 || after.todos@[k].2 == 0
        &&& after.todos@[k].1 > 0 ==> is_within(
            callees,
            f,
            after.todos@[k].0,
            forward - after.todos@[k].1,
        )
        &&& after.todos@[k].2 > 0 ==> is_within(
            callers,
            f,
            after.todos@[k].0,
            backward - after.todos@[k].2,
        )
    } by {
        if k < n {
            assert(after.todos@[k] == before.todos@[k + 1]);
        } else {
            let g = after.todos@[k].0;
            if x > 0 {
                let items = callees(first);
                assert(after.todos@[k] == queued(items, x - 1, y as int)[k - n]);
                assert(items[k - n] == g);
                lemma_one_step_further(callees, f, first, g, forward - x);
            } else {
                let items = callers(first);
                assert(after.todos@[k] == queued(items, x as int, y - 1)[k - n]);
                assert(items[k - n] == g);
                lemma_one_step_further(callers, f, first, g, backward - y);
            }
        }
    }
}

/// A new exploration of `f` is near it.
pub proof fn explorations_start_near(
    e: Exploration,
    callers: spec_fn(FunctionId) -> Seq<FunctionId>,
    callees: spec_fn(FunctionId) -> Seq<FunctionId>,
    f: FunctionId,
    forward: usize,
    backward: usize,
)
    requires
        e.graph.functions() == seq![f],
        e.graph.callees(f) == Seq::<FunctionId>::empty(),
        e.graph.callers(f) == Seq::<FunctionId>::empty(),
        e.todos@ == seq![(f, forward, 0usize), (f, 0usize, backward)],
    ensures
        is_near(e, callers, callees, f, forward as int, backward as int),
{
    assert(e.graph.functions()[0] == f);
    assert(leads_within(callees, seq![f], f, f, 0));
    assert(leads_within(callers, seq![f], f, f, 0));
    lemma_further_is_within(callees, f, f, 0, forward as int);
    explorations_start_covered(e, callers, callees, f, forward, backward);
    assert forall|towards: bool, g: FunctionId, h: FunctionId| !#[trigger] e.graph.linked(
        towards,
        g,
    ).contains(h) by {
        if e.graph.functions().contains(g) {
            assert(g == f);
            if towards {
                assert(e.graph.linked(towards, g) == e.graph.callees(f));
            } else {
                assert(e.graph.linked(towards, g) == e.graph.callers(f));
            }
        }
    }
}

/// An exploration stays near its function, over any number of steps.
pub proof fn runs_stay_near(
    ui: Ui,
    before: Exploration,
    after: Exploration,
    steps: nat,
    callers: spec_fn(FunctionId) -> Seq<FunctionId>,
    callees: spec_fn(FunctionId) -> Seq<FunctionId>,
    f: FunctionId,
    forward: int,
    backward: int,
)
    requires
        ui.runs_to(before, after, steps),
        agrees(ui, callers, callees),
        is_near(before, callers, callees, f, forward, backward),
    ensures
        is_near(after, callers, callees, f, forward, backward),
    decreases steps,
{
    if steps > 0 {
        let middle = choose|middle: Exploration|
            ui.runs_to(before, middle, (steps - 1) as nat) && #[trigger] ui.steps_to(
                middle,
                after,
            );
        runs_stay_near(
            ui,
            before,
            middle,
            (steps - 1) as nat,
            callers,
            callees,
            f,
            forward,
            backward,
        );
        let first = middle.todos@[0].0;
        let calls = ui.known_calls(first)->0;
        assert(calls.0 == callers(first) && calls.1 == callees(first));
        lemma_step_stays_near(middle, after, callers, callees, f, forward, backward);
    }
}

proof fn lemma_way_is_in_graph(
    e: Exploration,
    calls: spec_fn(FunctionId) -> Seq<FunctionId>,
    forward: bool,
    way: Seq<FunctionId>,
    n: nat,
    i: int,
)
    requires
        e.well_formed(),
        e.todos@.len() == 0,
        is_way(calls, way),
        0 <= i < way.len() <= n + 1,
        is_covered(e, forward, calls, way[0], n),
        e.graph.functions().contains(way[0]),
    ensures
        e.graph.functions().contains(way[i]),
    decreases i,
{
    if i > 0 {
        let j = i - 1;
        lemma_way_is_in_graph(e, calls, forward, way, n, j);
        a_finished_exploration_is_complete(e, forward, calls, way, n, j);
        if way[i] != way[j] {
            let functions = e.graph.functions();
            let at = functions.index_of(way[j]);
            let links = e.graph.links(forward, at);
            let ends = e.graph.linked(forward, way[j]);
            let k = choose|k: int| 0 <= k < ends.len() && ends[k] == way[i];
            assert(are_links(links, at, e.graph.elts@.len()));
            assert(functions[links[k] as int] == way[i]);
        }
    }
}

/// An exploration at its end holds exactly the functions within so many steps
/// forward, and within so many backward. Only of those that are less far away does
/// it hold calls.
pub proof fn explored_functions_are_those_near(
    e: Exploration,
    callers: spec_fn(FunctionId) -> Seq<FunctionId>,
    callees: spec_fn(FunctionId) -> Seq<FunctionId>,
    f: FunctionId,
    forward: nat,
    backward: nat,
    g: FunctionId,
)
    requires
        e.well_formed(),
        e.todos@.len() == 0,
        is_near(e, callers, callees, f, forward as int, backward as int),
        is_covered(e, true, callees, f, forward),
        is_covered(e, false, callers, f, backward),
    ensures
        e.graph.functions().contains(g) <==> is_within(callees, f, g, forward as int) || is_within(
            callers,
            f,
            g,
            backward as int,
        ),
        !is_within(callees, f, g, forward - 1) ==> e.graph.callees(g) == Seq::<FunctionId>::empty(),
        !is_within(callers, f, g, backward - 1) ==> e.graph.callers(g)
            == Seq::<FunctionId>::empty(),
{
    if is_within(callees, f, g, forward as int) {
        let way = choose|way: Seq<FunctionId>| leads_within(callees, way, f, g, forward as int);
        lemma_way_is_in_graph(e, callees, true, way, forward, way.len() - 1);
    }
    if is_within(callers, f, g, backward as int) {
        let way = choose|way: Seq<FunctionId>| leads_within(callers, way, f, g, backward as int);
        lemma_way_is_in_graph(e, callers, false, way, backward, way.len() - 1);
    }
    if !is_within(callees, f, g, forward - 1) {
        let s = e.graph.linked(true, g);
        if s.len() > 0 {
            assert(s.contains(s[0]));
        }
        assert(s =~= Seq::<FunctionId>::empty());
    }
    if !is_within(callers, f, g, backward - 1) {
        let s = e.graph.linked(false, g);
        if s.len() > 0 {
            assert(s.contains(s[0]));
        }
        assert(s =~= Seq::<FunctionId>::empty());
    }
}

/// A run from a new exploration to its end: the graph holds exactly the functions
/// within so many steps of `f` forward, and within so many backward, and calls
/// only of those that are less far away.
pub proof fn a_whole_run_finds_what_is_near(
    ui: Ui,
    before: Exploration,
    after: Exploration,
    steps: nat,
    callers: spec_fn(FunctionId) -> Seq<FunctionId>,
    callees: spec_fn(FunctionId) -> Seq<FunctionId>,
    f: FunctionId,
    forward: usize,
    backward: usize,
    g: FunctionId,
)
    requires
        before.graph.functions() == seq![f],
        before.graph.callees(f) == Seq::<FunctionId>::empty(),
        before.graph.callers(f) == Seq::<FunctionId>::empty(),
        before.todos@ == seq![(f, forward, 0usize), (f, 0usize, backward)],
        ui.runs_to(before, after, steps),
        agrees(ui, callers, callees),
        after.well_formed(),
        after.todos@.len() == 0,
    ensures
        after.graph.functions().contains(g) <==> is_within(callees, f, g, forward as int)
            || is_within(callers, f, g, backward as int),
        !is_within(callees, f, g, forward - 1) ==> after.graph.callees(g) == Seq::<
            FunctionId,
        >::empty(),
        !is_within(callers, f, g, backward - 1) ==> after.graph.callers(g) == Seq::<
            FunctionId,
        >::empty(),
{
    explorations_start_near(before, callers, callees, f, forward, backward);
    explorations_start_covered(before, callers, callees, f, forward, backward);
    runs_stay_near(
        ui,
        before,
        after,
        steps,
        callers,
        callees,
        f,
        forward as int,
        backward as int,
    );
    runs_keep_coverage(
        ui,
        before,
        after,
        steps,
        callers,
        callees,
        true,
        f,
        forward as nat,
    );
    runs_keep_coverage(
        ui,
        before,
        after,
        steps,
        callers,
        callees,
        false,
        f,
        backward as nat,
    );
    explored_functions_are_those_near(
        after,
        callers,
        callees,
        f,
        forward as nat,
        backward as nat,
        g,
    );
}

/// One run after another is a run.
pub proof fn runs_add_up(
    ui: Ui,
    a: Exploration,
    b: Exploration,
    c: Exploration,
    m: nat,
    n: nat,
)
    requires
        ui.runs_to(a, b, m),
        ui.runs_to(b, c, n),
    ensures
        ui.runs_to(a, c, m + n),
    decreases n,
{
    if n > 0 {
        let middle = choose|middle: Exploration|
            ui.runs_to(b, middle, (n - 1) as nat) && #[trigger] ui.steps_to(middle, c);
        runs_add_up(ui, a, b, middle, m, (n - 1) as nat);
        assert(ui.runs_to(a, middle, (m + n - 1) as nat));
    }
}

/// What was a run stays one when more calls become known.
pub proof fn recorded_calls_keep_runs(
    before: Ui,
    after: Ui,
    a: Exploration,
    b: Exploration,
    n: nat,
)
    requires
        before.runs_to(a, b, n),
        forall|f: FunctionId| #[trigger]
            before.known_calls(f) is Some ==> after.known_calls(f) == before.known_calls(f),
    ensures
        after.runs_to(a, b, n),
    decreases n,
{
    if n > 0 {
        let middle = choose|middle: Exploration|
            before.runs_to(a, middle, (n - 1) as nat) && #[trigger] before.steps_to(middle, b);
        recorded_calls_keep_runs(before, after, a, middle, (n - 1) as nat);
        assert(before.known_calls(middle.todos@[0].0) is Some);
        assert(after.steps_to(middle, b));
    }
}

/// Recording the calls of a function of which none were known leaves the calls
/// that were known as they were.
pub proof fn recording_keeps_known_calls(before: Ui, after: Ui, f_id: FunctionId, f: FunctionId)
    requires
        before.indexer.recorded(f_id) is None,
        after.settings == before.settings,
        after.indexer.root@ == before.indexer.root@,
        after.indexer.functions@ == before.indexer.functions@,
        forall|id: FunctionId|
            id != f_id ==> #[trigger] after.indexer.recorded(id) == before.indexer.recorded(id),
    ensures
        before.known_calls(f) is Some ==> after.known_calls(f) == before.known_calls(f),
{
}

/// The states of a browser over a number of stages: from one to the next more
/// calls may become known, and those that were known stay.
pub open spec fn are_stages(stages: Seq<Ui>) -> bool {
    forall|i: int, f: FunctionId|
        0 <= i < stages.len() - 1 && (#[trigger] stages[i].known_calls(f)) is Some ==> stages[i
            + 1].known_calls(f) == stages[i].known_calls(f)
}

/// Some run leads from one exploration to the other.
pub open spec fn reaches(ui: Ui, a: Exploration, b: Exploration) -> bool {
    exists|n: nat| ui.runs_to(a, b, n)
}

/// Each stage takes the exploration from one point to the next.
pub open spec fn runs_through(stages: Seq<Ui>, points: Seq<Exploration>) -> bool {
    &&& points.len() == stages.len() + 1
    &&& forall|i: int|
        0 <= i < stages.len() ==> reaches(#[trigger] stages[i], points[i], points[i + 1])
}

/// An exploration that was taken further stage by stage, with calls recorded in
/// between, is one run by what is known at the last stage.
pub proof fn stages_are_one_run(stages: Seq<Ui>, points: Seq<Exploration>) -> (n: nat)
    requires
        stages.len() > 0,
        are_stages(stages),
        runs_through(stages, points),
    ensures
        stages.last().runs_to(points[0], points.last(), n),
    decreases stages.len(),
{
    let last = stages.len() - 1;
    let before = points[last];
    let end = points[last + 1];
    let ui = stages[last];
    assert(reaches(ui, before, end));
    let m = choose|m: nat| ui.runs_to(before, end, m);
    if last == 0 {
        m
    } else {
        let earlier = stages.drop_last();
        let until = points.drop_last();
        assert forall|i: int, f: FunctionId|
            0 <= i < earlier.len() - 1 && (#[trigger] earlier[i].known_calls(f))
                is Some implies earlier[i + 1].known_calls(f) == earlier[i].known_calls(f) by {
            assert(stages[i].known_calls(f) is Some);
        }
        assert forall|i: int| 0 <= i < earlier.len() implies reaches(
            #[trigger] earlier[i],
            until[i],
            until[i + 1],
        ) by {
            assert(reaches(stages[i], points[i], points[i + 1]));
        }
        let k = stages_are_one_run(earlier, until);
        let previous = stages[last - 1];
        assert forall|f: FunctionId| #[trigger] previous.known_calls(f) is Some implies
            ui.known_calls(f) == previous.known_calls(f) by {
            assert(stages[last - 1].known_calls(f) is Some);
        }
        recorded_calls_keep_runs(previous, ui, points[0], before, k);
        runs_add_up(ui, points[0], before, end, k, m);
        k + m
    }
}

} // verus!
