//! What is known of calls, and what an exploration makes of it.

use vstd::prelude::*;
use crate::indexing::index::{id_at, kept, resolved, FunctionId};
use crate::indexing::symbols::{CallSite, Function};
use crate::laws::index::{
    call_sites_are_kept_one_by_one, call_sites_resolve_one_by_one,
    call_sites_show_what_is_at_their_place, share_a_place,
};
use crate::ui::explore::{queued, Exploration};
use crate::ui::laws::{a_finished_exploration_is_complete, is_way};
use crate::ui::runs::{
    a_whole_run_finds_what_is_near, agrees, calls_towards, explorations_start_covered, is_within,
    leads_within, runs_keep_coverage,
};
use crate::ui::session::Ui;

verus! {

/// The browser shows the call site: of other projects it may show call sites only
/// where those are wanted.
pub open spec fn is_wanted(ui: Ui, site: CallSite) -> bool {
    ui.settings.only_in_project ==> ui.indexer.root@.is_prefix_of(site.0.uri.path_view())
}

/// `g` is the first function of the index at the place of the call site.
pub open spec fn is_first_at(functions: Seq<Function>, site: CallSite, g: FunctionId) -> bool {
    &&& g.0 < functions.len()
    &&& share_a_place(functions[g.0 as int], site)
    &&& forall|j: int| 0 <= j < g.0 ==> !share_a_place(#[trigger] functions[j], site)
}

/// One of the call sites is wanted, and shows `g`.
pub open spec fn some_site_shows(ui: Ui, sites: Seq<CallSite>, g: FunctionId) -> bool {
    exists|i: int|
        0 <= i < sites.len() && is_wanted(ui, #[trigger] sites[i]) && is_first_at(
            ui.indexer.functions@,
            sites[i],
            g,
        )
}

/// A call site is recorded, of what `f` calls or of what calls `f`, that is wanted
/// and shows `g`.
pub open spec fn is_recorded_call(ui: Ui, forward: bool, f: FunctionId, g: FunctionId) -> bool {
    &&& f.0 < ui.indexer.cache@.len()
    &&& ui.indexer.cache@[f.0 as int] matches Some(known)
    &&& some_site_shows(
        ui,
        if forward {
            known.1@
        } else {
            known.0@
        },
        g,
    )
}

proof fn lemma_shown(ui: Ui, sites: Seq<CallSite>, g: FunctionId)
    requires
        ui.indexer.functions@.len() <= usize::MAX,
    ensures
        resolved(
            ui.indexer.functions@,
            kept(sites, ui.indexer.root@, ui.settings.only_in_project),
        ).contains(g) <==> some_site_shows(ui, sites, g),
    decreases sites.len(),
{
    let functions = ui.indexer.functions@;
    let root = ui.indexer.root@;
    let only = ui.settings.only_in_project;
    let all = resolved(functions, kept(sites, root, only));
    if sites.len() == 0 {
        call_sites_are_kept_one_by_one(sites, sites, arbitrary(), root);
        assert(sites =~= Seq::empty());
        assert(all.len() == 0);
    } else {
        let before = sites.drop_last();
        let site = sites[sites.len() - 1];
        let front = resolved(functions, kept(before, root, only));
        let one = seq![site];
        let back = resolved(functions, kept(one, root, only));
        lemma_shown(ui, before, g);
        assert(sites =~= before + one);
        call_sites_are_kept_one_by_one(before, one, site, root);
        call_sites_are_kept_one_by_one(one, one, site, root);
        call_sites_are_kept_one_by_one(sites, one, site, root);
        assert(kept(sites, root, only) == kept(before, root, only) + kept(one, root, only));
        call_sites_resolve_one_by_one(
            functions,
            kept(before, root, only),
            kept(one, root, only),
            site,
        );
        assert(all == front + back);
        call_sites_show_what_is_at_their_place(functions, site);
        if is_first_at(functions, site, g) {
            let id = id_at(functions, site);
            assert(id is Some);
            let h = id->0;
            if h.0 < g.0 {
                assert(!share_a_place(functions[h.0 as int], site));
            }
            if g.0 < h.0 {
                assert(!share_a_place(functions[g.0 as int], site));
            }
            assert(h == g);
        }
        if some_site_shows(ui, sites, g) {
            let i = choose|i: int|
                0 <= i < sites.len() && is_wanted(ui, #[trigger] sites[i]) && is_first_at(
                    functions,
                    sites[i],
                    g,
                );
            if i < before.len() {
                assert(before[i] == sites[i]);
                let k = choose|k: int| 0 <= k < front.len() && front[k] == g;
                assert(all[k] == g);
            } else {
                assert(back == seq![g]);
                assert(all[front.len() as int] == g);
            }
        }
        if all.contains(g) {
            let k = choose|k: int| 0 <= k < all.len() && all[k] == g;
            if k < front.len() {
                assert(front[k] == g);
                let i = choose|i: int|
                    0 <= i < before.len() && is_wanted(ui, #[trigger] before[i]) && is_first_at(
                        functions,
                        before[i],
                        g,
                    );
                assert(sites[i] == before[i]);
            } else {
                assert(back.len() > 0);
                assert(is_wanted(ui, site));
                assert(back == seq![g]);
                assert(is_wanted(ui, sites[sites.len() - 1]));
            }
        }
    }
}

/// Whatever call site is recorded of a function, wanted, and shows a function of the
/// index, that function is among the calls that are known; and nothing else is.
pub proof fn known_calls_are_the_recorded_calls(ui: Ui, f: FunctionId, g: FunctionId)
    ensures
        match ui.known_calls(f) {
            Some(calls) => {
                &&& f.0 < ui.indexer.cache@.len()
                &&& ui.indexer.cache@[f.0 as int] is Some
                &&& calls.0.contains(g) <==> is_recorded_call(ui, false, f, g)
                &&& calls.1.contains(g) <==> is_recorded_call(ui, true, f, g)
            },
            None => f.0 >= ui.indexer.cache@.len() || ui.indexer.cache@[f.0 as int] is None,
        },
{
    assert(ui.indexer.functions.len() == ui.indexer.functions@.len());
    if ui.known_calls(f) is Some {
        let known = ui.indexer.cache@[f.0 as int]->0;
        lemma_shown(ui, known.0@, g);
        lemma_shown(ui, known.1@, g);
    }
}

/// The known calls come in the order in which they were recorded, one for each call
/// site that is wanted and shows a function.
pub proof fn known_calls_keep_their_order(
    ui: Ui,
    f: FunctionId,
    callers: Vec<CallSite>,
    callees: Vec<CallSite>,
)
    requires
        f.0 < ui.indexer.cache@.len(),
        ui.indexer.cache@[f.0 as int] == Some((callers, callees)),
    ensures
        ui.indexer.recorded(f) == Some((callers@, callees@)),
        ui.known_calls(f) == Some(
            (
                resolved(
                    ui.indexer.functions@,
                    kept(callers@, ui.indexer.root@, ui.settings.only_in_project),
                ),
                resolved(
                    ui.indexer.functions@,
                    kept(callees@, ui.indexer.root@, ui.settings.only_in_project),
                ),
            ),
        ),
{
}

/// Of a function whose calls were not recorded, nothing is known.
pub proof fn nothing_is_known_of_other_functions(ui: Ui, f: FunctionId)
    ensures
        ui.indexer.recorded(f) is Some <==> f.0 < ui.indexer.cache@.len()
            && ui.indexer.cache@[f.0 as int] is Some,
        ui.known_calls(f) is Some <==> f.0 < ui.indexer.cache@.len()
            && ui.indexer.cache@[f.0 as int] is Some,
{
}

/// Another call site that is recorded last, wanted, and shows a function, makes that
/// function the last of the known calls.
pub proof fn one_more_recorded_call_comes_last(
    before: Ui,
    after: Ui,
    f: FunctionId,
    callers: Vec<CallSite>,
    callees: Vec<CallSite>,
    more: Vec<CallSite>,
    site: CallSite,
    g: FunctionId,
)
    requires
        before.settings == after.settings,
        before.indexer.root@ == after.indexer.root@,
        before.indexer.functions@ == after.indexer.functions@,
        f.0 < before.indexer.cache@.len(),
        f.0 < after.indexer.cache@.len(),
        before.indexer.cache@[f.0 as int] == Some((callers, callees)),
        after.indexer.cache@[f.0 as int] == Some((callers, more)),
        more@ == callees@.push(site),
        is_wanted(after, site),
        is_first_at(after.indexer.functions@, site, g),
    ensures
        match (before.known_calls(f), after.known_calls(f)) {
            (Some(old_calls), Some(new_calls)) => {
                &&& new_calls.0 == old_calls.0
                &&& new_calls.1 == old_calls.1.push(g)
            },
            _ => false,
        },
{
    let functions = after.indexer.functions@;
    let root = after.indexer.root@;
    let only = after.settings.only_in_project;
    assert(after.indexer.functions.len() == functions.len());
    let one = seq![site];
    assert(more@ =~= callees@ + one);
    call_sites_are_kept_one_by_one(callees@, one, site, root);
    call_sites_are_kept_one_by_one(one, one, site, root);
    call_sites_are_kept_one_by_one(more@, one, site, root);
    call_sites_resolve_one_by_one(functions, kept(callees@, root, only), one, site);
    call_sites_show_what_is_at_their_place(functions, site);
    let id = id_at(functions, site);
    assert(id is Some);
    let h = id->0;
    if h.0 < g.0 {
        assert(!share_a_place(functions[h.0 as int], site));
    }
    if g.0 < h.0 {
        assert(!share_a_place(functions[g.0 as int], site));
    }
    assert(resolved(functions, kept(more@, root, only)) =~= resolved(
        functions,
        kept(callees@, root, only),
    ).push(g));
}

/// The calls that are known to a function, or none.
pub open spec fn known_callers(ui: Ui) -> spec_fn(FunctionId) -> Seq<FunctionId> {
    |f: FunctionId|
        match ui.known_calls(f) {
            Some(calls) => calls.0,
            None => Seq::empty(),
        }
}

/// The calls that are known from a function, or none.
pub open spec fn known_callees(ui: Ui) -> spec_fn(FunctionId) -> Seq<FunctionId> {
    |f: FunctionId|
        match ui.known_calls(f) {
            Some(calls) => calls.1,
            None => Seq::empty(),
        }
}

/// A way of recorded calls from function to function.
pub open spec fn is_recorded_way(ui: Ui, forward: bool, way: Seq<FunctionId>) -> bool {
    forall|i: int|
        0 <= i < way.len() - 1 ==> is_recorded_call(ui, forward, #[trigger] way[i], way[i + 1])
}

/// An exploration of `f` as it starts: `f` alone, with no calls, and twenty steps to
/// go each way.
pub open spec fn starts_at(e: Exploration, f: FunctionId) -> bool {
    &&& e.graph.functions() == seq![f]
    &&& e.graph.callees(f) == Seq::<FunctionId>::empty()
    &&& e.graph.callers(f) == Seq::<FunctionId>::empty()
    &&& e.todos@ == seq![(f, 20usize, 0usize), (f, 0usize, 20usize)]
}

proof fn lemma_known_agrees(ui: Ui)
    ensures
        agrees(ui, known_callers(ui), known_callees(ui)),
{
}

proof fn lemma_recorded_is_known(ui: Ui, forward: bool, f: FunctionId, g: FunctionId)
    ensures
        calls_towards(known_callers(ui), known_callees(ui), forward)(f).contains(g)
            <==> is_recorded_call(ui, forward, f, g),
{
    known_calls_are_the_recorded_calls(ui, f, g);
}

proof fn lemma_recorded_way_is_known(ui: Ui, forward: bool, way: Seq<FunctionId>)
    ensures
        is_way(calls_towards(known_callers(ui), known_callees(ui), forward), way)
            <==> is_recorded_way(ui, forward, way),
{
    let calls = calls_towards(known_callers(ui), known_callees(ui), forward);
    if is_recorded_way(ui, forward, way) {
        assert forall|i: int| 0 <= i < way.len() - 1 implies calls(#[trigger] way[i]).contains(
            way[i + 1],
        ) by {
            lemma_recorded_is_known(ui, forward, way[i], way[i + 1]);
        }
    }
    if is_way(calls, way) {
        assert forall|i: int| 0 <= i < way.len() - 1 implies is_recorded_call(
            ui,
            forward,
            #[trigger] way[i],
            way[i + 1],
        ) by {
            lemma_recorded_is_known(ui, forward, way[i], way[i + 1]);
        }
    }
}

/// An exploration at its end holds every recorded call of its function, both ways,
/// but for those of the function to itself.
pub proof fn finished_explorations_hold_all_recorded_calls(
    ui: Ui,
    before: Exploration,
    after: Exploration,
    steps: nat,
    f: FunctionId,
    g: FunctionId,
)
    requires
        starts_at(before, f),
        ui.runs_to(before, after, steps),
        after.todos@.len() == 0,
        g != f,
    ensures
        is_recorded_call(ui, true, f, g) ==> after.graph.callees(f).contains(g),
        is_recorded_call(ui, false, f, g) ==> after.graph.callers(f).contains(g),
{
    let way = seq![f, g];
    if is_recorded_call(ui, true, f, g) {
        finished_explorations_hold_all_ways(ui, before, after, steps, f, true, way, 0);
    }
    if is_recorded_call(ui, false, f, g) {
        finished_explorations_hold_all_ways(ui, before, after, steps, f, false, way, 0);
    }
}

/// An exploration at its end holds every recorded call on every way of twenty steps
/// at most from its function, but for those of functions to themselves.
pub proof fn finished_explorations_hold_all_ways(
    ui: Ui,
    before: Exploration,
    after: Exploration,
    steps: nat,
    f: FunctionId,
    forward: bool,
    way: Seq<FunctionId>,
    i: int,
)
    requires
        starts_at(before, f),
        ui.runs_to(before, after, steps),
        after.todos@.len() == 0,
        is_recorded_way(ui, forward, way),
        0 <= i < way.len() - 1 <= 20,
        way[0] == f,
    ensures
        way[i + 1] == way[i] || (if forward {
            after.graph.callees(way[i]).contains(way[i + 1])
        } else {
            after.graph.callers(way[i]).contains(way[i + 1])
        }),
{
    let callers = known_callers(ui);
    let callees = known_callees(ui);
    lemma_known_agrees(ui);
    explorations_start_covered(before, callers, callees, f, 20, 20);
    runs_keep_coverage(ui, before, after, steps, callers, callees, forward, f, 20);
    lemma_recorded_way_is_known(ui, forward, way);
    a_finished_exploration_is_complete(
        after,
        forward,
        calls_towards(callers, callees, forward),
        way,
        20,
        i,
    );
}

/// Whatever an exploration holds, at its end or before, is a recorded call from one
/// function to another.
pub proof fn explorations_hold_only_recorded_calls(
    ui: Ui,
    before: Exploration,
    after: Exploration,
    steps: nat,
    f: FunctionId,
    g: FunctionId,
    h: FunctionId,
)
    requires
        starts_at(before, f),
        ui.runs_to(before, after, steps),
    ensures
        after.graph.callees(g).contains(h) ==> g != h && is_recorded_call(ui, true, g, h),
        after.graph.callers(g).contains(h) ==> g != h && is_recorded_call(ui, false, g, h),
{
    let callers = known_callers(ui);
    let callees = known_callees(ui);
    lemma_known_agrees(ui);
    explorations_start_covered(before, callers, callees, f, 20, 20);
    runs_keep_coverage(ui, before, after, steps, callers, callees, true, f, 20);
    lemma_recorded_is_known(ui, true, g, h);
    lemma_recorded_is_known(ui, false, g, h);
    assert(after.graph.callees(g) == after.graph.linked(true, g));
    assert(after.graph.callers(g) == after.graph.linked(false, g));
}

/// A way of recorded calls of twenty steps at most from `f` to `g`.
pub open spec fn is_short_way(
    ui: Ui,
    forward: bool,
    way: Seq<FunctionId>,
    f: FunctionId,
    g: FunctionId,
) -> bool {
    &&& is_recorded_way(ui, forward, way)
    &&& 1 <= way.len() <= 21
    &&& way[0] == f
    &&& way.last() == g
}

/// An exploration at its end holds exactly the functions that are twenty steps away
/// at most, over recorded calls in one direction.
pub proof fn finished_explorations_hold_what_is_near(
    ui: Ui,
    before: Exploration,
    after: Exploration,
    steps: nat,
    f: FunctionId,
    g: FunctionId,
)
    requires
        starts_at(before, f),
        ui.runs_to(before, after, steps),
        after.well_formed(),
        after.todos@.len() == 0,
    ensures
        after.graph.functions().contains(g) <==> exists|forward: bool, way: Seq<FunctionId>|
            is_short_way(ui, forward, way, f, g),
{
    let callers = known_callers(ui);
    let callees = known_callees(ui);
    lemma_known_agrees(ui);
    a_whole_run_finds_what_is_near(ui, before, after, steps, callers, callees, f, 20, 20, g);
    if after.graph.functions().contains(g) {
        if is_within(callees, f, g, 20) {
            let way = choose|way: Seq<FunctionId>| leads_within(callees, way, f, g, 20);
            lemma_recorded_way_is_known(ui, true, way);
            assert(is_short_way(ui, true, way, f, g));
        } else {
            let way = choose|way: Seq<FunctionId>| leads_within(callers, way, f, g, 20);
            lemma_recorded_way_is_known(ui, false, way);
            assert(is_short_way(ui, false, way, f, g));
        }
    }
    if exists|forward: bool, way: Seq<FunctionId>| is_short_way(ui, forward, way, f, g) {
        let (forward, way) = choose|forward: bool, way: Seq<FunctionId>|
            is_short_way(ui, forward, way, f, g);
        lemma_recorded_way_is_known(ui, forward, way);
        if forward {
            assert(leads_within(callees, way, f, g, 20));
        } else {
            assert(leads_within(callers, way, f, g, 20));
        }
    }
}

/// Functions wait in a row: what waited moves up, and the functions that were found
/// join at the end in their order, with one step less to go.
pub proof fn found_functions_join_the_row(
    before: Exploration,
    after: Exploration,
    incomings: Seq<FunctionId>,
    outgoings: Seq<FunctionId>,
    k: int,
)
    requires
        before.todos@.len() > 0,
        before.is_followed_by(after, incomings, outgoings),
    ensures
        ({
            let first = before.todos@[0];
            let n = before.todos@.len() - 1;
            let found = if first.1 > 0 {
                outgoings
            } else if first.2 > 0 {
                incomings
            } else {
                Seq::empty()
            };
            &&& after.todos@.len() == n + found.len()
            &&& 0 <= k < n ==> after.todos@[k] == before.todos@[k + 1]
            &&& 0 <= k < found.len() && first.1 > 0 ==> after.todos@[n + k] == (
                found[k],
                (first.1 - 1) as usize,
                first.2,
            )
            &&& 0 <= k < found.len() && first.1 == 0 ==> after.todos@[n + k] == (
                found[k],
                first.1,
                (first.2 - 1) as usize,
            )
            &&& found.len() == 0 ==> after.graph.functions() == before.graph.functions()
        }),
{
}

/// Functions that are queued keep their order, each with the same steps to go.
pub proof fn functions_are_queued_alike(
    items: Seq<FunctionId>,
    forward: usize,
    backward: usize,
    k: int,
)
    requires
        0 <= k < items.len(),
    ensures
        queued(items, forward as int, backward as int).len() == items.len(),
        queued(items, forward as int, backward as int)[k] == (items[k], forward, backward),
{
}

/// The browser knows an exploration whose functions all have their number in the
/// index.
pub proof fn known_explorations_stay_in_the_index(ui: Ui, e: Exploration)
    ensures
        ui.knows(e) <==> {
            &&& forall|k: int|
                0 <= k < e.graph.functions().len() ==> (#[trigger] e.graph.functions()[k]).0
                    < ui.indexer.functions@.len()
            &&& forall|k: int|
                0 <= k < e.todos@.len() ==> (#[trigger] e.todos@[k]).0.0
                    < ui.indexer.functions@.len()
        },
{
}

} // verus!
