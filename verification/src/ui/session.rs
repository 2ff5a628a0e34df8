//! What the user sees of a function, and what follows from their choice.

use compact_str::CompactString;
use vstd::prelude::*;
use vstd::string::StringExecFns;
use crate::cells::{
    are_all_cells, fits_cell, is_cell, lemma_cells_join, painted_cells_are_cells,
};
use crate::compact::{compact, letters};
use crate::indexing::index::{
    alike, id_at, is_at, is_item_of, kept, resolved, Context, FunctionId, Index,
};
use crate::indexing::laws::call_sites_resolve_into_the_index;
use crate::indexing::symbols::{CallHierarchyItem, CallSite, Function};
use crate::paint::{
    in_bold_color, in_color, is_color, lemma_colors, shows_bold_color, shows_color,
};
use crate::table::{columns_table, columns_text};
use crate::text::{decimal, push_decimal, texts};
use crate::ui::callgraph::CallGraph;
use crate::ui::explore::Exploration;
use crate::ui::laws::{absorbing_leaves_less_to_do, added_calls_are_known, work};
use crate::ui::navigation::{pushed, NavigationStack};
use crate::ui::prompt::{bracket, bracketed, Entry};

verus! {

/// What the user wants to see.
pub struct Settings {
    /// Leave out the calls from and to other projects.
    pub only_in_project: bool,
}

impl Default for Settings {
    fn default() -> (r: Self)
        ensures
            r.only_in_project,
    {
        Settings { only_in_project: true }
    }
}

/// The functions of a project, ready to be browsed.
pub struct Ui {
    pub root: String,
    pub indexer: Index,
    pub function_names: Vec<String>,
    pub settings: Settings,
}

/// What the user can choose to do at a function.
#[derive(Debug, Clone, Copy)]
pub enum FnAction {
    GoTo(FunctionId),
    Jump,
    Back,
    Quit,
    OpenIn,
}

/// The call sites that show a function.
pub open spec fn located(functions: Seq<Function>, sites: Seq<CallSite>) -> Seq<CallSite>
    decreases sites.len(),
{
    if sites.len() == 0 {
        Seq::empty()
    } else {
        let before = located(functions, sites.drop_last());
        match id_at(functions, sites.last()) {
            Some(_) => before.push(sites.last()),
            None => before,
        }
    }
}

/// `entry` leads to the function of a call site. It is not shown in the prompt.
pub open spec fn leads_to(
    entry: Entry<FnAction>,
    chord: Seq<char>,
    site: CallSite,
    id: FunctionId,
) -> bool {
    &&& letters(entry.chord) == chord
    &&& letters(entry.label) == site.0.name@
    &&& entry.payload == FnAction::GoTo(id)
    &&& !entry.show
}

/// `entry` stands in the prompt.
pub open spec fn offers(
    entry: Entry<FnAction>,
    chord: Seq<char>,
    label: Seq<char>,
    action: FnAction,
) -> bool {
    &&& letters(entry.chord) == chord
    &&& letters(entry.label) == label
    &&& entry.payload == action
    &&& entry.show
}

/// The entries of the menu: one for each call site that shows a function, with
/// the chords in their order, and then what can be done otherwise.
pub open spec fn are_choices(
    functions: Seq<Function>,
    sites: Seq<CallSite>,
    chords: Seq<CompactString>,
    entries: Seq<Entry<FnAction>>,
) -> bool {
    let ids = resolved(functions, sites);
    let n = ids.len() as int;
    &&& entries.len() == n + 4
    &&& forall|i: int|
        0 <= i < n ==> leads_to(
            #[trigger] entries[i],
            letters(chords[i]),
            located(functions, sites)[i],
            ids[i],
        )
    &&& offers(entries[n], "o"@, "open..."@, FnAction::OpenIn)
    &&& offers(entries[n + 1], "b"@, "back"@, FnAction::Back)
    &&& offers(entries[n + 2], "j"@, "jump"@, FnAction::Jump)
    &&& offers(entries[n + 3], "q"@, "quit"@, FnAction::Quit)
}

proof fn lemma_located(functions: Seq<Function>, sites: Seq<CallSite>)
    ensures
        located(functions, sites).len() == resolved(functions, sites).len() <= sites.len(),
    decreases sites.len(),
{
    if sites.len() > 0 {
        lemma_located(functions, sites.drop_last());
    }
}

fn shown_entry(chord: &str, label: &str, action: FnAction) -> (r: Entry<FnAction>)
    ensures
        offers(r, chord@, label@, action),
{
    Entry { chord: compact(chord), label: compact(label), payload: action, show: true }
}

impl Ui {
    /// Prepares the functions of an index for browsing.
    pub fn new(indexer: Index) -> (r: Self)
        requires
            forall|i: int|
                0 <= i < indexer.functions@.len() ==> (#[trigger] indexer.functions@[i]).is_below(
                    indexer.root@,
                ),
        ensures
            r.root@ == indexer.root@,
            r.indexer == indexer,
            r.settings.only_in_project,
            r.function_names@.len() == indexer.functions@.len(),
            forall|i: int|
                0 <= i < indexer.functions@.len() ==> indexer.functions@[i].is_line(
                    indexer.root@,
                    (#[trigger] r.function_names@[i])@,
                ),
    {
        let mut function_names: Vec<String> = Vec::new();
        let mut i: usize = 0;
        while i < indexer.functions.len()
            invariant
                i <= indexer.functions@.len(),
                forall|k: int|
                    0 <= k < indexer.functions@.len() ==> (
                    #[trigger] indexer.functions@[k]).is_below(indexer.root@),
                function_names@.len() == i,
                forall|k: int|
                    0 <= k < i ==> indexer.functions@[k].is_line(
                        indexer.root@,
                        (#[trigger] function_names@[k])@,
                    ),
            decreases indexer.functions@.len() - i,
        {
            function_names.push(indexer.functions[i].pretty(indexer.root.as_str()));
            i = i + 1;
        }
        Ui { root: indexer.root.clone(), indexer, function_names, settings: Settings::default() }
    }

    /// Adds the entries for the call sites that show a function.
    fn push_sites(
        &self,
        sites: &Vec<CallSite>,
        chords: &Vec<CompactString>,
        entries: &mut Vec<Entry<FnAction>>,
        Ghost(before): Ghost<Seq<CallSite>>,
    )
        requires
            chords@.len() >= before.len() + sites@.len(),
            old(entries)@.len() == resolved(self.indexer.functions@, before).len(),
            forall|i: int|
                0 <= i < old(entries)@.len() ==> leads_to(
                    #[trigger] old(entries)@[i],
                    letters(chords@[i]),
                    located(self.indexer.functions@, before)[i],
                    resolved(self.indexer.functions@, before)[i],
                ),
        ensures
            final(entries)@.len() == resolved(self.indexer.functions@, before + sites@).len(),
            forall|i: int|
                0 <= i < final(entries)@.len() ==> leads_to(
                    #[trigger] final(entries)@[i],
                    letters(chords@[i]),
                    located(self.indexer.functions@, before + sites@)[i],
                    resolved(self.indexer.functions@, before + sites@)[i],
                ),
    {
        let ghost functions = self.indexer.functions@;
        let mut i: usize = 0;
        assert(before + sites@.take(0) =~= before);
        while i < sites.len()
            invariant
                i <= sites@.len(),
                functions == self.indexer.functions@,
                chords@.len() >= before.len() + sites@.len(),
                entries@.len() == resolved(functions, before + sites@.take(i as int)).len(),
                forall|k: int|
                    0 <= k < entries@.len() ==> leads_to(
                        #[trigger] entries@[k],
                        letters(chords@[k]),
                        located(functions, before + sites@.take(i as int))[k],
                        resolved(functions, before + sites@.take(i as int))[k],
                    ),
            decreases sites@.len() - i,
        {
            let ghost done = before + sites@.take(i as int);
            let ghost upto = before + sites@.take(i + 1);
            proof {
                assert(upto.drop_last() =~= done);
                assert(upto.last() == sites@[i as int]);
                lemma_located(functions, done);
            }
            match self.indexer.fn_id_from_callsite(&sites[i]) {
                Some(id) => {
                    let at: usize = entries.len();
                    entries.push(
                        Entry {
                            chord: chords[at].clone(),
                            label: compact(sites[i].0.name.as_str()),
                            payload: FnAction::GoTo(id),
                            show: false,
                        },
                    );
                },
                None => {},
            }
            i = i + 1;
        }
        assert(sites@.take(i as int) =~= sites@);
    }

    /// The menu at a function with the given callers and callees.
    pub fn choices(
        &self,
        incomings: &Vec<CallSite>,
        outgoings: &Vec<CallSite>,
        chords: &Vec<CompactString>,
    ) -> (r: Vec<Entry<FnAction>>)
        requires
            chords@.len() == incomings@.len() + outgoings@.len(),
        ensures
            are_choices(self.indexer.functions@, incomings@ + outgoings@, chords@, r@),
    {
        let mut r: Vec<Entry<FnAction>> = Vec::new();
        self.push_sites(incomings, chords, &mut r, Ghost(Seq::empty()));
        assert(Seq::<CallSite>::empty() + incomings@ =~= incomings@);
        self.push_sites(outgoings, chords, &mut r, Ghost(incomings@));
        r.push(shown_entry("o", "open...", FnAction::OpenIn));
        r.push(shown_entry("b", "back", FnAction::Back));
        r.push(shown_entry("j", "jump", FnAction::Jump));
        r.push(shown_entry("q", "quit", FnAction::Quit));
        r
    }

    /// A column of the overview: a title, and a row for each call site that shows
    /// a function, with the chords from `offset` on.
    fn column(
        &self,
        title: String,
        color: &str,
        sites: &Vec<CallSite>,
        chords: &Vec<CompactString>,
        offset: usize,
    ) -> (r: Vec<String>)
        requires
            is_color(color@),
            chords@.len() >= offset + sites@.len(),
            is_cell(title@),
            have_cell_names(located(self.indexer.functions@, sites@)),
            are_cell_chords(chords@),
        ensures
            are_all_cells(texts(r@)),
            are_rows(
                located(self.indexer.functions@, sites@),
                chords@,
                offset as int,
                color@,
                texts(r@),
            ),
            r@[0]@ == title@,
    {
        let ghost functions = self.indexer.functions@;
        proof {
            lemma_colors();
        }
        let mut r: Vec<String> = Vec::new();
        r.push(title);
        assert(texts(r@)[0] == title@);
        let mut i: usize = 0;
        while i < sites.len()
            invariant
                i <= sites@.len(),
                functions == self.indexer.functions@,
                is_color(color@),
                is_color("yellow"@),
                chords@.len() >= offset + sites@.len(),
                have_cell_names(located(functions, sites@)),
                are_cell_chords(chords@),
                are_all_cells(texts(r@)),
                r@.len() > 0,
                r@[0]@ == title@,
                are_rows(
                    located(functions, sites@.take(i as int)),
                    chords@,
                    offset as int,
                    color@,
                    texts(r@),
                ),
            decreases sites@.len() - i,
        {
            let ghost done = sites@.take(i as int);
            let ghost upto = sites@.take(i + 1);
            let ghost before = texts(r@);
            proof {
                assert(upto.drop_last() =~= done);
                assert(upto.last() == sites@[i as int]);
                lemma_located(functions, done);
                assert(chords.len() == chords@.len());
            }
            if self.indexer.fn_id_from_callsite(&sites[i]).is_some() {
                proof {
                    lemma_located_part(functions, sites@, i as int);
                }
                let at: usize = offset + (r.len() - 1);
                let line: String = row(
                    chords[at].as_str(),
                    sites[i].0.name.as_str(),
                    color,
                );
                r.push(line);
                assert(texts(r@) =~= before.push(line@));
            }
            i = i + 1;
        }
        assert(sites@.take(i as int) =~= sites@);
        r
    }

    /// Whether a function can be shown: it is known, and the names and the chords
    /// fit into cells.
    pub fn can_show(
        &self,
        f_id: FunctionId,
        incomings: &Vec<CallSite>,
        outgoings: &Vec<CallSite>,
        chords: &Vec<CompactString>,
    ) -> (r: bool)
        ensures
            r == is_showable(self.indexer.functions@, f_id, incomings@, outgoings@, chords@),
    {
        f_id.0 < self.indexer.functions.len() && fits_cell(
            self.indexer.functions[f_id.0].0.name.as_str(),
        ) && self.names_fit(incomings) && self.names_fit(outgoings) && chords_fit(chords)
    }

    fn names_fit(&self, sites: &Vec<CallSite>) -> (r: bool)
        ensures
            r == have_cell_names(located(self.indexer.functions@, sites@)),
    {
        let ghost functions = self.indexer.functions@;
        let mut i: usize = 0;
        while i < sites.len()
            invariant
                i <= sites@.len(),
                functions == self.indexer.functions@,
                have_cell_names(located(functions, sites@.take(i as int))),
            decreases sites@.len() - i,
        {
            proof {
                lemma_located_part(functions, sites@, i as int);
            }
            if self.indexer.fn_id_from_callsite(&sites[i]).is_some() && !fits_cell(
                sites[i].0.name.as_str(),
            ) {
                return false;
            }
            i = i + 1;
        }
        assert(sites@.take(i as int) =~= sites@);
        true
    }

    /// The function, between those that call it and those that it calls.
    pub fn overview(
        &self,
        f_id: FunctionId,
        incomings: &Vec<CallSite>,
        outgoings: &Vec<CallSite>,
        chords: &Vec<CompactString>,
    ) -> (r: String)
        requires
            chords@.len() == incomings@.len() + outgoings@.len(),
            is_showable(self.indexer.functions@, f_id, incomings@, outgoings@, chords@),
        ensures
            exists|left: Seq<Seq<char>>, center: Seq<Seq<char>>, right: Seq<Seq<char>>| #[trigger]
                are_columns(
                    self.indexer.functions@,
                    f_id,
                    incomings@,
                    outgoings@,
                    chords@,
                    left,
                    center,
                    right,
                ) && r@ == columns_text(left, center, right),
    {
        proof {
            lemma_colors();
            reveal_strlit("CALLERS");
            reveal_strlit("CURRENT");
            reveal_strlit("CALLEES");
        }
        let callers: String = in_color("CALLERS", "blue");
        let current: String = in_color("CURRENT", "white");
        let callees: String = in_color("CALLEES", "purple");
        let f: &Function = &self.indexer.functions[f_id.0];
        let name: String = in_color(f.0.name.as_str(), "bright white");
        proof {
            painted_cells_are_cells("CALLERS"@, callers@, "blue"@, 0);
            painted_cells_are_cells("CURRENT"@, current@, "white"@, 0);
            painted_cells_are_cells("CALLEES"@, callees@, "purple"@, 0);
            painted_cells_are_cells(f.0.name@, name@, "bright white"@, 0);
        }
        let left: Vec<String> = self.column(callers, "bright blue", incomings, chords, 0);
        let mut center: Vec<String> = Vec::new();
        center.push(current);
        center.push(name);
        assert(texts(center@) =~= seq![current@, name@]);
        let right: Vec<String> = self.column(
            callees,
            "bright magenta",
            outgoings,
            chords,
            incomings.len(),
        );
        assert(are_columns(
            self.indexer.functions@,
            f_id,
            incomings@,
            outgoings@,
            chords@,
            texts(left@),
            texts(center@),
            texts(right@),
        ));
        columns_table(left, center, right)
    }

    /// The functions that call `f_id`, and those that it calls, by what is known.
    pub open spec fn known_calls(&self, f_id: FunctionId) -> Option<
        (Seq<FunctionId>, Seq<FunctionId>),
    > {
        let functions = self.indexer.functions@;
        let root = self.indexer.root@;
        let only = self.settings.only_in_project;
        match self.indexer.recorded(f_id) {
            Some(known) => Some(
                (
                    resolved(functions, kept(known.0, root, only)),
                    resolved(functions, kept(known.1, root, only)),
                ),
            ),
            None => None,
        }
    }

    /// The functions of the exploration are those of the index.
    pub open spec fn knows(&self, e: Exploration) -> bool {
        &&& forall|k: int|
            0 <= k < e.graph.functions().len() ==> (#[trigger] e.graph.functions()[k]).0
                < self.indexer.functions@.len()
        &&& forall|k: int|
            0 <= k < e.todos@.len() ==> (#[trigger] e.todos@[k]).0.0 < self.indexer.functions@.len()
    }

    /// The exploration of the calls around a function.
    pub fn explore(&self, f_id: FunctionId) -> (r: Exploration)
        requires
            f_id.0 < self.indexer.functions@.len(),
        ensures
            r.well_formed(),
            self.knows(r),
            r.graph.functions() == seq![f_id],
            r.graph.callees(f_id) == Seq::<FunctionId>::empty(),
            r.graph.callers(f_id) == Seq::<FunctionId>::empty(),
            r.todos@ == seq![(f_id, 20usize, 0usize), (f_id, 0usize, 20usize)],
    {
        let graph: CallGraph = CallGraph::single(f_id);
        assert(graph.functions()[0] == f_id);
        Exploration::start(graph, f_id, 20, 20)
    }

    /// `after` comes of `before` in one step, by what is known.
    pub open spec fn steps_to(&self, before: Exploration, after: Exploration) -> bool {
        &&& before.todos@.len() > 0
        &&& self.known_calls(before.todos@[0].0) matches Some(calls)
        &&& before.is_followed_by(after, calls.0, calls.1)
    }

    /// `after` comes of `before` in `n` steps, by what is known.
    pub open spec fn runs_to(&self, before: Exploration, after: Exploration, n: nat) -> bool
        decreases n,
    {
        if n == 0 {
            before == after
        } else {
            exists|middle: Exploration|
                self.runs_to(before, middle, (n - 1) as nat) && #[trigger] self.steps_to(
                    middle,
                    after,
                )
        }
    }

    /// Takes the exploration as far as the calls of its functions are known: to
    /// its end, or to a function whose calls have to be recorded first.
    pub fn rec_context(&self, e: &mut Exploration) -> (r: Option<(FunctionId, CallHierarchyItem)>)
        requires
            old(e).well_formed(),
            self.knows(*old(e)),
        ensures
            final(e).well_formed(),
            self.knows(*final(e)),
            exists|n: nat| self.runs_to(*old(e), *final(e), n),
            r is None <==> final(e).todos@.len() == 0,
            r matches Some(next) ==> {
                &&& next.0 == final(e).todos@[0].0
                &&& self.known_calls(next.0) is None
                &&& is_item_of(next.1, self.indexer.functions@[next.0.0 as int])
            },
    {
        let ghost width = self.widest(self.indexer.functions@.len());
        assert(self.runs_to(*old(e), *e, 0));
        loop
            invariant
                e.well_formed(),
                self.knows(*e),
                width == self.widest(self.indexer.functions@.len()),
                exists|n: nat| self.runs_to(*old(e), *e, n),
            decreases work(e.todos@, width),
        {
            let ghost before = *e;
            match self.advance(e) {
                Explored::Done => {
                    return None;
                },
                Explored::Fetch(f_id, item) => {
                    return Some((f_id, item));
                },
                Explored::Advanced => {
                    proof {
                        let n = choose|n: nat| self.runs_to(*old(e), before, n);
                        assert(self.steps_to(before, *e));
                        assert(self.runs_to(*old(e), *e, n + 1));
                        let f = before.todos@[0].0;
                        let calls = self.known_calls(f)->0;
                        assert(self.indexer.functions.len() == self.indexer.functions@.len());
                        self.lemma_widest(self.indexer.functions@.len(), f);
                        absorbing_leaves_less_to_do(before, *e, calls.0, calls.1, width);
                    }
                },
            }
        }
    }

    /// The most calls from or to one of the first `n` functions that are known.
    spec fn widest(&self, n: nat) -> nat
        decreases n,
    {
        if n == 0 {
            0
        } else {
            let before = self.widest((n - 1) as nat);
            match self.known_calls(FunctionId((n - 1) as usize)) {
                Some(calls) => before + calls.0.len() + calls.1.len(),
                None => before,
            }
        }
    }

    proof fn lemma_widest(&self, n: nat, f: FunctionId)
        requires
            f.0 < n <= usize::MAX,
        ensures
            self.known_calls(f) matches Some(calls) ==> calls.0.len() <= self.widest(n)
                && calls.1.len() <= self.widest(n),
        decreases n,
    {
        if f.0 < n - 1 {
            self.lemma_widest((n - 1) as nat, f);
        }
    }

    /// Takes the exploration one step further, if the calls of its next function
    /// are known.
    pub fn advance(&self, e: &mut Exploration) -> (r: Explored)
        requires
            old(e).well_formed(),
            self.knows(*old(e)),
        ensures
            final(e).well_formed(),
            self.knows(*final(e)),
            match r {
                Explored::Done => {
                    &&& old(e).todos@.len() == 0
                    &&& *final(e) == *old(e)
                },
                Explored::Fetch(f_id, item) => {
                    &&& old(e).todos@.len() > 0
                    &&& f_id == old(e).todos@[0].0
                    &&& self.known_calls(f_id) is None
                    &&& is_item_of(item, self.indexer.functions@[f_id.0 as int])
                    &&& *final(e) == *old(e)
                },
                Explored::Advanced => self.steps_to(*old(e), *final(e)),
            },
    {
        let f_id: FunctionId = match e.next() {
            Some(f_id) => f_id,
            None => {
                return Explored::Done;
            },
        };
        match self.indexer.context(f_id, self.settings.only_in_project) {
            Context::Known(incomings, outgoings) => {
                let callers: Vec<FunctionId> = self.indexer.resolve(&incomings);
                let callees: Vec<FunctionId> = self.indexer.resolve(&outgoings);
                e.absorb(&callers, &callees);
                proof {
                    let functions = self.indexer.functions@;
                    assert(self.indexer.functions.len() == functions.len());
                    let known = self.indexer.recorded(f_id)->0;
                    let root = self.indexer.root@;
                    let only = self.settings.only_in_project;
                    lemma_alike_resolve(functions, incomings@, kept(known.0, root, only));
                    lemma_alike_resolve(functions, outgoings@, kept(known.1, root, only));
                    assert forall|k: int| 0 <= k < e.graph.functions().len() implies (
                    #[trigger] e.graph.functions()[k]).0 < functions.len() by {
                        let f = e.graph.functions()[k];
                        assert(e.graph.functions().contains(f));
                        lemma_step_functions(*old(e), *e, callers@, callees@, f);
                        call_sites_resolve_into_the_index(functions, incomings@, f);
                        call_sites_resolve_into_the_index(functions, outgoings@, f);
                        if old(e).graph.functions().contains(f) {
                            let m = choose|m: int|
                                0 <= m < old(e).graph.functions().len()
                                    && old(e).graph.functions()[m] == f;
                            assert(old(e).graph.functions()[m].0 < functions.len());
                        }
                    }
                    assert forall|k: int| 0 <= k < e.todos@.len() implies (
                    #[trigger] e.todos@[k]).0.0 < functions.len() by {
                        let n = old(e).todos@.len() - 1;
                        let f = e.todos@[k].0;
                        if k < n {
                            assert(e.todos@[k] == old(e).todos@[k + 1]);
                        } else if old(e).todos@[0].1 > 0 {
                            assert(callees@[k - n] == f);
                            call_sites_resolve_into_the_index(functions, outgoings@, f);
                        } else {
                            assert(callers@[k - n] == f);
                            call_sites_resolve_into_the_index(functions, incomings@, f);
                        }
                    }
                }
                Explored::Advanced
            },
            Context::Fetch(item) => Explored::Fetch(f_id, item),
        }
    }
}

/// What came of a step of an exploration.
pub enum Explored {
    /// Nothing is left to be explored.
    Done,
    /// The exploration has taken a step.
    Advanced,
    /// The calls of a function have to be recorded first.
    Fetch(FunctionId, CallHierarchyItem),
}

/// What follows from a choice.
#[derive(Debug, Clone, Copy, PartialEq, Eq, Structural)]
pub enum Next {
    /// The user goes on at the current function.
    Browse,
    /// The user selects the function to go to.
    Select,
    /// The current function is opened in the editor.
    Open,
    /// The user leaves.
    Leave,
}

/// Follows a choice of the user.
pub fn act(stack: &mut NavigationStack, action: FnAction) -> (r: Next)
    ensures
        match action {
            FnAction::GoTo(f_id) => r == Next::Browse && final(stack)@ == pushed(old(stack)@, f_id),
            FnAction::Quit => r == Next::Leave && final(stack)@ == old(stack)@,
            FnAction::Back => if old(stack)@.len() == 0 {
                r == Next::Leave && final(stack)@ == old(stack)@
            } else {
                r == Next::Browse && final(stack)@ == old(stack)@.drop_last()
            },
            FnAction::Jump => r == Next::Select && final(stack)@ == old(stack)@,
            FnAction::OpenIn => r == Next::Open && final(stack)@ == old(stack)@,
        },
{
    match action {
        FnAction::GoTo(f_id) => {
            stack.push(f_id);
            Next::Browse
        },
        FnAction::Quit => Next::Leave,
        FnAction::Back => {
            if stack.is_empty() {
                Next::Leave
            } else {
                let _ = stack.pop();
                Next::Browse
            }
        },
        FnAction::Jump => Next::Select,
        FnAction::OpenIn => Next::Open,
    }
}

/// Follows a selection of the user: of a function to go to, or of none.
pub fn select(stack: &mut NavigationStack, choice: Option<FunctionId>) -> (r: Next)
    ensures
        match choice {
            Some(f_id) => r == Next::Browse && final(stack)@ == pushed(old(stack)@, f_id),
            None => r == Next::Leave && final(stack)@ == old(stack)@,
        },
{
    match choice {
        Some(f_id) => {
            stack.push(f_id);
            Next::Browse
        },
        None => Next::Leave,
    }
}

/// The arguments with which the editor opens a function: its line, counted from
/// one, and its file.
pub fn editor_arguments(f: &Function) -> (r: (String, String))
    requires
        f.0.range.start.line < u32::MAX,
    ensures
        r.0@ == seq!['+'] + decimal((f.0.range.start.line + 1) as nat),
        r.1@ == f.0.uri.path_view(),
{
    proof {
        reveal_strlit("+");
    }
    let mut line: String = "+".to_owned();
    push_decimal(&mut line, (f.0.range.start.line + 1) as u64);
    assert(line@ =~= seq!['+'] + decimal((f.0.range.start.line + 1) as nat));
    (line, f.0.uri.path().to_owned())
}

/// What to tell the user of a function that it took so many seconds to explore:
/// nothing, unless they had to wait.
pub fn ready_notice(seconds: u64, f: &Function) -> (r: Option<String>)
    ensures
        r is Some <==> seconds > 10,
        r matches Some(text) ==> text@ == f.0.name@ + " has been successfully tracked"@,
{
    if seconds > 10 {
        let mut text: String = f.0.name.clone();
        text.append(" has been successfully tracked");
        Some(text)
    } else {
        None
    }
}

proof fn lemma_alike_resolve(functions: Seq<Function>, a: Seq<CallSite>, b: Seq<CallSite>)
    requires
        alike(a, b),
    ensures
        resolved(functions, a) == resolved(functions, b),
    decreases a.len(),
{
    if a.len() > 0 {
        let n = a.len() - 1;
        assert forall|i: int| 0 <= i < n implies (#[trigger] a.drop_last()[i])@
            == b.drop_last()[i]@ && a.drop_last()[i].0.uri == b.drop_last()[i].0.uri by {
            assert(a[i]@ == b[i]@);
        }
        lemma_alike_resolve(functions, a.drop_last(), b.drop_last());
        assert(a[n]@ == b[n]@);
        lemma_alike_id(functions, a[n], b[n]);
    }
}

proof fn lemma_alike_id(functions: Seq<Function>, a: CallSite, b: CallSite)
    requires
        a@ == b@,
    ensures
        id_at(functions, a) == id_at(functions, b),
    decreases functions.len(),
{
    if functions.len() > 0 {
        lemma_alike_id(functions.drop_last(), a, b);
        assert(a.0@ == b.0@);
        assert(is_at(functions.last(), a) == is_at(functions.last(), b));
    }
}

proof fn lemma_step_functions(
    before: Exploration,
    after: Exploration,
    incomings: Seq<FunctionId>,
    outgoings: Seq<FunctionId>,
    f: FunctionId,
)
    requires
        before.todos@.len() > 0,
        before.is_followed_by(after, incomings, outgoings),
        after.graph.functions().contains(f),
    ensures
        before.graph.functions().contains(f) || incomings.contains(f) || outgoings.contains(f),
{
    let (first, forward, backward) = before.todos@[0];
    if forward > 0 {
        added_calls_are_known(before.graph, after.graph, first, true, outgoings, f);
    } else if backward > 0 {
        added_calls_are_known(before.graph, after.graph, first, false, incomings, f);
    }
}

/// The chord in bold yellow and in brackets, and then the name in bold.
pub open spec fn is_row(
    chord: Seq<char>,
    name: Seq<char>,
    color: Seq<char>,
    row: Seq<char>,
) -> bool {
    exists|tag: Seq<char>, shown: Seq<char>| #[trigger]
        is_tagged(chord, name, color, tag, shown) && row == bracketed(tag) + seq![' '] + shown
}

/// `tag` is the chord and `shown` is the name, as they are shown.
pub open spec fn is_tagged(
    chord: Seq<char>,
    name: Seq<char>,
    color: Seq<char>,
    tag: Seq<char>,
    shown: Seq<char>,
) -> bool {
    &&& shows_bold_color(tag, chord, "yellow"@)
    &&& shows_bold_color(shown, name, color)
}

/// Below a title, a row for each call site, with the chords from `offset` on.
pub open spec fn are_rows(
    sites: Seq<CallSite>,
    chords: Seq<CompactString>,
    offset: int,
    color: Seq<char>,
    column: Seq<Seq<char>>,
) -> bool {
    &&& column.len() == sites.len() + 1
    &&& forall|j: int|
        1 <= j < column.len() ==> is_row(
            letters(chords[offset + j - 1]),
            sites[j - 1].0.name@,
            color,
            #[trigger] column[j],
        )
}

/// The names of the call sites fit into cells.
pub open spec fn have_cell_names(sites: Seq<CallSite>) -> bool {
    forall|i: int| 0 <= i < sites.len() ==> is_cell((#[trigger] sites[i]).0.name@)
}

/// The chords fit into cells.
pub open spec fn are_cell_chords(chords: Seq<CompactString>) -> bool {
    forall|i: int| 0 <= i < chords.len() ==> is_cell(letters(#[trigger] chords[i]))
}

/// The function is known, and what is shown of it fits into cells: its name, the
/// names of its callers and callees that show a function, and the chords.
pub open spec fn is_showable(
    functions: Seq<Function>,
    f_id: FunctionId,
    incomings: Seq<CallSite>,
    outgoings: Seq<CallSite>,
    chords: Seq<CompactString>,
) -> bool {
    &&& f_id.0 < functions.len()
    &&& is_cell(functions[f_id.0 as int].0.name@)
    &&& have_cell_names(located(functions, incomings))
    &&& have_cell_names(located(functions, outgoings))
    &&& are_cell_chords(chords)
}

/// Of the first `i + 1` call sites, those that show a function: they start the
/// call sites that show one, and behind those of the first `i` there comes at
/// most the last.
proof fn lemma_located_part(functions: Seq<Function>, sites: Seq<CallSite>, i: int)
    requires
        0 <= i < sites.len(),
    ensures
        located(functions, sites.take(i + 1)) == (match id_at(functions, sites[i]) {
            Some(_) => located(functions, sites.take(i)).push(sites[i]),
            None => located(functions, sites.take(i)),
        }),
        have_cell_names(located(functions, sites)) ==> have_cell_names(
            located(functions, sites.take(i + 1)),
        ),
        id_at(functions, sites[i]) is Some && have_cell_names(located(functions, sites))
            ==> is_cell(sites[i].0.name@),
    decreases sites.len() - i,
{
    let part = sites.take(i + 1);
    assert(part.drop_last() =~= sites.take(i));
    assert(part.last() == sites[i]);
    let l = located(functions, part);
    if i + 1 < sites.len() {
        lemma_located_part(functions, sites, i + 1);
        let m = located(functions, sites.take(i + 2));
        assert forall|k: int| 0 <= k < l.len() implies m[k] == l[k] by {}
        if have_cell_names(m) {
            assert forall|k: int| 0 <= k < l.len() implies is_cell((#[trigger] l[k]).0.name@) by {
                assert(is_cell(m[k].0.name@));
            }
        }
    } else {
        assert(part =~= sites);
    }
    if id_at(functions, sites[i]) is Some && have_cell_names(l) {
        assert(l[l.len() - 1] == sites[i]);
    }
}

fn chords_fit(chords: &Vec<CompactString>) -> (r: bool)
    ensures
        r == are_cell_chords(chords@),
{
    let mut i: usize = 0;
    while i < chords.len()
        invariant
            i <= chords@.len(),
            forall|k: int| 0 <= k < i ==> is_cell(letters(#[trigger] chords@[k])),
        decreases chords@.len() - i,
    {
        if !fits_cell(chords[i].as_str()) {
            return false;
        }
        i = i + 1;
    }
    true
}

/// The columns of the overview of a function. The chords of the callees start
/// behind as many chords as there are callers, whether these show a function or
/// not.
pub open spec fn are_columns(
    functions: Seq<Function>,
    f_id: FunctionId,
    incomings: Seq<CallSite>,
    outgoings: Seq<CallSite>,
    chords: Seq<CompactString>,
    left: Seq<Seq<char>>,
    center: Seq<Seq<char>>,
    right: Seq<Seq<char>>,
) -> bool {
    &&& are_rows(located(functions, incomings), chords, 0, "bright blue"@, left)
    &&& shows_color(left[0], "CALLERS"@, "blue"@)
    &&& center.len() == 2
    &&& shows_color(center[0], "CURRENT"@, "white"@)
    &&& shows_color(center[1], functions[f_id.0 as int].0.name@, "bright white"@)
    &&& are_rows(
        located(functions, outgoings),
        chords,
        incomings.len() as int,
        "bright magenta"@,
        right,
    )
    &&& shows_color(right[0], "CALLEES"@, "purple"@)
}

fn row(chord: &str, name: &str, color: &str) -> (r: String)
    requires
        is_color(color@),
        is_color("yellow"@),
        is_cell(chord@),
        is_cell(name@),
    ensures
        is_row(chord@, name@, color@, r@),
        is_cell(r@),
{
    let tag: String = in_bold_color(chord, "yellow");
    let shown: String = in_bold_color(name, color);
    assert(is_tagged(chord@, name@, color@, tag@, shown@));
    proof {
        reveal_strlit(" ");
    }
    let mut r: String = bracket(tag.as_str());
    r.append(" ");
    r.append(shown.as_str());
    assert(r@ =~= bracketed(tag@) + seq![' '] + shown@);
    proof {
        painted_cells_are_cells(chord@, tag@, "yellow"@, 0);
        painted_cells_are_cells(name@, shown@, color@, 0);
        assert(is_cell(seq!['[']));
        assert(is_cell(seq![']']));
        assert(is_cell(seq![' ']));
        lemma_cells_join(seq!['['], tag@);
        lemma_cells_join(seq!['['] + tag@, seq![']']);
        lemma_cells_join(bracketed(tag@), seq![' ']);
        lemma_cells_join(bracketed(tag@) + seq![' '], shown@);
    }
    r
}

} // verus!
