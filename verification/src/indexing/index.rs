//! The index of a project: its functions, and the calls between them as far as
//! they are known.

use vstd::prelude::*;
use crate::indexing::placed::{
    all_different, goes_at, holds, in_order, insert_placed, Placed,
};
use crate::indexing::symbols::{
    same_str, CallHierarchyItem, CallSite, Function, SymbolInformation, FUNCTION_KIND,
};
use crate::text::starts_with;

verus! {

/// The list in the order of documents and lines, each item once.
fn arranged<T: Placed>(items: Vec<T>) -> (r: Vec<T>)
    ensures
        in_order(r@),
        all_different(r@),
        forall|i: int| 0 <= i < r@.len() ==> items@.contains(#[trigger] r@[i]),
        forall|i: int| 0 <= i < items@.len() ==> holds(r@, (#[trigger] items@[i])@),
{
    let ghost all = items@;
    let mut r: Vec<T> = Vec::new();
    for x in it: items.into_iter()
        invariant
            it.seq() == all,
            in_order(r@),
            all_different(r@),
            forall|i: int| 0 <= i < r@.len() ==> all.contains(#[trigger] r@[i]),
            forall|i: int| 0 <= i < it.index() ==> holds(r@, (#[trigger] all[i])@),
    {
        let ghost before = r@;
        let ghost n = it.index();
        assert(x == all[n]);
        insert_placed(&mut r, x);
        proof {
            if !holds(before, x@) {
                let at = choose|at: int| #[trigger]
                    goes_at(before, x, at) && r@ == before.insert(at, x);
                assert forall|i: int| 0 <= i < r@.len() implies all.contains(#[trigger] r@[i]) by {
                    if i < at {
                        assert(r@[i] == before[i]);
                    } else if i > at {
                        assert(r@[i] == before[i - 1]);
                    }
                }
                assert forall|i: int| 0 <= i <= n implies holds(r@, (#[trigger] all[i])@) by {
                    if i < n {
                        let j = choose|j: int|
                            0 <= j < before.len() && (#[trigger] before[j])@ == all[i]@;
                        assert(holds(before, all[i]@));
                        if j < at {
                            assert(r@[j] == before[j]);
                        } else {
                            assert(r@[j + 1] == before[j]);
                        }
                    } else {
                        assert(r@[at] == x);
                    }
                }
            }
        }
    }
    r
}

/// The number of a function in the index.
#[derive(Debug, Clone, Copy, PartialEq, Eq, Structural)]
pub struct FunctionId(pub usize);

impl From<usize> for FunctionId {
    fn from(i: usize) -> (r: Self) {
        FunctionId(i)
    }
}

impl vstd::std_specs::convert::FromSpecImpl<usize> for FunctionId {
    open spec fn obeys_from_spec() -> bool {
        true
    }

    open spec fn from_spec(i: usize) -> Self {
        FunctionId(i)
    }
}

/// `name` is among the names to ignore.
pub open spec fn is_clutter(clutter: Seq<String>, name: Seq<char>) -> bool {
    exists|i: int| 0 <= i < clutter.len() && (#[trigger] clutter[i])@ == name
}

fn among(clutter: &Vec<String>, name: &str) -> (r: bool)
    ensures
        r == is_clutter(clutter@, name@),
{
    let mut i: usize = 0;
    while i < clutter.len()
        invariant
            i <= clutter@.len(),
            forall|j: int| 0 <= j < i ==> (#[trigger] clutter@[j])@ != name@,
        decreases clutter@.len() - i,
    {
        if same_str(clutter[i].as_str(), name) {
            return true;
        }
        i = i + 1;
    }
    false
}

/// `f` is symbol `i`: a function, and not to be ignored.
pub open spec fn is_function_of(
    symbols: Seq<SymbolInformation>,
    clutter: Seq<String>,
    f: Function,
    i: int,
) -> bool {
    &&& 0 <= i < symbols.len()
    &&& symbols[i].kind == FUNCTION_KIND
    &&& !is_clutter(clutter, symbols[i].name@)
    &&& f@ == symbols[i]@
    &&& f.0.uri == symbols[i].uri
}

/// `f` is one of the symbols: a function, and not to be ignored.
pub open spec fn is_wanted(
    symbols: Seq<SymbolInformation>,
    clutter: Seq<String>,
    f: Function,
) -> bool {
    exists|i: int| is_function_of(symbols, clutter, f, i)
}

/// `functions` are the functions among the symbols, without those to be ignored:
/// each once, in the order of documents and lines.
pub open spec fn are_functions_of(
    symbols: Seq<SymbolInformation>,
    clutter: Seq<String>,
    functions: Seq<Function>,
) -> bool {
    &&& in_order(functions)
    &&& all_different(functions)
    &&& forall|i: int|
        0 <= i < functions.len() ==> is_wanted(symbols, clutter, #[trigger] functions[i])
    &&& forall|j: int|
        0 <= j < symbols.len() && (#[trigger] symbols[j]).kind == FUNCTION_KIND && !is_clutter(
            clutter,
            symbols[j].name@,
        ) ==> holds(functions, symbols[j]@)
}

/// The functions among the symbols.
pub fn project_functions(symbols: &Vec<SymbolInformation>, clutter: &Vec<String>) -> (r: Vec<
    Function,
>)
    ensures
        are_functions_of(symbols@, clutter@, r@),
{
    let mut wanted: Vec<Function> = Vec::new();
    let mut i: usize = 0;
    while i < symbols.len()
        invariant
            i <= symbols@.len(),
            forall|k: int|
                0 <= k < wanted@.len() ==> is_wanted(symbols@, clutter@, #[trigger] wanted@[k]),
            forall|j: int|
                0 <= j < i && (#[trigger] symbols@[j]).kind == FUNCTION_KIND && !is_clutter(
                    clutter@,
                    symbols@[j].name@,
                ) ==> holds(wanted@, symbols@[j]@),
        decreases symbols@.len() - i,
    {
        let s: &SymbolInformation = &symbols[i];
        if s.kind == FUNCTION_KIND && !among(clutter, s.name.as_str()) {
            let ghost before = wanted@;
            let f = Function(s.clone());
            wanted.push(f);
            proof {
                assert(is_function_of(symbols@, clutter@, f, i as int));
                assert(is_wanted(symbols@, clutter@, f));
                assert forall|k: int| 0 <= k < wanted@.len() implies is_wanted(
                    symbols@,
                    clutter@,
                    #[trigger] wanted@[k],
                ) by {
                    if k < before.len() {
                        assert(wanted@[k] == before[k]);
                    }
                }
                lemma_holds_pushed(before, f);
                assert(wanted@.last()@ == symbols@[i as int]@);
            }
        }
        i = i + 1;
    }
    let ghost all = wanted@;
    let r: Vec<Function> = arranged(wanted);
    proof {
        assert forall|k: int| 0 <= k < r@.len() implies is_wanted(
            symbols@,
            clutter@,
            #[trigger] r@[k],
        ) by {
            assert(all.contains(r@[k]));
            let m = choose|m: int| 0 <= m < all.len() && all[m] == r@[k];
            assert(is_wanted(symbols@, clutter@, all[m]));
        }
        assert forall|j: int|
            0 <= j < symbols@.len() && (#[trigger] symbols@[j]).kind == FUNCTION_KIND
                && !is_clutter(clutter@, symbols@[j].name@) implies holds(r@, symbols@[j]@) by {
            let m = choose|m: int| 0 <= m < all.len() && (#[trigger] all[m])@ == symbols@[j]@;
            assert(holds(all, symbols@[j]@));
            assert(holds(r@, all[m]@));
        }
    }
    r
}

proof fn lemma_holds_pushed<T: View>(s: Seq<T>, x: T)
    ensures
        forall|v: T::V| holds(s, v) ==> #[trigger] holds(s.push(x), v),
        holds(s.push(x), x@),
{
    let t = s.push(x);
    assert forall|v: T::V| holds(s, v) implies #[trigger] holds(t, v) by {
        let i = choose|i: int| 0 <= i < s.len() && (#[trigger] s[i])@ == v;
        assert(t[i] == s[i]);
    }
    assert(t[s.len() as int] == x);
}

/// `c` is item `i`, and not to be ignored.
pub open spec fn is_call_of(
    items: Seq<CallHierarchyItem>,
    clutter: Seq<String>,
    c: CallSite,
    i: int,
) -> bool {
    &&& 0 <= i < items.len()
    &&& !is_clutter(clutter, items[i].name@)
    &&& c@ == items[i]@
    &&& c.0.uri == items[i].uri
}

/// `c` is one of the items, and not to be ignored.
pub open spec fn is_wanted_call(
    items: Seq<CallHierarchyItem>,
    clutter: Seq<String>,
    c: CallSite,
) -> bool {
    exists|i: int| is_call_of(items, clutter, c, i)
}

/// `sites` are the items without those to be ignored: each once, in the order of
/// documents and lines.
pub open spec fn are_calls_of(
    items: Seq<CallHierarchyItem>,
    clutter: Seq<String>,
    sites: Seq<CallSite>,
) -> bool {
    &&& in_order(sites)
    &&& all_different(sites)
    &&& forall|i: int|
        0 <= i < sites.len() ==> is_wanted_call(items, clutter, #[trigger] sites[i])
    &&& forall|j: int|
        0 <= j < items.len() && !is_clutter(clutter, (#[trigger] items[j]).name@) ==> holds(
            sites,
            items[j]@,
        )
}

/// The items of a reply; none where there is no reply.
pub open spec fn reply(items: Option<Vec<CallHierarchyItem>>) -> Seq<CallHierarchyItem> {
    match items {
        Some(v) => v@,
        None => Seq::empty(),
    }
}

/// The call sites among the items of a reply.
pub fn call_sites(items: &Option<Vec<CallHierarchyItem>>, clutter: &Vec<String>) -> (r: Vec<
    CallSite,
>)
    ensures
        are_calls_of(reply(*items), clutter@, r@),
{
    match items {
        Some(v) => wanted_calls(v, clutter),
        None => Vec::new(),
    }
}

fn wanted_calls(items: &Vec<CallHierarchyItem>, clutter: &Vec<String>) -> (r: Vec<CallSite>)
    ensures
        are_calls_of(items@, clutter@, r@),
{
    let mut wanted: Vec<CallSite> = Vec::new();
    let mut i: usize = 0;
    while i < items.len()
        invariant
            i <= items@.len(),
            forall|k: int|
                0 <= k < wanted@.len() ==> is_wanted_call(items@, clutter@, #[trigger] wanted@[k]),
            forall|j: int|
                0 <= j < i && !is_clutter(clutter@, (#[trigger] items@[j]).name@) ==> holds(
                    wanted@,
                    items@[j]@,
                ),
        decreases items@.len() - i,
    {
        let item: &CallHierarchyItem = &items[i];
        if !among(clutter, item.name.as_str()) {
            let ghost before = wanted@;
            let c = CallSite(item.clone());
            wanted.push(c);
            proof {
                assert(is_call_of(items@, clutter@, c, i as int));
                assert(is_wanted_call(items@, clutter@, c));
                assert forall|k: int| 0 <= k < wanted@.len() implies is_wanted_call(
                    items@,
                    clutter@,
                    #[trigger] wanted@[k],
                ) by {
                    if k < before.len() {
                        assert(wanted@[k] == before[k]);
                    }
                }
                lemma_holds_pushed(before, c);
                assert(wanted@.last()@ == items@[i as int]@);
            }
        }
        i = i + 1;
    }
    let ghost all = wanted@;
    let r: Vec<CallSite> = arranged(wanted);
    proof {
        assert forall|k: int| 0 <= k < r@.len() implies is_wanted_call(
            items@,
            clutter@,
            #[trigger] r@[k],
        ) by {
            assert(all.contains(r@[k]));
            let m = choose|m: int| 0 <= m < all.len() && all[m] == r@[k];
            assert(is_wanted_call(items@, clutter@, all[m]));
        }
        assert forall|j: int|
            0 <= j < items@.len() && !is_clutter(
                clutter@,
                (#[trigger] items@[j]).name@,
            ) implies holds(r@, items@[j]@) by {
            let m = choose|m: int| 0 <= m < all.len() && (#[trigger] all[m])@ == items@[j]@;
            assert(holds(all, items@[j]@));
            assert(holds(r@, all[m]@));
        }
    }
    r
}

/// `f` is the function that the call site shows: it has the same place.
pub open spec fn is_at(f: Function, site: CallSite) -> bool {
    f.0.uri@ == site.0.uri@ && f.0.range == site.0.range
}

/// The first function that has the place of the call site.
pub open spec fn id_at(functions: Seq<Function>, site: CallSite) -> Option<FunctionId>
    decreases functions.len(),
{
    if functions.len() == 0 {
        None
    } else {
        match id_at(functions.drop_last(), site) {
            Some(id) => Some(id),
            None => if is_at(functions.last(), site) {
                Some(FunctionId((functions.len() - 1) as usize))
            } else {
                None
            },
        }
    }
}

/// The functions that call sites show, for those that show one.
pub open spec fn resolved(functions: Seq<Function>, sites: Seq<CallSite>) -> Seq<FunctionId>
    decreases sites.len(),
{
    if sites.len() == 0 {
        Seq::empty()
    } else {
        let before = resolved(functions, sites.drop_last());
        match id_at(functions, sites.last()) {
            Some(id) => before.push(id),
            None => before,
        }
    }
}

/// The call sites in files below `root`, or all of them.
pub open spec fn kept(sites: Seq<CallSite>, root: Seq<char>, only_in_project: bool) -> Seq<
    CallSite,
> {
    if only_in_project {
        sites.filter(|s: CallSite| s.is_below(root))
    } else {
        sites
    }
}

/// `a` and `b` show the same call sites.
pub open spec fn alike(a: Seq<CallSite>, b: Seq<CallSite>) -> bool {
    &&& a.len() == b.len()
    &&& forall|i: int|
        0 <= i < a.len() ==> (#[trigger] a[i])@ == b[i]@ && a[i].0.uri == b[i].0.uri
}

/// What is known of the calls from and to functions, by the function's number.
pub type CallHierarchyCache = Vec<Option<(Vec<CallSite>, Vec<CallSite>)>>;

/// The functions of a project, and what is known of the calls between them.
pub struct Index {
    pub root: String,
    /// The names of functions to ignore.
    pub clutter: Vec<String>,
    pub functions: Vec<Function>,
    pub cache: CallHierarchyCache,
}

/// The calls to and from a function, or what to ask the language server for.
pub enum Context {
    Known(Vec<CallSite>, Vec<CallSite>),
    Fetch(CallHierarchyItem),
}

fn copy_kept(sites: &Vec<CallSite>, root: &str, only_in_project: bool) -> (r: Vec<CallSite>)
    ensures
        alike(r@, kept(sites@, root@, only_in_project)),
{
    let mut r: Vec<CallSite> = Vec::new();
    let ghost below = |s: CallSite| s.is_below(root@);
    let mut i: usize = 0;
    while i < sites.len()
        invariant
            i <= sites@.len(),
            below == (|s: CallSite| s.is_below(root@)),
            alike(r@, kept(sites@.take(i as int), root@, only_in_project)),
        decreases sites@.len() - i,
    {
        let ghost upto = sites@.take(i + 1);
        assert(upto.drop_last() =~= sites@.take(i as int));
        reveal(Seq::filter);
        if !only_in_project || starts_with(sites[i].0.uri.path(), root) {
            r.push(sites[i].clone());
        }
        i = i + 1;
        assert(alike(r@, kept(upto, root@, only_in_project)));
    }
    assert(sites@.take(i as int) =~= sites@);
    r
}

impl Index {
    /// What is known of the calls to and from a function.
    pub open spec fn recorded(&self, id: FunctionId) -> Option<(Seq<CallSite>, Seq<CallSite>)> {
        if id.0 < self.cache@.len() {
            match self.cache@[id.0 as int] {
                Some(known) => Some((known.0@, known.1@)),
                None => None,
            }
        } else {
            None
        }
    }

    /// The index of a project with the given symbols. Nothing is known of calls.
    pub fn new(root: String, clutter: Vec<String>, symbols: &Vec<SymbolInformation>) -> (r: Self)
        ensures
            r.root@ == root@,
            r.clutter@ == clutter@,
            are_functions_of(symbols@, clutter@, r.functions@),
            forall|id: FunctionId| r.recorded(id) is None,
    {
        let functions: Vec<Function> = project_functions(symbols, &clutter);
        Index { root, clutter, functions, cache: Vec::new() }
    }

    /// The calls to and from a function as they are known, or the item to ask
    /// the language server about.
    pub fn context(&self, f_id: FunctionId, only_in_project: bool) -> (r: Context)
        requires
            f_id.0 < self.functions@.len(),
        ensures
            match r {
                Context::Known(incomings, outgoings) => {
                    &&& self.recorded(f_id) matches Some(known)
                    &&& alike(incomings@, kept(known.0, self.root@, only_in_project))
                    &&& alike(outgoings@, kept(known.1, self.root@, only_in_project))
                },
                Context::Fetch(item) => {
                    &&& self.recorded(f_id) is None
                    &&& is_item_of(item, self.functions@[f_id.0 as int])
                },
            },
    {
        if f_id.0 < self.cache.len() {
            match &self.cache[f_id.0] {
                Some(known) => {
                    return Context::Known(
                        copy_kept(&known.0, self.root.as_str(), only_in_project),
                        copy_kept(&known.1, self.root.as_str(), only_in_project),
                    );
                },
                None => {},
            }
        }
        Context::Fetch(CallHierarchyItem::from(&self.functions[f_id.0]))
    }

    /// Takes the language server's replies on the calls to and from a function:
    /// what is then known of them.
    pub fn record(
        &mut self,
        f_id: FunctionId,
        incoming: &Option<Vec<CallHierarchyItem>>,
        outgoing: &Option<Vec<CallHierarchyItem>>,
        only_in_project: bool,
    ) -> (r: (Vec<CallSite>, Vec<CallSite>))
        requires
            f_id.0 < old(self).functions@.len(),
        ensures
            final(self).root@ == old(self).root@,
            final(self).clutter@ == old(self).clutter@,
            final(self).functions@ == old(self).functions@,
            final(self).recorded(f_id) matches Some(known) && {
                &&& are_calls_of(reply(*incoming), old(self).clutter@, known.0)
                &&& are_calls_of(reply(*outgoing), old(self).clutter@, known.1)
                &&& alike(r.0@, kept(known.0, old(self).root@, only_in_project))
                &&& alike(r.1@, kept(known.1, old(self).root@, only_in_project))
            },
            forall|id: FunctionId|
                id != f_id ==> final(self).recorded(id) == old(self).recorded(id),
    {
        let incomings: Vec<CallSite> = call_sites(incoming, &self.clutter);
        let outgoings: Vec<CallSite> = call_sites(outgoing, &self.clutter);
        while self.cache.len() <= f_id.0
            invariant
                f_id.0 < self.functions@.len(),
                self.root@ == old(self).root@,
                self.clutter@ == old(self).clutter@,
                self.functions@ == old(self).functions@,
                forall|id: FunctionId| self.recorded(id) == old(self).recorded(id),
            decreases f_id.0 + 1 - self.cache@.len(),
        {
            let ghost before = *self;
            self.cache.push(None);
            assert forall|id: FunctionId| self.recorded(id) == old(self).recorded(id) by {
                assert(before.recorded(id) == old(self).recorded(id));
            }
        }
        let shown: (Vec<CallSite>, Vec<CallSite>) = (
            copy_kept(&incomings, self.root.as_str(), only_in_project),
            copy_kept(&outgoings, self.root.as_str(), only_in_project),
        );
        let ghost before = *self;
        self.cache.set(f_id.0, Some((incomings, outgoings)));
        assert forall|id: FunctionId| id != f_id implies self.recorded(id) == old(self).recorded(
            id,
        ) by {
            assert(before.recorded(id) == old(self).recorded(id));
        }
        shown
    }

    /// The function that a call site shows.
    pub fn fn_id_from_callsite(&self, site: &CallSite) -> (r: Option<FunctionId>)
        ensures
            r == id_at(self.functions@, *site),
    {
        let mut i: usize = 0;
        while i < self.functions.len()
            invariant
                i <= self.functions@.len(),
                id_at(self.functions@.take(i as int), *site) is None,
            decreases self.functions@.len() - i,
        {
            let ghost upto = self.functions@.take(i + 1);
            assert(upto.drop_last() =~= self.functions@.take(i as int));
            let f: &Function = &self.functions[i];
            if f.0.range == site.0.range && same_str(f.0.uri.as_str(), site.0.uri.as_str()) {
                proof {
                    lemma_id_at_prefix(self.functions@, *site, i + 1);
                }
                return Some(FunctionId(i));
            }
            i = i + 1;
        }
        assert(self.functions@.take(i as int) =~= self.functions@);
        None
    }

    /// The functions that call sites show, for those that show one.
    pub fn resolve(&self, sites: &Vec<CallSite>) -> (r: Vec<FunctionId>)
        ensures
            r@ == resolved(self.functions@, sites@),
    {
        let mut r: Vec<FunctionId> = Vec::new();
        let mut i: usize = 0;
        while i < sites.len()
            invariant
                i <= sites@.len(),
                r@ == resolved(self.functions@, sites@.take(i as int)),
            decreases sites@.len() - i,
        {
            assert(sites@.take(i + 1).drop_last() =~= sites@.take(i as int));
            match self.fn_id_from_callsite(&sites[i]) {
                Some(id) => r.push(id),
                None => {},
            }
            i = i + 1;
        }
        assert(sites@.take(i as int) =~= sites@);
        r
    }
}

/// `item` is the function, as an item of the call hierarchy.
pub open spec fn is_item_of(item: CallHierarchyItem, f: Function) -> bool {
    &&& item.name@ == f.0.name@
    &&& item.kind == f.0.kind
    &&& item@.tags == f@.tags
    &&& item.detail is None
    &&& item.uri == f.0.uri
    &&& item.range == f.0.range
    &&& item.selection_range == f.0.range
    &&& item.data is None
}

proof fn lemma_id_at_prefix(functions: Seq<Function>, site: CallSite, n: int)
    requires
        0 <= n <= functions.len(),
        id_at(functions.take(n), site) is Some,
    ensures
        id_at(functions, site) == id_at(functions.take(n), site),
    decreases functions.len(),
{
    if n < functions.len() {
        assert(functions.drop_last().take(n) =~= functions.take(n));
        lemma_id_at_prefix(functions.drop_last(), site, n);
    } else {
        assert(functions.take(n) =~= functions);
    }
}

} // verus!
