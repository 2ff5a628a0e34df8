//! The functions and the call sites of an index.

use vstd::prelude::*;
use crate::indexing::index::{
    alike, are_calls_of, are_functions_of, id_at, is_at, is_call_of, is_clutter, is_function_of,
    is_item_of, is_wanted, is_wanted_call, kept, reply, resolved, FunctionId,
};
use crate::indexing::json::{json_view, JsonToken};
use crate::indexing::placed::{holds, placed_before};
use crate::indexing::symbols::{
    tags_view, text_view, CallHierarchyItem, CallSite, Function, ItemView, SymbolInformation,
    SymbolView,
};
use crate::text::text_before;

verus! {

/// Some function has this view.
pub open spec fn some_function(functions: Seq<Function>, v: SymbolView) -> bool {
    exists|k: int| 0 <= k < functions.len() && (#[trigger] functions[k])@ == v
}

/// Some call site has this view.
pub open spec fn some_site(sites: Seq<CallSite>, v: ItemView) -> bool {
    exists|k: int| 0 <= k < sites.len() && (#[trigger] sites[k])@ == v
}

/// The name differs from each text of the list.
pub open spec fn is_none_of(list: Seq<String>, name: Seq<char>) -> bool {
    forall|i: int| 0 <= i < list.len() ==> (#[trigger] list[i])@ != name
}

/// Of the symbols, the index holds exactly the functions whose names are not to be
/// ignored: those whose names are equal to no text of the list.
pub proof fn the_index_holds_what_is_not_ignored(
    symbols: Seq<SymbolInformation>,
    clutter: Seq<String>,
    functions: Seq<Function>,
    j: int,
)
    requires
        are_functions_of(symbols, clutter, functions),
        0 <= j < symbols.len(),
    ensures
        symbols[j].kind == 12 && is_none_of(clutter, symbols[j].name@) <==> some_function(
            functions,
            symbols[j]@,
        ),
{
    let s = symbols[j];
    if s.kind == 12 && is_none_of(clutter, s.name@) {
        assert(!is_clutter(clutter, s.name@));
        assert(holds(functions, s@));
        let k = choose|k: int| 0 <= k < functions.len() && (#[trigger] functions[k])@ == s@;
        assert(functions[k]@ == s@);
    }
    if some_function(functions, s@) {
        let k = choose|k: int| 0 <= k < functions.len() && (#[trigger] functions[k])@ == s@;
        assert(is_wanted(symbols, clutter, functions[k]));
        let i = choose|i: int| is_function_of(symbols, clutter, functions[k], i);
        assert(symbols[i]@ == s@);
        assert(symbols[i]@.name == s@.name && symbols[i]@.kind == s@.kind);
        assert forall|x: int| 0 <= x < clutter.len() implies (#[trigger] clutter[x])@
            != s.name@ by {
            assert(!is_clutter(clutter, s.name@));
        }
    }
}

/// Each function of the index is one of the symbols, with its identifier.
pub proof fn indexed_functions_are_symbols(
    symbols: Seq<SymbolInformation>,
    clutter: Seq<String>,
    functions: Seq<Function>,
    k: int,
) -> (j: int)
    requires
        are_functions_of(symbols, clutter, functions),
        0 <= k < functions.len(),
    ensures
        0 <= j < symbols.len(),
        functions[k]@ == symbols[j]@,
        functions[k].0.uri == symbols[j].uri,
        symbols[j].kind == 12,
        is_none_of(clutter, symbols[j].name@),
{
    assert(is_wanted(symbols, clutter, functions[k]));
    let j = choose|j: int| is_function_of(symbols, clutter, functions[k], j);
    assert forall|x: int| 0 <= x < clutter.len() implies (#[trigger] clutter[x])@
        != symbols[j].name@ by {
        assert(!is_clutter(clutter, symbols[j].name@));
    }
    j
}

/// The functions of the index go by documents, and within a document by lines. No
/// function is there twice.
pub proof fn indexed_functions_are_in_order(
    symbols: Seq<SymbolInformation>,
    clutter: Seq<String>,
    functions: Seq<Function>,
    i: int,
    j: int,
)
    requires
        are_functions_of(symbols, clutter, functions),
        0 <= i < j < functions.len(),
    ensures
        !text_before(functions[j].0.uri@, functions[i].0.uri@),
        functions[i].0.uri@ == functions[j].0.uri@ ==> functions[i].0.range.start.line
            <= functions[j].0.range.start.line,
        functions[i]@ != functions[j]@,
{
    assert(!placed_before(functions[j], functions[i]));
}

/// Of the items of a reply, those are call sites whose names are not to be ignored:
/// whose names are equal to no text of the list.
pub proof fn replies_give_what_is_not_ignored(
    items: Vec<CallHierarchyItem>,
    clutter: Seq<String>,
    sites: Seq<CallSite>,
    j: int,
)
    requires
        are_calls_of(reply(Some(items)), clutter, sites),
        0 <= j < items@.len(),
    ensures
        is_none_of(clutter, items@[j].name@) <==> some_site(sites, items@[j]@),
{
    let all = reply(Some(items));
    let s = items@[j];
    assert(all[j] == s);
    if is_none_of(clutter, s.name@) {
        assert(!is_clutter(clutter, all[j].name@));
        assert(holds(sites, s@));
        let k = choose|k: int| 0 <= k < sites.len() && (#[trigger] sites[k])@ == s@;
        assert(sites[k]@ == s@);
    }
    if some_site(sites, s@) {
        let k = choose|k: int| 0 <= k < sites.len() && (#[trigger] sites[k])@ == s@;
        assert(is_wanted_call(all, clutter, sites[k]));
        let i = choose|i: int| is_call_of(all, clutter, sites[k], i);
        assert(all[i]@ == s@);
        assert(all[i]@.name == s@.name);
        assert forall|x: int| 0 <= x < clutter.len() implies (#[trigger] clutter[x])@
            != s.name@ by {
            assert(!is_clutter(clutter, s.name@));
        }
    }
}

/// Each call site is one of the items of the reply, with its identifier. Without a
/// reply there is none.
pub proof fn call_sites_come_from_replies(
    items: Option<Vec<CallHierarchyItem>>,
    clutter: Seq<String>,
    sites: Seq<CallSite>,
    k: int,
) -> (j: int)
    requires
        are_calls_of(reply(items), clutter, sites),
        0 <= k < sites.len(),
    ensures
        items is Some,
        0 <= j < items->0@.len(),
        sites[k]@ == items->0@[j]@,
        sites[k].0.uri == items->0@[j].uri,
        is_none_of(clutter, items->0@[j].name@),
{
    let all = reply(items);
    assert(is_wanted_call(all, clutter, sites[k]));
    let j = choose|j: int| is_call_of(all, clutter, sites[k], j);
    assert forall|x: int| 0 <= x < clutter.len() implies (#[trigger] clutter[x])@
        != all[j].name@ by {
        assert(!is_clutter(clutter, all[j].name@));
    }
    j
}

/// Call sites go by documents, and within a document by lines. None is there twice.
pub proof fn call_sites_are_in_order(
    items: Option<Vec<CallHierarchyItem>>,
    clutter: Seq<String>,
    sites: Seq<CallSite>,
    i: int,
    j: int,
)
    requires
        are_calls_of(reply(items), clutter, sites),
        0 <= i < j < sites.len(),
    ensures
        !text_before(sites[j].0.uri@, sites[i].0.uri@),
        sites[i].0.uri@ == sites[j].0.uri@ ==> sites[i].0.range.start.line
            <= sites[j].0.range.start.line,
        sites[i]@ != sites[j]@,
{
    assert(!placed_before(sites[j], sites[i]));
}

/// Both are missing, or both are there and hold the same characters.
pub open spec fn is_same_text(a: Option<String>, b: Option<String>) -> bool {
    match (a, b) {
        (Some(x), Some(y)) => x@ == y@,
        (None, None) => true,
        _ => false,
    }
}

/// Both are missing, or both are there and hold the same numbers.
pub open spec fn are_same_tags(a: Option<Vec<i32>>, b: Option<Vec<i32>>) -> bool {
    match (a, b) {
        (Some(x), Some(y)) => x@ == y@,
        (None, None) => true,
        _ => false,
    }
}

/// The two parts of JSON values are the same: of one kind, and with the same
/// content. Zero is the same number with either sign.
pub open spec fn is_same_token(a: JsonToken, b: JsonToken) -> bool {
    match (a, b) {
        (JsonToken::Null, JsonToken::Null) => true,
        (JsonToken::Bool(x), JsonToken::Bool(y)) => x == y,
        (JsonToken::Natural(x), JsonToken::Natural(y)) => x == y,
        (JsonToken::Negative(x), JsonToken::Negative(y)) => x == y,
        (JsonToken::Float(x), JsonToken::Float(y)) => x == y || {
            &&& x == 0 || x == 0x8000_0000_0000_0000
            &&& y == 0 || y == 0x8000_0000_0000_0000
        },
        (JsonToken::Text(x), JsonToken::Text(y)) => x@ == y@,
        (JsonToken::List(x), JsonToken::List(y)) => x == y,
        (JsonToken::Object(x), JsonToken::Object(y)) => x == y,
        _ => false,
    }
}

/// Both are missing, or both are there and the same part by part.
pub open spec fn is_same_data(a: Option<Vec<JsonToken>>, b: Option<Vec<JsonToken>>) -> bool {
    match (a, b) {
        (Some(x), Some(y)) => x@.len() == y@.len() && forall|i: int|
            0 <= i < x@.len() ==> is_same_token(#[trigger] x@[i], y@[i]),
        (None, None) => true,
        _ => false,
    }
}

proof fn lemma_same_data(a: Option<Vec<JsonToken>>, b: Option<Vec<JsonToken>>)
    ensures
        json_view(a) == json_view(b) <==> is_same_data(a, b),
{
    if a is Some && b is Some {
        let x = a->0@;
        let y = b->0@;
        let u = x.map_values(|t: JsonToken| t@);
        let v = y.map_values(|t: JsonToken| t@);
        assert forall|s: JsonToken, t: JsonToken| (#[trigger] s@ == #[trigger] t@)
            == is_same_token(s, t) by {
        }
        if u == v {
            assert(u.len() == v.len());
            assert forall|i: int| 0 <= i < x.len() implies is_same_token(#[trigger] x[i], y[i]) by {
                assert(u[i] == v[i]);
                assert(x[i]@ == y[i]@);
            }
        }
        if is_same_data(a, b) {
            assert forall|i: int| 0 <= i < x.len() implies u[i] == v[i] by {
                assert(is_same_token(x[i], y[i]));
                assert(x[i]@ == y[i]@);
            }
            assert(u =~= v);
        }
    }
}

/// Functions are the same where they agree in everything that the server says of
/// them.
pub proof fn functions_are_compared_by_all_fields(f: Function, g: Function)
    ensures
        f@ == g@ <==> {
            &&& f.0.name@ == g.0.name@
            &&& f.0.kind == g.0.kind
            &&& are_same_tags(f.0.tags, g.0.tags)
            &&& f.0.deprecated == g.0.deprecated
            &&& f.0.uri@ == g.0.uri@
            &&& f.0.range.start.line == g.0.range.start.line
            &&& f.0.range.start.character == g.0.range.start.character
            &&& f.0.range.end.line == g.0.range.end.line
            &&& f.0.range.end.character == g.0.range.end.character
            &&& is_same_text(f.0.container_name, g.0.container_name)
        },
{
    assert(are_same_tags(f.0.tags, g.0.tags) == (tags_view(f.0.tags) == tags_view(g.0.tags)));
    assert(is_same_text(f.0.container_name, g.0.container_name) == (text_view(
        f.0.container_name,
    ) == text_view(g.0.container_name)));
}

/// Call sites are the same where they agree in everything that the server says of
/// them.
pub proof fn call_sites_are_compared_by_all_fields(a: CallSite, b: CallSite)
    ensures
        a@ == b@ <==> {
            &&& a.0.name@ == b.0.name@
            &&& a.0.kind == b.0.kind
            &&& are_same_tags(a.0.tags, b.0.tags)
            &&& is_same_text(a.0.detail, b.0.detail)
            &&& a.0.uri@ == b.0.uri@
            &&& a.0.range.start.line == b.0.range.start.line
            &&& a.0.range.start.character == b.0.range.start.character
            &&& a.0.range.end.line == b.0.range.end.line
            &&& a.0.range.end.character == b.0.range.end.character
            &&& a.0.selection_range.start.line == b.0.selection_range.start.line
            &&& a.0.selection_range.start.character == b.0.selection_range.start.character
            &&& a.0.selection_range.end.line == b.0.selection_range.end.line
            &&& a.0.selection_range.end.character == b.0.selection_range.end.character
            &&& is_same_data(a.0.data, b.0.data)
        },
{
    lemma_same_data(a.0.data, b.0.data);
    assert(are_same_tags(a.0.tags, b.0.tags) == (tags_view(a.0.tags) == tags_view(b.0.tags)));
    assert(is_same_text(a.0.detail, b.0.detail) == (text_view(a.0.detail) == text_view(
        b.0.detail,
    )));
}

/// A symbol and a function made of it look the same, as do an item and a call site.
pub proof fn views_look_through(s: SymbolInformation, i: CallHierarchyItem)
    ensures
        Function(s)@ == s@,
        CallSite(i)@ == i@,
{
}

/// The function and the call site are in one document, at the same place from start
/// to end.
pub open spec fn share_a_place(f: Function, site: CallSite) -> bool {
    &&& f.0.uri@ == site.0.uri@
    &&& f.0.range.start.line == site.0.range.start.line
    &&& f.0.range.start.character == site.0.range.start.character
    &&& f.0.range.end.line == site.0.range.end.line
    &&& f.0.range.end.character == site.0.range.end.character
}

/// A call site shows the first function at its place, and no function where there
/// is none at its place.
pub proof fn call_sites_show_what_is_at_their_place(functions: Seq<Function>, site: CallSite)
    requires
        functions.len() <= usize::MAX,
    ensures
        match id_at(functions, site) {
            Some(id) => {
                &&& id.0 < functions.len()
                &&& share_a_place(functions[id.0 as int], site)
                &&& forall|j: int|
                    0 <= j < id.0 ==> !share_a_place(#[trigger] functions[j], site)
            },
            None => forall|j: int|
                0 <= j < functions.len() ==> !share_a_place(#[trigger] functions[j], site),
        },
    decreases functions.len(),
{
    assert forall|f: Function| #[trigger] share_a_place(f, site) == is_at(f, site) by {
    }
    if functions.len() > 0 {
        let before = functions.drop_last();
        call_sites_show_what_is_at_their_place(before, site);
        assert forall|j: int| 0 <= j < before.len() implies before[j] == functions[j] by {
        }
        if id_at(functions, site) is None {
            assert forall|j: int| 0 <= j < functions.len() implies !share_a_place(
                #[trigger] functions[j],
                site,
            ) by {
                if j < before.len() {
                    assert(!share_a_place(before[j], site));
                }
            }
        } else {
            let id = id_at(functions, site)->0;
            assert forall|j: int| 0 <= j < id.0 implies !share_a_place(
                #[trigger] functions[j],
                site,
            ) by {
                assert(!share_a_place(before[j], site));
            }
        }
    }
}

/// Each call site is resolved by itself: what a list gives is what its parts give,
/// one after the other, and one call site gives the function that it shows, if any.
pub proof fn call_sites_resolve_one_by_one(
    functions: Seq<Function>,
    a: Seq<CallSite>,
    b: Seq<CallSite>,
    site: CallSite,
)
    ensures
        resolved(functions, a + b) == resolved(functions, a) + resolved(functions, b),
        resolved(functions, Seq::empty()) == Seq::<FunctionId>::empty(),
        id_at(functions, site) is None ==> resolved(functions, seq![site]) == Seq::<
            FunctionId,
        >::empty(),
        id_at(functions, site) matches Some(id) ==> resolved(functions, seq![site]) == seq![id],
    decreases b.len(),
{
    let one = seq![site];
    assert(one.drop_last() =~= Seq::empty());
    assert(resolved(functions, one.drop_last()) == Seq::<FunctionId>::empty());
    assert(one.last() == site);
    if let Some(id) = id_at(functions, site) {
        assert(resolved(functions, one) =~= seq![id]);
    }
    if b.len() == 0 {
        assert(a + b =~= a);
        assert(resolved(functions, a) + resolved(functions, b) =~= resolved(functions, a));
    } else {
        assert((a + b).drop_last() =~= a + b.drop_last());
        call_sites_resolve_one_by_one(functions, a, b.drop_last(), site);
        assert(resolved(functions, a + b) =~= resolved(functions, a) + resolved(functions, b));
    }
}

/// Each call site is kept or left out by itself: always kept where other projects
/// are wanted too, and otherwise where its path starts with the root.
pub proof fn call_sites_are_kept_one_by_one(
    a: Seq<CallSite>,
    b: Seq<CallSite>,
    site: CallSite,
    root: Seq<char>,
)
    ensures
        kept(a, root, false) == a,
        kept(a + b, root, true) == kept(a, root, true) + kept(b, root, true),
        kept(Seq::empty(), root, true) == Seq::<CallSite>::empty(),
        root.is_prefix_of(site.0.uri.path_view()) ==> kept(seq![site], root, true) == seq![site],
        !root.is_prefix_of(site.0.uri.path_view()) ==> kept(seq![site], root, true) == Seq::<
            CallSite,
        >::empty(),
    decreases b.len(),
{
    reveal(Seq::filter);
    let one = seq![site];
    assert(one.drop_last() =~= Seq::empty());
    assert(kept(one.drop_last(), root, true) =~= Seq::<CallSite>::empty());
    assert(one.last() == site);
    if root.is_prefix_of(site.0.uri.path_view()) {
        assert(kept(one, root, true) =~= seq![site]);
    }
    if b.len() == 0 {
        assert(a + b =~= a);
        assert(kept(a, root, true) + kept(b, root, true) =~= kept(a, root, true));
    } else {
        assert((a + b).drop_last() =~= a + b.drop_last());
        call_sites_are_kept_one_by_one(a, b.drop_last(), site, root);
        assert(kept(a + b, root, true) =~= kept(a, root, true) + kept(b, root, true));
    }
}

/// What is handed out of an index shows the same call sites in the same order, with
/// their identifiers.
pub proof fn copies_show_the_same(a: Seq<CallSite>, b: Seq<CallSite>, i: int)
    requires
        alike(a, b),
        0 <= i < a.len(),
    ensures
        a.len() == b.len(),
        a[i]@ == b[i]@,
        a[i].0.uri == b[i].0.uri,
{
}

/// The item that the server is asked about is the function, and says nothing else.
pub proof fn items_stand_for_functions(item: CallHierarchyItem, f: Function)
    requires
        is_item_of(item, f),
    ensures
        item.name@ == f.0.name@,
        item.kind == f.0.kind,
        are_same_tags(item.tags, f.0.tags),
        item.detail is None,
        item.uri == f.0.uri,
        item.range == f.0.range,
        item.selection_range == f.0.range,
        item.data is None,
{
    assert(item@.tags == f@.tags);
}

} // verus!
