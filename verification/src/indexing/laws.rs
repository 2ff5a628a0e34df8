//! What holds of functions and the call sites that show them.

use vstd::prelude::*;
use crate::indexing::index::{id_at, is_at, kept, resolved, FunctionId};
use crate::indexing::symbols::{CallSite, Function};

verus! {

proof fn lemma_id_at(functions: Seq<Function>, site: CallSite)
    requires
        functions.len() <= usize::MAX,
    ensures
        id_at(functions, site) matches Some(id) ==> {
            &&& id.0 < functions.len()
            &&& is_at(functions[id.0 as int], site)
            &&& forall|j: int| 0 <= j < id.0 ==> !is_at(#[trigger] functions[j], site)
        },
        id_at(functions, site) is None ==> forall|j: int|
            0 <= j < functions.len() ==> !is_at(#[trigger] functions[j], site),
    decreases functions.len(),
{
    if functions.len() > 0 {
        let before = functions.drop_last();
        lemma_id_at(before, site);
        assert forall|j: int| 0 <= j < before.len() implies before[j] == functions[j] by {}
    }
}

/// A call site at the place of a function shows the first function there. In
/// particular a function shows itself where no other one has its place.
pub proof fn a_place_resolves_to_its_first_function(
    functions: Seq<Function>,
    site: CallSite,
    i: int,
)
    requires
        functions.len() <= usize::MAX,
        0 <= i < functions.len(),
        is_at(functions[i], site),
    ensures
        id_at(functions, site) matches Some(id) && {
            &&& id.0 <= i
            &&& is_at(functions[id.0 as int], site)
            &&& forall|j: int| 0 <= j < id.0 ==> !is_at(#[trigger] functions[j], site)
        },
        (forall|j: int|
            0 <= j < functions.len() && j != i ==> !is_at(#[trigger] functions[j], site)) ==> id_at(
            functions,
            site,
        ) == Some(FunctionId(i as usize)),
{
    lemma_id_at(functions, site);
    let id = id_at(functions, site)->0;
    if i < id.0 {
        assert(!is_at(functions[i], site));
    }
    assert(is_at(functions[id.0 as int], site));
}

/// Call sites resolve to functions of the index, and only those with the place
/// of one do.
pub proof fn call_sites_resolve_into_the_index(
    functions: Seq<Function>,
    sites: Seq<CallSite>,
    id: FunctionId,
)
    requires
        functions.len() <= usize::MAX,
    ensures
        resolved(functions, sites).contains(id) <==> exists|i: int|
            0 <= i < sites.len() && id_at(functions, #[trigger] sites[i]) == Some(id),
        resolved(functions, sites).contains(id) ==> id.0 < functions.len(),
        resolved(functions, sites).len() <= sites.len(),
    decreases sites.len(),
{
    let r = resolved(functions, sites);
    if sites.len() > 0 {
        let n = sites.len() - 1;
        let before = sites.drop_last();
        let s = resolved(functions, before);
        call_sites_resolve_into_the_index(functions, before, id);
        lemma_id_at(functions, sites.last());
        if r.contains(id) {
            let k = choose|k: int| 0 <= k < r.len() && r[k] == id;
            if k < s.len() {
                assert(s[k] == id);
                assert(s.contains(id));
                let i = choose|i: int|
                    0 <= i < before.len() && id_at(functions, #[trigger] before[i]) == Some(id);
                assert(sites[i] == before[i]);
            } else {
                assert(id_at(functions, sites[n]) == Some(id));
            }
        }
        if exists|i: int|
            0 <= i < sites.len() && id_at(functions, #[trigger] sites[i]) == Some(id) {
            let i = choose|i: int|
                0 <= i < sites.len() && id_at(functions, #[trigger] sites[i]) == Some(id);
            if i < n {
                assert(before[i] == sites[i]);
                let k = choose|k: int| 0 <= k < s.len() && s[k] == id;
                assert(r[k] == id);
            } else {
                assert(r[s.len() as int] == id);
            }
        }
    }
}

/// Leaving out the call sites of other projects leaves out none that shows a
/// function of this one.
pub proof fn the_project_keeps_its_functions(
    functions: Seq<Function>,
    sites: Seq<CallSite>,
    root: Seq<char>,
)
    requires
        functions.len() <= usize::MAX,
        forall|i: int| 0 <= i < functions.len() ==> (#[trigger] functions[i]).is_below(root),
        forall|i: int, j: int|
            0 <= i < functions.len() && 0 <= j < sites.len() && (#[trigger] functions[i]).0.uri@
                == (#[trigger] sites[j]).0.uri@ ==> functions[i].0.uri.path_view()
                == sites[j].0.uri.path_view(),
    ensures
        resolved(functions, kept(sites, root, true)) == resolved(functions, sites),
    decreases sites.len(),
{
    reveal(Seq::filter);
    let below = |s: CallSite| s.is_below(root);
    if sites.len() > 0 {
        let n = sites.len() - 1;
        let before = sites.drop_last();
        assert forall|i: int, j: int|
            0 <= i < functions.len() && 0 <= j < before.len() && (#[trigger] functions[i]).0.uri@
                == (#[trigger] before[j]).0.uri@ implies functions[i].0.uri.path_view()
            == before[j].0.uri.path_view() by {
            assert(before[j] == sites[j]);
        }
        the_project_keeps_its_functions(functions, before, root);
        lemma_id_at(functions, sites[n]);
        let left = kept(before, root, true);
        if sites[n].is_below(root) {
            assert(kept(sites, root, true) == left.push(sites[n]));
            assert(left.push(sites[n]).drop_last() =~= left);
        } else {
            assert(kept(sites, root, true) == left);
            if id_at(functions, sites[n]) is Some {
                let id = id_at(functions, sites[n])->0;
                assert(is_at(functions[id.0 as int], sites[n]));
                assert(functions[id.0 as int].is_below(root));
            }
        }
    }
}

} // verus!
