//! The overview of a function, and the menu that goes with it.

use compact_str::CompactString;
use vstd::prelude::*;
use crate::cells::is_cell;
use crate::compact::letters;
use crate::indexing::index::{id_at, resolved, FunctionId};
use crate::indexing::symbols::{CallSite, Function};
use crate::laws::calls::is_first_at;
use crate::laws::index::{
    call_sites_resolve_one_by_one, call_sites_show_what_is_at_their_place, share_a_place,
};
use crate::laws::paint::{is_plain, is_wrapped, painting_wraps_the_text};
use crate::paint::{shows_bold_color, shows_color};
use crate::ui::prompt::Entry;
use crate::ui::session::{
    are_choices, are_columns, are_rows, is_row, is_showable, is_tagged, leads_to, located, offers,
    FnAction,
};

verus! {

/// Each call site is shown or left out by itself: shown where it shows a function.
pub proof fn call_sites_are_located_one_by_one(
    functions: Seq<Function>,
    a: Seq<CallSite>,
    b: Seq<CallSite>,
    site: CallSite,
)
    ensures
        located(functions, a + b) == located(functions, a) + located(functions, b),
        located(functions, Seq::empty()) == Seq::<CallSite>::empty(),
        id_at(functions, site) is Some ==> located(functions, seq![site]) == seq![site],
        id_at(functions, site) is None ==> located(functions, seq![site]) == Seq::<
            CallSite,
        >::empty(),
    decreases b.len(),
{
    let one = seq![site];
    assert(one.drop_last() =~= Seq::empty());
    assert(located(functions, one.drop_last()) == Seq::<CallSite>::empty());
    assert(one.last() == site);
    if id_at(functions, site) is Some {
        assert(located(functions, one) =~= seq![site]);
    }
    if b.len() == 0 {
        assert(a + b =~= a);
        assert(located(functions, a) + located(functions, b) =~= located(functions, a));
    } else {
        assert((a + b).drop_last() =~= a + b.drop_last());
        call_sites_are_located_one_by_one(functions, a, b.drop_last(), site);
        assert(located(functions, a + b) =~= located(functions, a) + located(functions, b));
    }
}

proof fn lemma_as_many(functions: Seq<Function>, sites: Seq<CallSite>)
    ensures
        located(functions, sites).len() == resolved(functions, sites).len() <= sites.len(),
    decreases sites.len(),
{
    if sites.len() > 0 {
        lemma_as_many(functions, sites.drop_last());
    }
}

/// A call site that shows a function stands behind those before it that show one.
proof fn lemma_place_in_row(functions: Seq<Function>, sites: Seq<CallSite>, i: int, g: FunctionId)
    requires
        functions.len() <= usize::MAX,
        0 <= i < sites.len(),
        is_first_at(functions, sites[i], g),
    ensures
        ({
            let r = located(functions, sites.take(i)).len() as int;
            &&& r <= i
            &&& r < located(functions, sites).len()
            &&& located(functions, sites)[r] == sites[i]
            &&& resolved(functions, sites)[r] == g
            &&& r < resolved(functions, sites).len()
        }),
{
    let front = sites.take(i);
    let one = seq![sites[i]];
    let back = sites.skip(i + 1);
    assert(sites =~= front + one + back);
    call_sites_are_located_one_by_one(functions, front + one, back, sites[i]);
    call_sites_are_located_one_by_one(functions, front, one, sites[i]);
    call_sites_resolve_one_by_one(functions, front + one, back, sites[i]);
    call_sites_resolve_one_by_one(functions, front, one, sites[i]);
    lemma_as_many(functions, front);
    lemma_as_many(functions, sites);
    call_sites_show_what_is_at_their_place(functions, sites[i]);
    let id = id_at(functions, sites[i]);
    assert(id is Some);
    let h = id->0;
    if h.0 < g.0 {
        assert(!share_a_place(functions[h.0 as int], sites[i]));
    }
    if g.0 < h.0 {
        assert(!share_a_place(functions[g.0 as int], sites[i]));
    }
}

/// A row: the chord in brackets, in bold yellow, and then the name in bold, in the
/// color with the given code.
pub open spec fn is_plain_row(
    chord: Seq<char>,
    name: Seq<char>,
    code: Seq<char>,
    row: Seq<char>,
) -> bool {
    exists|tag: Seq<char>, shown: Seq<char>| #[trigger]
        are_parts_of_row(chord, name, code, tag, shown) && row == seq!['['] + tag + seq![']', ' ']
            + shown
}

/// The two parts of a row.
pub open spec fn are_parts_of_row(
    chord: Seq<char>,
    name: Seq<char>,
    code: Seq<char>,
    tag: Seq<char>,
    shown: Seq<char>,
) -> bool {
    &&& is_wrapped(chord, seq!['1', ';', '3', '3'], tag)
    &&& is_wrapped(name, seq!['1', ';'] + code, shown)
}

/// A row shows the chord and the name whole, in this order.
pub proof fn rows_show_chord_and_name(chord: Seq<char>, name: Seq<char>, row: Seq<char>)
    requires
        is_plain(chord),
        is_plain(name),
    ensures
        is_row(chord, name, "bright blue"@, row) ==> is_plain_row(
            chord,
            name,
            seq!['9', '4'],
            row,
        ),
        is_row(chord, name, "bright magenta"@, row) ==> is_plain_row(
            chord,
            name,
            seq!['9', '5'],
            row,
        ),
{
    if is_row(chord, name, "bright blue"@, row) {
        lemma_plain_row(chord, name, "bright blue"@, seq!['9', '4'], row);
    }
    if is_row(chord, name, "bright magenta"@, row) {
        lemma_plain_row(chord, name, "bright magenta"@, seq!['9', '5'], row);
    }
}

proof fn lemma_plain_row(
    chord: Seq<char>,
    name: Seq<char>,
    color: Seq<char>,
    code: Seq<char>,
    row: Seq<char>,
)
    requires
        is_plain(chord),
        is_plain(name),
        is_row(chord, name, color, row),
        color == "bright blue"@ && code == seq!['9', '4'] || color == "bright magenta"@ && code
            == seq!['9', '5'],
    ensures
        is_plain_row(chord, name, code, row),
{
    let (tag, shown) = choose|tag: Seq<char>, shown: Seq<char>| #[trigger]
        is_tagged(chord, name, color, tag, shown) && row == crate::ui::prompt::bracketed(tag)
            + seq![' '] + shown;
    painting_wraps_the_text(chord, tag);
    painting_wraps_the_text(name, shown);
    assert(seq!['1', ';'] + seq!['9', '4'] =~= seq!['1', ';', '9', '4']);
    assert(seq!['1', ';'] + seq!['9', '5'] =~= seq!['1', ';', '9', '5']);
    assert(row =~= seq!['['] + tag + seq![']', ' '] + shown);
    assert(are_parts_of_row(chord, name, code, tag, shown));
}

/// Painted chords and names stand in a row as any others do.
pub proof fn rows_hold_painted_parts(
    chord: Seq<char>,
    name: Seq<char>,
    color: Seq<char>,
    row: Seq<char>,
) -> (parts: (Seq<char>, Seq<char>))
    requires
        is_row(chord, name, color, row),
    ensures
        shows_bold_color(parts.0, chord, "yellow"@),
        shows_bold_color(parts.1, name, color),
        row == seq!['['] + parts.0 + seq![']', ' '] + parts.1,
{
    let (tag, shown) = choose|tag: Seq<char>, shown: Seq<char>| #[trigger]
        is_tagged(chord, name, color, tag, shown) && row == crate::ui::prompt::bracketed(tag)
            + seq![' '] + shown;
    assert(row =~= seq!['['] + tag + seq![']', ' '] + shown);
    (tag, shown)
}

/// A column has its title, and below it one row for each call site, each with its
/// own chord: no chord is left out and none is shown twice.
pub proof fn rows_have_chords_of_their_own(
    sites: Seq<CallSite>,
    chords: Seq<CompactString>,
    offset: int,
    color: Seq<char>,
    column: Seq<Seq<char>>,
    i: int,
)
    requires
        are_rows(sites, chords, offset, color, column),
        0 <= i < sites.len(),
    ensures
        column.len() == sites.len() + 1,
        is_row(letters(chords[offset + i]), sites[i].0.name@, color, column[i + 1]),
{
    let j = i + 1;
    assert(is_row(letters(chords[offset + j - 1]), sites[j - 1].0.name@, color, column[j]));
}

/// The row of a caller shows its name and the chord of the entry of the menu that
/// leads there. Its chord is that at its own position.
pub proof fn callers_stand_beside_their_chords(
    functions: Seq<Function>,
    f_id: FunctionId,
    incomings: Seq<CallSite>,
    outgoings: Seq<CallSite>,
    chords: Seq<CompactString>,
    entries: Seq<Entry<FnAction>>,
    left: Seq<Seq<char>>,
    center: Seq<Seq<char>>,
    right: Seq<Seq<char>>,
    i: int,
    g: FunctionId,
)
    requires
        functions.len() <= usize::MAX,
        are_choices(functions, incomings + outgoings, chords, entries),
        are_columns(functions, f_id, incomings, outgoings, chords, left, center, right),
        0 <= i < incomings.len(),
        is_first_at(functions, incomings[i], g),
    ensures
        ({
            let r = located(functions, incomings.take(i)).len() as int;
            let name = incomings[i].0.name@;
            &&& r + 1 < left.len()
            &&& r < entries.len()
            &&& entries[r].payload == FnAction::GoTo(g)
            &&& !entries[r].show
            &&& letters(entries[r].label) == name
            &&& letters(entries[r].chord) == letters(chords[r])
            &&& is_row(letters(entries[r].chord), name, "bright blue"@, left[r + 1])
            &&& is_plain(name) && is_plain(letters(chords[r])) ==> is_plain_row(
                letters(entries[r].chord),
                name,
                seq!['9', '4'],
                left[r + 1],
            )
        }),
{
    let r = located(functions, incomings.take(i)).len() as int;
    lemma_place_in_row(functions, incomings, i, g);
    lemma_as_many(functions, incomings);
    call_sites_are_located_one_by_one(functions, incomings, outgoings, incomings[i]);
    call_sites_resolve_one_by_one(functions, incomings, outgoings, incomings[i]);
    assert(leads_to(
        entries[r],
        letters(chords[r]),
        located(functions, incomings + outgoings)[r],
        resolved(functions, incomings + outgoings)[r],
    ));
    rows_have_chords_of_their_own(
        located(functions, incomings),
        chords,
        0,
        "bright blue"@,
        left,
        r,
    );
    if is_plain(incomings[i].0.name@) && is_plain(letters(chords[r])) {
        rows_show_chord_and_name(letters(chords[r]), incomings[i].0.name@, left[r + 1]);
    }
}

/// The row of a callee shows its name and the chord at its position behind as many
/// chords as there are callers; where each caller shows a function, this is the chord
/// of the entry of the menu that leads there.
pub proof fn callees_stand_beside_their_chords(
    functions: Seq<Function>,
    f_id: FunctionId,
    incomings: Seq<CallSite>,
    outgoings: Seq<CallSite>,
    chords: Seq<CompactString>,
    entries: Seq<Entry<FnAction>>,
    left: Seq<Seq<char>>,
    center: Seq<Seq<char>>,
    right: Seq<Seq<char>>,
    i: int,
    g: FunctionId,
)
    requires
        functions.len() <= usize::MAX,
        are_choices(functions, incomings + outgoings, chords, entries),
        are_columns(functions, f_id, incomings, outgoings, chords, left, center, right),
        0 <= i < outgoings.len(),
        is_first_at(functions, outgoings[i], g),
    ensures
        ({
            let r = located(functions, outgoings.take(i)).len() as int;
            let at = incomings.len() + r;
            let e = located(functions, incomings).len() + r;
            let name = outgoings[i].0.name@;
            &&& r + 1 < right.len()
            &&& e < entries.len()
            &&& entries[e].payload == FnAction::GoTo(g)
            &&& !entries[e].show
            &&& letters(entries[e].label) == name
            &&& letters(entries[e].chord) == letters(chords[e])
            &&& is_row(letters(chords[at]), name, "bright magenta"@, right[r + 1])
            &&& is_plain(name) && is_plain(letters(chords[at])) ==> is_plain_row(
                letters(chords[at]),
                name,
                seq!['9', '5'],
                right[r + 1],
            )
            &&& (forall|k: int|
                0 <= k < incomings.len() ==> id_at(functions, #[trigger] incomings[k]) is Some)
                ==> {
                &&& e == at
                &&& is_row(letters(entries[at].chord), name, "bright magenta"@, right[r + 1])
            }
        }),
{
    let r = located(functions, outgoings.take(i)).len() as int;
    let at = incomings.len() + r;
    let e = located(functions, incomings).len() + r;
    lemma_place_in_row(functions, outgoings, i, g);
    lemma_as_many(functions, outgoings);
    lemma_as_many(functions, incomings);
    call_sites_are_located_one_by_one(functions, incomings, outgoings, outgoings[i]);
    call_sites_resolve_one_by_one(functions, incomings, outgoings, outgoings[i]);
    assert(leads_to(
        entries[e],
        letters(chords[e]),
        located(functions, incomings + outgoings)[e],
        resolved(functions, incomings + outgoings)[e],
    ));
    rows_have_chords_of_their_own(
        located(functions, outgoings),
        chords,
        incomings.len() as int,
        "bright magenta"@,
        right,
        r,
    );
    if is_plain(outgoings[i].0.name@) && is_plain(letters(chords[at])) {
        rows_show_chord_and_name(letters(chords[at]), outgoings[i].0.name@, right[r + 1]);
    }
    if forall|k: int|
        0 <= k < incomings.len() ==> id_at(functions, #[trigger] incomings[k]) is Some {
        sites_that_show_functions_are_all_there(functions, incomings);
    }
}

/// Where each call site shows a function, all of them stand in the column.
pub proof fn sites_that_show_functions_are_all_there(
    functions: Seq<Function>,
    sites: Seq<CallSite>,
)
    requires
        forall|k: int| 0 <= k < sites.len() ==> id_at(functions, #[trigger] sites[k]) is Some,
    ensures
        located(functions, sites) == sites,
    decreases sites.len(),
{
    if sites.len() > 0 {
        let before = sites.drop_last();
        let last = sites[sites.len() - 1];
        assert forall|k: int| 0 <= k < before.len() implies id_at(
            functions,
            #[trigger] before[k],
        ) is Some by {
            assert(before[k] == sites[k]);
        }
        sites_that_show_functions_are_all_there(functions, before);
        assert(id_at(functions, last) is Some);
        assert(before.push(last) =~= sites);
    } else {
        assert(sites =~= Seq::empty());
    }
}

/// The columns have one row for each call site that shows a function, and titles;
/// between them stands the name of the function.
pub proof fn columns_have_titles(
    functions: Seq<Function>,
    f_id: FunctionId,
    incomings: Seq<CallSite>,
    outgoings: Seq<CallSite>,
    chords: Seq<CompactString>,
    left: Seq<Seq<char>>,
    center: Seq<Seq<char>>,
    right: Seq<Seq<char>>,
)
    requires
        are_columns(functions, f_id, incomings, outgoings, chords, left, center, right),
    ensures
        left.len() == located(functions, incomings).len() + 1,
        right.len() == located(functions, outgoings).len() + 1,
        center.len() == 2,
        is_wrapped(seq!['C', 'A', 'L', 'L', 'E', 'R', 'S'], seq!['3', '4'], left[0]),
        is_wrapped(seq!['C', 'U', 'R', 'R', 'E', 'N', 'T'], seq!['3', '7'], center[0]),
        is_wrapped(seq!['C', 'A', 'L', 'L', 'E', 'E', 'S'], seq!['3', '5'], right[0]),
        shows_color(center[1], functions[f_id.0 as int].0.name@, "bright white"@),
        is_plain(functions[f_id.0 as int].0.name@) ==> is_wrapped(
            functions[f_id.0 as int].0.name@,
            seq!['9', '7'],
            center[1],
        ),
{
    reveal_strlit("CALLERS");
    reveal_strlit("CURRENT");
    reveal_strlit("CALLEES");
    assert("CALLERS"@ =~= seq!['C', 'A', 'L', 'L', 'E', 'R', 'S']);
    assert("CURRENT"@ =~= seq!['C', 'U', 'R', 'R', 'E', 'N', 'T']);
    assert("CALLEES"@ =~= seq!['C', 'A', 'L', 'L', 'E', 'E', 'S']);
    painting_wraps_the_text("CALLERS"@, left[0]);
    painting_wraps_the_text("CURRENT"@, center[0]);
    painting_wraps_the_text("CALLEES"@, right[0]);
    if is_plain(functions[f_id.0 as int].0.name@) {
        painting_wraps_the_text(functions[f_id.0 as int].0.name@, center[1]);
    }
}

/// Behind the entries of the call sites come those to open the function, to go back,
/// to jump and to quit, and no others. Only these stand in the prompt.
pub proof fn menus_end_with_what_can_always_be_done(
    functions: Seq<Function>,
    sites: Seq<CallSite>,
    chords: Seq<CompactString>,
    entries: Seq<Entry<FnAction>>,
    i: int,
)
    requires
        are_choices(functions, sites, chords, entries),
    ensures
        ({
            let n = located(functions, sites).len() as int;
            &&& entries.len() == n + 4
            &&& 0 <= i < n ==> !entries[i].show
            &&& n <= i < n + 4 ==> entries[i].show
            &&& letters(entries[n].chord) == seq!['o']
            &&& letters(entries[n].label) == seq!['o', 'p', 'e', 'n', '.', '.', '.']
            &&& entries[n].payload == FnAction::OpenIn
            &&& letters(entries[n + 1].chord) == seq!['b']
            &&& letters(entries[n + 1].label) == seq!['b', 'a', 'c', 'k']
            &&& entries[n + 1].payload == FnAction::Back
            &&& letters(entries[n + 2].chord) == seq!['j']
            &&& letters(entries[n + 2].label) == seq!['j', 'u', 'm', 'p']
            &&& entries[n + 2].payload == FnAction::Jump
            &&& letters(entries[n + 3].chord) == seq!['q']
            &&& letters(entries[n + 3].label) == seq!['q', 'u', 'i', 't']
            &&& entries[n + 3].payload == FnAction::Quit
        }),
{
    lemma_as_many(functions, sites);
    reveal_strlit("o");
    reveal_strlit("open...");
    reveal_strlit("b");
    reveal_strlit("back");
    reveal_strlit("j");
    reveal_strlit("jump");
    reveal_strlit("q");
    reveal_strlit("quit");
    assert("o"@ =~= seq!['o']);
    assert("open..."@ =~= seq!['o', 'p', 'e', 'n', '.', '.', '.']);
    assert("b"@ =~= seq!['b']);
    assert("back"@ =~= seq!['b', 'a', 'c', 'k']);
    assert("j"@ =~= seq!['j']);
    assert("jump"@ =~= seq!['j', 'u', 'm', 'p']);
    assert("q"@ =~= seq!['q']);
    assert("quit"@ =~= seq!['q', 'u', 'i', 't']);
    let n = resolved(functions, sites).len() as int;
    if 0 <= i < n {
        assert(leads_to(
            entries[i],
            letters(chords[i]),
            located(functions, sites)[i],
            resolved(functions, sites)[i],
        ));
    }
    assert(offers(entries[n], "o"@, "open..."@, FnAction::OpenIn));
    assert(offers(entries[n + 1], "b"@, "back"@, FnAction::Back));
    assert(offers(entries[n + 2], "j"@, "jump"@, FnAction::Jump));
    assert(offers(entries[n + 3], "q"@, "quit"@, FnAction::Quit));
}

/// A function can be shown where it is in the index and all that is shown fits into
/// cells: its name, each chord, and the name of each call site that shows a function.
pub proof fn functions_are_showable_where_all_fits(
    functions: Seq<Function>,
    f_id: FunctionId,
    incomings: Seq<CallSite>,
    outgoings: Seq<CallSite>,
    chords: Seq<CompactString>,
)
    ensures
        is_showable(functions, f_id, incomings, outgoings, chords) <==> {
            &&& f_id.0 < functions.len()
            &&& is_cell(functions[f_id.0 as int].0.name@)
            &&& forall|i: int|
                0 <= i < incomings.len() && id_at(functions, #[trigger] incomings[i]) is Some
                    ==> is_cell(incomings[i].0.name@)
            &&& forall|i: int|
                0 <= i < outgoings.len() && id_at(functions, #[trigger] outgoings[i]) is Some
                    ==> is_cell(outgoings[i].0.name@)
            &&& forall|i: int| 0 <= i < chords.len() ==> is_cell(letters(#[trigger] chords[i]))
        },
{
    lemma_names_fit(functions, incomings);
    lemma_names_fit(functions, outgoings);
}

proof fn lemma_names_fit(functions: Seq<Function>, sites: Seq<CallSite>)
    ensures
        crate::ui::session::have_cell_names(located(functions, sites)) <==> forall|i: int|
            0 <= i < sites.len() && id_at(functions, #[trigger] sites[i]) is Some ==> is_cell(
                sites[i].0.name@,
            ),
    decreases sites.len(),
{
    if sites.len() > 0 {
        let before = sites.drop_last();
        let n = sites.len() - 1;
        let all = located(functions, sites);
        let front = located(functions, before);
        lemma_names_fit(functions, before);
        if crate::ui::session::have_cell_names(all) {
            assert forall|k: int| 0 <= k < front.len() implies is_cell(
                (#[trigger] front[k]).0.name@,
            ) by {
                assert(all[k] == front[k]);
            }
            assert forall|i: int|
                0 <= i < sites.len() && id_at(
                    functions,
                    #[trigger] sites[i],
                ) is Some implies is_cell(sites[i].0.name@) by {
                if i < n {
                    assert(before[i] == sites[i]);
                } else {
                    assert(all[front.len() as int] == sites[i]);
                }
            }
        }
        if forall|i: int|
            0 <= i < sites.len() && id_at(functions, #[trigger] sites[i]) is Some ==> is_cell(
                sites[i].0.name@,
            ) {
            assert forall|i: int|
                0 <= i < before.len() && id_at(
                    functions,
                    #[trigger] before[i],
                ) is Some implies is_cell(before[i].0.name@) by {
                assert(before[i] == sites[i]);
            }
            assert forall|k: int| 0 <= k < all.len() implies is_cell(
                (#[trigger] all[k]).0.name@,
            ) by {
                if k < front.len() {
                    assert(all[k] == front[k]);
                } else {
                    assert(all[k] == sites[n]);
                    assert(id_at(functions, sites[n]) is Some);
                }
            }
        }
    }
}

} // verus!
