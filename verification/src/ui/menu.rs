//! What holds of the menu at a function.

use compact_str::CompactString;
use vstd::arithmetic::power::pow;
use vstd::prelude::*;
use crate::chords::debruijn::{chord, cycle_numbers, spelled};
use crate::chords::laws::{chords_are_distinct, chords_use_the_alphabet};
use crate::compact::letters;
use crate::indexing::index::{id_at, resolved};
use crate::indexing::symbols::{CallSite, Function};
use crate::ui::prompt::{
    chords_of, is_chosen_with, is_prefix_free, typing_a_chord_chooses_it, Entry,
};
use crate::ui::session::{are_choices, leads_to, located, offers, FnAction};

verus! {

proof fn lemma_sites_add(functions: Seq<Function>, a: Seq<CallSite>, b: Seq<CallSite>)
    ensures
        resolved(functions, a + b) == resolved(functions, a) + resolved(functions, b),
        located(functions, a + b) == located(functions, a) + located(functions, b),
        located(functions, a).len() == resolved(functions, a).len(),
        located(functions, b).len() == resolved(functions, b).len(),
    decreases a.len() + b.len(),
{
    if b.len() > 0 {
        assert((a + b).drop_last() =~= a + b.drop_last());
        lemma_sites_add(functions, a, b.drop_last());
        assert(resolved(functions, a + b) =~= resolved(functions, a) + resolved(functions, b));
        assert(located(functions, a + b) =~= located(functions, a) + located(functions, b));
    } else {
        assert(a + b =~= a);
        if a.len() > 0 {
            lemma_sites_add(functions, a.drop_last(), b);
            assert(a.drop_last() + b =~= a.drop_last());
        }
        assert(resolved(functions, a + b) =~= resolved(functions, a) + resolved(functions, b));
        assert(located(functions, a + b) =~= located(functions, a) + located(functions, b));
    }
}

/// The chord that stands beside a caller in the overview leads to that caller.
pub proof fn chords_of_callers_lead_there(
    functions: Seq<Function>,
    incomings: Seq<CallSite>,
    outgoings: Seq<CallSite>,
    chords: Seq<CompactString>,
    entries: Seq<Entry<FnAction>>,
    i: int,
)
    requires
        are_choices(functions, incomings + outgoings, chords, entries),
        0 <= i < located(functions, incomings).len(),
    ensures
        i < entries.len(),
        leads_to(
            entries[i],
            letters(chords[i]),
            located(functions, incomings)[i],
            resolved(functions, incomings)[i],
        ),
{
    lemma_sites_add(functions, incomings, outgoings);
    assert(leads_to(
        entries[i],
        letters(chords[i]),
        located(functions, incomings + outgoings)[i],
        resolved(functions, incomings + outgoings)[i],
    ));
}

/// Where each caller shows a function, the chord that stands beside a callee in
/// the overview leads to that callee.
pub proof fn chords_of_callees_lead_there(
    functions: Seq<Function>,
    incomings: Seq<CallSite>,
    outgoings: Seq<CallSite>,
    chords: Seq<CompactString>,
    entries: Seq<Entry<FnAction>>,
    i: int,
)
    requires
        are_choices(functions, incomings + outgoings, chords, entries),
        forall|k: int|
            0 <= k < incomings.len() ==> id_at(functions, #[trigger] incomings[k]) is Some,
        0 <= i < located(functions, outgoings).len(),
    ensures
        incomings.len() + i < entries.len(),
        leads_to(
            entries[incomings.len() + i],
            letters(chords[incomings.len() + i]),
            located(functions, outgoings)[i],
            resolved(functions, outgoings)[i],
        ),
{
    lemma_sites_add(functions, incomings, outgoings);
    lemma_all_located(functions, incomings);
    let j = incomings.len() + i;
    assert(leads_to(
        entries[j],
        letters(chords[j]),
        located(functions, incomings + outgoings)[j],
        resolved(functions, incomings + outgoings)[j],
    ));
}

proof fn lemma_all_located(functions: Seq<Function>, sites: Seq<CallSite>)
    requires
        forall|k: int| 0 <= k < sites.len() ==> id_at(functions, #[trigger] sites[k]) is Some,
    ensures
        resolved(functions, sites).len() == sites.len(),
    decreases sites.len(),
{
    if sites.len() > 0 {
        let before = sites.drop_last();
        assert forall|k: int| 0 <= k < before.len() implies id_at(
            functions,
            #[trigger] before[k],
        ) is Some by {
            assert(before[k] == sites[k]);
        }
        lemma_all_located(functions, before);
        assert(id_at(functions, sites[sites.len() - 1]) is Some);
    }
}

/// Typing chord `i` chooses it with some key.
pub open spec fn can_be_chosen(chords: Seq<Seq<char>>, i: int) -> bool {
    exists|p: int| is_chosen_with(chords, i, p)
}

/// `chords` are chords of `length` of the default letters.
pub open spec fn are_default_chords(chords: Seq<Seq<char>>, length: nat) -> bool {
    forall|i: int|
        0 <= i < chords.len() ==> (#[trigger] chords[i]) == chord(
            spelled(seq!['a', 's', 'd', 'f'], cycle_numbers(4, length)),
            length,
            i as nat,
        )
}

/// With at most as many chords as there are words of `length` letters, typing a
/// chord chooses it: up to some key of the chord several are left, and with that
/// key only this one.
pub proof fn every_chord_can_be_typed(chords: Seq<Seq<char>>, length: nat)
    requires
        length >= 1,
        chords.len() <= pow(4, length),
        are_default_chords(chords, length),
    ensures
        is_prefix_free(chords),
        forall|i: int| 0 <= i < chords.len() ==> #[trigger] can_be_chosen(chords, i),
{
    let alphabet = seq!['a', 's', 'd', 'f'];
    assert(alphabet.no_duplicates());
    assert forall|i: int, j: int|
        0 <= i < chords.len() && 0 <= j < chords.len() && i != j implies !(#[trigger] chords[i])
        .is_prefix_of(#[trigger] chords[j]) by {
        if i < j {
            chords_are_distinct(alphabet, length, i as nat, j as nat);
        } else {
            chords_are_distinct(alphabet, length, j as nat, i as nat);
        }
        if chords[i].is_prefix_of(chords[j]) {
            assert(chords[i] =~= chords[j]);
        }
    }
    assert forall|i: int| 0 <= i < chords.len() implies #[trigger] can_be_chosen(chords, i) by {
        lemma_chord_is_full(length, i as nat);
        assert(chords[i].len() == length);
        let p = typing_a_chord_chooses_it(chords, i);
        assert(is_chosen_with(chords, i, p));
    }
}

/// With chords of `length` letters for at most as many call sites as there are
/// such chords, no chord of the menu starts another one: each entry can be
/// chosen.
pub proof fn every_entry_can_be_chosen(
    functions: Seq<Function>,
    sites: Seq<CallSite>,
    chords: Seq<CompactString>,
    length: nat,
    entries: Seq<Entry<FnAction>>,
)
    requires
        are_choices(functions, sites, chords, entries),
        chords.len() == sites.len() <= pow(4, length),
        length >= 1,
        forall|i: int|
            0 <= i < chords.len() ==> letters(#[trigger] chords[i]) == chord(
                spelled(seq!['a', 's', 'd', 'f'], cycle_numbers(4, length)),
                length,
                i as nat,
            ),
    ensures
        is_prefix_free(chords_of(entries)),
        forall|i: int|
            0 <= i < entries.len() ==> #[trigger] can_be_chosen(chords_of(entries), i),
{
    let alphabet = seq!['a', 's', 'd', 'f'];
    let all = chords_of(entries);
    let n = resolved(functions, sites).len() as int;
    assert(n <= sites.len()) by {
        lemma_resolved_fewer(functions, sites);
    }
    assert(alphabet.no_duplicates());
    reveal_strlit("o");
    reveal_strlit("b");
    reveal_strlit("j");
    reveal_strlit("q");
    assert forall|i: int| 0 <= i < n implies (#[trigger] all[i]) == letters(chords[i])
        && all[i].len() == length && alphabet.contains(all[i][0]) by {
        assert(leads_to(
            entries[i],
            letters(chords[i]),
            located(functions, sites)[i],
            resolved(functions, sites)[i],
        ));
        lemma_chord_is_full(length, i as nat);
        chords_use_the_alphabet(alphabet, length, i as nat, 0);
    }
    assert(offers(entries[n], "o"@, "open..."@, FnAction::OpenIn));
    assert(all[n] == seq!['o']);
    assert(all[n + 1] == seq!['b']);
    assert(all[n + 2] == seq!['j']);
    assert(all[n + 3] == seq!['q']);
    assert forall|i: int, j: int|
        0 <= i < all.len() && 0 <= j < all.len() && i != j implies !(#[trigger] all[i])
        .is_prefix_of(#[trigger] all[j]) by {
        if i < n && j < n {
            if i < j {
                chords_are_distinct(alphabet, length, i as nat, j as nat);
            } else {
                chords_are_distinct(alphabet, length, j as nat, i as nat);
            }
            if all[i].is_prefix_of(all[j]) {
                assert(all[i] =~= all[j]);
            }
        } else if all[i].is_prefix_of(all[j]) {
            assert(all[i][0] == all[j][0]);
        }
    }
    assert forall|i: int| 0 <= i < entries.len() implies #[trigger] can_be_chosen(all, i) by {
        assert(all[i].len() > 0);
        let p = typing_a_chord_chooses_it(all, i);
        assert(is_chosen_with(all, i, p));
    }
}

proof fn lemma_resolved_fewer(functions: Seq<Function>, sites: Seq<CallSite>)
    ensures
        resolved(functions, sites).len() <= sites.len(),
    decreases sites.len(),
{
    if sites.len() > 0 {
        lemma_resolved_fewer(functions, sites.drop_last());
    }
}

proof fn lemma_chord_is_full(length: nat, i: nat)
    requires
        length >= 1,
        i < pow(4, length),
    ensures
        chord(spelled(seq!['a', 's', 'd', 'f'], cycle_numbers(4, length)), length, i).len()
            == length,
{
    let alphabet = seq!['a', 's', 'd', 'f'];
    assert(pow(4, length) > 1) by {
        vstd::arithmetic::power::lemma_pow_increases(4, 1, length);
        vstd::arithmetic::power::lemma_pow1(4);
    }
    assert(alphabet.no_duplicates());
    if i == 0 {
        chords_are_distinct(alphabet, length, 0, 1);
    } else {
        chords_are_distinct(alphabet, length, 0, i);
    }
}

} // verus!
