//! The prompt of a menu, and the keys that choose from it.

use vstd::prelude::*;
use crate::compact::letters;
use crate::laws::paint::{is_plain, is_wrapped, painting_wraps_the_text};
use crate::paint::shows_bold_color;
use crate::ui::prompt::{
    bracketed, chords_of, has_candidates, has_no_candidate, is_candidate, is_only_candidate,
    is_prefix_free, is_prompt, separated, shown_items, Entry,
};

verus! {

/// `part` stands in `text`, with `before` in front of it and `after` behind it.
pub open spec fn stands_between(
    text: Seq<char>,
    part: Seq<char>,
    before: Seq<char>,
    after: Seq<char>,
) -> bool {
    text == before + part + after
}

/// `part` stands somewhere in `text`.
pub open spec fn occurs_in(text: Seq<char>, part: Seq<char>) -> bool {
    exists|before: Seq<char>, after: Seq<char>| stands_between(text, part, before, after)
}

/// One more item comes behind a separator, or alone where there was none.
pub proof fn one_more_item_comes_last(
    items: Seq<Seq<char>>,
    separator: Seq<char>,
    item: Seq<char>,
)
    ensures
        separated(Seq::empty(), separator) == Seq::<char>::empty(),
        items.len() == 0 ==> separated(items.push(item), separator) == item,
        items.len() > 0 ==> separated(items.push(item), separator) == separated(items, separator)
            + separator + item,
{
    let more = items.push(item);
    assert(more.drop_last() =~= items);
    assert(more.last() == item);
}

/// The number of characters in all items.
pub open spec fn total_length(items: Seq<Seq<char>>) -> nat
    decreases items.len(),
{
    if items.len() == 0 {
        0
    } else {
        total_length(items.drop_last()) + items.last().len()
    }
}

/// Nothing is lost and nothing is added but the separators: one less than there are
/// items.
pub proof fn separated_items_are_all_there(items: Seq<Seq<char>>, separator: Seq<char>, i: int)
    requires
        0 <= i < items.len(),
    ensures
        separated(items, separator).len() == total_length(items) + (items.len() - 1)
            * separator.len(),
        occurs_in(separated(items, separator), items[i]),
    decreases items.len(),
{
    let n = items.len() as int;
    let text = separated(items, separator);
    let before = items.drop_last();
    if n == 1 {
        assert(total_length(before) == 0);
        assert(0 * separator.len() == 0) by (nonlinear_arith);
        assert(text =~= Seq::<char>::empty() + items[0] + Seq::<char>::empty());
        assert(stands_between(text, items[i], Seq::empty(), Seq::empty()));
    } else {
        let rest = separated(before, separator);
        if i < n - 1 {
            separated_items_are_all_there(before, separator, i);
            let (a, b) = choose|a: Seq<char>, b: Seq<char>|
                stands_between(rest, before[i], a, b);
            let c = b + separator + items.last();
            assert(text =~= a + items[i] + c);
            assert(stands_between(text, items[i], a, c));
        } else {
            separated_items_are_all_there(before, separator, 0);
            let a = rest + separator;
            assert(text =~= a + items[i] + Seq::<char>::empty());
            assert(stands_between(text, items[i], a, Seq::empty()));
        }
        assert((n - 2) * separator.len() + separator.len() == (n - 1) * separator.len())
            by (nonlinear_arith);
    }
}

/// The items stand in their order: those of one part before those of the next.
pub proof fn separated_items_are_in_order(
    a: Seq<Seq<char>>,
    b: Seq<Seq<char>>,
    separator: Seq<char>,
)
    requires
        a.len() > 0,
        b.len() > 0,
    ensures
        separated(a + b, separator) == separated(a, separator) + separator + separated(
            b,
            separator,
        ),
    decreases b.len(),
{
    let all = a + b;
    assert(all.drop_last() =~= a + b.drop_last());
    assert(all.last() == b.last());
    if b.len() == 1 {
        assert(a + b.drop_last() =~= a);
    } else {
        separated_items_are_in_order(a, b.drop_last(), separator);
    }
    assert(separated(all, separator) =~= separated(a, separator) + separator + separated(
        b,
        separator,
    ));
}

/// An entry is listed with its tag and its label where it is to be shown, behind the
/// entries before it, and leaves nothing where it is not.
pub proof fn one_more_entry_is_listed_last<T: Clone>(
    entries: Seq<Entry<T>>,
    tags: Seq<Seq<char>>,
    entry: Entry<T>,
)
    ensures
        shown_items(Seq::<Entry<T>>::empty(), tags) == Seq::<Seq<char>>::empty(),
        entry.show ==> shown_items(entries.push(entry), tags) == shown_items(entries, tags).push(
            tags[entries.len() as int] + seq![' '] + letters(entry.label),
        ),
        !entry.show ==> shown_items(entries.push(entry), tags) == shown_items(entries, tags),
{
    let more = entries.push(entry);
    assert(more.drop_last() =~= entries);
    assert(more.last() == entry);
}

/// Each entry that is to be shown is listed.
pub proof fn shown_entries_are_listed<T: Clone>(
    entries: Seq<Entry<T>>,
    tags: Seq<Seq<char>>,
    i: int,
) -> (k: int)
    requires
        0 <= i < entries.len(),
        entries[i].show,
    ensures
        0 <= k < shown_items(entries, tags).len(),
        shown_items(entries, tags)[k] == tags[i] + seq![' '] + letters(entries[i].label),
        k == shown_items(entries.take(i), tags).len(),
    decreases entries.len(),
{
    let before = entries.drop_last();
    let listed = shown_items(entries, tags);
    if i < before.len() {
        let k = shown_entries_are_listed(before, tags, i);
        assert(before.take(i) =~= entries.take(i));
        assert(listed[k] == shown_items(before, tags)[k]);
        k
    } else {
        assert(entries.take(i) =~= before);
        shown_items(before, tags).len() as int
    }
}

/// The prompt of a menu holds each entry that is to be shown: its chord in brackets,
/// in bold yellow where colors are shown, and behind it its label.
pub proof fn prompts_offer_what_is_shown<T: Clone>(
    title: Seq<char>,
    entries: Seq<Entry<T>>,
    head: Seq<char>,
    tags: Seq<Seq<char>>,
    i: int,
)
    requires
        is_prompt(title, entries, head, tags),
        0 <= i < entries.len(),
        entries[i].show,
        is_plain(letters(entries[i].chord)),
    ensures
        is_wrapped(
            seq!['['] + letters(entries[i].chord) + seq![']'],
            seq!['1', ';', '3', '3'],
            tags[i],
        ),
        occurs_in(
            separated(shown_items(entries, tags), " - "@),
            tags[i] + seq![' '] + letters(entries[i].label),
        ),
        is_plain(title) ==> is_wrapped(title, seq!['1', ';', '3', '7'], head),
{
    let chord = letters(entries[i].chord);
    let text = seq!['['] + chord + seq![']'];
    assert(bracketed(chord) =~= text);
    assert forall|x: int| 0 <= x < text.len() implies #[trigger] text[x] != '\x1b' by {
        if 1 <= x < 1 + chord.len() {
            assert(text[x] == chord[x - 1]);
        }
    }
    painting_wraps_the_text(text, tags[i]);
    if is_plain(title) {
        painting_wraps_the_text(title, head);
    }
    let k = shown_entries_are_listed(entries, tags, i);
    separated_items_are_all_there(shown_items(entries, tags), " - "@, k);
}

/// The title and the chords, plain or painted, are shown as they are: the title first,
/// and each chord in brackets.
pub proof fn prompts_hold_title_and_chords<T: Clone>(
    title: Seq<char>,
    entries: Seq<Entry<T>>,
    head: Seq<char>,
    tags: Seq<Seq<char>>,
)
    ensures
        is_prompt(title, entries, head, tags) <==> {
            &&& shows_bold_color(head, title, "white"@)
            &&& tags.len() == entries.len()
            &&& forall|i: int|
                0 <= i < entries.len() ==> shows_bold_color(
                    #[trigger] tags[i],
                    seq!['['] + letters(entries[i].chord) + seq![']'],
                    "yellow"@,
                )
        },
{
    assert forall|i: int| 0 <= i < entries.len() implies bracketed(
        letters(#[trigger] entries[i].chord),
    ) == seq!['['] + letters(entries[i].chord) + seq![']'] by {
    }
}

/// What was typed starts the chord: it is no longer, and each character agrees.
pub open spec fn is_start_of(typed: Seq<char>, chord: Seq<char>) -> bool {
    &&& typed.len() <= chord.len()
    &&& forall|x: int| 0 <= x < typed.len() ==> #[trigger] typed[x] == chord[x]
}

/// A chord is a candidate where what was typed starts it. It is chosen where it is
/// the only one, and refused are the keys that start none.
pub proof fn candidates_start_with_what_was_typed(
    chords: Seq<Seq<char>>,
    typed: Seq<char>,
    i: int,
)
    ensures
        is_candidate(chords, typed, i) <==> 0 <= i < chords.len() && is_start_of(typed, chords[i]),
        has_no_candidate(chords, typed) <==> forall|j: int|
            0 <= j < chords.len() ==> !is_start_of(typed, #[trigger] chords[j]),
        is_only_candidate(chords, typed, i) <==> {
            &&& 0 <= i < chords.len()
            &&& is_start_of(typed, chords[i])
            &&& forall|j: int|
                0 <= j < chords.len() && is_start_of(typed, #[trigger] chords[j]) ==> j == i
        },
        has_candidates(chords, typed) <==> exists|j: int, k: int|
            0 <= j < k < chords.len() && is_start_of(typed, #[trigger] chords[j]) && is_start_of(
                typed,
                #[trigger] chords[k],
            ),
{
    assert forall|j: int| #[trigger] is_candidate(chords, typed, j) == (0 <= j < chords.len()
        && is_start_of(typed, chords[j])) by {
        if 0 <= j < chords.len() {
            let c = chords[j];
            if typed.is_prefix_of(c) {
                assert forall|x: int| 0 <= x < typed.len() implies #[trigger] typed[x]
                    == c[x] by {
                    assert(typed[x] == c.take(typed.len() as int)[x]);
                }
            }
            if is_start_of(typed, c) {
                assert(typed =~= c.take(typed.len() as int));
            }
        }
    }
    assert forall|j: int| 0 <= j < chords.len() implies is_start_of(typed, #[trigger] chords[j])
        == is_candidate(chords, typed, j) by {
    }
    if exists|j: int, k: int|
        0 <= j < k < chords.len() && is_start_of(typed, #[trigger] chords[j]) && is_start_of(
            typed,
            #[trigger] chords[k],
        ) {
        let (j, k) = choose|j: int, k: int|
            0 <= j < k < chords.len() && is_start_of(typed, #[trigger] chords[j]) && is_start_of(
                typed,
                #[trigger] chords[k],
            );
        assert(is_candidate(chords, typed, j) && is_candidate(chords, typed, k));
    }
    if has_candidates(chords, typed) {
        let (j, k) = choose|j: int, k: int|
            j < k && #[trigger] is_candidate(chords, typed, j) && #[trigger] is_candidate(
                chords,
                typed,
                k,
            );
        assert(is_start_of(typed, chords[j]) && is_start_of(typed, chords[k]));
    }
    if is_only_candidate(chords, typed, i) {
        assert forall|j: int| 0 <= j < chords.len() && is_start_of(
            typed,
            #[trigger] chords[j],
        ) implies j == i by {
            assert(is_candidate(chords, typed, j));
        }
    }
    if has_no_candidate(chords, typed) {
        assert forall|j: int| 0 <= j < chords.len() implies !is_start_of(
            typed,
            #[trigger] chords[j],
        ) by {
            assert(!is_candidate(chords, typed, j));
        }
    }
}

/// What comes of what was typed is one of three: no chord, one, or several.
pub proof fn keys_have_one_of_three_outcomes(chords: Seq<Seq<char>>, typed: Seq<char>, i: int)
    ensures
        has_no_candidate(chords, typed) ==> !has_candidates(chords, typed) && !is_only_candidate(
            chords,
            typed,
            i,
        ),
        has_candidates(chords, typed) ==> !is_only_candidate(chords, typed, i),
        !has_no_candidate(chords, typed) && !has_candidates(chords, typed) ==> exists|j: int|
            is_only_candidate(chords, typed, j),
{
    if !has_no_candidate(chords, typed) && !has_candidates(chords, typed) {
        let j = choose|j: int| is_candidate(chords, typed, j);
        assert forall|k: int| #[trigger] is_candidate(chords, typed, k) implies k == j by {
            if k < j {
                assert(is_candidate(chords, typed, k) && is_candidate(chords, typed, j));
            } else if j < k {
                assert(is_candidate(chords, typed, j) && is_candidate(chords, typed, k));
            }
        }
        assert(is_only_candidate(chords, typed, j));
    }
}

/// The chords of a menu are those of its entries, in their order.
pub proof fn menus_have_the_chords_of_their_entries<T: Clone>(entries: Seq<Entry<T>>, i: int)
    requires
        0 <= i < entries.len(),
    ensures
        chords_of(entries).len() == entries.len(),
        chords_of(entries)[i] == letters(entries[i].chord),
{
}

/// In a menu without a chord that starts another, no chord starts another.
pub proof fn prefix_free_chords_differ_early(chords: Seq<Seq<char>>, i: int, j: int)
    requires
        is_prefix_free(chords),
        0 <= i < chords.len(),
        0 <= j < chords.len(),
        i != j,
    ensures
        !is_start_of(chords[i], chords[j]),
{
    assert(!chords[i].is_prefix_of(chords[j]));
    if is_start_of(chords[i], chords[j]) {
        assert(chords[i] =~= chords[j].take(chords[i].len() as int));
    }
}

} // verus!
