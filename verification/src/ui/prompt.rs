//! A menu whose entries are chosen by typing their chords.

use compact_str::CompactString;
use vstd::prelude::*;
use vstd::string::StringExecFns;
use crate::compact::{compact, letters};
use crate::paint::{
    in_bold_color, in_color, is_color, lemma_colors, shows_bold_color, shows_color,
};
use crate::text::{starts_with, texts};

verus! {

/// An entry of a menu.
pub struct Entry<T: Clone> {
    pub chord: CompactString,
    pub label: CompactString,
    pub payload: T,
    pub show: bool,
}

impl<T: Clone> Clone for Entry<T> {
    fn clone(&self) -> (r: Self)
        ensures
            letters(r.chord) == letters(self.chord),
            letters(r.label) == letters(self.label),
            cloned(self.payload, r.payload),
            r.show == self.show,
    {
        Entry {
            chord: self.chord.clone(),
            label: self.label.clone(),
            payload: self.payload.clone(),
            show: self.show,
        }
    }
}

/// What was typed starts no chord.
#[derive(Debug, Clone, Copy, PartialEq, Eq, Structural)]
pub struct NoCandidate;

impl NoCandidate {
    /// What the user is told.
    pub fn message(&self) -> (r: &'static str)
        ensures
            r@ == "no valid candidate found"@,
    {
        "no valid candidate found"
    }
}

/// The chords of a menu, and what has been typed of one.
pub struct KeyMap<T: Clone> {
    choices: Vec<(CompactString, T)>,
    acc: CompactString,
}

/// What came of a key.
pub enum Pressed<T> {
    /// Several chords start with what has been typed.
    More,
    /// The entry that was chosen.
    Chosen(T),
    /// What was typed starts no chord. It is forgotten.
    Unknown(CompactString),
}

/// `typed` starts the chord with number `i`.
pub open spec fn is_candidate(chords: Seq<Seq<char>>, typed: Seq<char>, i: int) -> bool {
    0 <= i < chords.len() && typed.is_prefix_of(chords[i])
}

/// `typed` starts the chord with number `i` and no other.
pub open spec fn is_only_candidate(chords: Seq<Seq<char>>, typed: Seq<char>, i: int) -> bool {
    &&& is_candidate(chords, typed, i)
    &&& forall|j: int| #[trigger] is_candidate(chords, typed, j) ==> j == i
}

/// `typed` starts no chord.
pub open spec fn has_no_candidate(chords: Seq<Seq<char>>, typed: Seq<char>) -> bool {
    forall|i: int| !is_candidate(chords, typed, i)
}

/// `typed` starts several chords.
pub open spec fn has_candidates(chords: Seq<Seq<char>>, typed: Seq<char>) -> bool {
    exists|i: int, j: int|
        i < j && #[trigger] is_candidate(chords, typed, i) && #[trigger] is_candidate(
            chords,
            typed,
            j,
        )
}

/// The chords of the entries.
pub open spec fn chords_of<T: Clone>(entries: Seq<Entry<T>>) -> Seq<Seq<char>> {
    entries.map_values(|e: Entry<T>| letters(e.chord))
}

impl<T: Clone> KeyMap<T> {
    /// The chords, in the order of the menu.
    pub closed spec fn chords(&self) -> Seq<Seq<char>> {
        self.choices@.map_values(|c: (CompactString, T)| letters(c.0))
    }

    /// What each chord stands for.
    pub closed spec fn payloads(&self) -> Seq<T> {
        self.choices@.map_values(|c: (CompactString, T)| c.1)
    }

    /// What has been typed.
    pub closed spec fn typed(&self) -> Seq<char> {
        letters(self.acc)
    }

    /// The chords of a menu, with nothing typed.
    pub fn from_choices(choices: &Vec<Entry<T>>) -> (r: Self)
        ensures
            r.chords() == chords_of(choices@),
            r.payloads().len() == choices@.len(),
            forall|i: int|
                0 <= i < choices@.len() ==> cloned(
                    choices@[i].payload,
                    #[trigger] r.payloads()[i],
                ),
            r.typed() == Seq::<char>::empty(),
    {
        let mut pairs: Vec<(CompactString, T)> = Vec::new();
        let mut i: usize = 0;
        while i < choices.len()
            invariant
                i <= choices@.len(),
                pairs@.len() == i,
                forall|j: int|
                    0 <= j < i ==> letters((#[trigger] pairs@[j]).0) == letters(choices@[j].chord)
                        && cloned(choices@[j].payload, pairs@[j].1),
            decreases choices@.len() - i,
        {
            let entry: &Entry<T> = &choices[i];
            pairs.push((entry.chord.clone(), entry.payload.clone()));
            i = i + 1;
        }
        proof {
            reveal_strlit("");
        }
        let r = KeyMap { choices: pairs, acc: compact("") };
        assert(r.chords() =~= chords_of(choices@));
        assert(r.typed() =~= Seq::<char>::empty());
        r
    }

    /// Takes one more character of a chord. The choice falls as soon as a single
    /// chord starts with what has been typed.
    pub fn read_char(&mut self, c: char) -> (r: Result<Option<&T>, NoCandidate>)
        ensures
            final(self).chords() == old(self).chords(),
            final(self).payloads() == old(self).payloads(),
            final(self).typed() == old(self).typed().push(c),
            r is Err <==> has_no_candidate(old(self).chords(), old(self).typed().push(c)),
            r matches Ok(Some(p)) ==> exists|i: int| #[trigger]
                is_only_candidate(old(self).chords(), old(self).typed().push(c), i) && *p == old(
                    self,
                ).payloads()[i],
            r matches Ok(None) ==> has_candidates(old(self).chords(), old(self).typed().push(c)),
    {
        self.acc.push(c);
        let found: Option<Option<usize>> = self.only_candidate();
        assert(self.typed() == old(self).typed().push(c));
        match found {
            Some(found) => match found {
                Some(i) => Ok(Some(&self.choices[i].1)),
                None => Ok(None),
            },
            None => Err(NoCandidate),
        }
    }

    /// The number of the only candidate; `None` within if there are several.
    fn only_candidate(&self) -> (r: Option<Option<usize>>)
        ensures
            r is None <==> has_no_candidate(self.chords(), self.typed()),
            r matches Some(Some(i)) ==> is_only_candidate(self.chords(), self.typed(), i as int),
            r matches Some(None) ==> has_candidates(self.chords(), self.typed()),
    {
        let ghost chords = self.chords();
        let ghost typed = self.typed();
        let mut first: Option<usize> = None;
        let mut i: usize = 0;
        while i < self.choices.len()
            invariant
                i <= self.choices@.len(),
                chords == self.chords(),
                typed == self.typed(),
                chords.len() == self.choices@.len(),
                first matches Some(f) ==> f < i && is_candidate(chords, typed, f as int),
                forall|j: int|
                    0 <= j < i && #[trigger] is_candidate(chords, typed, j) ==> first == Some(
                        j as usize,
                    ),
            decreases self.choices@.len() - i,
        {
            assert(chords[i as int] == letters(self.choices@[i as int].0));
            if starts_with(self.choices[i].0.as_str(), self.acc.as_str()) {
                match first {
                    Some(f) => {
                        assert(is_candidate(chords, typed, f as int));
                        assert(is_candidate(chords, typed, i as int));
                        return Some(None);
                    },
                    None => {
                        first = Some(i);
                    },
                }
            }
            i = i + 1;
        }
        match first {
            Some(f) => Some(Some(f)),
            None => None,
        }
    }

    /// Takes one key: the choice that it makes, if it makes one. What starts no
    /// chord is forgotten.
    pub fn press(&mut self, c: char) -> (r: Pressed<T>)
        ensures
            final(self).chords() == old(self).chords(),
            final(self).payloads() == old(self).payloads(),
            match r {
                Pressed::More => {
                    &&& has_candidates(old(self).chords(), old(self).typed().push(c))
                    &&& final(self).typed() == old(self).typed().push(c)
                },
                Pressed::Chosen(p) => {
                    &&& exists|i: int| #[trigger]
                        is_only_candidate(old(self).chords(), old(self).typed().push(c), i)
                            && cloned(old(self).payloads()[i], p)
                    &&& final(self).typed() == old(self).typed().push(c)
                },
                Pressed::Unknown(text) => {
                    &&& has_no_candidate(old(self).chords(), old(self).typed().push(c))
                    &&& letters(text) == old(self).typed().push(c)
                    &&& final(self).typed() == Seq::<char>::empty()
                },
            },
    {
        match self.read_char(c) {
            Ok(found) => match found {
                Some(payload) => Pressed::Chosen(payload.clone()),
                None => Pressed::More,
            },
            Err(_) => {
                let text: CompactString = self.acc.clone();
                self.clear();
                Pressed::Unknown(text)
            },
        }
    }

    /// Forgets what has been typed.
    pub fn clear(&mut self)
        ensures
            final(self).chords() == old(self).chords(),
            final(self).payloads() == old(self).payloads(),
            final(self).typed() == Seq::<char>::empty(),
    {
        self.acc.clear();
    }
}

/// Texts with a separator between them.
pub open spec fn separated(items: Seq<Seq<char>>, separator: Seq<char>) -> Seq<char>
    decreases items.len(),
{
    if items.len() == 0 {
        Seq::empty()
    } else if items.len() == 1 {
        items[0]
    } else {
        separated(items.drop_last(), separator) + separator + items.last()
    }
}

/// The entries that are shown: for each its tag and its label.
pub open spec fn shown_items<T: Clone>(entries: Seq<Entry<T>>, tags: Seq<Seq<char>>) -> Seq<
    Seq<char>,
>
    decreases entries.len(),
{
    if entries.len() == 0 {
        Seq::empty()
    } else {
        let before = shown_items(entries.drop_last(), tags);
        if entries.last().show {
            before.push(tags[entries.len() - 1] + seq![' '] + letters(entries.last().label))
        } else {
            before
        }
    }
}

/// The chord of an entry in brackets.
pub open spec fn bracketed(chord: Seq<char>) -> Seq<char> {
    seq!['['] + chord + seq![']']
}

/// The chord in brackets.
pub fn bracket(chord: &str) -> (r: String)
    ensures
        r@ == bracketed(chord@),
{
    proof {
        reveal_strlit("[");
        reveal_strlit("]");
    }
    let mut r: String = "[".to_owned();
    r.append(chord);
    r.append("]");
    assert(r@ =~= bracketed(chord@));
    r
}

/// The prompt line: the painted title, then the shown entries, each with its
/// painted tag.
pub fn prompt_line<T: Clone>(title: &str, tags: &Vec<String>, choices: &Vec<Entry<T>>) -> (r:
    String)
    requires
        tags@.len() == choices@.len(),
    ensures
        r@ == title@ + separated(shown_items(choices@, texts(tags@)), " - "@),
{
    let mut line: String = String::new();
    let mut any: bool = false;
    let ghost views = texts(tags@);
    let mut i: usize = 0;
    while i < choices.len()
        invariant
            i <= choices@.len() == tags@.len(),
            views == texts(tags@),
            any == (shown_items(choices@.take(i as int), views).len() > 0),
            line@ == separated(shown_items(choices@.take(i as int), views), " - "@),
        decreases choices@.len() - i,
    {
        let ghost upto = choices@.take(i + 1);
        let ghost before = shown_items(choices@.take(i as int), views);
        assert(upto.drop_last() =~= choices@.take(i as int));
        if choices[i].show {
            let ghost start = line@;
            if any {
                line.append(" - ");
            }
            let ghost middle = line@;
            line.append(tags[i].as_str());
            line.append(" ");
            line.append(choices[i].label.as_str());
            any = true;
            proof {
                reveal_strlit(" ");
                let item = views[i as int] + seq![' '] + letters(choices@[i as int].label);
                let after = before.push(item);
                assert(shown_items(upto, views) == after);
                assert(line@ =~= middle + item);
                assert(after.drop_last() =~= before);
            }
        }
        i = i + 1;
    }
    assert(choices@.take(i as int) =~= choices@);
    let mut r: String = title.to_owned();
    r.append(line.as_str());
    r
}

/// The prompt of a menu: its title in bold white, and the entries that it shows,
/// with their chords in bold yellow.
pub fn menu_prompt<T: Clone>(title: &str, choices: &Vec<Entry<T>>) -> (r: String)
    ensures
        exists|head: Seq<char>, tags: Seq<Seq<char>>| #[trigger]
            is_prompt(title@, choices@, head, tags) && r@ == head + separated(
                shown_items(choices@, tags),
                " - "@,
            ),
{
    proof {
        lemma_colors();
    }
    let head: String = in_bold_color(title, "white");
    let mut tags: Vec<String> = Vec::new();
    let mut i: usize = 0;
    while i < choices.len()
        invariant
            i <= choices@.len(),
            tags@.len() == i,
            is_color("yellow"@),
            forall|j: int|
                0 <= j < i ==> shows_bold_color(
                    (#[trigger] tags@[j])@,
                    bracketed(letters(choices@[j].chord)),
                    "yellow"@,
                ),
        decreases choices@.len() - i,
    {
        let tag: String = bracket(choices[i].chord.as_str());
        tags.push(in_bold_color(tag.as_str(), "yellow"));
        i = i + 1;
    }
    assert(is_prompt(title@, choices@, head@, texts(tags@)));
    prompt_line(head.as_str(), &tags, choices)
}

/// What is logged where what was typed starts no chord.
pub fn unknown_chord(typed: &str) -> (r: String)
    ensures
        exists|shown: Seq<char>| #[trigger]
            shows_color(shown, typed@, "red"@) && r@ == "Unknown key chord `"@ + shown + "`"@,
{
    proof {
        lemma_colors();
    }
    let shown: String = in_color(typed, "red");
    let mut r: String = "Unknown key chord `".to_owned();
    r.append(shown.as_str());
    r.append("`");
    assert(shows_color(shown@, typed@, "red"@));
    r
}

/// `head` is the title and `tags` are the chords in brackets, as they are shown.
pub open spec fn is_prompt<T: Clone>(
    title: Seq<char>,
    entries: Seq<Entry<T>>,
    head: Seq<char>,
    tags: Seq<Seq<char>>,
) -> bool {
    &&& shows_bold_color(head, title, "white"@)
    &&& tags.len() == entries.len()
    &&& forall|i: int|
        0 <= i < entries.len() ==> shows_bold_color(
            #[trigger] tags[i],
            bracketed(letters(entries[i].chord)),
            "yellow"@,
        )
}

/// No chord starts another one.
pub open spec fn is_prefix_free(chords: Seq<Seq<char>>) -> bool {
    forall|i: int, j: int|
        0 <= i < chords.len() && 0 <= j < chords.len() && i != j ==> !(#[trigger] chords[i])
            .is_prefix_of(#[trigger] chords[j])
}

/// With key `p` of a chord, and not before, the chord is chosen.
pub open spec fn is_chosen_with(chords: Seq<Seq<char>>, i: int, p: int) -> bool {
    &&& 1 <= p <= chords[i].len()
    &&& is_only_candidate(chords, chords[i].take(p), i)
    &&& forall|q: int| 1 <= q < p ==> has_candidates(chords, #[trigger] chords[i].take(q))
}

/// Where no chord starts another one, typing a chord chooses it: up to some key
/// several chords are left, and with that key only this one.
pub proof fn typing_a_chord_chooses_it(chords: Seq<Seq<char>>, i: int) -> (p: int)
    requires
        is_prefix_free(chords),
        0 <= i < chords.len(),
        chords[i].len() > 0,
    ensures
        is_chosen_with(chords, i, p),
{
    let n = chords[i].len() as int;
    assert(chords[i].take(n) =~= chords[i]);
    assert(is_only_candidate(chords, chords[i].take(n), i)) by {
        assert forall|j: int| #[trigger] is_candidate(chords, chords[i].take(n), j) implies j
            == i by {
            if j != i {
                assert(!chords[i].is_prefix_of(chords[j]));
            }
        }
    }
    lemma_first_unique(chords, i, n)
}

proof fn lemma_first_unique(chords: Seq<Seq<char>>, i: int, n: int) -> (p: int)
    requires
        0 <= i < chords.len(),
        1 <= n <= chords[i].len(),
        is_only_candidate(chords, chords[i].take(n), i),
    ensures
        1 <= p <= n,
        is_only_candidate(chords, chords[i].take(p), i),
        forall|q: int| 1 <= q < p ==> has_candidates(chords, #[trigger] chords[i].take(q)),
    decreases n,
{
    if n > 1 && is_only_candidate(chords, chords[i].take(n - 1), i) {
        lemma_first_unique(chords, i, n - 1)
    } else {
        assert forall|q: int| 1 <= q < n implies has_candidates(
            chords,
            #[trigger] chords[i].take(q),
        ) by {
            let typed = chords[i].take(q);
            let last = chords[i].take(n - 1);
            assert(is_candidate(chords, last, i));
            let j = choose|j: int| #[trigger] is_candidate(chords, last, j) && j != i;
            assert(is_candidate(chords, last, j));
            assert(typed =~= last.take(q));
            assert(last.take(q) =~= chords[j].take(n - 1).take(q));
            assert(chords[j].take(n - 1).take(q) =~= chords[j].take(q));
            assert(is_candidate(chords, typed, j));
            assert(is_candidate(chords, typed, i));
            if i < j {
                assert(is_candidate(chords, typed, i) && is_candidate(chords, typed, j));
            } else {
                assert(is_candidate(chords, typed, j) && is_candidate(chords, typed, i));
            }
        }
        n
    }
}

} // verus!
