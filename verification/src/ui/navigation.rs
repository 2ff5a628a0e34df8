//! The functions that the user has come through.

use vstd::prelude::*;
use vstd::string::StringExecFns;
use crate::cells::{are_all_cells, fits_cell, is_cell, painted_cells_are_cells};
use crate::indexing::index::FunctionId;
use crate::indexing::symbols::Function;
use crate::paint::{in_color, in_gray, is_color, lemma_colors, shows_color, shows_gray};
use crate::table::{headed_table, headed_text};
use crate::text::{decimal, push_decimal, strip_prefix, texts};

verus! {

/// The functions that the user has come through, the current one last.
pub struct NavigationStack(pub Vec<FunctionId>);

impl View for NavigationStack {
    type V = Seq<FunctionId>;

    open spec fn view(&self) -> Seq<FunctionId> {
        self.0@
    }
}

impl Default for NavigationStack {
    fn default() -> (r: Self)
        ensures
            r@ == Seq::<FunctionId>::empty(),
    {
        NavigationStack(Vec::new())
    }
}

impl Clone for NavigationStack {
    fn clone(&self) -> (r: Self)
        ensures
            r@ == self@,
    {
        let frames: Vec<FunctionId> = self.0.clone();
        assert(frames@ =~= self.0@);
        NavigationStack(frames)
    }
}

/// The stack with `f` on top.
pub open spec fn pushed(frames: Seq<FunctionId>, f: FunctionId) -> Seq<FunctionId> {
    if frames.len() > 0 && frames.last() == f {
        frames
    } else {
        frames.push(f)
    }
}

/// No function stands on itself.
pub open spec fn has_no_repeats(frames: Seq<FunctionId>) -> bool {
    forall|i: int, j: int|
        0 <= i && j == i + 1 && j < frames.len() ==> (#[trigger] frames[i]) != (
        #[trigger] frames[j])
}

/// The shade of a function in the table of a stack of `n`: the later, the lighter.
pub open spec fn shade(i: int, n: int) -> u8 {
    (80 + 175 * i / n) as u8
}

/// The path below `root`, or the whole path where it does not lie there.
pub open spec fn path_from(path: Seq<char>, root: Seq<char>) -> Seq<char> {
    if root.is_prefix_of(path) {
        path.skip(root.len() as int)
    } else {
        path
    }
}

/// The file of a function and its line there.
pub open spec fn place_text(f: Function, root: Seq<char>) -> Seq<char> {
    path_from(f.0.uri.path_view(), root) + seq![':'] + decimal(f.0.range.start.line as nat)
}

/// The cells of the table of a stack: a header, and for each function its name
/// and its place.
pub open spec fn are_cells(
    frames: Seq<FunctionId>,
    root: Seq<char>,
    functions: Seq<Function>,
    header: Seq<char>,
    names: Seq<Seq<char>>,
    places: Seq<Seq<char>>,
) -> bool {
    &&& shows_color(header, "Navigation Stack"@, "bright white"@)
    &&& names.len() == frames.len()
    &&& places.len() == frames.len()
    &&& forall|i: int|
        0 <= i < frames.len() ==> shows_gray(
            #[trigger] names[i],
            functions[frames[i].0 as int].0.name@,
            shade(i, frames.len() as int),
        )
    &&& forall|i: int|
        0 <= i < frames.len() ==> shows_color(
            #[trigger] places[i],
            place_text(functions[frames[i].0 as int], root),
            "bright black"@,
        )
}

/// The function of a frame is known, and its name and its place fit into cells.
pub open spec fn is_showable_frame(
    frame: FunctionId,
    root: Seq<char>,
    functions: Seq<Function>,
) -> bool {
    &&& frame.0 < functions.len()
    &&& is_cell(functions[frame.0 as int].0.name@)
    &&& is_cell(place_text(functions[frame.0 as int], root))
}

/// Each function of a stack is known, and its name and its place fit into cells.
pub open spec fn is_showable(
    frames: Seq<FunctionId>,
    root: Seq<char>,
    functions: Seq<Function>,
) -> bool {
    forall|i: int|
        0 <= i < frames.len() ==> is_showable_frame(#[trigger] frames[i], root, functions)
}

fn place_line(f: &Function, root: &str) -> (r: String)
    ensures
        r@ == place_text(*f, root@),
{
    proof {
        reveal_strlit(":");
    }
    let mut r: String = match strip_prefix(f.0.uri.path(), root) {
        Some(rest) => rest,
        None => f.0.uri.path().to_owned(),
    };
    r.append(":");
    push_decimal(&mut r, f.0.range.start.line as u64);
    assert(r@ =~= place_text(*f, root@));
    r
}

/// The shade of a function in the table of a stack of `n`.
fn shade_of(i: usize, n: usize) -> (r: u8)
    requires
        i < n,
        175 * n <= usize::MAX,
    ensures
        r == shade(i as int, n as int),
{
    assert(175 * i / (n as int) < 175) by (nonlinear_arith)
        requires
            0 <= i < n,
    ;
    assert(175 * i / (n as int) >= 0) by (nonlinear_arith)
        requires
            0 <= i < n,
    ;
    80 + ((255 - 80) * i / n) as u8
}

impl NavigationStack {
    /// The function that the user is at.
    pub fn current(&self) -> (r: Option<&FunctionId>)
        ensures
            r is None <==> self@.len() == 0,
            r matches Some(f) ==> *f == self@.last(),
    {
        if self.0.len() == 0 {
            None
        } else {
            Some(&self.0[self.0.len() - 1])
        }
    }

    /// Goes to a function, unless the user is there already.
    pub fn push(&mut self, f: FunctionId)
        ensures
            final(self)@ == pushed(old(self)@, f),
    {
        let there: bool = match self.current() {
            Some(top) => *top == f,
            None => false,
        };
        if !there {
            self.0.push(f);
        }
    }

    /// Goes back from the current function.
    pub fn pop(&mut self) -> (r: Option<FunctionId>)
        ensures
            old(self)@.len() == 0 ==> r is None && final(self)@ == old(self)@,
            old(self)@.len() > 0 ==> r == Some(old(self)@.last()) && final(self)@ == old(
                self,
            )@.drop_last(),
    {
        self.0.pop()
    }

    /// Whether the user is nowhere.
    pub fn is_empty(&self) -> (r: bool)
        ensures
            r == (self@.len() == 0),
    {
        self.0.len() == 0
    }

    /// Whether the stack can be shown as a table: its functions are known, and
    /// their names and places fit into cells.
    pub fn can_show(&self, root: &str, functions: &Vec<Function>) -> (r: bool)
        ensures
            r == is_showable(self@, root@, functions@),
    {
        let mut i: usize = 0;
        while i < self.0.len()
            invariant
                i <= self@.len(),
                is_showable(self@.take(i as int), root@, functions@),
            decreases self@.len() - i,
        {
            let id: usize = self.0[i].0;
            assert(self@[i as int].0 == id);
            if id >= functions.len() {
                return false;
            }
            let f: &Function = &functions[id];
            let place: String = place_line(f, root);
            if !fits_cell(f.0.name.as_str()) || !fits_cell(place.as_str()) {
                return false;
            }
            i = i + 1;
            assert forall|k: int| 0 <= k < i implies is_showable_frame(
                #[trigger] self@.take(i as int)[k],
                root@,
                functions@,
            ) by {
                if k < i - 1 {
                    assert(self@.take(i - 1)[k] == self@.take(i as int)[k]);
                }
            }
        }
        assert(self@.take(i as int) =~= self@);
        true
    }

    /// The stack as a table, if it is not empty.
    pub fn to_table(&self, root: &str, functions: &Vec<Function>) -> (r: Option<String>)
        requires
            175 * self@.len() <= usize::MAX,
            is_showable(self@, root@, functions@),
        ensures
            r is None <==> self@.len() == 0,
            r matches Some(t) ==> exists|
                header: Seq<char>,
                names: Seq<Seq<char>>,
                places: Seq<Seq<char>>,
            | #[trigger]
                are_cells(self@, root@, functions@, header, names, places) && t@ == headed_text(
                    header,
                    names,
                    places,
                ),
    {
        if self.is_empty() {
            return None;
        }
        proof {
            lemma_colors();
        }
        let n: usize = self.0.len();
        let mut names: Vec<String> = Vec::new();
        let mut places: Vec<String> = Vec::new();
        let mut i: usize = 0;
        while i < n
            invariant
                i <= n == self@.len(),
                175 * n <= usize::MAX,
                is_color("bright black"@),
                is_showable(self@, root@, functions@),
                are_all_cells(texts(names@)),
                are_all_cells(texts(places@)),
                names@.len() == i,
                places@.len() == i,
                forall|k: int|
                    0 <= k < i ==> shows_gray(
                        (#[trigger] names@[k])@,
                        functions@[self@[k].0 as int].0.name@,
                        shade(k, n as int),
                    ),
                forall|k: int|
                    0 <= k < i ==> shows_color(
                        (#[trigger] places@[k])@,
                        place_text(functions@[self@[k].0 as int], root@),
                        "bright black"@,
                    ),
            decreases n - i,
        {
            assert(is_showable_frame(self@[i as int], root@, functions@));
            let f: &Function = &functions[self.0[i].0];
            let step: u8 = shade_of(i, n);
            let name: String = in_gray(f.0.name.as_str(), step);
            let place: String = place_line(f, root);
            let shown: String = in_color(place.as_str(), "bright black");
            proof {
                painted_cells_are_cells(f.0.name@, name@, "bright black"@, step);
                painted_cells_are_cells(place@, shown@, "bright black"@, step);
                assert(texts(names@.push(name)) =~= texts(names@).push(name@));
                assert(texts(places@.push(shown)) =~= texts(places@).push(shown@));
            }
            names.push(name);
            places.push(shown);
            i = i + 1;
        }
        let header: String = in_color("Navigation Stack", "bright white");
        proof {
            reveal_strlit("Navigation Stack");
            assert(is_cell("Navigation Stack"@));
            painted_cells_are_cells("Navigation Stack"@, header@, "bright white"@, 0);
        }
        assert(are_cells(self@, root@, functions@, header@, texts(names@), texts(places@)));
        Some(headed_table(header, names, places))
    }
}

/// Going to a function leads there, and going there again leads nowhere.
pub proof fn a_push_leads_there_once(frames: Seq<FunctionId>, f: FunctionId)
    ensures
        pushed(frames, f).len() > 0,
        pushed(frames, f).last() == f,
        pushed(pushed(frames, f), f) == pushed(frames, f),
{
}

/// Going to another function and back leads to where the user was.
pub proof fn a_pop_undoes_a_push(frames: Seq<FunctionId>, f: FunctionId)
    requires
        frames.len() == 0 || frames.last() != f,
    ensures
        pushed(frames, f).drop_last() == frames,
{
    assert(frames.push(f).drop_last() =~= frames);
}

/// Wherever the user goes, no function stands on itself.
pub proof fn frames_do_not_repeat(frames: Seq<FunctionId>, f: FunctionId)
    requires
        has_no_repeats(frames),
    ensures
        has_no_repeats(Seq::<FunctionId>::empty()),
        has_no_repeats(pushed(frames, f)),
        frames.len() > 0 ==> has_no_repeats(frames.drop_last()),
{
}

} // verus!
