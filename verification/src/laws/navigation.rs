//! The way that the user has come.

use vstd::prelude::*;
use crate::cells::is_cell;
use crate::indexing::index::FunctionId;
use crate::indexing::symbols::Function;
use crate::laws::paint::{is_plain, is_wrapped, painting_wraps_the_text};
use crate::paint::{shows_color, shows_gray};
use crate::text::decimal;
use crate::ui::navigation::{
    are_cells, has_no_repeats, is_showable, is_showable_frame, path_from, place_text, pushed, shade,
};

verus! {

/// Going to the function where the user is changes nothing. Going to another one
/// puts it on top of all that was there.
pub proof fn going_elsewhere_adds_one(frames: Seq<FunctionId>, f: FunctionId)
    ensures
        frames.len() == 0 ==> pushed(frames, f) == seq![f],
        frames.len() > 0 && frames[frames.len() - 1] == f ==> pushed(frames, f) == frames,
        frames.len() > 0 && frames[frames.len() - 1] != f ==> {
            &&& pushed(frames, f).len() == frames.len() + 1
            &&& pushed(frames, f)[frames.len() as int] == f
            &&& forall|i: int|
                0 <= i < frames.len() ==> #[trigger] pushed(frames, f)[i] == frames[i]
        },
{
    if frames.len() == 0 {
        assert(pushed(frames, f) =~= seq![f]);
    }
}

/// Functions that stand on each other are different.
pub proof fn neighbours_differ(frames: Seq<FunctionId>, i: int)
    requires
        has_no_repeats(frames),
        0 <= i < frames.len() - 1,
    ensures
        frames[i] != frames[i + 1],
{
    let j = i + 1;
    assert(frames[i] != frames[j]);
}

/// The shade goes evenly from 80 at the bottom of the stack up to 255, which it does
/// not reach.
pub proof fn shades_go_up_evenly(i: int, n: int)
    requires
        0 <= i < n,
    ensures
        80 <= shade(i, n) < 255,
        shade(0, n) == 80,
        (shade(i, n) - 80) * n <= 175 * i < (shade(i, n) - 79) * n,
{
    assert(0 <= 175 * i / n < 175) by (nonlinear_arith)
        requires
            0 <= i < n,
    ;
    let q = 175 * i / n;
    assert(q * n <= 175 * i < (q + 1) * n) by (nonlinear_arith)
        requires
            0 <= i < n,
            q == 175 * i / n,
    ;
    assert(175 * 0int / n == 0) by (nonlinear_arith)
        requires
            n > 0,
    ;
    assert(shade(i, n) == 80 + q);
}

/// A path below the root is the root and then what is shown of it. Any other path is
/// shown whole.
pub proof fn paths_are_shown_below_the_root(path: Seq<char>, root: Seq<char>, rest: Seq<char>)
    ensures
        path == root + rest ==> path_from(path, root) == rest,
        !(exists|tail: Seq<char>| path == root + tail) ==> path_from(path, root) == path,
{
    if path == root + rest {
        assert(path.take(root.len() as int) =~= root);
        assert(path.skip(root.len() as int) =~= rest);
    }
    if root.is_prefix_of(path) {
        let tail = path.skip(root.len() as int);
        assert(path =~= root + tail);
    }
}

/// The place of a function is its path, as it is shown, a colon, and its line,
/// counted from zero.
pub proof fn places_are_paths_and_lines(f: Function, root: Seq<char>)
    ensures
        place_text(f, root) == path_from(f.0.uri.path_view(), root) + seq![':'] + decimal(
            f.0.range.start.line as nat,
        ),
{
}

/// The table of a stack has a row for each function from the bottom to the top, with
/// its name in its shade and with its place.
pub proof fn stacks_are_shown_from_the_bottom(
    frames: Seq<FunctionId>,
    root: Seq<char>,
    functions: Seq<Function>,
    header: Seq<char>,
    names: Seq<Seq<char>>,
    places: Seq<Seq<char>>,
    i: int,
)
    requires
        are_cells(frames, root, functions, header, names, places),
        0 <= i < frames.len(),
    ensures
        is_wrapped(
            seq![
                'N', 'a', 'v', 'i', 'g', 'a', 't', 'i', 'o', 'n', ' ', 'S', 't', 'a', 'c', 'k',
            ],
            seq!['9', '7'],
            header,
        ),
        names.len() == frames.len(),
        places.len() == frames.len(),
        shows_gray(
            names[i],
            functions[frames[i].0 as int].0.name@,
            shade(i, frames.len() as int),
        ),
        shows_color(
            places[i],
            place_text(functions[frames[i].0 as int], root),
            "bright black"@,
        ),
        is_plain(place_text(functions[frames[i].0 as int], root)) ==> is_wrapped(
            place_text(functions[frames[i].0 as int], root),
            seq!['9', '0'],
            places[i],
        ),
{
    reveal_strlit("Navigation Stack");
    assert("Navigation Stack"@ =~= seq![
        'N', 'a', 'v', 'i', 'g', 'a', 't', 'i', 'o', 'n', ' ', 'S', 't', 'a', 'c', 'k',
    ]);
    painting_wraps_the_text("Navigation Stack"@, header);
    assert(shows_gray(
        names[i],
        functions[frames[i].0 as int].0.name@,
        shade(i, frames.len() as int),
    ));
    let place = place_text(functions[frames[i].0 as int], root);
    assert(shows_color(places[i], place, "bright black"@));
    if is_plain(place) {
        painting_wraps_the_text(place, places[i]);
    }
}

/// A stack can be shown where each of its functions is in the index, and its name and
/// its place fit into cells.
pub proof fn stacks_are_showable_where_all_fits(
    frames: Seq<FunctionId>,
    root: Seq<char>,
    functions: Seq<Function>,
)
    ensures
        is_showable(frames, root, functions) <==> forall|i: int|
            0 <= i < frames.len() ==> {
                &&& (#[trigger] frames[i]).0 < functions.len()
                &&& is_cell(functions[frames[i].0 as int].0.name@)
                &&& is_cell(place_text(functions[frames[i].0 as int], root))
            },
{
    if is_showable(frames, root, functions) {
        assert forall|i: int| 0 <= i < frames.len() implies {
            &&& (#[trigger] frames[i]).0 < functions.len()
            &&& is_cell(functions[frames[i].0 as int].0.name@)
            &&& is_cell(place_text(functions[frames[i].0 as int], root))
        } by {
            assert(is_showable_frame(frames[i], root, functions));
        }
    }
}

} // verus!
