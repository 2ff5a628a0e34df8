//! Functions and call sites as lines of text.

use vstd::prelude::*;
use crate::indexing::pretty::{call_site_text, container_text, function_text, place_text};
use crate::indexing::symbols::{CallSite, Function, Position};
use crate::laws::paint::{is_plain, is_wrapped, painting_wraps_the_text};
use crate::paint::{shows_bold_color, shows_color};
use crate::text::decimal;

verus! {

/// What a function belongs to stands before its name with two colons, and nothing
/// stands there where it belongs to nothing.
pub proof fn containers_end_in_colons(container: Option<String>)
    ensures
        container is None ==> container_text(container) == Seq::<char>::empty(),
        container matches Some(c) ==> container_text(container) == c@.push(':').push(':'),
{
    if let Some(c) = container {
        assert(container_text(container) =~= c@.push(':').push(':'));
    }
}

/// A place is its line and its character, in parentheses, both counted from zero.
pub proof fn places_are_lines_and_characters(at: Position)
    ensures
        place_text(at) == seq!['('] + decimal(at.line as nat) + seq![',', ' '] + decimal(
            at.character as nat,
        ) + seq![')'],
{
}

/// The parts of a line stand in their order: the file, a colon, the line, a space,
/// what the function belongs to, and its name.
pub proof fn lines_of_functions_hold_their_parts(
    file: Seq<char>,
    line: u32,
    container: Seq<char>,
    name: Seq<char>,
)
    ensures
        function_text(file, line, container, name) == file + seq![':'] + decimal(line as nat)
            + seq![' '] + container + name,
{
}

/// The parts of a line stand in their order: the file, a colon, the place, a space,
/// and the name.
pub proof fn lines_of_call_sites_hold_their_parts(
    file: Seq<char>,
    place: Seq<char>,
    name: Seq<char>,
)
    ensures
        call_site_text(file, place, name) == file + seq![':'] + place + seq![' '] + name,
{
}

/// Functions and call sites lie below a root where their path starts with it.
pub proof fn paths_below_a_root_start_with_it(f: Function, site: CallSite, root: Seq<char>)
    ensures
        f.is_below(root) <==> exists|rest: Seq<char>| f.0.uri.path_view() == root + rest,
        site.is_below(root) <==> exists|rest: Seq<char>| site.0.uri.path_view() == root + rest,
{
    lemma_starts(f.0.uri.path_view(), root);
    lemma_starts(site.0.uri.path_view(), root);
}

proof fn lemma_starts(path: Seq<char>, root: Seq<char>)
    ensures
        root.is_prefix_of(path) <==> exists|rest: Seq<char>| path == root + rest,
{
    if root.is_prefix_of(path) {
        assert(path =~= root + path.skip(root.len() as int));
    }
    if exists|rest: Seq<char>| path == root + rest {
        let rest = choose|rest: Seq<char>| path == root + rest;
        assert(path.take(root.len() as int) =~= root);
    }
}

/// The line of a function: what is behind the root in its path, a colon, its line, a
/// space, what it belongs to, and its name.
pub proof fn functions_are_shown_on_a_line(
    f: Function,
    root: Seq<char>,
    rest: Seq<char>,
    line: Seq<char>,
) -> (parts: (Seq<char>, Seq<char>, Seq<char>))
    requires
        f.is_line(root, line),
        f.0.uri.path_view() == root + rest,
    ensures
        line == parts.0 + seq![':'] + decimal(f.0.range.start.line as nat) + seq![' '] + parts.1
            + parts.2,
        shows_color(parts.0, rest, "bright black"@),
        shows_color(parts.1, container_text(f.0.container_name), "yellow"@),
        shows_bold_color(parts.2, f.0.name@, "bright yellow"@),
        is_plain(rest) ==> is_wrapped(rest, seq!['9', '0'], parts.0),
        is_plain(container_text(f.0.container_name)) ==> is_wrapped(
            container_text(f.0.container_name),
            seq!['3', '3'],
            parts.1,
        ),
        is_plain(f.0.name@) ==> is_wrapped(f.0.name@, seq!['1', ';', '9', '3'], parts.2),
{
    let (file, container, name) = choose|
        file: Seq<char>,
        container: Seq<char>,
        name: Seq<char>,
    | #[trigger]
        f.is_shown_as(root, file, container, name) && line == function_text(
            file,
            f.0.range.start.line,
            container,
            name,
        );
    assert(f.0.uri.path_view().skip(root.len() as int) =~= rest);
    if is_plain(rest) {
        painting_wraps_the_text(rest, file);
    }
    if is_plain(container_text(f.0.container_name)) {
        painting_wraps_the_text(container_text(f.0.container_name), container);
    }
    if is_plain(f.0.name@) {
        painting_wraps_the_text(f.0.name@, name);
    }
    (file, container, name)
}

/// The line of a call site: what is behind the root in its path, a colon, its place, a
/// space, and its name.
pub proof fn call_sites_are_shown_on_a_line(
    site: CallSite,
    root: Seq<char>,
    rest: Seq<char>,
    line: Seq<char>,
) -> (parts: (Seq<char>, Seq<char>, Seq<char>))
    requires
        site.is_line(root, line),
        site.0.uri.path_view() == root + rest,
    ensures
        line == parts.0 + seq![':'] + parts.1 + seq![' '] + parts.2,
        shows_color(parts.0, rest, "bright black"@),
        shows_color(parts.1, place_text(site.0.range.start), "red"@),
        shows_bold_color(parts.2, site.0.name@, "bright yellow"@),
        is_plain(rest) ==> is_wrapped(rest, seq!['9', '0'], parts.0),
        is_plain(place_text(site.0.range.start)) ==> is_wrapped(
            place_text(site.0.range.start),
            seq!['3', '1'],
            parts.1,
        ),
        is_plain(site.0.name@) ==> is_wrapped(site.0.name@, seq!['1', ';', '9', '3'], parts.2),
{
    let (file, place, name) = choose|file: Seq<char>, place: Seq<char>, name: Seq<char>| #[trigger]
        site.is_shown_as(root, file, place, name) && line == call_site_text(file, place, name);
    assert(site.0.uri.path_view().skip(root.len() as int) =~= rest);
    if is_plain(rest) {
        painting_wraps_the_text(rest, file);
    }
    if is_plain(place_text(site.0.range.start)) {
        painting_wraps_the_text(place_text(site.0.range.start), place);
    }
    if is_plain(site.0.name@) {
        painting_wraps_the_text(site.0.name@, name);
    }
    (file, place, name)
}

} // verus!
