//! Functions and call sites as lines of text.

use vstd::prelude::*;
use vstd::string::StringExecFns;
use crate::indexing::symbols::{CallHierarchyItem, CallSite, Function, Position};
use crate::paint::{
    in_bold_color, in_color, lemma_colors, shows_bold_color, shows_color,
};
use crate::text::{decimal, push_decimal, strip_prefix};

verus! {

/// A file, a line in it, and a function with what it belongs to.
pub open spec fn function_text(
    file: Seq<char>,
    line: u32,
    container: Seq<char>,
    name: Seq<char>,
) -> Seq<char> {
    file + seq![':'] + decimal(line as nat) + seq![' '] + container + name
}

/// A file, a place in it, and a name.
pub open spec fn call_site_text(file: Seq<char>, place: Seq<char>, name: Seq<char>) -> Seq<char> {
    file + seq![':'] + place + seq![' '] + name
}

/// A line and a character, in parentheses.
pub open spec fn place_text(at: Position) -> Seq<char> {
    seq!['('] + decimal(at.line as nat) + seq![',', ' '] + decimal(at.character as nat) + seq![')']
}

/// What a function belongs to, as it stands before its name.
pub open spec fn container_text(container: Option<String>) -> Seq<char> {
    match container {
        Some(c) => c@ + seq![':', ':'],
        None => Seq::empty(),
    }
}

/// The line of a function, from its painted parts.
pub fn function_line(file: &str, line: u32, container: &str, name: &str) -> (r: String)
    ensures
        r@ == function_text(file@, line, container@, name@),
{
    proof {
        reveal_strlit(":");
        reveal_strlit(" ");
    }
    let mut r: String = file.to_owned();
    r.append(":");
    push_decimal(&mut r, line as u64);
    r.append(" ");
    r.append(container);
    r.append(name);
    assert(r@ =~= function_text(file@, line, container@, name@));
    r
}

/// The line of a call site, from its painted parts.
pub fn call_site_line(file: &str, place: &str, name: &str) -> (r: String)
    ensures
        r@ == call_site_text(file@, place@, name@),
{
    proof {
        reveal_strlit(":");
        reveal_strlit(" ");
    }
    let mut r: String = file.to_owned();
    r.append(":");
    r.append(place);
    r.append(" ");
    r.append(name);
    assert(r@ =~= call_site_text(file@, place@, name@));
    r
}

/// A line and a character, in parentheses.
pub fn place_of(at: Position) -> (r: String)
    ensures
        r@ == place_text(at),
{
    proof {
        reveal_strlit("(");
        reveal_strlit(", ");
        reveal_strlit(")");
    }
    let mut r: String = "(".to_owned();
    push_decimal(&mut r, at.line as u64);
    r.append(", ");
    push_decimal(&mut r, at.character as u64);
    r.append(")");
    assert(r@ =~= place_text(at));
    r
}

fn container_of(container: &Option<String>) -> (r: String)
    ensures
        r@ == container_text(*container),
{
    match container {
        Some(c) => {
            proof {
                reveal_strlit("::");
            }
            let mut r: String = c.clone();
            r.append("::");
            assert(r@ =~= container_text(*container));
            r
        },
        None => String::new(),
    }
}

impl Function {
    /// The file of the function lies below `root`.
    pub open spec fn is_below(&self, root: Seq<char>) -> bool {
        root.is_prefix_of(self.0.uri.path_view())
    }

    /// The painted parts of a function's line: its file below `root`, what it
    /// belongs to, and its name.
    pub open spec fn is_shown_as(
        &self,
        root: Seq<char>,
        file: Seq<char>,
        container: Seq<char>,
        name: Seq<char>,
    ) -> bool {
        &&& shows_color(file, self.0.uri.path_view().skip(root.len() as int), "bright black"@)
        &&& shows_color(container, container_text(self.0.container_name), "yellow"@)
        &&& shows_bold_color(name, self.0.name@, "bright yellow"@)
    }

    /// `line` is the function on one line: its file below `root`, its line there,
    /// what it belongs to, and its name.
    pub open spec fn is_line(&self, root: Seq<char>, line: Seq<char>) -> bool {
        exists|file: Seq<char>, container: Seq<char>, name: Seq<char>| #[trigger]
            self.is_shown_as(root, file, container, name) && line == function_text(
                file,
                self.0.range.start.line,
                container,
                name,
            )
    }

    /// The function on one line: its file below `root`, its line and its name.
    pub fn pretty(&self, root: &str) -> (r: String)
        requires
            self.is_below(root@),
        ensures
            self.is_line(root@, r@),
    {
        proof {
            lemma_colors();
        }
        let relative: String = match strip_prefix(self.0.uri.path(), root) {
            Some(rest) => rest,
            None => String::new(),
        };
        let file: String = in_color(relative.as_str(), "bright black");
        let owner: String = container_of(&self.0.container_name);
        let container: String = in_color(owner.as_str(), "yellow");
        let name: String = in_bold_color(self.0.name.as_str(), "bright yellow");
        assert(self.is_shown_as(root@, file@, container@, name@));
        function_line(
            file.as_str(),
            self.0.range.start.line,
            container.as_str(),
            name.as_str(),
        )
    }
}

impl CallSite {
    /// The file of the call site lies below `root`.
    pub open spec fn is_below(&self, root: Seq<char>) -> bool {
        root.is_prefix_of(self.0.uri.path_view())
    }

    /// The painted parts of a call site's line: its file below `root`, its place
    /// there, and its name.
    pub open spec fn is_shown_as(
        &self,
        root: Seq<char>,
        file: Seq<char>,
        place: Seq<char>,
        name: Seq<char>,
    ) -> bool {
        &&& shows_color(file, self.0.uri.path_view().skip(root.len() as int), "bright black"@)
        &&& shows_color(place, place_text(self.0.range.start), "red"@)
        &&& shows_bold_color(name, self.0.name@, "bright yellow"@)
    }

    /// `line` is the call site on one line: its file below `root`, its place
    /// there, and its name.
    pub open spec fn is_line(&self, root: Seq<char>, line: Seq<char>) -> bool {
        exists|file: Seq<char>, place: Seq<char>, name: Seq<char>| #[trigger]
            self.is_shown_as(root, file, place, name) && line == call_site_text(
                file,
                place,
                name,
            )
    }

    /// The call site on one line: its file below `root`, its place and its name.
    pub fn pretty(&self, root: &str) -> (r: String)
        requires
            self.is_below(root@),
        ensures
            self.is_line(root@, r@),
    {
        proof {
            lemma_colors();
        }
        let relative: String = match strip_prefix(self.0.uri.path(), root) {
            Some(rest) => rest,
            None => String::new(),
        };
        let file: String = in_color(relative.as_str(), "bright black");
        let at: String = place_of(self.0.range.start);
        let place: String = in_color(at.as_str(), "red");
        let name: String = in_bold_color(self.0.name.as_str(), "bright yellow");
        assert(self.is_shown_as(root@, file@, place@, name@));
        call_site_line(file.as_str(), place.as_str(), name.as_str())
    }
}

impl From<&Function> for CallHierarchyItem {
    /// The function as an item of the call hierarchy.
    fn from(f: &Function) -> (r: Self)
        ensures
            r.name@ == f.0.name@,
            r.kind == f.0.kind,
            r@.tags == f@.tags,
            r.detail is None,
            r.uri == f.0.uri,
            r.range == f.0.range,
            r.selection_range == f.0.range,
            r.data is None,
    {
        let symbol = f.0.clone();
        CallHierarchyItem {
            name: symbol.name,
            kind: symbol.kind,
            tags: symbol.tags,
            detail: None,
            uri: symbol.uri,
            range: symbol.range,
            selection_range: symbol.range,
            data: None,
        }
    }
}

impl vstd::std_specs::convert::FromSpecImpl<&Function> for CallHierarchyItem {
    open spec fn obeys_from_spec() -> bool {
        false
    }

    open spec fn from_spec(f: &Function) -> Self {
        arbitrary()
    }
}

} // verus!
