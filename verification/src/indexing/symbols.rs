//! Functions and call sites, as a language server describes them.

use vstd::prelude::*;
use crate::indexing::json::{copy_json, json_view, same_json, JsonToken, TokenView};
use crate::indexing::uri::Uri;

verus! {

/// A place in a document. Lines and characters count from zero.
#[derive(Debug, Clone, Copy, PartialEq, Eq, Structural)]
pub struct Position {
    pub line: u32,
    pub character: u32,
}

/// A part of a document.
#[derive(Debug, Clone, Copy, PartialEq, Eq, Structural)]
pub struct Range {
    pub start: Position,
    pub end: Position,
}

/// The kind that the protocol gives to functions.
pub const FUNCTION_KIND: i32 = 12;

/// A symbol of the workspace.
pub struct SymbolInformation {
    pub name: String,
    pub kind: i32,
    pub tags: Option<Vec<i32>>,
    pub deprecated: Option<bool>,
    pub uri: Uri,
    pub range: Range,
    pub container_name: Option<String>,
}

/// An item of the call hierarchy.
pub struct CallHierarchyItem {
    pub name: String,
    pub kind: i32,
    pub tags: Option<Vec<i32>>,
    pub detail: Option<String>,
    pub uri: Uri,
    pub range: Range,
    pub selection_range: Range,
    /// The data that the server attached.
    pub data: Option<Vec<JsonToken>>,
}

/// What distinguishes one symbol from another.
pub struct SymbolView {
    pub name: Seq<char>,
    pub kind: i32,
    pub tags: Option<Seq<i32>>,
    pub deprecated: Option<bool>,
    pub uri: Seq<char>,
    pub range: Range,
    pub container_name: Option<Seq<char>>,
}

/// What distinguishes one item of the call hierarchy from another.
pub struct ItemView {
    pub name: Seq<char>,
    pub kind: i32,
    pub tags: Option<Seq<i32>>,
    pub detail: Option<Seq<char>>,
    pub uri: Seq<char>,
    pub range: Range,
    pub selection_range: Range,
    pub data: Option<Seq<TokenView>>,
}

/// A function of the project.
pub struct Function(pub SymbolInformation);

/// A place where a function calls another, or the function found there.
pub struct CallSite(pub CallHierarchyItem);

/// The characters of a text, if there is one.
pub open spec fn text_view(s: Option<String>) -> Option<Seq<char>> {
    match s {
        Some(t) => Some(t@),
        None => None,
    }
}

/// The numbers of the tags, if there are any.
pub open spec fn tags_view(s: Option<Vec<i32>>) -> Option<Seq<i32>> {
    match s {
        Some(t) => Some(t@),
        None => None,
    }
}

impl View for SymbolInformation {
    type V = SymbolView;

    open spec fn view(&self) -> SymbolView {
        SymbolView {
            name: self.name@,
            kind: self.kind,
            tags: tags_view(self.tags),
            deprecated: self.deprecated,
            uri: self.uri@,
            range: self.range,
            container_name: text_view(self.container_name),
        }
    }
}

impl View for CallHierarchyItem {
    type V = ItemView;

    open spec fn view(&self) -> ItemView {
        ItemView {
            name: self.name@,
            kind: self.kind,
            tags: tags_view(self.tags),
            detail: text_view(self.detail),
            uri: self.uri@,
            range: self.range,
            selection_range: self.selection_range,
            data: json_view(self.data),
        }
    }
}

impl View for Function {
    type V = SymbolView;

    open spec fn view(&self) -> SymbolView {
        self.0@
    }
}

impl View for CallSite {
    type V = ItemView;

    open spec fn view(&self) -> ItemView {
        self.0@
    }
}

fn same_text(a: &Option<String>, b: &Option<String>) -> (r: bool)
    ensures
        r == (text_view(*a) == text_view(*b)),
{
    match (a, b) {
        (Some(x), Some(y)) => *x == *y,
        (None, None) => true,
        _ => false,
    }
}

fn same_numbers(x: &Vec<i32>, y: &Vec<i32>) -> (r: bool)
    ensures
        r == (x@ == y@),
{
    if x.len() != y.len() {
        return false;
    }
    let mut i: usize = 0;
    while i < x.len()
        invariant
            i <= x@.len() == y@.len(),
            forall|j: int| 0 <= j < i ==> x@[j] == y@[j],
        decreases x@.len() - i,
    {
        if x[i] != y[i] {
            return false;
        }
        i = i + 1;
    }
    assert(x@ =~= y@);
    true
}

fn same_tags(a: &Option<Vec<i32>>, b: &Option<Vec<i32>>) -> (r: bool)
    ensures
        r == (tags_view(*a) == tags_view(*b)),
{
    match (a, b) {
        (Some(x), Some(y)) => same_numbers(x, y),
        (None, None) => true,
        _ => false,
    }
}

fn copy_text(s: &Option<String>) -> (r: Option<String>)
    ensures
        r == *s,
{
    match s {
        Some(t) => Some(t.clone()),
        None => None,
    }
}

fn copy_tags(s: &Option<Vec<i32>>) -> (r: Option<Vec<i32>>)
    ensures
        tags_view(r) == tags_view(*s),
{
    match s {
        Some(t) => {
            let c: Vec<i32> = t.clone();
            assert(c@ =~= t@);
            Some(c)
        },
        None => None,
    }
}

impl Clone for SymbolInformation {
    fn clone(&self) -> (r: Self)
        ensures
            r@ == self@,
            r.uri == self.uri,
    {
        SymbolInformation {
            name: self.name.clone(),
            kind: self.kind,
            tags: copy_tags(&self.tags),
            deprecated: self.deprecated,
            uri: self.uri.clone(),
            range: self.range,
            container_name: copy_text(&self.container_name),
        }
    }
}

impl Clone for CallHierarchyItem {
    fn clone(&self) -> (r: Self)
        ensures
            r@ == self@,
            r.uri == self.uri,
    {
        CallHierarchyItem {
            name: self.name.clone(),
            kind: self.kind,
            tags: copy_tags(&self.tags),
            detail: copy_text(&self.detail),
            uri: self.uri.clone(),
            range: self.range,
            selection_range: self.selection_range,
            data: copy_json(&self.data),
        }
    }
}

impl Clone for Function {
    fn clone(&self) -> (r: Self)
        ensures
            r@ == self@,
            r.0.uri == self.0.uri,
    {
        Function(self.0.clone())
    }
}

impl Clone for CallSite {
    fn clone(&self) -> (r: Self)
        ensures
            r@ == self@,
            r.0.uri == self.0.uri,
    {
        CallSite(self.0.clone())
    }
}

impl Function {
    /// Whether two functions are the same.
    pub fn same(&self, other: &Self) -> (r: bool)
        ensures
            r == (self@ == other@),
    {
        let a: &SymbolInformation = &self.0;
        let b: &SymbolInformation = &other.0;
        a.name == b.name && a.kind == b.kind && same_tags(&a.tags, &b.tags) && a.deprecated
            == b.deprecated && same_str(a.uri.as_str(), b.uri.as_str()) && a.range == b.range
            && same_text(&a.container_name, &b.container_name)
    }
}

impl PartialEq for Function {
    fn eq(&self, other: &Self) -> (r: bool) {
        self.same(other)
    }
}

impl Eq for Function {

}

impl vstd::std_specs::cmp::PartialEqSpecImpl for Function {
    open spec fn obeys_eq_spec() -> bool {
        true
    }

    open spec fn eq_spec(&self, other: &Self) -> bool {
        self@ == other@
    }
}

impl CallSite {
    /// Whether two call sites are the same.
    pub fn same(&self, other: &Self) -> (r: bool)
        ensures
            r == (self@ == other@),
    {
        let a: &CallHierarchyItem = &self.0;
        let b: &CallHierarchyItem = &other.0;
        a.name == b.name && a.kind == b.kind && same_tags(&a.tags, &b.tags) && same_text(
            &a.detail,
            &b.detail,
        ) && same_str(a.uri.as_str(), b.uri.as_str()) && a.range == b.range && a.selection_range
            == b.selection_range && same_json(&a.data, &b.data)
    }
}

impl PartialEq for CallSite {
    fn eq(&self, other: &Self) -> (r: bool) {
        self.same(other)
    }
}

impl Eq for CallSite {

}

impl vstd::std_specs::cmp::PartialEqSpecImpl for CallSite {
    open spec fn obeys_eq_spec() -> bool {
        true
    }

    open spec fn eq_spec(&self, other: &Self) -> bool {
        self@ == other@
    }
}

/// Whether two texts are the same.
pub fn same_str(a: &str, b: &str) -> (r: bool)
    ensures
        r == (a@ == b@),
{
    a.to_owned() == b.to_owned()
}

} // verus!
