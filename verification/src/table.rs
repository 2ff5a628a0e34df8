//! Tables, laid out by the `tabled` crate.

use tabled::builder::Builder;
use tabled::settings::{Panel, Style};
use tabled::Table;
use vstd::prelude::*;
use crate::cells::{are_all_cells, is_cell};
use crate::text::texts;

verus! {

/// The text of a table with three columns and a line below its first row, without
/// a frame.
pub uninterp spec fn columns_text(
    left: Seq<Seq<char>>,
    center: Seq<Seq<char>>,
    right: Seq<Seq<char>>,
) -> Seq<char>;

/// The text of a table without lines: a header over two columns.
pub uninterp spec fn headed_text(
    header: Seq<char>,
    left: Seq<Seq<char>>,
    right: Seq<Seq<char>>,
) -> Seq<char>;

/// `Builder::push_column` for each column, `Builder::build`, `Table::with` the
/// sharp style without frame and custom verticals, and the `Display` of the
/// table: a text that depends on the cells alone. Cells are measured without their
/// styles; other escape sequences can make that fail, so cells hold none.
#[verifier::external_body]
pub(crate) fn columns_table(left: Vec<String>, center: Vec<String>, right: Vec<String>) -> (r:
    String)
    requires
        are_all_cells(texts(left@)),
        are_all_cells(texts(center@)),
        are_all_cells(texts(right@)),
    ensures
        r@ == columns_text(texts(left@), texts(center@), texts(right@)),
{
    let mut builder = Builder::new();
    builder.push_column(left);
    builder.push_column(center);
    builder.push_column(right);
    let mut table = builder.build();
    table.with(Style::sharp().remove_verticals().remove_frame());
    table.to_string()
}

/// `Table::nohead` on the rows, `Table::with` the blank style and a header
/// panel, and the `Display` of the table: a text that depends on the cells
/// alone. Cells are measured without their styles; other escape sequences can
/// make that fail, so cells hold none.
#[verifier::external_body]
pub(crate) fn headed_table(header: String, left: Vec<String>, right: Vec<String>) -> (r: String)
    requires
        0 < left@.len() == right@.len(),
        is_cell(header@),
        are_all_cells(texts(left@)),
        are_all_cells(texts(right@)),
    ensures
        r@ == headed_text(header@, texts(left@), texts(right@)),
{
    let mut table = Table::nohead(left.into_iter().zip(right));
    table.with(Style::blank());
    table.with(Panel::header(header));
    table.to_string()
}

} // verus!
