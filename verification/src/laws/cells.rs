//! The cells of tables.

use vstd::prelude::*;
use crate::cells::{are_all_cells, has_style_at, is_cell, is_code, is_code_char, starts_style};
use crate::laws::paint::is_plain;
use crate::paint::style;

verus! {

/// At `i` there stands an escape character, a bracket, at most thirty-one digits and
/// semicolons, and the letter that ends the sequence, `n` characters further.
pub open spec fn is_style_sequence(text: Seq<char>, i: int, n: int) -> bool {
    &&& 0 <= n <= 31
    &&& i + 2 + n < text.len()
    &&& text[i] == '\x1b'
    &&& text[i + 1] == '['
    &&& text[i + 2 + n] == 'm'
    &&& forall|k: int|
        i + 2 <= k < i + 2 + n ==> '0' <= (#[trigger] text[k]) <= '9' || text[k] == ';'
}

/// Text without escape characters fits into a cell.
pub proof fn plain_text_fits(text: Seq<char>)
    requires
        is_plain(text),
    ensures
        is_cell(text),
{
}

/// A text fits into a cell where each escape character starts such a sequence.
pub proof fn cells_hold_only_styles(text: Seq<char>)
    ensures
        is_cell(text) <==> forall|i: int|
            0 <= i < text.len() && #[trigger] text[i] == '\x1b' ==> exists|n: int|
                is_style_sequence(text, i, n),
{
    assert forall|i: int| 0 <= i < text.len() implies (starts_style(text, i) <==> exists|n: int|
        is_style_sequence(text, i, n)) by {
        if starts_style(text, i) {
            let code = choose|code: Seq<char>| has_style_at(text, i, code);
            let n = code.len() as int;
            let s = style(code);
            let t = text.skip(i).take(s.len() as int);
            assert(s == t);
            assert(s[0] == text[i]);
            assert(t[1] == text[i + 1] && s[1] == '[');
            assert(t[2 + n] == text[i + 2 + n] && s[2 + n] == 'm');
            assert forall|k: int| i + 2 <= k < i + 2 + n implies '0' <= (#[trigger] text[k]) <= '9'
                || text[k] == ';' by {
                let j = k - i - 2;
                assert(t[j + 2] == text[k]);
                assert(s[j + 2] == code[j]);
                assert(is_code_char(code[j]));
            }
            assert(is_style_sequence(text, i, n));
        }
        if exists|n: int| is_style_sequence(text, i, n) {
            let n = choose|n: int| is_style_sequence(text, i, n);
            let code = text.subrange(i + 2, i + 2 + n);
            assert forall|k: int| 0 <= k < code.len() implies is_code_char(#[trigger] code[k]) by {
                let j = i + 2 + k;
                assert(code[k] == text[j]);
            }
            assert(is_code(code));
            assert(style(code) =~= text.skip(i).take(n + 3));
            assert(has_style_at(text, i, code));
        }
    }
    if is_cell(text) {
        assert forall|i: int| 0 <= i < text.len() && #[trigger] text[i] == '\x1b' implies exists|
            n: int,
        | is_style_sequence(text, i, n) by {
            assert(starts_style(text, i));
        }
    }
    if forall|i: int|
        0 <= i < text.len() && #[trigger] text[i] == '\x1b' ==> exists|n: int|
            is_style_sequence(text, i, n) {
        assert forall|i: int| 0 <= i < text.len() && #[trigger] text[i] == '\x1b' implies
            starts_style(text, i) by {
            assert(exists|n: int| is_style_sequence(text, i, n));
        }
    }
}

/// Texts are all cells where each of them is one.
pub proof fn cells_are_cells_each(texts: Seq<Seq<char>>)
    ensures
        are_all_cells(texts) <==> forall|i: int|
            0 <= i < texts.len() ==> is_cell(#[trigger] texts[i]),
{
}

} // verus!
