//! Text that can stand in the cell of a table.

use vstd::prelude::*;
use crate::paint::{
    bold, color_code, gray_code, is_color, painted, reset, restarted, shows_bold_color,
    shows_color, shows_gray, style,
};
use crate::text::{chars_of, decimal};

verus! {

/// A character of the code of a style.
pub open spec fn is_code_char(c: char) -> bool {
    '0' <= c <= '9' || c == ';'
}

/// The code of a style: numbers with semicolons between them, and not too many.
pub open spec fn is_code(code: Seq<char>) -> bool {
    &&& code.len() <= 31
    &&& forall|i: int| 0 <= i < code.len() ==> is_code_char(#[trigger] code[i])
}

/// The escape sequence at `i` is that of the style with the given code.
pub open spec fn has_style_at(text: Seq<char>, i: int, code: Seq<char>) -> bool {
    is_code(code) && style(code).is_prefix_of(text.skip(i))
}

/// The character at `i` starts the escape sequence of a style.
pub open spec fn starts_style(text: Seq<char>, i: int) -> bool {
    exists|code: Seq<char>| has_style_at(text, i, code)
}

/// Escape characters in the text start styles, and nothing else.
pub open spec fn is_cell(text: Seq<char>) -> bool {
    forall|i: int| 0 <= i < text.len() && #[trigger] text[i] == '\x1b' ==> starts_style(text, i)
}

/// Each text can stand in a cell.
pub open spec fn are_all_cells(texts: Seq<Seq<char>>) -> bool {
    forall|i: int| 0 <= i < texts.len() ==> is_cell(#[trigger] texts[i])
}

proof fn lemma_style_is_cell(code: Seq<char>)
    requires
        is_code(code),
    ensures
        is_cell(style(code)),
{
    let s = style(code);
    assert forall|i: int| 0 <= i < s.len() && #[trigger] s[i] == '\x1b' implies starts_style(
        s,
        i,
    ) by {
        if i >= 2 && i < 2 + code.len() {
            assert(s[i] == code[i - 2]);
            assert(is_code_char(code[i - 2]));
        }
        assert(i == 0);
        assert(s.skip(0) =~= s);
        assert(s =~= s.take(s.len() as int));
        assert(has_style_at(s, 0, code));
    }
}

proof fn lemma_reset_is_cell()
    ensures
        is_cell(reset()),
        style(seq!['0']) == reset(),
{
    let code = seq!['0'];
    assert(is_code(code));
    lemma_style_is_cell(code);
    assert(style(code) =~= reset());
}

/// Cells side by side make up a cell.
pub proof fn lemma_cells_join(a: Seq<char>, b: Seq<char>)
    requires
        is_cell(a),
        is_cell(b),
    ensures
        is_cell(a + b),
{
    let s = a + b;
    assert forall|i: int| 0 <= i < s.len() && #[trigger] s[i] == '\x1b' implies starts_style(
        s,
        i,
    ) by {
        if i < a.len() {
            assert(a[i] == '\x1b');
            let code = choose|code: Seq<char>| has_style_at(a, i, code);
            let n = style(code).len() as int;
            assert(s.skip(i).take(n) =~= a.skip(i).take(n));
            assert(has_style_at(s, i, code));
        } else {
            let j = i - a.len();
            assert(b[j] == '\x1b');
            let code = choose|code: Seq<char>| has_style_at(b, j, code);
            assert(s.skip(i) =~= b.skip(j));
            assert(has_style_at(s, i, code));
        }
    }
}

proof fn lemma_end_is_cell(a: Seq<char>, k: int)
    requires
        is_cell(a),
        0 <= k <= a.len(),
    ensures
        is_cell(a.skip(k)),
{
    let s = a.skip(k);
    assert forall|i: int| 0 <= i < s.len() && #[trigger] s[i] == '\x1b' implies starts_style(
        s,
        i,
    ) by {
        let j = k + i;
        assert(a[j] == '\x1b');
        let code = choose|code: Seq<char>| has_style_at(a, j, code);
        assert(s.skip(i) =~= a.skip(j));
        assert(has_style_at(s, i, code));
    }
}

proof fn lemma_restarted_keeps(text: Seq<char>, start: Seq<char>, k: int)
    requires
        0 <= k <= text.len(),
        forall|i: int| 0 <= i < k ==> text[i] != '\x1b',
    ensures
        restarted(text, start).len() >= k,
        restarted(text, start).take(k) == text.take(k),
    decreases k,
{
    let r = restarted(text, start);
    if k > 0 {
        assert(!reset().is_prefix_of(text)) by {
            assert(text[0] != '\x1b');
            if reset().is_prefix_of(text) {
                assert(text.take(4)[0] == '\x1b');
            }
        }
        let rest = text.skip(1);
        lemma_restarted_keeps(rest, start, k - 1);
        let q = restarted(rest, start);
        assert(r == seq![text[0]] + q);
        assert forall|i: int| 0 <= i < k implies r[i] == text[i] by {
            if i > 0 {
                assert(q.take(k - 1)[i - 1] == rest.take(k - 1)[i - 1]);
            }
        }
        assert(r.take(k) =~= text.take(k));
    } else {
        assert(r.take(0) =~= text.take(0));
    }
}

proof fn lemma_restarted_is_cell(text: Seq<char>, start: Seq<char>)
    requires
        is_cell(text),
        is_cell(start),
    ensures
        is_cell(restarted(text, start)),
    decreases text.len(),
{
    if text.len() > 0 {
        if reset().is_prefix_of(text) {
            lemma_reset_is_cell();
            lemma_end_is_cell(text, 4);
            lemma_restarted_is_cell(text.skip(4), start);
            lemma_cells_join(reset(), start);
            lemma_cells_join(reset() + start, restarted(text.skip(4), start));
        } else {
            lemma_end_is_cell(text, 1);
            lemma_restarted_is_cell(text.skip(1), start);
            lemma_restarted_first(text, start);
        }
    }
}

proof fn lemma_restarted_first(text: Seq<char>, start: Seq<char>)
    requires
        text.len() > 0,
        is_cell(text),
        !reset().is_prefix_of(text),
        is_cell(restarted(text.skip(1), start)),
    ensures
        is_cell(restarted(text, start)),
{
    let q = restarted(text.skip(1), start);
    let r = seq![text[0]] + q;
    assert forall|i: int| 0 <= i < r.len() && #[trigger] r[i] == '\x1b' implies starts_style(
        r,
        i,
    ) by {
        if i > 0 {
            let j = i - 1;
            assert(q[j] == '\x1b');
            let code = choose|code: Seq<char>| has_style_at(q, j, code);
            assert(r.skip(i) =~= q.skip(j));
            assert(has_style_at(r, i, code));
        } else {
            assert(text[0] == '\x1b');
            let code = choose|code: Seq<char>| has_style_at(text, 0, code);
            let s = style(code);
            let n = s.len() as int;
            assert(text.skip(0) =~= text);
            assert forall|j: int| 0 <= j < n - 1 implies text.skip(1)[j] != '\x1b' by {
                assert(text.take(n)[j + 1] == s[j + 1]);
                if 1 <= j < 1 + code.len() {
                    assert(s[j + 1] == code[j - 1]);
                    assert(is_code_char(code[j - 1]));
                }
            }
            lemma_restarted_keeps(text.skip(1), start, n - 1);
            assert forall|j: int| 0 <= j < n implies r[j] == s[j] by {
                assert(text.take(n)[j] == s[j]);
                if j > 0 {
                    assert(q.take(n - 1)[j - 1] == text.skip(1).take(n - 1)[j - 1]);
                }
            }
            assert(r.skip(0).take(n) =~= s);
            assert(has_style_at(r, 0, code));
        }
    }
}

proof fn lemma_painted_is_cell(text: Seq<char>, code: Seq<char>, shown: Seq<char>)
    requires
        is_cell(text),
        is_code(code),
        painted(text, code, shown),
    ensures
        is_cell(shown),
{
    lemma_style_is_cell(code);
    lemma_reset_is_cell();
    let s = style(code);
    lemma_restarted_is_cell(text, s);
    lemma_cells_join(s, restarted(text, s));
    lemma_cells_join(s + restarted(text, s), reset());
}

proof fn lemma_color_is_code(name: Seq<char>, code: Seq<char>)
    requires
        color_code(name, code),
    ensures
        is_code(code),
        is_code(bold(code)),
{
    reveal_strlit("31");
    reveal_strlit("33");
    reveal_strlit("34");
    reveal_strlit("35");
    reveal_strlit("37");
    reveal_strlit("90");
    reveal_strlit("93");
    reveal_strlit("94");
    reveal_strlit("95");
    reveal_strlit("97");
    assert(code.len() == 2 && is_code_char(code[0]) && is_code_char(code[1]));
    assert(bold(code).len() == 4);
}

proof fn lemma_gray_is_code(step: u8, code: Seq<char>)
    requires
        gray_code(step, code),
    ensures
        is_code(code),
{
    let d = decimal(step as nat);
    assert(1 <= d.len() <= 3 && forall|i: int| 0 <= i < d.len() ==> is_code_char(#[trigger] d[i]))
        by {
        reveal_with_fuel(decimal, 3);
    }
    let part = seq![';'] + d;
    assert forall|i: int| 0 <= i < part.len() implies is_code_char(#[trigger] part[i]) by {
        if i > 0 {
            assert(part[i] == d[i - 1]);
        }
    }
    let head = seq!['3', '8', ';', '2'];
    let n = part.len() as int;
    if code == head + part + part + part {
        assert forall|i: int| 0 <= i < code.len() implies is_code_char(#[trigger] code[i]) by {
            if i >= 4 + 2 * n {
                assert(code[i] == part[i - 4 - 2 * n]);
            } else if i >= 4 + n {
                assert(code[i] == part[i - 4 - n]);
            } else if i >= 4 {
                assert(code[i] == part[i - 4]);
            }
        }
    }
}

/// A text that can stand in a cell still can once it has been painted.
pub proof fn painted_cells_are_cells(text: Seq<char>, shown: Seq<char>, name: Seq<char>, step: u8)
    requires
        is_cell(text),
    ensures
        is_color(name) && shows_color(shown, text, name) ==> is_cell(shown),
        is_color(name) && shows_bold_color(shown, text, name) ==> is_cell(shown),
        shows_gray(shown, text, step) ==> is_cell(shown),
{
    if is_color(name) {
        let code = choose|code: Seq<char>| color_code(name, code);
        lemma_color_is_code(name, code);
        if shows_color(shown, text, name) {
            lemma_painted_is_cell(text, code, shown);
        }
        if shows_bold_color(shown, text, name) {
            lemma_painted_is_cell(text, bold(code), shown);
        }
    }
    if shows_gray(shown, text, step) {
        let code = choose|code: Seq<char>| #[trigger]
            gray_code(step, code) && painted(text, code, shown);
        lemma_gray_is_code(step, code);
        lemma_painted_is_cell(text, code, shown);
    }
}

/// Whether the character at `i`, an escape character, starts a style.
fn style_starts(chars: &Vec<char>, i: usize) -> (r: bool)
    requires
        i < chars@.len(),
        chars@[i as int] == '\x1b',
    ensures
        r == starts_style(chars@, i as int),
{
    let n: usize = chars.len();
    let ghost text = chars@;
    let ghost at = i as int;
    let mut j: usize = i + 1;
    if j < n && chars[j] == '[' {
        j = j + 1;
        while j < n && j - i <= 32 && (('0' <= chars[j] && chars[j] <= '9') || chars[j] == ';')
            invariant
                n == text.len(),
                text == chars@,
                i + 2 <= j <= n,
                j - i <= 33,
                forall|k: int| i + 2 <= k < j ==> is_code_char(#[trigger] text[k]),
            decreases n - j,
        {
            j = j + 1;
        }
        if j < n && chars[j] == 'm' {
            proof {
                let code = text.subrange(i + 2, j as int);
                assert forall|k: int| 0 <= k < code.len() implies is_code_char(
                    #[trigger] code[k],
                ) by {
                    assert(code[k] == text[i + 2 + k]);
                }
                assert(style(code) =~= text.skip(at).take(style(code).len() as int));
                assert(has_style_at(text, at, code));
            }
            return true;
        }
    }
    proof {
        if starts_style(text, at) {
            let code = choose|code: Seq<char>| has_style_at(text, at, code);
            let s = style(code);
            let m = s.len() as int;
            assert forall|k: int| 0 <= k < m implies text[at + k] == s[k] by {
                assert(text.skip(at).take(m)[k] == s[k]);
            }
            assert(text[at + 1] == s[1]);
            assert forall|x: int| at + 2 <= x < at + m - 1 implies is_code_char(
                #[trigger] text[x],
            ) by {
                assert(s[x - at] == code[x - at - 2]);
                assert(text[at + (x - at)] == s[x - at]);
            }
            assert(text[at + m - 1] == s[m - 1]);
            assert(s[m - 1] == 'm');
            if j - i < m - 1 {
                assert(text[j as int] == s[j - i]);
            } else if j - i > m - 1 {
                assert(is_code_char(text[at + m - 1]));
            }
        }
    }
    false
}

/// Whether a text can stand in a cell.
pub fn fits_cell(text: &str) -> (r: bool)
    ensures
        r == is_cell(text@),
{
    let chars: Vec<char> = chars_of(text);
    let mut i: usize = 0;
    while i < chars.len()
        invariant
            i <= chars@.len(),
            chars@ == text@,
            forall|k: int|
                0 <= k < i && #[trigger] chars@[k] == '\x1b' ==> starts_style(chars@, k),
        decreases chars@.len() - i,
    {
        if chars[i] == '\x1b' && !style_starts(&chars, i) {
            return false;
        }
        i = i + 1;
    }
    true
}

} // verus!
