//! Painted text.

use vstd::prelude::*;
use crate::paint::{
    bold, color_code, gray_code, painted, reset, restarted, shows_bold_color, shows_color,
    shows_gray, style,
};
use crate::text::decimal;

verus! {

/// The text holds no escape character.
pub open spec fn is_plain(text: Seq<char>) -> bool {
    forall|i: int| 0 <= i < text.len() ==> #[trigger] text[i] != '\x1b'
}

/// `shown` is the text itself, or the text between the escape sequence with the
/// given code and the one that ends a style.
pub open spec fn is_wrapped(text: Seq<char>, code: Seq<char>, shown: Seq<char>) -> bool {
    shown == text || shown == seq!['\x1b', '['] + code + seq!['m'] + text + seq![
        '\x1b',
        '[',
        '0',
        'm',
    ]
}

proof fn lemma_plain_is_kept(text: Seq<char>, start: Seq<char>)
    requires
        is_plain(text),
    ensures
        restarted(text, start) == text,
    decreases text.len(),
{
    if text.len() > 0 {
        assert(text[0] != '\x1b');
        assert(!reset().is_prefix_of(text)) by {
            if reset().is_prefix_of(text) {
                assert(text.take(4)[0] == '\x1b');
            }
        }
        let rest = text.skip(1);
        assert forall|i: int| 0 <= i < rest.len() implies #[trigger] rest[i] != '\x1b' by {
            assert(text[i + 1] != '\x1b');
        }
        lemma_plain_is_kept(rest, start);
        assert(seq![text[0]] + rest =~= text);
    }
}

proof fn lemma_painted_wraps(text: Seq<char>, code: Seq<char>, shown: Seq<char>)
    requires
        is_plain(text),
        painted(text, code, shown),
    ensures
        is_wrapped(text, code, shown),
{
    lemma_plain_is_kept(text, style(code));
    assert(style(code) + text + reset() =~= seq!['\x1b', '['] + code + seq!['m'] + text + seq![
        '\x1b',
        '[',
        '0',
        'm',
    ]);
}

proof fn lemma_color_wraps(text: Seq<char>, shown: Seq<char>, name: Seq<char>, code: Seq<char>)
    requires
        is_plain(text),
        color_code(name, code),
    ensures
        shows_color(shown, text, name) ==> is_wrapped(text, code, shown),
        shows_bold_color(shown, text, name) ==> is_wrapped(text, seq!['1', ';'] + code, shown),
{
    if shows_color(shown, text, name) {
        lemma_painted_wraps(text, code, shown);
    }
    if shows_bold_color(shown, text, name) {
        lemma_painted_wraps(text, bold(code), shown);
        assert(bold(code) =~= seq!['1', ';'] + code);
    }
}

/// Painting a plain text puts it between two escape sequences, if it does anything
/// at all. Nothing of it is lost, and each color has its code.
pub proof fn painting_wraps_the_text(text: Seq<char>, shown: Seq<char>)
    requires
        is_plain(text),
    ensures
        shows_color(shown, text, "red"@) ==> is_wrapped(text, seq!['3', '1'], shown),
        shows_color(shown, text, "yellow"@) ==> is_wrapped(text, seq!['3', '3'], shown),
        shows_color(shown, text, "blue"@) ==> is_wrapped(text, seq!['3', '4'], shown),
        shows_color(shown, text, "purple"@) ==> is_wrapped(text, seq!['3', '5'], shown),
        shows_color(shown, text, "white"@) ==> is_wrapped(text, seq!['3', '7'], shown),
        shows_color(shown, text, "bright black"@) ==> is_wrapped(text, seq!['9', '0'], shown),
        shows_color(shown, text, "bright white"@) ==> is_wrapped(text, seq!['9', '7'], shown),
        shows_bold_color(shown, text, "yellow"@) ==> is_wrapped(
            text,
            seq!['1', ';', '3', '3'],
            shown,
        ),
        shows_bold_color(shown, text, "white"@) ==> is_wrapped(
            text,
            seq!['1', ';', '3', '7'],
            shown,
        ),
        shows_bold_color(shown, text, "bright yellow"@) ==> is_wrapped(
            text,
            seq!['1', ';', '9', '3'],
            shown,
        ),
        shows_bold_color(shown, text, "bright blue"@) ==> is_wrapped(
            text,
            seq!['1', ';', '9', '4'],
            shown,
        ),
        shows_bold_color(shown, text, "bright magenta"@) ==> is_wrapped(
            text,
            seq!['1', ';', '9', '5'],
            shown,
        ),
{
    reveal_strlit("31");
    reveal_strlit("33");
    reveal_strlit("34");
    reveal_strlit("35");
    reveal_strlit("37");
    reveal_strlit("90");
    reveal_strlit("93");
    reveal_strlit("94");
    reveal_strlit("95");
    reveal_strlit("97");
    assert("31"@ =~= seq!['3', '1']);
    assert("33"@ =~= seq!['3', '3']);
    assert("34"@ =~= seq!['3', '4']);
    assert("35"@ =~= seq!['3', '5']);
    assert("37"@ =~= seq!['3', '7']);
    assert("90"@ =~= seq!['9', '0']);
    assert("93"@ =~= seq!['9', '3']);
    assert("94"@ =~= seq!['9', '4']);
    assert("95"@ =~= seq!['9', '5']);
    assert("97"@ =~= seq!['9', '7']);
    assert(seq!['1', ';'] + seq!['3', '3'] =~= seq!['1', ';', '3', '3']);
    assert(seq!['1', ';'] + seq!['3', '7'] =~= seq!['1', ';', '3', '7']);
    assert(seq!['1', ';'] + seq!['9', '3'] =~= seq!['1', ';', '9', '3']);
    assert(seq!['1', ';'] + seq!['9', '4'] =~= seq!['1', ';', '9', '4']);
    assert(seq!['1', ';'] + seq!['9', '5'] =~= seq!['1', ';', '9', '5']);
    lemma_color_wraps(text, shown, "red"@, "31"@);
    lemma_color_wraps(text, shown, "yellow"@, "33"@);
    lemma_color_wraps(text, shown, "blue"@, "34"@);
    lemma_color_wraps(text, shown, "purple"@, "35"@);
    lemma_color_wraps(text, shown, "white"@, "37"@);
    lemma_color_wraps(text, shown, "bright black"@, "90"@);
    lemma_color_wraps(text, shown, "bright white"@, "97"@);
    lemma_color_wraps(text, shown, "bright yellow"@, "93"@);
    lemma_color_wraps(text, shown, "bright blue"@, "94"@);
    lemma_color_wraps(text, shown, "bright magenta"@, "95"@);
}

/// A plain text in a gray stands between two escape sequences, if it is shown in a
/// gray at all: the first one asks for that gray, or for the closest of black, the
/// two plain grays and white.
pub proof fn grays_wrap_the_text(text: Seq<char>, shown: Seq<char>, step: u8)
    requires
        is_plain(text),
        shows_gray(shown, text, step),
    ensures
        ({
            let d = decimal(step as nat);
            ||| is_wrapped(
                text,
                seq!['3', '8', ';', '2', ';'] + d + seq![';'] + d + seq![';'] + d,
                shown,
            )
            ||| step < 64 && is_wrapped(text, seq!['3', '0'], shown)
            ||| 64 <= step < 178 && is_wrapped(text, seq!['9', '0'], shown)
            ||| 178 <= step < 243 && is_wrapped(text, seq!['3', '7'], shown)
            ||| 243 <= step && is_wrapped(text, seq!['9', '7'], shown)
        }),
{
    let code = choose|code: Seq<char>| #[trigger]
        gray_code(step, code) && painted(text, code, shown);
    lemma_painted_wraps(text, code, shown);
    let d = decimal(step as nat);
    let part = seq![';'] + d;
    assert(seq!['3', '8', ';', '2'] + part + part + part =~= seq!['3', '8', ';', '2', ';'] + d
        + seq![';'] + d + seq![';'] + d);
}

/// Where a text ends a style of its own, the style that it is painted in starts
/// again; the rest is kept as it is.
pub proof fn styles_start_again(before: Seq<char>, after: Seq<char>, start: Seq<char>)
    requires
        is_plain(before),
    ensures
        restarted(before + seq!['\x1b', '[', '0', 'm'] + after, start) == before + seq![
            '\x1b',
            '[',
            '0',
            'm',
        ] + start + restarted(after, start),
        restarted(before, start) == before,
    decreases before.len(),
{
    let r = seq!['\x1b', '[', '0', 'm'];
    let text = before + r + after;
    lemma_plain_is_kept(before, start);
    if before.len() == 0 {
        assert(text =~= r + after);
        assert(reset() =~= r);
        assert(text.take(4) =~= r);
        assert(text.skip(4) =~= after);
        assert(before + r + start + restarted(after, start) =~= r + start + restarted(
            after,
            start,
        ));
    } else {
        assert(before[0] != '\x1b');
        assert(text[0] == before[0]);
        assert(!reset().is_prefix_of(text)) by {
            if reset().is_prefix_of(text) {
                assert(text.take(4)[0] == '\x1b');
            }
        }
        let rest = before.skip(1);
        assert forall|i: int| 0 <= i < rest.len() implies #[trigger] rest[i] != '\x1b' by {
            assert(before[i + 1] != '\x1b');
        }
        styles_start_again(rest, after, start);
        assert(text.skip(1) =~= rest + r + after);
        assert(seq![before[0]] + (rest + r + start + restarted(after, start)) =~= before + r
            + start + restarted(after, start));
    }
}

} // verus!
