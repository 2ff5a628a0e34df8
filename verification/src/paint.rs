//! Colored terminal text, by the `colored` crate.
//!
//! Whether text is colored at all depends on the terminal and on the variables of
//! the process, so the contracts name both outcomes.

use colored::{Color, Colorize};
use vstd::prelude::*;
use crate::text::decimal;

verus! {

/// The escape sequence that ends a style.
pub open spec fn reset() -> Seq<char> {
    seq!['\x1b', '[', '0', 'm']
}

/// The escape sequence that starts the style with the given code.
pub open spec fn style(code: Seq<char>) -> Seq<char> {
    seq!['\x1b', '['] + code + seq!['m']
}

/// `text`, with `start` put in behind each escape sequence that ends a style.
pub open spec fn restarted(text: Seq<char>, start: Seq<char>) -> Seq<char>
    decreases text.len(),
{
    if text.len() == 0 {
        text
    } else if reset().is_prefix_of(text) {
        reset() + start + restarted(text.skip(4), start)
    } else {
        seq![text[0]] + restarted(text.skip(1), start)
    }
}

/// `shown` is `text`, either plain or in the style with the given code.
pub open spec fn painted(text: Seq<char>, code: Seq<char>, shown: Seq<char>) -> bool {
    shown == text || shown == style(code) + restarted(text, style(code)) + reset()
}

/// The code of the color with the given name.
pub open spec fn color_code(name: Seq<char>, code: Seq<char>) -> bool {
    ||| name == "red"@ && code == "31"@
    ||| name == "yellow"@ && code == "33"@
    ||| name == "blue"@ && code == "34"@
    ||| name == "purple"@ && code == "35"@
    ||| name == "white"@ && code == "37"@
    ||| name == "bright black"@ && code == "90"@
    ||| name == "bright yellow"@ && code == "93"@
    ||| name == "bright blue"@ && code == "94"@
    ||| name == "bright magenta"@ && code == "95"@
    ||| name == "bright white"@ && code == "97"@
}

/// The code of bold text in the color with the given code.
pub open spec fn bold(code: Seq<char>) -> Seq<char> {
    seq!['1', ';'] + code
}

/// The code of a gray: its own where the terminal has one, otherwise that of the
/// closest of the plain colors.
pub open spec fn gray_code(step: u8, code: Seq<char>) -> bool {
    let part = seq![';'] + decimal(step as nat);
    ||| code == seq!['3', '8', ';', '2'] + part + part + part
    ||| step < 64 && code == seq!['3', '0']
    ||| 64 <= step < 178 && code == seq!['9', '0']
    ||| 178 <= step < 243 && code == seq!['3', '7']
    ||| 243 <= step && code == seq!['9', '7']
}

/// The colors that text can be shown in.
pub open spec fn is_color(name: Seq<char>) -> bool {
    exists|code: Seq<char>| color_code(name, code)
}

/// The names that this library uses are those of colors.
pub proof fn lemma_colors()
    ensures
        is_color("red"@),
        is_color("yellow"@),
        is_color("blue"@),
        is_color("purple"@),
        is_color("white"@),
        is_color("bright black"@),
        is_color("bright yellow"@),
        is_color("bright blue"@),
        is_color("bright magenta"@),
        is_color("bright white"@),
{
    assert(color_code("red"@, "31"@));
    assert(color_code("yellow"@, "33"@));
    assert(color_code("blue"@, "34"@));
    assert(color_code("purple"@, "35"@));
    assert(color_code("white"@, "37"@));
    assert(color_code("bright black"@, "90"@));
    assert(color_code("bright yellow"@, "93"@));
    assert(color_code("bright blue"@, "94"@));
    assert(color_code("bright magenta"@, "95"@));
    assert(color_code("bright white"@, "97"@));
}

/// `shown` is `text`, either plain or in the named color.
pub open spec fn shows_color(shown: Seq<char>, text: Seq<char>, name: Seq<char>) -> bool {
    forall|code: Seq<char>| #[trigger] color_code(name, code) ==> painted(text, code, shown)
}

/// `shown` is `text`, either plain or in bold in the named color.
pub open spec fn shows_bold_color(shown: Seq<char>, text: Seq<char>, name: Seq<char>) -> bool {
    forall|code: Seq<char>| #[trigger]
        color_code(name, code) ==> painted(text, bold(code), shown)
}

/// `shown` is `text`, either plain or in a gray.
pub open spec fn shows_gray(shown: Seq<char>, text: Seq<char>, step: u8) -> bool {
    exists|code: Seq<char>| #[trigger] gray_code(step, code) && painted(text, code, shown)
}

/// `Colorize::color` and the `Display` of what it returns: `text` in the named
/// color, or plain where the process does not color its output.
#[verifier::external_body]
pub(crate) fn in_color(text: &str, color: &str) -> (r: String)
    requires
        is_color(color@),
    ensures
        shows_color(r@, text@, color@),
{
    text.color(color).to_string()
}

/// `Colorize::color`, `Colorize::bold` and the `Display` of what they return:
/// `text` in bold in the named color, or plain where the process does not color
/// its output.
#[verifier::external_body]
pub(crate) fn in_bold_color(text: &str, color: &str) -> (r: String)
    requires
        is_color(color@),
    ensures
        shows_bold_color(r@, text@, color@),
{
    text.color(color).bold().to_string()
}

/// `Colorize::color` with `Color::TrueColor` and the `Display` of what it
/// returns: `text` in a gray, or in the plain color closest to it where the
/// terminal has no such gray, or plain where the process does not color its
/// output.
#[verifier::external_body]
pub(crate) fn in_gray(text: &str, step: u8) -> (r: String)
    ensures
        shows_gray(r@, text@, step),
{
    text.color(Color::TrueColor { r: step, g: step, b: step }).to_string()
}

} // verus!
