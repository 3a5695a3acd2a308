//! Terminal styling: ANSI sequences around a text, or the bare text when
//! color is off.
//!
//! Whether color is on (`NO_COLOR` unset and standard output a terminal) is
//! read from the environment by the caller and handed in as `color`.

use vstd::prelude::*;

use crate::text::string_of;

verus! {

/// The styles this tool paints with.
#[derive(Debug, Copy, Clone, PartialEq, Eq, Structural)]
pub enum TextStyle {
    Bold,
    Dim,
    Green,
    Yellow,
    Red,
    Cyan,
}

/// The ANSI sequence that `anstyle` renders for a style.
pub open spec fn ansi_open(style: TextStyle) -> Seq<char> {
    match style {
        TextStyle::Bold => "\x1b[1m"@,
        TextStyle::Dim => "\x1b[2m"@,
        TextStyle::Green => "\x1b[32m"@,
        TextStyle::Yellow => "\x1b[33m"@,
        TextStyle::Red => "\x1b[31m"@,
        TextStyle::Cyan => "\x1b[36m"@,
    }
}

/// The ANSI reset sequence.
pub open spec fn ansi_reset() -> Seq<char> {
    "\x1b[0m"@
}

/// `text` as it is shown in a style.
pub open spec fn spec_paint(style: TextStyle, text: Seq<char>, color: bool) -> Seq<char> {
    if color {
        ansi_open(style) + text + ansi_reset()
    } else {
        text
    }
}

/// Trusted: formats `text` between an `anstyle::Style` and its alternate
/// form. In anstyle 1.0 a style's `Display` writes the escapes of its effects
/// and then of its foreground color (`ESC[1m` bold, `ESC[2m` dimmed,
/// `ESC[3Xm` for the basic color X), and the alternate form writes the reset
/// `ESC[0m` for any style other than the empty one.
#[verifier::external_body]
fn render_styled(style: TextStyle, text: &str) -> (r: String)
    ensures
        r@ == ansi_open(style) + text@ + ansi_reset(),
{
    let s = match style {
        TextStyle::Bold => anstyle::Style::new().bold(),
        TextStyle::Dim => anstyle::Style::new().dimmed(),
        TextStyle::Green => anstyle::Style::new().fg_color(Some(anstyle::Color::Ansi(anstyle::AnsiColor::Green))),
        TextStyle::Yellow => anstyle::Style::new().fg_color(Some(anstyle::Color::Ansi(anstyle::AnsiColor::Yellow))),
        TextStyle::Red => anstyle::Style::new().fg_color(Some(anstyle::Color::Ansi(anstyle::AnsiColor::Red))),
        TextStyle::Cyan => anstyle::Style::new().fg_color(Some(anstyle::Color::Ansi(anstyle::AnsiColor::Cyan))),
    };
    format!("{s}{text}{s:#}")
}

/// `text` in `style` when color is on, else `text` itself.
pub fn paint(style: TextStyle, text: &str, color: bool) -> (r: String)
    ensures
        r@ == spec_paint(style, text@, color),
{
    if color {
        render_styled(style, text)
    } else {
        string_of(text)
    }
}

pub fn bold(s: &str, color: bool) -> (r: String)
    ensures
        r@ == spec_paint(TextStyle::Bold, s@, color),
{
    paint(TextStyle::Bold, s, color)
}

pub fn dim(s: &str, color: bool) -> (r: String)
    ensures
        r@ == spec_paint(TextStyle::Dim, s@, color),
{
    paint(TextStyle::Dim, s, color)
}

pub fn green(s: &str, color: bool) -> (r: String)
    ensures
        r@ == spec_paint(TextStyle::Green, s@, color),
{
    paint(TextStyle::Green, s, color)
}

pub fn yellow(s: &str, color: bool) -> (r: String)
    ensures
        r@ == spec_paint(TextStyle::Yellow, s@, color),
{
    paint(TextStyle::Yellow, s, color)
}

pub fn red(s: &str, color: bool) -> (r: String)
    ensures
        r@ == spec_paint(TextStyle::Red, s@, color),
{
    paint(TextStyle::Red, s, color)
}

pub fn cyan(s: &str, color: bool) -> (r: String)
    ensures
        r@ == spec_paint(TextStyle::Cyan, s@, color),
{
    paint(TextStyle::Cyan, s, color)
}

/// `[ ok ]` in green. Every tag is six characters wide.
pub fn tag_ok(color: bool) -> (r: String)
    ensures
        r@ == spec_paint(TextStyle::Green, "[ ok ]"@, color),
{
    green("[ ok ]", color)
}

/// `[warn]` in yellow.
pub fn tag_warn(color: bool) -> (r: String)
    ensures
        r@ == spec_paint(TextStyle::Yellow, "[warn]"@, color),
{
    yellow("[warn]", color)
}

/// `[fail]` in red.
pub fn tag_fail(color: bool) -> (r: String)
    ensures
        r@ == spec_paint(TextStyle::Red, "[fail]"@, color),
{
    red("[fail]", color)
}

/// `[skip]` dimmed.
pub fn tag_skip(color: bool) -> (r: String)
    ensures
        r@ == spec_paint(TextStyle::Dim, "[skip]"@, color),
{
    dim("[skip]", color)
}

/// `[part]` in yellow.
pub fn tag_part(color: bool) -> (r: String)
    ensures
        r@ == spec_paint(TextStyle::Yellow, "[part]"@, color),
{
    yellow("[part]", color)
}

/// `[plan]` in cyan.
pub fn tag_plan(color: bool) -> (r: String)
    ensures
        r@ == spec_paint(TextStyle::Cyan, "[plan]"@, color),
{
    cyan("[plan]", color)
}

} // verus!
