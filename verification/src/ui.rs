//! Output discipline and a tiny palette.
//!
//! The stream split is by result and process, not severity. A command's result
//! goes to standard output. Everything that narrates the run goes to standard
//! error. Colour is decided once per stream, and only for a real terminal with
//! `NO_COLOR` unset.
use vstd::prelude::*;
use vstd::string::*;

verus! {

/// The stream that a painted text is destined for.
#[derive(Debug, Clone, Copy, PartialEq, Eq, Structural)]
pub enum To {
    /// Standard output: the command's result.
    Out,
    /// Standard error: narration.
    Stderr,
}

/// Which streams take colour.
#[derive(Debug, Clone, Copy, PartialEq, Eq, Structural)]
pub struct Palette {
    pub out: bool,
    pub err: bool,
}

impl Palette {
    /// Colour for each stream that is a terminal, and none when `NO_COLOR` is
    /// set.
    pub fn new(no_colour: bool, out_terminal: bool, err_terminal: bool) -> (r: Self)
        ensures
            r.out == (out_terminal && !no_colour),
            r.err == (err_terminal && !no_colour),
    {
        Palette { out: out_terminal && !no_colour, err: err_terminal && !no_colour }
    }

    /// Whether a stream takes colour.
    pub open spec fn colours(self, to: To) -> bool {
        match to {
            To::Out => self.out,
            To::Stderr => self.err,
        }
    }

    /// Whether a stream takes colour.
    pub fn colour_for(&self, to: To) -> (r: bool)
        ensures
            r == self.colours(to),
    {
        match to {
            To::Out => self.out,
            To::Stderr => self.err,
        }
    }
}

/// The text in a colour, where its stream takes colour.
pub open spec fn painted(p: Palette, to: To, code: Seq<char>, text: Seq<char>) -> Seq<char> {
    if p.colours(to) {
        "\x1b["@ + code + "m"@ + text + "\x1b[0m"@
    } else {
        text
    }
}

/// Wrap a text in a colour code when its stream takes colour.
pub fn paint(p: &Palette, to: To, code: &str, text: &str) -> (r: String)
    ensures
        r@ == painted(*p, to, code@, text@),
{
    if p.colour_for(to) {
        "\x1b[".to_owned().concat(code).concat("m").concat(text).concat("\x1b[0m")
    } else {
        text.to_owned()
    }
}

/// Bold, on standard output.
pub fn bold(p: &Palette, text: &str) -> (r: String)
    ensures
        r@ == painted(*p, To::Out, "1"@, text@),
{
    paint(p, To::Out, "1", text)
}

/// Dimmed, on standard output.
pub fn dim(p: &Palette, text: &str) -> (r: String)
    ensures
        r@ == painted(*p, To::Out, "2"@, text@),
{
    paint(p, To::Out, "2", text)
}

/// Green, on standard output.
pub fn green(p: &Palette, text: &str) -> (r: String)
    ensures
        r@ == painted(*p, To::Out, "32"@, text@),
{
    paint(p, To::Out, "32", text)
}

/// Yellow, on standard output.
pub fn yellow(p: &Palette, text: &str) -> (r: String)
    ensures
        r@ == painted(*p, To::Out, "33"@, text@),
{
    paint(p, To::Out, "33", text)
}

/// Red, on standard output.
pub fn red(p: &Palette, text: &str) -> (r: String)
    ensures
        r@ == painted(*p, To::Out, "31"@, text@),
{
    paint(p, To::Out, "31", text)
}

/// Cyan, on standard output.
pub fn cyan(p: &Palette, text: &str) -> (r: String)
    ensures
        r@ == painted(*p, To::Out, "36"@, text@),
{
    paint(p, To::Out, "36", text)
}

/// The text as a link to `url`, where standard output is a terminal that takes
/// escapes.
pub open spec fn linked(p: Palette, text: Seq<char>, url: Seq<char>) -> Seq<char> {
    if p.out {
        "\x1b]8;;"@ + url + "\x1b\\"@ + text + "\x1b]8;;\x1b\\"@
    } else {
        text
    }
}

/// The text as a link to `url`, where standard output takes escapes.
pub fn hyperlink(p: &Palette, text: &str, url: &str) -> (r: String)
    ensures
        r@ == linked(*p, text@, url@),
{
    if p.out {
        "\x1b]8;;".to_owned().concat(url).concat("\x1b\\").concat(text).concat("\x1b]8;;\x1b\\")
    } else {
        text.to_owned()
    }
}

/// A line of narration: a coloured mark and a message.
pub open spec fn marked(p: Palette, code: Seq<char>, mark: Seq<char>, msg: Seq<char>) -> Seq<char> {
    painted(p, To::Stderr, code, mark) + " "@ + msg
}

/// A line of progress.
pub fn info(p: &Palette, msg: &str) -> (r: String)
    ensures
        r@ == marked(*p, "36"@, "▸"@, msg@),
{
    paint(p, To::Stderr, "36", "▸").concat(" ").concat(msg)
}

/// A line of success.
pub fn ok(p: &Palette, msg: &str) -> (r: String)
    ensures
        r@ == marked(*p, "32"@, "✓"@, msg@),
{
    paint(p, To::Stderr, "32", "✓").concat(" ").concat(msg)
}

/// A warning line.
pub fn warn(p: &Palette, msg: &str) -> (r: String)
    ensures
        r@ == marked(*p, "33"@, "⚠"@, msg@),
{
    paint(p, To::Stderr, "33", "⚠").concat(" ").concat(msg)
}

/// An error line.
pub fn err(p: &Palette, msg: &str) -> (r: String)
    ensures
        r@ == marked(*p, "31"@, "✗"@, msg@),
{
    paint(p, To::Stderr, "31", "✗").concat(" ").concat(msg)
}

/// Without colour, what is painted is the text itself: a redirected stream never
/// holds escapes.
pub proof fn law_no_escapes_without_colour(p: Palette, to: To, code: Seq<char>, text: Seq<char>)
    requires
        !p.colours(to),
    ensures
        painted(p, to, code, text) == text,
        to == To::Out ==> linked(p, text, code) == text,
{
}

} // verus!
