//! What the user is shown: message lines, sizes, durations and colors.

use vstd::prelude::*;

use crate::text::{dec, dec_string};
use crate::units::{size_text, ByteSize};

verus! {

broadcast use vstd::string::group_string_axioms;

/// The user's choice about colors.
#[derive(Clone, Copy, Debug, PartialEq, Eq, Structural)]
pub enum ColorMode {
    /// Color where the terminal takes it.
    Auto,
    /// Color in any case.
    Always,
    /// No color.
    Never,
}

impl Default for ColorMode {
    fn default() -> (r: Self)
        ensures
            r == ColorMode::Auto,
    {
        ColorMode::Auto
    }
}

/// Whether lines are colored, on a terminal that takes colors or does not.
pub fn color_on(mode: ColorMode, supported: bool) -> (r: bool)
    ensures
        r == (mode == ColorMode::Always || (mode == ColorMode::Auto && supported)),
{
    match mode {
        ColorMode::Always => true,
        ColorMode::Never => false,
        ColorMode::Auto => supported,
    }
}

/// What kind of line a message is.
#[derive(Clone, Copy, Debug, PartialEq, Eq, Structural)]
pub enum Tone {
    /// A status line.
    Info,
    /// The start of a phase of a build.
    Step,
    /// A warning.
    Warn,
    /// An error.
    Error,
    /// A detail that follows another line.
    Note,
}

/// The mark that begins a line of this tone.
pub open spec fn mark(tone: Tone) -> Seq<char> {
    match tone {
        Tone::Info => "::"@,
        Tone::Step => "==>"@,
        Tone::Warn => "warning:"@,
        Tone::Error => "error:"@,
        Tone::Note => "->"@,
    }
}

/// The style of the mark.
pub open spec fn mark_style(tone: Tone) -> Seq<char> {
    match tone {
        Tone::Info => "bold.blue"@,
        Tone::Step => "bold.green"@,
        Tone::Warn => "bold.yellow"@,
        Tone::Error => "bold.red"@,
        Tone::Note => "cyan"@,
    }
}

/// Whether the message itself stands in bold.
pub open spec fn is_headline(tone: Tone) -> bool {
    tone == Tone::Info || tone == Tone::Step
}

/// The escape codes that open a style, of the styles that are used here.
pub open spec fn style_codes(style: Seq<char>) -> Option<Seq<char>> {
    if style == "bold"@ {
        Some("\u{1b}[1m"@)
    } else if style == "cyan"@ {
        Some("\u{1b}[36m"@)
    } else if style == "bold.red"@ {
        Some("\u{1b}[31m\u{1b}[1m"@)
    } else if style == "bold.green"@ {
        Some("\u{1b}[32m\u{1b}[1m"@)
    } else if style == "bold.yellow"@ {
        Some("\u{1b}[33m\u{1b}[1m"@)
    } else if style == "bold.blue"@ {
        Some("\u{1b}[34m\u{1b}[1m"@)
    } else if style == "bold.magenta"@ {
        Some("\u{1b}[35m\u{1b}[1m"@)
    } else if style == "bold.cyan"@ {
        Some("\u{1b}[36m\u{1b}[1m"@)
    } else {
        None
    }
}

/// A text in a style: the codes that open it, the text, the code that ends it.
pub open spec fn in_style(style: Seq<char>, text: Seq<char>) -> Seq<char> {
    style_codes(style)->0 + text + "\u{1b}[0m"@
}

/// Styles a text by `console::Style::from_dotted_str`, with the styling forced on.
/// The style's color stands before its attributes, each as an escape code of its
/// own; a reset ends the text.
#[verifier::external_body]
fn styled(style: &str, text: &str) -> (r: String)
    requires
        style_codes(style@) is Some,
    ensures
        r@ == in_style(style@, text@),
{
    console::Style::from_dotted_str(style).force_styling(true).apply_to(text).to_string()
}

/// Styles a text by `console::style` with `color256` and `italic`, the styling
/// forced on: the code of the color, the code of italics, the text, a reset.
#[verifier::external_body]
fn italic_in(color: u8, text: &str) -> (r: String)
    ensures
        r@ == "\u{1b}[38;5;"@ + dec(color as nat) + "m\u{1b}[3m"@ + text@ + "\u{1b}[0m"@,
{
    console::style(text).color256(color).italic().force_styling(true).to_string()
}

/// A message line.
pub open spec fn message_spec(tone: Tone, color: bool, msg: Seq<char>) -> Seq<char> {
    if color {
        in_style(mark_style(tone), mark(tone)) + " "@ + if is_headline(tone) {
            in_style("bold"@, msg)
        } else {
            msg
        }
    } else {
        mark(tone) + " "@ + msg
    }
}

fn mark_str(tone: Tone) -> (r: &'static str)
    ensures
        r@ == mark(tone),
{
    match tone {
        Tone::Info => "::",
        Tone::Step => "==>",
        Tone::Warn => "warning:",
        Tone::Error => "error:",
        Tone::Note => "->",
    }
}

fn mark_style_str(tone: Tone) -> (r: &'static str)
    ensures
        r@ == mark_style(tone),
        style_codes(r@) is Some,
{
    match tone {
        Tone::Info => "bold.blue",
        Tone::Step => "bold.green",
        Tone::Warn => "bold.yellow",
        Tone::Error => "bold.red",
        Tone::Note => "cyan",
    }
}

/// The line that shows `msg`.
pub fn message(tone: Tone, color: bool, msg: &str) -> (r: String)
    ensures
        r@ == message_spec(tone, color, msg@),
{
    let mut r = String::new();
    if color {
        r.append(styled(mark_style_str(tone), mark_str(tone)).as_str());
        r.append(" ");
        match tone {
            Tone::Info | Tone::Step => {
                r.append(styled("bold", msg).as_str());
            },
            _ => {
                r.append(msg);
            },
        }
    } else {
        r.append(mark_str(tone));
        r.append(" ");
        r.append(msg);
    }
    assert(r@ =~= message_spec(tone, color, msg@));
    r
}

/// Supporting text: gray and in italics.
pub fn dim(text: &str) -> (r: String)
    ensures
        r@ == "\u{1b}[38;5;244m\u{1b}[3m"@ + text@ + "\u{1b}[0m"@,
{
    let r = italic_in(244, text);
    proof {
        reveal_strlit("\u{1b}[38;5;244m\u{1b}[3m");
        reveal_strlit("\u{1b}[38;5;");
        reveal_strlit("m\u{1b}[3m");
        reveal_with_fuel(dec, 4);
        assert("\u{1b}[38;5;244m\u{1b}[3m"@ =~= "\u{1b}[38;5;"@ + dec(244) + "m\u{1b}[3m"@);
    }
    r
}

/// The hash of a name: seeded with 5381, times 33 plus the byte, in 64 bits.
pub open spec fn name_hash(bytes: Seq<u8>) -> u64
    decreases bytes.len(),
{
    if bytes.len() == 0 {
        5381
    } else {
        ((33 * name_hash(bytes.drop_last()) + bytes.last()) % 0x1_0000_0000_0000_0000) as u64
    }
}

/// The style of a name with this hash.
pub open spec fn hash_style(hash: u64) -> Seq<char> {
    if hash % 6 == 0 {
        "bold.red"@
    } else if hash % 6 == 1 {
        "bold.green"@
    } else if hash % 6 == 2 {
        "bold.yellow"@
    } else if hash % 6 == 3 {
        "bold.blue"@
    } else if hash % 6 == 4 {
        "bold.magenta"@
    } else {
        "bold.cyan"@
    }
}

/// The hash of a name.
pub fn hash_name(bytes: &[u8]) -> (r: u64)
    ensures
        r == name_hash(bytes@),
{
    let mut hash: u64 = 5381;
    let mut i: usize = 0;
    assert(bytes@.take(0) =~= Seq::<u8>::empty());
    while i < bytes.len()
        invariant
            i <= bytes@.len(),
            hash == name_hash(bytes@.take(i as int)),
        decreases bytes@.len() - i,
    {
        let b: u8 = bytes[i];
        proof {
            crate::seqs::lemma_take_succ(bytes@, i as int);
        }
        let times: u64 = hash.wrapping_mul(33);
        let next: u64 = times.wrapping_add(b as u64);
        assert(next == (33 * hash + b) % 0x1_0000_0000_0000_0000);
        hash = next;
        i = i + 1;
    }
    assert(bytes@.take(bytes@.len() as int) =~= bytes@);
    hash
}

/// The style of the repository `name`: one of six bold colors, by the hash of
/// its UTF-8 bytes.
pub fn repo_style(name: &str) -> (r: &'static str)
    ensures
        r@ == hash_style(name_hash(vstd::utf8::encode_utf8(name@))),
        style_codes(r@) is Some,
{
    let k: u64 = hash_name(name.as_bytes()) % 6;
    if k == 0 {
        "bold.red"
    } else if k == 1 {
        "bold.green"
    } else if k == 2 {
        "bold.yellow"
    } else if k == 3 {
        "bold.blue"
    } else if k == 4 {
        "bold.magenta"
    } else {
        "bold.cyan"
    }
}

/// The repository `name` in its color.
pub fn repo(name: &str) -> (r: String)
    ensures
        r@ == in_style(hash_style(name_hash(vstd::utf8::encode_utf8(name@))), name@),
{
    styled(repo_style(name), name)
}

/// A byte count in IEC units.
pub fn human_bytes(bytes: u64) -> (r: String)
    ensures
        r@ == size_text(bytes as nat),
{
    ByteSize::new(bytes).to_string()
}

/// A duration of so many seconds, in at most two units.
pub open spec fn duration_text(seconds: nat) -> Seq<char> {
    let h = seconds / 3600;
    let m = (seconds % 3600) / 60;
    let s = seconds % 60;
    if h > 0 {
        dec(h) + "h "@ + dec(m) + "m"@
    } else if m > 0 {
        dec(m) + "m "@ + dec(s) + "s"@
    } else {
        dec(s) + "s"@
    }
}

/// A duration of so many whole seconds, in at most two units.
pub fn human_duration(seconds: u64) -> (r: String)
    ensures
        r@ == duration_text(seconds as nat),
{
    let h: u64 = seconds / 3600;
    let m: u64 = (seconds % 3600) / 60;
    let s: u64 = seconds % 60;
    let mut r = String::new();
    if h > 0 {
        r.append(dec_string(h).as_str());
        r.append("h ");
        r.append(dec_string(m).as_str());
        r.append("m");
    } else if m > 0 {
        r.append(dec_string(m).as_str());
        r.append("m ");
        r.append(dec_string(s).as_str());
        r.append("s");
    } else {
        r.append(dec_string(s).as_str());
        r.append("s");
    }
    assert(r@ =~= duration_text(seconds as nat));
    r
}

/// An age of so many seconds, in its largest unit that is not zero.
pub open spec fn age_text(seconds: nat) -> Seq<char> {
    if seconds >= 86400 {
        dec(seconds / 86400) + "d"@
    } else if seconds >= 3600 {
        dec(seconds / 3600) + "h"@
    } else if seconds >= 60 {
        dec(seconds / 60) + "m"@
    } else {
        "now"@
    }
}

/// An age of so many whole seconds, in its largest unit that is not zero.
pub fn human_age(seconds: u64) -> (r: String)
    ensures
        r@ == age_text(seconds as nat),
{
    if seconds < 60 {
        return "now".to_owned();
    }
    let mut r = String::new();
    if seconds >= 86400 {
        r.append(dec_string(seconds / 86400).as_str());
        r.append("d");
    } else if seconds >= 3600 {
        r.append(dec_string(seconds / 3600).as_str());
        r.append("h");
    } else {
        r.append(dec_string(seconds / 60).as_str());
        r.append("m");
    }
    assert(r@ =~= age_text(seconds as nat));
    r
}

} // verus!
