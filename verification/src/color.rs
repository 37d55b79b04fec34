//! Terminal colours for the printed bonsai.
use colored::{Color, Colorize};
use vstd::prelude::*;
use vstd::string::StringExecFns;

verus! {

/// One of the eight basic terminal colours.
#[derive(Debug, Clone, Copy, PartialEq, Eq, Structural)]
pub enum ColorChoice {
    Black,
    Red,
    Green,
    Yellow,
    Blue,
    Magenta,
    Cyan,
    White,
}

/// What `str::to_lowercase` returns for a text (its Unicode lowercase form).
pub uninterp spec fn lowercase(text: Seq<char>) -> Seq<char>;

/// A character with the ASCII capitals `A` to `Z` taken to `a` to `z`.
pub open spec fn ascii_lower_char(c: char) -> char {
    if 'A' <= c && c <= 'Z' {
        ((c as u32) + 32) as char
    } else {
        c
    }
}

/// The text with every ASCII capital taken to its small letter.
pub open spec fn ascii_lower(text: Seq<char>) -> Seq<char> {
    text.map_values(|c: char| ascii_lower_char(c))
}

/// Every character of the text is ASCII.
pub open spec fn is_ascii(text: Seq<char>) -> bool {
    forall|i: int| 0 <= i < text.len() ==> (#[trigger] text[i] as u32) < 128
}

/// `str::to_lowercase`: the result is the Unicode lowercase form of `s`,
/// a function of `s` alone; on ASCII text that form takes `A` to `Z` to
/// `a` to `z` and keeps every other character.
#[verifier::external_body]
fn to_lowercase(s: &str) -> (lower: String)
    ensures
        lower@ == lowercase(s@),
        is_ascii(s@) ==> lower@ == ascii_lower(s@),
{
    s.to_lowercase()
}

/// The colour a lowercase name denotes, if it is one of the eight names.
pub open spec fn color_named(name: Seq<char>) -> Option<ColorChoice> {
    if name == "black"@ {
        Some(ColorChoice::Black)
    } else if name == "red"@ {
        Some(ColorChoice::Red)
    } else if name == "green"@ {
        Some(ColorChoice::Green)
    } else if name == "yellow"@ {
        Some(ColorChoice::Yellow)
    } else if name == "blue"@ {
        Some(ColorChoice::Blue)
    } else if name == "magenta"@ {
        Some(ColorChoice::Magenta)
    } else if name == "cyan"@ {
        Some(ColorChoice::Cyan)
    } else if name == "white"@ {
        Some(ColorChoice::White)
    } else {
        None
    }
}

fn same_text(a: &String, b: &str) -> (same: bool)
    ensures
        same == (a@ == b@),
{
    let owned = b.to_string();
    proof {
        broadcast use vstd::string::group_string_axioms;

    }
    *a == owned
}

/// The SGR code `colored` writes for a foreground colour (`Color::to_fg_str`).
pub open spec fn fg_code(choice: ColorChoice) -> Seq<char> {
    match choice {
        ColorChoice::Black => seq!['3', '0'],
        ColorChoice::Red => seq!['3', '1'],
        ColorChoice::Green => seq!['3', '2'],
        ColorChoice::Yellow => seq!['3', '3'],
        ColorChoice::Blue => seq!['3', '4'],
        ColorChoice::Magenta => seq!['3', '5'],
        ColorChoice::Cyan => seq!['3', '6'],
        ColorChoice::White => seq!['3', '7'],
    }
}

/// The SGR code `colored` writes for a background colour (`Color::to_bg_str`).
pub open spec fn bg_code(choice: ColorChoice) -> Seq<char> {
    match choice {
        ColorChoice::Black => seq!['4', '0'],
        ColorChoice::Red => seq!['4', '1'],
        ColorChoice::Green => seq!['4', '2'],
        ColorChoice::Yellow => seq!['4', '3'],
        ColorChoice::Blue => seq!['4', '4'],
        ColorChoice::Magenta => seq!['4', '5'],
        ColorChoice::Cyan => seq!['4', '6'],
        ColorChoice::White => seq!['4', '7'],
    }
}

/// A character between the escape that sets the SGR `codes` and the reset
/// escape.
pub open spec fn sgr_piece(c: char, codes: Seq<char>) -> Seq<char> {
    seq!['\u{1b}', '['] + codes + seq!['m', c, '\u{1b}', '[', '0', 'm']
}

/// One character of a coloured text: line breaks stay as they are, and so
/// does every character when colouring is off.
pub open spec fn colored_char(c: char, codes: Seq<char>, on: bool) -> Seq<char> {
    if c == '\n' || !on {
        seq![c]
    } else {
        sgr_piece(c, codes)
    }
}

/// A text with each character coloured on its own.
pub open spec fn colored_text(text: Seq<char>, codes: Seq<char>, on: bool) -> Seq<char>
    decreases text.len(),
{
    if text.len() == 0 {
        Seq::empty()
    } else {
        colored_text(text.drop_last(), codes, on) + colored_char(text.last(), codes, on)
    }
}

/// `colored::control::SHOULD_COLORIZE.should_colorize()`: whether `colored`
/// writes colour escapes, which depends on the environment (`NO_COLOR`,
/// `CLICOLOR`, `CLICOLOR_FORCE`, whether standard output is a terminal) and
/// on any override; nothing is claimed of it.
#[verifier::external_body]
fn colors_enabled() -> bool {
    colored::control::SHOULD_COLORIZE.should_colorize()
}

/// `colored`: displays `c` as a `ColoredString` in foreground `fg` with
/// the crate's colouring switch set to `enabled` for the call
/// (`colored::control::set_override`), and sets the switch back to the value
/// `should_colorize` had before, so that later reads of it are unchanged.
/// With `enabled` the result is `c` between the escape with the foreground
/// code and the reset escape; without it, `c` alone.
#[verifier::external_body]
fn paint_fg(c: char, fg: ColorChoice, enabled: bool) -> (piece: String)
    ensures
        piece@ == (if enabled {
            sgr_piece(c, fg_code(fg))
        } else {
            seq![c]
        }),
{
    let colors = [Color::Black, Color::Red, Color::Green, Color::Yellow, Color::Blue, Color::Magenta, Color::Cyan, Color::White];
    let before = colored::control::SHOULD_COLORIZE.should_colorize();
    colored::control::set_override(enabled);
    let piece = format!("{}", c.to_string().as_str().color(colors[fg as usize]));
    colored::control::set_override(before);
    piece
}

/// `colored`: displays `c` as a `ColoredString` in foreground `fg` on
/// background `bg` with the crate's colouring switch set to `enabled` for
/// the call, and sets the switch back to the value `should_colorize` had
/// before, as `paint_fg` does. With `enabled` the escape holds the
/// background code, `;`, then the foreground code; without it, `c` alone.
#[verifier::external_body]
fn paint_fg_on(c: char, fg: ColorChoice, bg: ColorChoice, enabled: bool) -> (piece: String)
    ensures
        piece@ == (if enabled {
            sgr_piece(c, bg_code(bg) + seq![';'] + fg_code(fg))
        } else {
            seq![c]
        }),
{
    let colors = [Color::Black, Color::Red, Color::Green, Color::Yellow, Color::Blue, Color::Magenta, Color::Cyan, Color::White];
    let before = colored::control::SHOULD_COLORIZE.should_colorize();
    colored::control::set_override(enabled);
    let piece = format!("{}", c.to_string().as_str().color(colors[fg as usize]).on_color(colors[bg as usize]));
    colored::control::set_override(before);
    piece
}

/// The SGR codes a character is painted with: the foreground (white when
/// only a background is given), preceded by the background when one is given.
pub open spec fn codes_for(fg: Option<&ColorChoice>, bg: Option<&ColorChoice>) -> Seq<char> {
    let fore = match fg {
        Some(f) => fg_code(*f),
        None => fg_code(ColorChoice::White),
    };
    match bg {
        Some(b) => bg_code(*b) + seq![';'] + fore,
        None => fore,
    }
}

/// The text as painted in `fg` on `bg`: unchanged without either colour,
/// otherwise coloured character by character with `codes_for(fg, bg)` when
/// colouring is `on`.
pub open spec fn painted_text(text: Seq<char>, fg: Option<&ColorChoice>, bg: Option<&ColorChoice>, on: bool) -> Seq<char> {
    if fg is None && bg is None {
        text
    } else {
        colored_text(text, codes_for(fg, bg), on)
    }
}

/// Colouring text is done character by character: colouring two texts one
/// after the other gives the colouring of the joined text.
pub proof fn law_coloring_concatenates(a: Seq<char>, b: Seq<char>, codes: Seq<char>, on: bool)
    ensures
        colored_text(a + b, codes, on) == colored_text(a, codes, on) + colored_text(b, codes, on),
    decreases b.len(),
{
    if b.len() == 0 {
        assert(a + b =~= a);
        assert(colored_text(b, codes, on) =~= Seq::<char>::empty());
        assert(colored_text(a, codes, on) + colored_text(b, codes, on) =~= colored_text(a, codes, on));
    } else {
        let b0 = b.drop_last();
        law_coloring_concatenates(a, b0, codes, on);
        assert((a + b).drop_last() =~= a + b0);
        assert((a + b).last() == b.last());
        assert(colored_text(a + b, codes, on) =~= colored_text(a, codes, on) + colored_text(b, codes, on));
    }
}

/// With colouring off, a text is left as it is.
pub proof fn law_coloring_off_keeps_text(text: Seq<char>, codes: Seq<char>)
    ensures
        colored_text(text, codes, false) == text,
    decreases text.len(),
{
    if text.len() > 0 {
        law_coloring_off_keeps_text(text.drop_last(), codes);
        assert(text.drop_last().push(text.last()) =~= text);
        assert(colored_text(text, codes, false) =~= text);
    } else {
        assert(colored_text(text, codes, false) =~= text);
    }
}

/// A background alone is painted on a white foreground.
pub proof fn law_background_alone_is_white(text: Seq<char>, bg: ColorChoice, on: bool)
    ensures
        painted_text(text, None, Some(&bg), on) == painted_text(text, Some(&ColorChoice::White), Some(&bg), on),
{
}

impl ColorChoice {
    /// The colour with the given lowercase name.
    pub fn from_name(name: &str) -> (choice: Option<ColorChoice>)
        ensures
            choice == color_named(name@),
    {
        let owned = name.to_string();
        proof {
            broadcast use vstd::string::group_string_axioms;

        }
        if same_text(&owned, "black") {
            Some(ColorChoice::Black)
        } else if same_text(&owned, "red") {
            Some(ColorChoice::Red)
        } else if same_text(&owned, "green") {
            Some(ColorChoice::Green)
        } else if same_text(&owned, "yellow") {
            Some(ColorChoice::Yellow)
        } else if same_text(&owned, "blue") {
            Some(ColorChoice::Blue)
        } else if same_text(&owned, "magenta") {
            Some(ColorChoice::Magenta)
        } else if same_text(&owned, "cyan") {
            Some(ColorChoice::Cyan)
        } else if same_text(&owned, "white") {
            Some(ColorChoice::White)
        } else {
            None
        }
    }

    /// The colour named by `s`, in any case.
    pub fn parse(s: &str) -> (choice: Option<ColorChoice>)
        ensures
            choice == color_named(lowercase(s@)),
            is_ascii(s@) ==> choice == color_named(ascii_lower(s@)),
    {
        let lower = to_lowercase(s);
        ColorChoice::from_name(lower.as_str())
    }
}

/// The text as painted in `fg` on `bg` with the colouring switch `enabled`:
/// every character but a line break is coloured on its own (in white when
/// only a background is given); without either colour the text is returned
/// as it is.
pub fn paint_text(text: &str, fg: Option<&ColorChoice>, bg: Option<&ColorChoice>, enabled: bool) -> (out: String)
    ensures
        out@ == painted_text(text@, fg, bg, enabled),
{
    if fg.is_none() && bg.is_none() {
        let out = text.to_string();
        proof {
            broadcast use vstd::string::group_string_axioms;

        }
        return out;
    }
    let fore = match fg {
        Some(f) => *f,
        None => ColorChoice::White,
    };
    let ghost codes = codes_for(fg, bg);
    let mut result = String::new();
    for c in it: text.chars()
        invariant
            it.seq() == text@,
            it.index() <= text@.len(),
            result@ == colored_text(text@.take(it.index() as int), codes, enabled),
            !(fg is None && bg is None),
            codes == codes_for(fg, bg),
            fore == (match fg {
                Some(f) => *f,
                None => ColorChoice::White,
            }),
    {
        let ghost k = it.index() as int;
        if c == '\n' {
            crate::canvas::push_char(&mut result, '\n');
        } else {
            let piece = match bg {
                Some(b) => paint_fg_on(c, fore, *b, enabled),
                None => paint_fg(c, fore, enabled),
            };
            result.append(piece.as_str());
        }
        proof {
            assert(text@.take(k + 1).drop_last() =~= text@.take(k));
            assert(text@.take(k + 1).last() == c);
        }
    }
    proof {
        assert(text@.take(text@.len() as int) =~= text@);
    }
    result
}

/// The text painted in `fg` on `bg`: unchanged without either colour;
/// otherwise coloured character by character as `paint_text` does, with the
/// colouring switch that `colored` reads from the environment.
pub fn apply_colors(text: &str, fg: Option<&ColorChoice>, bg: Option<&ColorChoice>) -> (out: String)
    ensures
        fg is None && bg is None ==> out@ == text@,
        exists|on: bool| out@ == painted_text(text@, fg, bg, on),
{
    if fg.is_none() && bg.is_none() {
        return paint_text(text, fg, bg, false);
    }
    let enabled = colors_enabled();
    paint_text(text, fg, bg, enabled)
}

} // verus!
