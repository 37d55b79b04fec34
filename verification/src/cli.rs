//! The command-line settings and the decisions taken from them.
use crate::dice::{seeded_state, usize_below_draw, word64_draw, Dice};
use crate::styles::{pot_style_at, random_pot_style, random_tree_style, tree_style_at, BonsaiConfig};
use vstd::prelude::*;

verus! {

/// The settings given on the command line.
pub struct Cli {
    /// Animate the growth character by character.
    pub live: bool,
    /// Grow one bonsai after another until a key stops it.
    pub infinite: bool,
    /// Seed that fixes the result.
    pub seed: Option<u64>,
    /// Canvas width.
    pub width: usize,
    /// Canvas height.
    pub height: usize,
    /// Foliage density (1 to 5).
    pub density: u8,
    /// Foreground colour name.
    pub fg_color: Option<String>,
    /// Background colour name.
    pub bg_color: Option<String>,
    /// Path of a text file to save the bonsai to.
    pub output: Option<String>,
    /// Quiet screensaver mode, with no extra output.
    pub quiet: bool,
    /// Milliseconds between animation frames.
    pub delay: u64,
    /// Seconds between trees in infinite mode.
    pub interval: u64,
}

fn copy_text(text: &Option<String>) -> (copy: Option<String>)
    ensures
        copy == *text,
{
    match text {
        Some(s) => Some(s.clone()),
        None => None,
    }
}

/// The size of the terminal as measured, or 80 by 40 when it could not be measured.
pub fn get_terminal_size(measured: Option<(u16, u16)>) -> (size: (usize, usize))
    ensures
        size == (match measured {
            Some((w, h)) => (w as usize, h as usize),
            None => (80usize, 40usize),
        }),
{
    match measured {
        Some((w, h)) => (w as usize, h as usize),
        None => (80, 40),
    }
}

/// The settings of a screensaver run: the given settings on a canvas the size
/// of the terminal (or 80 by 40 when it could not be measured), growing
/// trees without end and quietly.
pub fn render_screensaver(cli: &Cli, measured: Option<(u16, u16)>) -> (effective: Cli)
    ensures
        (effective.width, effective.height) == (match measured {
            Some((w, h)) => (w as usize, h as usize),
            None => (80usize, 40usize),
        }),
        effective.infinite,
        effective.quiet,
        effective.live == cli.live,
        effective.seed == cli.seed,
        effective.density == cli.density,
        effective.fg_color == cli.fg_color,
        effective.bg_color == cli.bg_color,
        effective.output == cli.output,
        effective.delay == cli.delay,
        effective.interval == cli.interval,
{
    let (tw, th) = get_terminal_size(measured);
    Cli {
        live: cli.live,
        infinite: true,
        seed: cli.seed,
        width: tw,
        height: th,
        density: cli.density,
        fg_color: copy_text(&cli.fg_color),
        bg_color: copy_text(&cli.bg_color),
        output: copy_text(&cli.output),
        quiet: true,
        delay: cli.delay,
        interval: cli.interval,
    }
}

/// Settings for one bonsai: the canvas and density given, a tree style and
/// then a pot style drawn from `dice`, and the seed the bonsai grows from,
/// which is `seed` when given and otherwise a further draw.
pub fn plan_bonsai(width: usize, height: usize, density: u8, seed: Option<u64>, dice: &mut Dice) -> (plan: (
    BonsaiConfig,
    u64,
))
    ensures
        ({
            let t = usize_below_draw(old(dice).state(), 5);
            let p = usize_below_draw(t.1, 4);
            &&& plan.0.width == width
            &&& plan.0.height == height
            &&& plan.0.density == density
            &&& plan.0.tree_style == tree_style_at(t.0 as int)
            &&& plan.0.pot_style == pot_style_at(p.0 as int)
            &&& plan.1 == (match seed {
                Some(s) => s,
                None => word64_draw(p.1).0,
            })
        }),
{
    let tree_style = random_tree_style(dice);
    let pot_style = random_pot_style(dice);
    let config = BonsaiConfig { width, height, density, tree_style, pot_style };
    let grow_seed = match seed {
        Some(s) => s,
        None => dice.next_seed(),
    };
    (config, grow_seed)
}

/// A key pressed while trees are shown.
#[derive(Debug, Clone, Copy, PartialEq, Eq, Structural)]
pub enum Key {
    Esc,
    Char(char),
    Other,
}

/// Escape and `q` end the endless display.
pub fn quits(key: Key) -> (stop: bool)
    ensures
        stop == (key == Key::Esc || key == Key::Char('q')),
{
    match key {
        Key::Esc => true,
        Key::Char(c) => c == 'q',
        Key::Other => false,
    }
}

/// The seed of the first tree of an endless display: the given seed, or 0.
pub fn first_seed(seed: Option<u64>) -> (counter: u64)
    ensures
        counter == (match seed {
            Some(s) => s,
            None => 0u64,
        }),
{
    seed.unwrap_or(0)
}

/// The seed of the tree after the one grown from `counter` (wrapping at the
/// largest `u64`).
pub fn following_seed(counter: u64) -> (next: u64)
    ensures
        next == (if counter == u64::MAX {
            0
        } else {
            counter + 1
        }),
{
    counter.wrapping_add(1)
}

/// The settings of tree number `counter` of an endless display: its styles
/// are drawn from a source seeded with `counter`, and it grows from `counter`.
pub fn endless_plan(cli: &Cli, counter: u64) -> (plan: (BonsaiConfig, u64))
    ensures
        ({
            let t = usize_below_draw(seeded_state(counter), 5);
            let p = usize_below_draw(t.1, 4);
            &&& plan.0.width == cli.width
            &&& plan.0.height == cli.height
            &&& plan.0.density == cli.density
            &&& plan.0.tree_style == tree_style_at(t.0 as int)
            &&& plan.0.pot_style == pot_style_at(p.0 as int)
            &&& plan.1 == counter
        }),
{
    let mut dice = Dice::from_seed(Some(counter));
    plan_bonsai(cli.width, cli.height, cli.density, Some(counter), &mut dice)
}

} // verus!
