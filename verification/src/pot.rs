//! The pot at the foot of the tree.
use crate::canvas::{confined, lemma_run_of_confined, lemma_confined_chain, law_first_writer_wins, law_put_keeps_shape, law_put_records, lemma_confined_join, lemma_confined_none, lemma_confined_put, lemma_confined_widen, fills_inside, fills_within, grows, law_changes_stay_inside, lemma_fills_inside_chain, lemma_fills_inside_none, place, put_at, roomy, run_exec, run_of, Bonsai, Stage};
use crate::dice::{chance_draw, usize_below_draw, Dice};
use crate::styles::PotStyle;
use vstd::prelude::*;

verus! {

/// Rows of the pot.
pub const POT_HEIGHT: usize = 5;

/// A glazed cell (`~`) of a classic pot shows when a draw passes this cut.
pub const GLAZE_CUT: u32 = 11744051;

/// An ornament of a decorated pot shows when a draw passes this cut.
pub const DECOR_CUT: u32 = 10066330;

pub open spec fn decor_palette() -> Seq<char> {
    seq!['♥', '♦', '♣', '♠', '*', '·']
}

pub open spec fn soil_palette() -> Seq<char> {
    seq!['.', ',', '`', '\'']
}

/// Every character a pot of the given style may show, its soil included.
pub open spec fn pot_chars(style: PotStyle) -> Set<char> {
    match style {
        PotStyle::Classic => set!['#', '~', '.', '=', ',', '`', '\''],
        PotStyle::Rectangular => set!['+', '-', '.', ',', '`', '\''],
        PotStyle::Round => set!['O', 'o', '.', ',', '`', '\''],
        PotStyle::Decorated => set!['║', '═', '▀', '╔', '╗', '♥', '♦', '♣', '♠', '*', '·', '.', ',', '`', '\''],
    }
}

/// Half the width of the pot: a third of the canvas, at most 20, halved.
pub open spec fn pot_half_width(width: int) -> int {
    (if 20 <= width / 3 {
        20
    } else {
        width / 3
    }) / 2
}

/// How far row `i` of the pot is drawn in from each side.
pub open spec fn pot_inset(style: PotStyle, i: int) -> int {
    match style {
        PotStyle::Classic | PotStyle::Decorated => if i < 2 {
            0
        } else {
            i - 1
        },
        PotStyle::Rectangular => 0,
        PotStyle::Round => if i == 0 || i == 4 {
            0
        } else {
            1
        },
    }
}

/// One cell of row `i` of the pot, at column `x` of a row that spans
/// `left..=right` on canvas row `y`.
pub open spec fn pot_cell(st: Stage, style: PotStyle, i: int, x: int, left: int, right: int, y: int) -> Stage {
    let edge = x == left || x == right;
    match style {
        PotStyle::Classic => if edge || i == 4 {
            put_at(st, x, y, '#')
        } else if i == 0 {
            put_at(st, x, y, '~')
        } else {
            let d = chance_draw(st.1, GLAZE_CUT);
            (st.0.put(x, y, if d.0 { '~' } else { '.' }), d.1)
        },
        PotStyle::Rectangular => put_at(
            st,
            x,
            y,
            if edge || i == 0 || i == 4 {
                '+'
            } else {
                '-'
            },
        ),
        PotStyle::Round => put_at(
            st,
            x,
            y,
            if edge || i == 4 {
                'O'
            } else {
                'o'
            },
        ),
        PotStyle::Decorated => if edge {
            put_at(st, x, y, '║')
        } else if i == 0 {
            put_at(st, x, y, '═')
        } else if i == 4 {
            put_at(st, x, y, '▀')
        } else {
            let d = chance_draw(st.1, DECOR_CUT);
            if d.0 {
                let k = usize_below_draw(d.1, 6);
                (st.0.put(x, y, decor_palette()[k.0 as int]), k.1)
            } else {
                (st.0, d.1)
            }
        },
    }
}

/// The first `k` cells of row `i`, from `left` rightwards.
pub open spec fn pot_row(st: Stage, style: PotStyle, i: int, left: int, right: int, y: int, k: int) -> Stage
    decreases k,
{
    if k <= 0 {
        st
    } else {
        pot_cell(pot_row(st, style, i, left, right, y, k - 1), style, i, left + k - 1, left, right, y)
    }
}

/// The first `n` rows of the pot, centred on `cx`, from `top_y` down.
pub open spec fn pot_rows(st: Stage, style: PotStyle, cx: int, hw: int, top_y: int, n: int) -> Stage
    decreases n,
{
    if n <= 0 {
        st
    } else {
        let i = n - 1;
        let left = cx - hw + pot_inset(style, i);
        let right = cx + hw - pot_inset(style, i);
        pot_row(pot_rows(st, style, cx, hw, top_y, i), style, i, left, right, top_y + i, right - left + 1)
    }
}

/// The rim above the pot: a run of `=` one cell wider than the pot on each
/// side for a classic pot, two corners for a decorated one.
pub open spec fn pot_rim(st: Stage, style: PotStyle, cx: int, hw: int, top_y: int) -> Stage {
    match style {
        PotStyle::Classic => run_of(st, cx - hw - 1, top_y, '=', 2 * hw + 3),
        PotStyle::Decorated => put_at(put_at(st, cx - hw - 1, top_y, '╔'), cx + hw + 1, top_y, '╗'),
        _ => st,
    }
}

/// `k` cells of soil, each picked from the soil palette, from `left` rightwards on row `y`.
pub open spec fn soil_run(st: Stage, left: int, y: int, k: int) -> Stage
    decreases k,
{
    if k <= 0 {
        st
    } else {
        let prev = soil_run(st, left, y, k - 1);
        let d = usize_below_draw(prev.1, 4);
        (prev.0.put(left + k - 1, y, soil_palette()[d.0 as int]), d.1)
    }
}

/// The whole pot: five rows from `top_y` down, its rim, and the soil on the
/// row below the rim.
pub open spec fn pot_drawing(st: Stage, style: PotStyle, cx: int, top_y: int) -> Stage {
    let hw = pot_half_width(st.0.width);
    let body = pot_rows(st, style, cx, hw, top_y, 5);
    let rim = pot_rim(body, style, cx, hw, top_y);
    soil_run(rim, cx - hw + 1, top_y + 1, 2 * hw - 1)
}

fn pot_cell_exec(
    b: &mut Bonsai,
    dice: &mut Dice,
    style: PotStyle,
    i: usize,
    x: isize,
    left: isize,
    right: isize,
    y: isize,
)
    requires
        old(b).wf(),
        old(b)@.faithful(),
        old(b)@.tidy(),
    ensures
        final(b).wf(),
        final(b)@.faithful(),
        final(b)@.tidy(),
        final(b).width == old(b).width,
        final(b).height == old(b).height,
        grows(old(b)@, final(b)@),
        fills_within(old(b)@, final(b)@, pot_chars(style)),
        fills_inside(old(b)@, final(b)@, x as int, x as int, y as int, y as int),
        (final(b)@, final(dice).state()) == pot_cell(
            (old(b)@, old(dice).state()),
            style,
            i as int,
            x as int,
            left as int,
            right as int,
            y as int,
        ),
{
    let edge = x == left || x == right;
    match style {
        PotStyle::Classic => {
            if edge || i == 4 {
                place(b, x, y, '#');
            } else if i == 0 || dice.chance(GLAZE_CUT) {
                place(b, x, y, '~');
            } else {
                place(b, x, y, '.');
            }
        },
        PotStyle::Rectangular => {
            if edge || i == 0 || i == 4 {
                place(b, x, y, '+');
            } else {
                place(b, x, y, '-');
            }
        },
        PotStyle::Round => {
            if edge || i == 4 {
                place(b, x, y, 'O');
            } else {
                place(b, x, y, 'o');
            }
        },
        PotStyle::Decorated => {
            if edge {
                place(b, x, y, '║');
            } else if i == 0 {
                place(b, x, y, '═');
            } else if i == 4 {
                place(b, x, y, '▀');
            } else {
                let decor_chars = ['♥', '♦', '♣', '♠', '*', '·'];
                if dice.chance(DECOR_CUT) {
                    let idx = dice.below(decor_chars.len());
                    assert(decor_chars@ == decor_palette());
                    place(b, x, y, decor_chars[idx]);
                } else {
                    proof {
                        lemma_fills_inside_none(b@, b@, x as int, x as int, y as int, y as int);
                    }
                }
            }
        },
    }
}

fn pot_row_exec(
    b: &mut Bonsai,
    dice: &mut Dice,
    style: PotStyle,
    i: usize,
    left: isize,
    right: isize,
    y: isize,
)
    requires
        old(b).wf(),
        old(b)@.faithful(),
        old(b)@.tidy(),
        -100 <= left,
        right <= isize::MAX - 100,
    ensures
        final(b).wf(),
        final(b)@.faithful(),
        final(b)@.tidy(),
        final(b).width == old(b).width,
        final(b).height == old(b).height,
        grows(old(b)@, final(b)@),
        fills_within(old(b)@, final(b)@, pot_chars(style)),
        fills_inside(old(b)@, final(b)@, left as int, right as int, y as int, y as int),
        (final(b)@, final(dice).state()) == pot_row(
            (old(b)@, old(dice).state()),
            style,
            i as int,
            left as int,
            right as int,
            y as int,
            right - left + 1,
        ),
{
    let ghost init: Stage = (b@, dice.state());
    let mut x = left;
    proof {
        lemma_fills_inside_none(b@, b@, left as int, right as int, y as int, y as int);
    }
    while x <= right
        invariant
            b.wf(),
            b@.faithful(),
            b@.tidy(),
            b.width == old(b).width,
            b.height == old(b).height,
            grows(old(b)@, b@),
            fills_within(old(b)@, b@, pot_chars(style)),
            fills_inside(old(b)@, b@, left as int, right as int, y as int, y as int),
            left <= x <= right + 1 || (x == left && left > right),
            -100 <= left,
            right <= isize::MAX - 100,
            (b@, dice.state()) == pot_row(init, style, i as int, left as int, right as int, y as int, x - left),
        decreases right + 1 - x,
    {
        let ghost before = b@;
        pot_cell_exec(b, dice, style, i, x, left, right, y);
        proof {
            lemma_fills_inside_chain(old(b)@, before, b@, left as int, right as int, y as int, y as int, x as int, x as int, y as int, y as int);
        }
        x = x + 1;
    }
}

fn soil_exec(b: &mut Bonsai, dice: &mut Dice, left: isize, right: isize, y: isize, ok: Ghost<Set<char>>)
    requires
        forall|j: int| 0 <= j < soil_palette().len() ==> ok@.contains(#[trigger] soil_palette()[j]),
        !ok@.contains(' '),
        old(b).wf(),
        old(b)@.faithful(),
        old(b)@.tidy(),
        -100 <= left,
        right <= isize::MAX - 100,
    ensures
        final(b).wf(),
        final(b)@.faithful(),
        final(b)@.tidy(),
        final(b).width == old(b).width,
        final(b).height == old(b).height,
        grows(old(b)@, final(b)@),
        fills_within(old(b)@, final(b)@, ok@),
        fills_inside(old(b)@, final(b)@, left as int, right as int, y as int, y as int),
        (final(b)@, final(dice).state()) == soil_run((old(b)@, old(dice).state()), left as int, y as int, right - left + 1),
{
    let ghost init: Stage = (b@, dice.state());
    let mut x = left;
    proof {
        lemma_fills_inside_none(b@, b@, left as int, right as int, y as int, y as int);
    }
    while x <= right
        invariant
            b.wf(),
            b@.faithful(),
            b@.tidy(),
            b.width == old(b).width,
            b.height == old(b).height,
            grows(old(b)@, b@),
            fills_within(old(b)@, b@, ok@),
            fills_inside(old(b)@, b@, left as int, right as int, y as int, y as int),
            left <= x <= right + 1 || (x == left && left > right),
            -100 <= left,
            right <= isize::MAX - 100,
            forall|j: int| 0 <= j < soil_palette().len() ==> ok@.contains(#[trigger] soil_palette()[j]),
            !ok@.contains(' '),
            (b@, dice.state()) == soil_run(init, left as int, y as int, x - left),
        decreases right + 1 - x,
    {
        let soil_chars = ['.', ',', '`', '\''];
        let idx = dice.below(soil_chars.len());
        assert(soil_chars@ == soil_palette());
        let ghost before = b@;
        place(b, x, y, soil_chars[idx]);
        proof {
            lemma_fills_inside_chain(old(b)@, before, b@, left as int, right as int, y as int, y as int, x as int, x as int, y as int, y as int);
        }
        x = x + 1;
    }
}

/// Draws the pot centred on column `cx` with its rim on row `top_y`.
#[verifier::rlimit(80)]
pub(crate) fn draw_pot(b: &mut Bonsai, cx: usize, top_y: usize, style: PotStyle, dice: &mut Dice)
    requires
        old(b).wf(),
        old(b)@.faithful(),
        old(b)@.tidy(),
        roomy(old(b)@),
        cx <= old(b).width,
        top_y <= old(b).height,
    ensures
        final(b).wf(),
        final(b)@.faithful(),
        final(b)@.tidy(),
        final(b).width == old(b).width,
        final(b).height == old(b).height,
        grows(old(b)@, final(b)@),
        fills_within(old(b)@, final(b)@, pot_chars(style)),
        fills_inside(
            old(b)@,
            final(b)@,
            cx - pot_half_width(old(b).width as int) - 1,
            cx + pot_half_width(old(b).width as int) + 1,
            top_y as int,
            top_y + 4,
        ),
        forall|x: int, y: int|
            old(b)@.in_bounds(x, y) && #[trigger] final(b)@.cell(x, y) != old(b)@.cell(x, y) ==> {
                &&& old(b)@.cell(x, y) == ' '
                &&& final(b)@.cell(x, y) != ' '
                &&& top_y <= y <= top_y + 4
                &&& cx - pot_half_width(old(b).width as int) - 1 <= x <= cx + pot_half_width(old(b).width as int) + 1
            },
        (final(b)@, final(dice).state()) == pot_drawing(
            (old(b)@, old(dice).state()),
            style,
            cx as int,
            top_y as int,
        ),
{
    let ghost init: Stage = (b@, dice.state());
    let third = b.width / 3;
    let pot_width: usize = if 20 <= third {
        20
    } else {
        third
    };
    let half_w = pot_width / 2;
    let ghost w0 = b.width;
    let mut i: usize = 0;
    proof {
        lemma_fills_inside_none(b@, b@, cx - half_w - 1, cx + half_w + 1, top_y as int, top_y + 4);
    }
    while i < POT_HEIGHT
        invariant
            b.wf(),
            b@.faithful(),
            b@.tidy(),
            i <= POT_HEIGHT,
            b.width == w0,
            b.height == old(b).height,
            grows(old(b)@, b@),
            fills_within(old(b)@, b@, pot_chars(style)),
            fills_inside(old(b)@, b@, cx - half_w - 1, cx + half_w + 1, top_y as int, top_y + 4),
            half_w == pot_half_width(w0 as int),
            half_w <= 10,
            cx <= w0,
            w0 <= isize::MAX / 4,
            top_y <= isize::MAX / 24,
            (b@, dice.state()) == pot_rows(init, style, cx as int, half_w as int, top_y as int, i as int),
        decreases POT_HEIGHT - i,
    {
        let inset: usize = match style {
            PotStyle::Classic | PotStyle::Decorated => if i < 2 {
                0
            } else {
                i - 1
            },
            PotStyle::Rectangular => 0,
            PotStyle::Round => if i == 0 || i == POT_HEIGHT - 1 {
                0
            } else {
                1
            },
        };
        assert(inset as int == pot_inset(style, i as int));
        let left = (cx as isize) - (half_w as isize) + (inset as isize);
        let right = (cx as isize) + (half_w as isize) - (inset as isize);
        let y = (top_y + i) as isize;
        let ghost before = b@;
        pot_row_exec(b, dice, style, i, left, right, y);
        proof {
            lemma_fills_inside_chain(old(b)@, before, b@, cx - half_w - 1, cx + half_w + 1, top_y as int, top_y + 4, left as int, right as int, y as int, y as int);
        }
        i = i + 1;
    }
    let rim_left = (cx as isize) - (half_w as isize) - 1;
    let rim_right = (cx as isize) + (half_w as isize) + 1;
    let ghost body = b@;
    match style {
        PotStyle::Classic => {
            run_exec(b, dice, rim_left, rim_right, top_y as isize, '=', Ghost(pot_chars(style)));
        },
        PotStyle::Decorated => {
            place(b, rim_left, top_y as isize, '╔');
            let ghost corner = b@;
            proof {
                lemma_fills_inside_none(body, body, rim_left as int, rim_right as int, top_y as int, top_y as int);
                lemma_fills_inside_chain(body, body, corner, rim_left as int, rim_right as int, top_y as int, top_y as int, rim_left as int, rim_left as int, top_y as int, top_y as int);
            }
            place(b, rim_right, top_y as isize, '╗');
            proof {
                lemma_fills_inside_chain(body, corner, b@, rim_left as int, rim_right as int, top_y as int, top_y as int, rim_right as int, rim_right as int, top_y as int, top_y as int);
            }
        },
        _ => {
            proof {
                lemma_fills_inside_none(body, b@, rim_left as int, rim_right as int, top_y as int, top_y as int);
            }
        },
    }
    proof {
        lemma_fills_inside_chain(old(b)@, body, b@, cx - half_w - 1, cx + half_w + 1, top_y as int, top_y + 4, rim_left as int, rim_right as int, top_y as int, top_y as int);
    }
    let soil_y = (top_y + 1) as isize;
    let soil_left = (cx as isize) - (half_w as isize) + 1;
    let soil_right = (cx as isize) + (half_w as isize) - 1;
    let ghost rimmed = b@;
    soil_exec(b, dice, soil_left, soil_right, soil_y, Ghost(pot_chars(style)));
    proof {
        lemma_fills_inside_chain(old(b)@, rimmed, b@, cx - half_w - 1, cx + half_w + 1, top_y as int, top_y + 4, soil_left as int, soil_right as int, soil_y as int, soil_y as int);
        law_changes_stay_inside(old(b)@, b@, cx - half_w - 1, cx + half_w + 1, top_y as int, top_y + 4);
    }
}

} // verus!

verus! {

proof fn lemma_pot_cell_confined(st: Stage, style: PotStyle, i: int, x: int, left: int, right: int, y: int)
    requires
        st.0.wf(),
    ensures
        confined(st.0, pot_cell(st, style, i, x, left, right, y).0, x, x, y, y),
{
    let d = chance_draw(st.1, DECOR_CUT);
    let k = usize_below_draw(d.1, 6);
    let g = chance_draw(st.1, GLAZE_CUT);
    lemma_confined_none(st.0, x, x, y, y);
    lemma_confined_put(st.0, x, y, '#', x, x, y, y);
    lemma_confined_put(st.0, x, y, '~', x, x, y, y);
    lemma_confined_put(st.0, x, y, '.', x, x, y, y);
    lemma_confined_put(st.0, x, y, '+', x, x, y, y);
    lemma_confined_put(st.0, x, y, '-', x, x, y, y);
    lemma_confined_put(st.0, x, y, 'O', x, x, y, y);
    lemma_confined_put(st.0, x, y, 'o', x, x, y, y);
    lemma_confined_put(st.0, x, y, '║', x, x, y, y);
    lemma_confined_put(st.0, x, y, '═', x, x, y, y);
    lemma_confined_put(st.0, x, y, '▀', x, x, y, y);
    lemma_confined_put(st.0, x, y, decor_palette()[k.0 as int], x, x, y, y);
}

proof fn lemma_pot_row_confined(st: Stage, style: PotStyle, i: int, left: int, right: int, y: int, k: int)
    requires
        st.0.wf(),
    ensures
        confined(st.0, pot_row(st, style, i, left, right, y, k).0, left, left + k - 1, y, y),
    decreases k,
{
    if k <= 0 {
        lemma_confined_none(st.0, left, left + k - 1, y, y);
    } else {
        let prev = pot_row(st, style, i, left, right, y, k - 1);
        lemma_pot_row_confined(st, style, i, left, right, y, k - 1);
        lemma_pot_cell_confined(prev, style, i, left + k - 1, left, right, y);
        lemma_confined_widen(st.0, prev.0, left, left + k - 1, y, y, left, left + k - 2, y, y);
        lemma_confined_chain(
            st.0,
            prev.0,
            pot_row(st, style, i, left, right, y, k).0,
            left,
            left + k - 1,
            y,
            y,
            left + k - 1,
            left + k - 1,
            y,
            y,
        );
    }
}

} // verus!

verus! {

proof fn lemma_pot_rows_confined(st: Stage, style: PotStyle, cx: int, hw: int, top_y: int, n: int)
    requires
        st.0.wf(),
    ensures
        confined(st.0, pot_rows(st, style, cx, hw, top_y, n).0, cx - hw, cx + hw, top_y, top_y + n - 1),
    decreases n,
{
    if n <= 0 {
        lemma_confined_none(st.0, cx - hw, cx + hw, top_y, top_y + n - 1);
    } else {
        let i = n - 1;
        let prev = pot_rows(st, style, cx, hw, top_y, i);
        let left = cx - hw + pot_inset(style, i);
        let right = cx + hw - pot_inset(style, i);
        let next = pot_rows(st, style, cx, hw, top_y, n);
        lemma_pot_rows_confined(st, style, cx, hw, top_y, i);
        if right < left {
            assert(next == pot_row(prev, style, i, left, right, top_y + i, right - left + 1));
            assert(next == prev);
            lemma_confined_widen(st.0, prev.0, cx - hw, cx + hw, top_y, top_y + n - 1, cx - hw, cx + hw, top_y, top_y + n - 2);
        } else {
            assert(prev.0.wf());
            lemma_pot_row_confined(prev, style, i, left, right, top_y + i, right - left + 1);
            lemma_confined_join(
                st.0,
                prev.0,
                next.0,
                cx - hw,
                cx + hw,
                top_y,
                top_y + n - 1,
                cx - hw,
                cx + hw,
                top_y,
                top_y + n - 2,
                left,
                right,
                top_y + i,
                top_y + i,
            );
        }
    }
}

proof fn lemma_soil_run_confined(st: Stage, left: int, y: int, k: int)
    requires
        st.0.wf(),
    ensures
        confined(st.0, soil_run(st, left, y, k).0, left, left + k - 1, y, y),
    decreases k,
{
    if k <= 0 {
        lemma_confined_none(st.0, left, left + k - 1, y, y);
    } else {
        let prev = soil_run(st, left, y, k - 1);
        let d = usize_below_draw(prev.1, 4);
        lemma_soil_run_confined(st, left, y, k - 1);
        lemma_confined_put(prev.0, left + k - 1, y, soil_palette()[d.0 as int], left + k - 1, left + k - 1, y, y);
        lemma_confined_join(
            st.0,
            prev.0,
            soil_run(st, left, y, k).0,
            left,
            left + k - 1,
            y,
            y,
            left,
            left + k - 2,
            y,
            y,
            left + k - 1,
            left + k - 1,
            y,
            y,
        );
    }
}

/// A decorated pot's rim has its corners the right way round: on a canvas
/// where both corner cells are blank, the top-left corner `╔` stands one
/// column left of the pot's body and the top-right corner `╗` one column
/// right of it, on the rim row.
pub proof fn law_decorated_rim_corners(st: Stage, cx: int, top_y: int)
    requires
        st.0.wf(),
        st.0.in_bounds(cx - pot_half_width(st.0.width) - 1, top_y),
        st.0.in_bounds(cx + pot_half_width(st.0.width) + 1, top_y),
        st.0.cell(cx - pot_half_width(st.0.width) - 1, top_y) == ' ',
        st.0.cell(cx + pot_half_width(st.0.width) + 1, top_y) == ' ',
    ensures
        pot_drawing(st, PotStyle::Decorated, cx, top_y).0.cell(cx - pot_half_width(st.0.width) - 1, top_y) == '╔',
        pot_drawing(st, PotStyle::Decorated, cx, top_y).0.cell(cx + pot_half_width(st.0.width) + 1, top_y) == '╗',
{
    let hw = pot_half_width(st.0.width);
    let l = cx - hw - 1;
    let r = cx + hw + 1;
    let body = pot_rows(st, PotStyle::Decorated, cx, hw, top_y, 5);
    lemma_pot_rows_confined(st, PotStyle::Decorated, cx, hw, top_y, 5);
    assert(body.0.cell(l, top_y) == ' ');
    assert(body.0.cell(r, top_y) == ' ');
    let one = body.0.put(l, top_y, '╔');
    let two = one.put(r, top_y, '╗');
    law_put_records(body.0, l, top_y, '╔');
    law_put_keeps_shape(body.0, l, top_y, '╔');
    law_first_writer_wins(body.0, l, top_y, '╔', r, top_y);
    law_put_records(one, r, top_y, '╗');
    law_first_writer_wins(one, r, top_y, '╗', l, top_y);
    law_put_keeps_shape(one, r, top_y, '╗');
    let rim = pot_rim(body, PotStyle::Decorated, cx, hw, top_y);
    assert(rim.0 == two);
    lemma_soil_run_confined(rim, cx - hw + 1, top_y + 1, 2 * hw - 1);
}

} // verus!

verus! {

/// The pot stays in its own box: every fill it makes, and every cell it
/// changes, lies in the five rows from `top_y` down and in the columns from
/// one left of its body to one right of it (`cx - half width - 1` to
/// `cx + half width + 1`), whatever its style.
pub proof fn law_pot_stays_in_its_box(st: Stage, style: PotStyle, cx: int, top_y: int)
    requires
        st.0.wf(),
    ensures
        ({
            let hw = pot_half_width(st.0.width);
            let done = pot_drawing(st, style, cx, top_y).0;
            &&& grows(st.0, done)
            &&& forall|i: int|
                st.0.order.len() <= i < done.order.len() ==> {
                    let f = #[trigger] done.order[i];
                    &&& cx - hw - 1 <= f.0 <= cx + hw + 1
                    &&& top_y <= f.1 <= top_y + 4
                }
            &&& forall|x: int, y: int|
                st.0.in_bounds(x, y) && !(cx - hw - 1 <= x <= cx + hw + 1 && top_y <= y <= top_y + 4)
                    ==> #[trigger] done.cell(x, y) == st.0.cell(x, y)
        }),
{
    let hw = pot_half_width(st.0.width);
    let x0 = cx - hw - 1;
    let x1 = cx + hw + 1;
    let body = pot_rows(st, style, cx, hw, top_y, 5);
    lemma_pot_rows_confined(st, style, cx, hw, top_y, 5);
    lemma_confined_widen(st.0, body.0, x0, x1, top_y, top_y + 4, cx - hw, cx + hw, top_y, top_y + 4);
    let rim = pot_rim(body, style, cx, hw, top_y);
    match style {
        PotStyle::Classic => {
            lemma_run_of_confined(body, x0, top_y, '=', 2 * hw + 3);
            lemma_confined_chain(st.0, body.0, rim.0, x0, x1, top_y, top_y + 4, x0, x1, top_y, top_y);
        },
        PotStyle::Decorated => {
            let one = body.0.put(x0, top_y, '╔');
            lemma_confined_put(body.0, x0, top_y, '╔', x0, x1, top_y, top_y);
            lemma_confined_put(one, x1, top_y, '╗', x0, x1, top_y, top_y);
            lemma_confined_chain(body.0, one, rim.0, x0, x1, top_y, top_y, x0, x1, top_y, top_y);
            lemma_confined_chain(st.0, body.0, rim.0, x0, x1, top_y, top_y + 4, x0, x1, top_y, top_y);
        },
        _ => {
            lemma_confined_none(body.0, x0, x1, top_y, top_y);
            lemma_confined_chain(st.0, body.0, rim.0, x0, x1, top_y, top_y + 4, x0, x1, top_y, top_y);
        },
    }
    lemma_soil_run_confined(rim, cx - hw + 1, top_y + 1, 2 * hw - 1);
    lemma_confined_join(
        st.0,
        rim.0,
        pot_drawing(st, style, cx, top_y).0,
        x0,
        x1,
        top_y,
        top_y + 4,
        x0,
        x1,
        top_y,
        top_y + 4,
        cx - hw + 1,
        cx + hw - 1,
        top_y + 1,
        top_y + 1,
    );
    reveal(fills_inside);
}

} // verus!
