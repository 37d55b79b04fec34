//! A pine: a straight trunk under stacked layers of needles that narrow upwards.
use crate::canvas::{confined, lemma_run_of_confined, fills_inside, law_grows_transitive, lemma_confined_chain, lemma_confined_join, lemma_confined_none, lemma_confined_put, fills_within, grows, place, put_at, roomy, run_exec, run_of, Bonsai, Stage};
use crate::dice::{chance_draw, usize_below_draw, Dice};
use vstd::prelude::*;

verus! {

/// A needle is drawn on a layer's own row when a draw passes this cut.
pub const NEEDLE_CUT: u32 = 2516582;

/// A needle is drawn on the row above a layer when a draw passes this cut
/// (one chance in two).
pub const HALF_CUT: u32 = 8388608;

pub open spec fn needle_palette() -> Seq<char> {
    seq!['*', '^', 'v', '<', '>', '.']
}

/// Every character a pine may show.
pub open spec fn pine_chars() -> Set<char> {
    set!['|', '*', '^', 'v', '<', '>', '.']
}

/// Row `y` of the trunk: two cells wide in its lower half, one above.
pub open spec fn pine_trunk_row(st: Stage, cx: int, y: int, trunk_end: int, trunk_height: int) -> Stage {
    let thickness: int = if y > trunk_end + trunk_height / 2 {
        2
    } else {
        1
    };
    run_of(st, cx - thickness / 2, y, '|', thickness)
}

/// The first `k` trunk rows, from `bottom_y` upwards.
pub open spec fn pine_trunk(st: Stage, cx: int, bottom_y: int, trunk_end: int, trunk_height: int, k: int) -> Stage
    decreases k,
{
    if k <= 0 {
        st
    } else {
        pine_trunk_row(
            pine_trunk(st, cx, bottom_y, trunk_end, trunk_height, k - 1),
            cx,
            bottom_y - (k - 1),
            trunk_end,
            trunk_height,
        )
    }
}

/// One column `x` of a needle layer on row `y`: a needle on the row itself,
/// and another on the row above.
pub open spec fn needle_cell(st: Stage, x: int, y: int) -> Stage {
    let d1 = usize_below_draw(st.1, 6);
    let c1 = chance_draw(d1.1, NEEDLE_CUT);
    let p1 = if c1.0 {
        st.0.put(x, y, needle_palette()[d1.0 as int])
    } else {
        st.0
    };
    let c2 = chance_draw(c1.1, HALF_CUT);
    if c2.0 && y - 1 >= 0 {
        let d2 = usize_below_draw(c2.1, 6);
        (p1.put(x, y - 1, needle_palette()[d2.0 as int]), d2.1)
    } else {
        (p1, c2.1)
    }
}

/// The first `k` columns of a needle layer from `left` rightwards.
pub open spec fn needle_row(st: Stage, left: int, y: int, k: int) -> Stage
    decreases k,
{
    if k <= 0 {
        st
    } else {
        needle_cell(needle_row(st, left, y, k - 1), left + k - 1, y)
    }
}

/// The first `k` needle layers, each three rows above the last and one
/// column narrower; a layer above row 2, or of no width, is not drawn.
pub open spec fn pine_layers(st: Stage, cx: int, foliage_start: int, base_width: int, k: int) -> Stage
    decreases k,
{
    if k <= 0 {
        st
    } else {
        let prev = pine_layers(st, cx, foliage_start, base_width, k - 1);
        let layer = k - 1;
        let layer_y = foliage_start - layer * 3;
        let layer_width = base_width - layer;
        if layer_y < 2 || layer_width < 1 {
            prev
        } else {
            let half = layer_width / 2;
            needle_row(prev, cx - half, layer_y, 2 * half + 1)
        }
    }
}

/// The whole pine standing on row `bottom_y`, centred on column `cx`.
pub open spec fn pine_drawing(st: Stage, cx: int, bottom_y: int, trunk_height: int, density: int) -> Stage {
    let trunk_end = bottom_y - trunk_height;
    let trunk = pine_trunk(st, cx, bottom_y, trunk_end, trunk_height, trunk_height + 1);
    pine_layers(trunk, cx, trunk_end - 1, 5 + density * 2, 4 + density)
}

fn needle_cell_exec(b: &mut Bonsai, dice: &mut Dice, x: isize, y: isize)
    requires
        old(b).wf(),
        old(b)@.faithful(),
        old(b)@.tidy(),
        isize::MIN < y,
    ensures
        final(b).wf(),
        final(b)@.faithful(),
        final(b)@.tidy(),
        final(b).width == old(b).width,
        final(b).height == old(b).height,
        grows(old(b)@, final(b)@),
        fills_within(old(b)@, final(b)@, pine_chars()),
        (final(b)@, final(dice).state()) == needle_cell((old(b)@, old(dice).state()), x as int, y as int),
{
    let needle_chars = ['*', '^', 'v', '<', '>', '.'];
    assert(needle_chars@ == needle_palette());
    let idx = dice.below(needle_chars.len());
    if dice.chance(NEEDLE_CUT) {
        place(b, x, y, needle_chars[idx]);
    }
    if dice.chance(HALF_CUT) && y - 1 >= 0 {
        let idx2 = dice.below(needle_chars.len());
        place(b, x, y - 1, needle_chars[idx2]);
    }
}

fn needle_row_exec(b: &mut Bonsai, dice: &mut Dice, left: isize, right: isize, y: isize)
    requires
        old(b).wf(),
        old(b)@.faithful(),
        old(b)@.tidy(),
        isize::MIN + 1000 <= left,
        right <= isize::MAX - 1000,
        isize::MIN + 1000 <= y,
    ensures
        final(b).wf(),
        final(b)@.faithful(),
        final(b)@.tidy(),
        final(b).width == old(b).width,
        final(b).height == old(b).height,
        grows(old(b)@, final(b)@),
        fills_within(old(b)@, final(b)@, pine_chars()),
        (final(b)@, final(dice).state()) == needle_row(
            (old(b)@, old(dice).state()),
            left as int,
            y as int,
            right - left + 1,
        ),
{
    let ghost init: Stage = (b@, dice.state());
    let mut x = left;
    while x <= right
        invariant
            b.wf(),
            b@.faithful(),
            b@.tidy(),
            b.width == old(b).width,
            b.height == old(b).height,
            grows(old(b)@, b@),
            fills_within(old(b)@, b@, pine_chars()),
            left <= x <= right + 1 || (x == left && left > right),
            isize::MIN + 1000 <= left,
            right <= isize::MAX - 1000,
            isize::MIN + 1000 <= y,
            (b@, dice.state()) == needle_row(init, left as int, y as int, x - left),
        decreases right + 1 - x,
    {
        needle_cell_exec(b, dice, x, y);
        x = x + 1;
    }
}

/// Draws a pine standing on row `bottom_y`, centred on column `cx`, with a
/// trunk `trunk_height` rows tall above its base row.
pub(crate) fn draw_pine(
    b: &mut Bonsai,
    cx: usize,
    bottom_y: usize,
    trunk_height: usize,
    density: u8,
    dice: &mut Dice,
)
    requires
        old(b).wf(),
        old(b)@.faithful(),
        old(b)@.tidy(),
        roomy(old(b)@),
        cx <= old(b).width,
        bottom_y <= old(b).height,
        trunk_height < bottom_y,
    ensures
        final(b).wf(),
        final(b)@.faithful(),
        final(b)@.tidy(),
        final(b).width == old(b).width,
        final(b).height == old(b).height,
        grows(old(b)@, final(b)@),
        fills_within(old(b)@, final(b)@, pine_chars()),
        (final(b)@, final(dice).state()) == pine_drawing(
            (old(b)@, old(dice).state()),
            cx as int,
            bottom_y as int,
            trunk_height as int,
            density as int,
        ),
{
    let ghost init: Stage = (b@, dice.state());
    let density_mult = density as isize;
    let trunk_start = bottom_y;
    let trunk_end = bottom_y - trunk_height;
    let rows = trunk_start - trunk_end + 1;
    let mut k: usize = 0;
    while k < rows
        invariant
            b.wf(),
            b@.faithful(),
            b@.tidy(),
            b.width == old(b).width,
            b.height == old(b).height,
            grows(old(b)@, b@),
            fills_within(old(b)@, b@, pine_chars()),
            k <= rows,
            rows == trunk_height + 1,
            trunk_start == bottom_y,
            trunk_height < bottom_y,
            trunk_end == bottom_y - trunk_height,
            cx <= b.width,
            bottom_y <= b.height,
            roomy(b@),
            (b@, dice.state()) == pine_trunk(
                init,
                cx as int,
                bottom_y as int,
                trunk_end as int,
                trunk_height as int,
                k as int,
            ),
        decreases rows - k,
    {
        let y = trunk_start - k;
        let thickness: isize = if y > trunk_end + trunk_height / 2 {
            2
        } else {
            1
        };
        let left = cx as isize - thickness / 2;
        run_exec(b, dice, left, left + thickness - 1, y as isize, '|', Ghost(pine_chars()));
        k = k + 1;
    }
    let foliage_start = trunk_end - 1;
    let layers = 4 + density_mult as usize;
    let base_width = 5 + density_mult * 2;
    let ghost mid: Stage = (b@, dice.state());
    let mut layer: usize = 0;
    while layer < layers
        invariant
            b.wf(),
            b@.faithful(),
            b@.tidy(),
            b.width == old(b).width,
            b.height == old(b).height,
            grows(old(b)@, b@),
            fills_within(old(b)@, b@, pine_chars()),
            layer <= layers,
            layers == 4 + density,
            base_width == 5 + density * 2,
            foliage_start < bottom_y,
            bottom_y <= b.height,
            cx <= b.width,
            roomy(b@),
            (b@, dice.state()) == pine_layers(
                mid,
                cx as int,
                foliage_start as int,
                base_width as int,
                layer as int,
            ),
        decreases layers - layer,
    {
        let layer_y = foliage_start as isize - (layer as isize) * 3;
        let layer_width = base_width - layer as isize;
        if layer_y >= 2 && layer_width >= 1 {
            let half_w = layer_width / 2;
            needle_row_exec(b, dice, cx as isize - half_w, cx as isize + half_w, layer_y);
        }
        layer = layer + 1;
    }
}

} // verus!

verus! {

proof fn lemma_needle_cell_confined(st: Stage, x: int, y: int)
    requires
        st.0.wf(),
    ensures
        confined(st.0, needle_cell(st, x, y).0, x, x, y - 1, y),
{
    let d1 = usize_below_draw(st.1, 6);
    let c1 = chance_draw(d1.1, NEEDLE_CUT);
    let p1 = if c1.0 {
        st.0.put(x, y, needle_palette()[d1.0 as int])
    } else {
        st.0
    };
    let c2 = chance_draw(c1.1, HALF_CUT);
    let d2 = usize_below_draw(c2.1, 6);
    lemma_confined_put(st.0, x, y, needle_palette()[d1.0 as int], x, x, y - 1, y);
    lemma_confined_none(st.0, x, x, y - 1, y);
    assert(p1.wf());
    lemma_confined_put(p1, x, y - 1, needle_palette()[d2.0 as int], x, x, y - 1, y);
    lemma_confined_none(p1, x, x, y - 1, y);
    lemma_confined_chain(st.0, p1, needle_cell(st, x, y).0, x, x, y - 1, y, x, x, y - 1, y);
}

proof fn lemma_needle_row_confined(st: Stage, left: int, y: int, k: int)
    requires
        st.0.wf(),
    ensures
        confined(st.0, needle_row(st, left, y, k).0, left, left + k - 1, y - 1, y),
    decreases k,
{
    if k <= 0 {
        lemma_confined_none(st.0, left, left + k - 1, y - 1, y);
    } else {
        let prev = needle_row(st, left, y, k - 1);
        lemma_needle_row_confined(st, left, y, k - 1);
        lemma_needle_cell_confined(prev, left + k - 1, y);
        lemma_confined_join(
            st.0,
            prev.0,
            needle_row(st, left, y, k).0,
            left,
            left + k - 1,
            y - 1,
            y,
            left,
            left + k - 2,
            y - 1,
            y,
            left + k - 1,
            left + k - 1,
            y - 1,
            y,
        );
    }
}

proof fn lemma_pine_layers_grow(st: Stage, cx: int, foliage_start: int, base_width: int, k: int)
    requires
        st.0.wf(),
    ensures
        grows(st.0, pine_layers(st, cx, foliage_start, base_width, k).0),
    decreases k,
{
    if k <= 0 {
        lemma_confined_none(st.0, 0, 0, 0, 0);
    } else {
        let prev = pine_layers(st, cx, foliage_start, base_width, k - 1);
        lemma_pine_layers_grow(st, cx, foliage_start, base_width, k - 1);
        let layer = k - 1;
        let layer_y = foliage_start - layer * 3;
        let layer_width = base_width - layer;
        let half = layer_width / 2;
        if !(layer_y < 2 || layer_width < 1) {
            lemma_needle_row_confined(prev, cx - half, layer_y, 2 * half + 1);
            law_grows_transitive(st.0, prev.0, pine_layers(st, cx, foliage_start, base_width, k).0);
        }
    }
}

/// The pine narrows going up: every needle of layer `k` (drawn on row
/// `foliage_start - 3k` or on the row above it) lies within
/// `(base_width - k) / 2` columns of the centre, so each layer is one column
/// narrower than the layer below it.
pub proof fn law_pine_layers_narrow(st: Stage, cx: int, foliage_start: int, base_width: int, k: int)
    requires
        st.0.wf(),
        0 <= k,
    ensures
        forall|i: int|
            pine_layers(st, cx, foliage_start, base_width, k).0.order.len() <= i < pine_layers(
                st,
                cx,
                foliage_start,
                base_width,
                k + 1,
            ).0.order.len() ==> {
                let f = #[trigger] pine_layers(st, cx, foliage_start, base_width, k + 1).0.order[i];
                &&& cx - (base_width - k) / 2 <= f.0 <= cx + (base_width - k) / 2
                &&& foliage_start - 3 * k - 1 <= f.1 <= foliage_start - 3 * k
            },
{
    let prev = pine_layers(st, cx, foliage_start, base_width, k);
    let next = pine_layers(st, cx, foliage_start, base_width, k + 1);
    lemma_pine_layers_grow(st, cx, foliage_start, base_width, k);
    let layer_y = foliage_start - k * 3;
    let layer_width = base_width - k;
    let half = layer_width / 2;
    if !(layer_y < 2 || layer_width < 1) {
        lemma_needle_row_confined(prev, cx - half, layer_y, 2 * half + 1);
        reveal(fills_inside);
    }
}

} // verus!

verus! {

/// Fill `f` is a cell of a pine trunk centred on `cx` over rows
/// `trunk_end..=bottom_y`: in column `cx`, or in column `cx - 1` below the
/// upper half of the trunk.
pub open spec fn pine_trunk_spot(f: (usize, usize, char), cx: int, bottom_y: int, trunk_end: int, trunk_height: int) -> bool {
    &&& trunk_end <= f.1 <= bottom_y
    &&& cx - 1 <= f.0 <= cx
    &&& f.0 == cx - 1 ==> f.1 > trunk_end + trunk_height / 2
}

proof fn lemma_pine_trunk_spots(st: Stage, cx: int, bottom_y: int, trunk_end: int, trunk_height: int, k: int)
    requires
        st.0.wf(),
        bottom_y - k + 1 >= trunk_end,
    ensures
        grows(st.0, pine_trunk(st, cx, bottom_y, trunk_end, trunk_height, k).0),
        forall|i: int|
            st.0.order.len() <= i < pine_trunk(st, cx, bottom_y, trunk_end, trunk_height, k).0.order.len()
                ==> pine_trunk_spot(
                #[trigger] pine_trunk(st, cx, bottom_y, trunk_end, trunk_height, k).0.order[i],
                cx,
                bottom_y,
                trunk_end,
                trunk_height,
            ),
    decreases k,
{
    if k <= 0 {
        lemma_confined_none(st.0, 0, 0, 0, 0);
    } else {
        let prev = pine_trunk(st, cx, bottom_y, trunk_end, trunk_height, k - 1);
        let next = pine_trunk(st, cx, bottom_y, trunk_end, trunk_height, k);
        lemma_pine_trunk_spots(st, cx, bottom_y, trunk_end, trunk_height, k - 1);
        let y = bottom_y - (k - 1);
        let t: int = if y > trunk_end + trunk_height / 2 {
            2
        } else {
            1
        };
        lemma_run_of_confined(prev, cx - t / 2, y, '|', t);
        law_grows_transitive(st.0, prev.0, next.0);
        reveal(fills_inside);
        assert forall|i: int| st.0.order.len() <= i < next.0.order.len() implies pine_trunk_spot(
            #[trigger] next.0.order[i],
            cx,
            bottom_y,
            trunk_end,
            trunk_height,
        ) by {
            if i < prev.0.order.len() {
                assert(next.0.order[i] == prev.0.order[i]);
            }
        }
    }
}

proof fn lemma_pine_layer_grows(st: Stage, cx: int, foliage_start: int, base_width: int, k: int)
    requires
        st.0.wf(),
        0 < k,
    ensures
        grows(
            pine_layers(st, cx, foliage_start, base_width, k - 1).0,
            pine_layers(st, cx, foliage_start, base_width, k).0,
        ),
{
    let prev = pine_layers(st, cx, foliage_start, base_width, k - 1);
    lemma_pine_layers_grow(st, cx, foliage_start, base_width, k - 1);
    let layer = k - 1;
    let layer_y = foliage_start - layer * 3;
    let layer_width = base_width - layer;
    let half = layer_width / 2;
    lemma_confined_none(prev.0, 0, 0, 0, 0);
    if !(layer_y < 2 || layer_width < 1) {
        lemma_needle_row_confined(prev, cx - half, layer_y, 2 * half + 1);
    }
}

proof fn lemma_pine_layers_spots(st: Stage, cx: int, foliage_start: int, base_width: int, k: int)
    requires
        st.0.wf(),
        0 <= k,
    ensures
        grows(st.0, pine_layers(st, cx, foliage_start, base_width, k).0),
        forall|i: int|
            st.0.order.len() <= i < pine_layers(st, cx, foliage_start, base_width, k).0.order.len() ==> {
                let f = #[trigger] pine_layers(st, cx, foliage_start, base_width, k).0.order[i];
                &&& cx - base_width / 2 <= f.0 <= cx + base_width / 2
                &&& f.1 <= foliage_start
            },
    decreases k,
{
    lemma_pine_layers_grow(st, cx, foliage_start, base_width, k);
    if k > 0 {
        let prev = pine_layers(st, cx, foliage_start, base_width, k - 1);
        let next = pine_layers(st, cx, foliage_start, base_width, k);
        lemma_pine_layers_spots(st, cx, foliage_start, base_width, k - 1);
        law_pine_layers_narrow(st, cx, foliage_start, base_width, k - 1);
        assert forall|i: int| st.0.order.len() <= i < next.0.order.len() implies {
            let f = #[trigger] next.0.order[i];
            &&& cx - base_width / 2 <= f.0 <= cx + base_width / 2
            &&& f.1 <= foliage_start
        } by {
            let again = pine_layers(st, cx, foliage_start, base_width, (k - 1) + 1);
            assert(again == next);
            if i < prev.0.order.len() {
                lemma_pine_layer_grows(st, cx, foliage_start, base_width, k);
                assert(next.0.order[i] == prev.0.order[i]);
            } else {
                let f = again.0.order[i];
                assert(cx - (base_width - (k - 1)) / 2 <= f.0 <= cx + (base_width - (k - 1)) / 2);
                assert((base_width - (k - 1)) / 2 <= base_width / 2);
            }
        }
    }
}

/// Every cell a pine fills is part of its trunk or a needle above it: a
/// trunk cell lies on a row from `bottom_y - trunk_height` to `bottom_y`, in
/// column `cx` or, below the trunk's upper half, in column `cx - 1`; a
/// needle lies above the trunk, within `(5 + 2 density) / 2` columns of
/// `cx`.
pub proof fn law_pine_shape(st: Stage, cx: int, bottom_y: int, trunk_height: int, density: int)
    requires
        st.0.wf(),
        0 <= trunk_height,
        0 <= density,
    ensures
        ({
            let done = pine_drawing(st, cx, bottom_y, trunk_height, density).0;
            let trunk_end = bottom_y - trunk_height;
            forall|i: int|
                st.0.order.len() <= i < done.order.len() ==> pine_trunk_spot(
                    #[trigger] done.order[i],
                    cx,
                    bottom_y,
                    trunk_end,
                    trunk_height,
                ) || {
                    &&& done.order[i].1 < trunk_end
                    &&& cx - (5 + 2 * density) / 2 <= done.order[i].0 <= cx + (5 + 2 * density) / 2
                }
        }),
{
    let trunk_end = bottom_y - trunk_height;
    let trunk = pine_trunk(st, cx, bottom_y, trunk_end, trunk_height, trunk_height + 1);
    lemma_pine_trunk_spots(st, cx, bottom_y, trunk_end, trunk_height, trunk_height + 1);
    lemma_pine_layers_spots(trunk, cx, trunk_end - 1, 5 + density * 2, 4 + density);
    let done = pine_drawing(st, cx, bottom_y, trunk_height, density).0;
    assert forall|i: int| st.0.order.len() <= i < done.order.len() implies pine_trunk_spot(
        #[trigger] done.order[i],
        cx,
        bottom_y,
        trunk_end,
        trunk_height,
    ) || {
        &&& done.order[i].1 < trunk_end
        &&& cx - (5 + 2 * density) / 2 <= done.order[i].0 <= cx + (5 + 2 * density) / 2
    } by {
        if i < trunk.0.order.len() {
            assert(done.order[i] == trunk.0.order[i]);
        }
    }
}

} // verus!
