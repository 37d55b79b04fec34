//! A weeping willow: a swaying trunk, an oval canopy and hanging strands.
use crate::canvas::{law_first_writer_wins, law_grows_transitive, law_put_grows, law_put_keeps_shape, law_put_records, lemma_confined_none, Picture, fills_within, grows, place, put_at, roomy, Bonsai, Stage};
use crate::dice::{chance_draw, i32_range_draw, usize_below_draw, Dice};
use vstd::prelude::*;

verus! {

/// A leaf of the canopy is drawn when a draw passes this cut.
pub const WILLOW_LEAF_CUT: u32 = 4194304;

/// How far each part of a willow leans: `trunk[y]` is the lean of the trunk
/// on row `y`, `strands[l]` the lean of step `l` down a hanging strand.
/// Each lean lies in -2..=2.
pub struct Sway {
    pub trunk: Vec<isize>,
    pub strands: Vec<isize>,
}

/// Number of steps of the longest hanging strand.
pub const STRAND_STEPS: usize = 13;

impl Sway {
    /// Every lean lies in -2..=2, there is a lean for each of `rows` rows, and
    /// one for each step of the longest strand.
    pub open spec fn covers(&self, rows: int) -> bool {
        &&& self.trunk@.len() >= rows
        &&& self.strands@.len() >= STRAND_STEPS
        &&& forall|i: int| 0 <= i < self.trunk@.len() ==> -2 <= #[trigger] self.trunk@[i] <= 2
        &&& forall|i: int| 0 <= i < self.strands@.len() ==> -2 <= #[trigger] self.strands@[i] <= 2
    }
}

/// Every character a willow may show.
pub open spec fn willow_chars() -> Set<char> {
    set!['/', '\\', ',', '.', '`', '\'', ';']
}

pub open spec fn willow_leaf_palette() -> Seq<char> {
    seq![',', '.', '`', '\'', ';']
}

pub open spec fn strand_palette() -> Seq<char> {
    seq![',', '.', '`']
}

/// Row `y` of the trunk: a `/` leaning by `lean`, with a `\` to its left.
pub open spec fn willow_trunk_row(st: Stage, cx: int, y: int, lean: int) -> Stage {
    put_at(put_at(st, cx + lean, y, '/'), cx + lean - 1, y, '\\')
}

/// The first `k` trunk rows, from `bottom_y` upwards.
pub open spec fn willow_trunk(st: Stage, cx: int, bottom_y: int, trunk: Seq<isize>, k: int) -> Stage
    decreases k,
{
    if k <= 0 {
        st
    } else {
        let y = bottom_y - (k - 1);
        willow_trunk_row(willow_trunk(st, cx, bottom_y, trunk, k - 1), cx, y, trunk[y] as int)
    }
}

/// Offset (`dx`, `dy`) lies in the willow's canopy of radius `r`: an oval
/// twice as wide as it is tall.
pub open spec fn in_willow_canopy(dx: int, dy: int, r: int) -> bool {
    dx * dx + 4 * (dy * dy) <= 4 * (r * r)
}

/// One cell of the canopy: inside the oval and above the trunk top, a leaf
/// is drawn when a draw passes the cut.
pub open spec fn willow_leaf(st: Stage, cx: int, top: int, trunk_end: int, r: int, dx: int, dy: int) -> Stage {
    if in_willow_canopy(dx, dy, r) && top + dy < trunk_end {
        let c = chance_draw(st.1, WILLOW_LEAF_CUT);
        if c.0 {
            let d = usize_below_draw(c.1, 5);
            (st.0.put(cx + dx, top + dy, willow_leaf_palette()[d.0 as int]), d.1)
        } else {
            (st.0, c.1)
        }
    } else {
        st
    }
}

/// The first `k` cells of canopy row `dy`, from `dx = -2r` rightwards.
pub open spec fn willow_canopy_row(st: Stage, cx: int, top: int, trunk_end: int, r: int, dy: int, k: int) -> Stage
    decreases k,
{
    if k <= 0 {
        st
    } else {
        willow_leaf(
            willow_canopy_row(st, cx, top, trunk_end, r, dy, k - 1),
            cx,
            top,
            trunk_end,
            r,
            -2 * r + (k - 1),
            dy,
        )
    }
}

/// The first `k` canopy rows, from `dy = -r` downwards.
pub open spec fn willow_canopy(st: Stage, cx: int, top: int, trunk_end: int, r: int, k: int) -> Stage
    decreases k,
{
    if k <= 0 {
        st
    } else {
        willow_canopy_row(
            willow_canopy(st, cx, top, trunk_end, r, k - 1),
            cx,
            top,
            trunk_end,
            r,
            -r + (k - 1),
            4 * r + 1,
        )
    }
}

/// The first `k` steps of a strand hanging from row `top` at column `x`:
/// step `l` is drawn on row `top + l`, leaning by `strands[l]`, while it stays
/// more than three rows above `bottom_y`.
pub open spec fn strand_run(st: Stage, x: int, top: int, bottom_y: int, strands: Seq<isize>, k: int) -> Stage
    decreases k,
{
    if k <= 0 {
        st
    } else {
        let prev = strand_run(st, x, top, bottom_y, strands, k - 1);
        let l = k - 1;
        if top + l < bottom_y - 3 {
            let d = usize_below_draw(prev.1, 3);
            (prev.0.put(x + strands[l] as int, top + l, strand_palette()[d.0 as int]), d.1)
        } else {
            prev
        }
    }
}

/// The first `k` strands, three columns apart and centred on `cx`, each of
/// 8 to 13 steps (the length is drawn first).
pub open spec fn willow_strands(
    st: Stage,
    cx: int,
    count: int,
    top: int,
    bottom_y: int,
    strands: Seq<isize>,
    k: int,
) -> Stage
    decreases k,
{
    if k <= 0 {
        st
    } else {
        let prev = willow_strands(st, cx, count, top, bottom_y, strands, k - 1);
        let offset = ((k - 1) - count / 2) * 3;
        let len = i32_range_draw(prev.1, 0, 6);
        strand_run((prev.0, len.1), cx + offset, top, bottom_y, strands, 8 + len.0)
    }
}

/// The whole willow standing on row `bottom_y`, centred on column `cx`.
pub open spec fn willow_drawing(
    st: Stage,
    cx: int,
    bottom_y: int,
    tree_height: int,
    trunk_height: int,
    density: int,
    sway: Seq<isize>,
    strands: Seq<isize>,
) -> Stage {
    let trunk_end = bottom_y - trunk_height;
    let trunk = willow_trunk(st, cx, bottom_y, sway, trunk_height + 1);
    let top = trunk_end - tree_height / 2;
    let r = 8 + density * 3;
    let canopy = willow_canopy(trunk, cx, top, trunk_end, r, 2 * r + 1);
    let count = 6 + density;
    willow_strands(canopy, cx, count, top, bottom_y, strands, count)
}

fn willow_leaf_exec(
    b: &mut Bonsai,
    dice: &mut Dice,
    cx: isize,
    top: isize,
    trunk_end: isize,
    r: isize,
    dx: isize,
    dy: isize,
)
    requires
        old(b).wf(),
        old(b)@.faithful(),
        old(b)@.tidy(),
        0 <= r <= 1000,
        -2 * r <= dx <= 2 * r,
        -r <= dy <= r,
        -(isize::MAX / 2) <= cx <= isize::MAX / 2,
        -(isize::MAX / 2) <= top <= isize::MAX / 2,
    ensures
        final(b).wf(),
        final(b)@.faithful(),
        final(b)@.tidy(),
        final(b).width == old(b).width,
        final(b).height == old(b).height,
        grows(old(b)@, final(b)@),
        fills_within(old(b)@, final(b)@, willow_chars()),
        (final(b)@, final(dice).state()) == willow_leaf(
            (old(b)@, old(dice).state()),
            cx as int,
            top as int,
            trunk_end as int,
            r as int,
            dx as int,
            dy as int,
        ),
{
    proof {
        assert(0 <= dx * dx <= 4000000) by (nonlinear_arith)
            requires
                -2000 <= dx <= 2000,
        ;
        assert(0 <= dy * dy <= 1000000) by (nonlinear_arith)
            requires
                -1000 <= dy <= 1000,
        ;
        assert(0 <= r * r <= 1000000) by (nonlinear_arith)
            requires
                0 <= r <= 1000,
        ;
    }
    if dx * dx + 4 * (dy * dy) <= 4 * (r * r) {
        let x = cx + dx;
        let y = top + dy;
        if y < trunk_end && dice.chance(WILLOW_LEAF_CUT) {
            let leaf_chars = [',', '.', '`', '\'', ';'];
            assert(leaf_chars@ == willow_leaf_palette());
            let idx = dice.below(leaf_chars.len());
            place(b, x, y, leaf_chars[idx]);
        }
    }
}

fn willow_canopy_row_exec(
    b: &mut Bonsai,
    dice: &mut Dice,
    cx: isize,
    top: isize,
    trunk_end: isize,
    r: isize,
    dy: isize,
)
    requires
        old(b).wf(),
        old(b)@.faithful(),
        old(b)@.tidy(),
        0 <= r <= 1000,
        -r <= dy <= r,
        -(isize::MAX / 2) <= cx <= isize::MAX / 2,
        -(isize::MAX / 2) <= top <= isize::MAX / 2,
    ensures
        final(b).wf(),
        final(b)@.faithful(),
        final(b)@.tidy(),
        final(b).width == old(b).width,
        final(b).height == old(b).height,
        grows(old(b)@, final(b)@),
        fills_within(old(b)@, final(b)@, willow_chars()),
        (final(b)@, final(dice).state()) == willow_canopy_row(
            (old(b)@, old(dice).state()),
            cx as int,
            top as int,
            trunk_end as int,
            r as int,
            dy as int,
            4 * r + 1,
        ),
{
    let ghost init: Stage = (b@, dice.state());
    let mut dx = -r * 2;
    while dx <= r * 2
        invariant
            b.wf(),
            b@.faithful(),
            b@.tidy(),
            b.width == old(b).width,
            b.height == old(b).height,
            grows(old(b)@, b@),
            fills_within(old(b)@, b@, willow_chars()),
            0 <= r <= 1000,
            -r <= dy <= r,
            -(isize::MAX / 2) <= cx <= isize::MAX / 2,
            -(isize::MAX / 2) <= top <= isize::MAX / 2,
            -2 * r <= dx <= 2 * r + 1,
            (b@, dice.state()) == willow_canopy_row(
                init,
                cx as int,
                top as int,
                trunk_end as int,
                r as int,
                dy as int,
                dx + 2 * r,
            ),
        decreases 2 * r + 1 - dx,
    {
        willow_leaf_exec(b, dice, cx, top, trunk_end, r, dx, dy);
        dx = dx + 1;
    }
}

fn willow_strand_exec(
    b: &mut Bonsai,
    dice: &mut Dice,
    x: isize,
    top: isize,
    bottom_y: isize,
    sway: &Sway,
    len: i32,
)
    requires
        old(b).wf(),
        old(b)@.faithful(),
        old(b)@.tidy(),
        sway.covers(0),
        0 <= len <= STRAND_STEPS,
        -(isize::MAX / 2) <= x <= isize::MAX / 2,
        -(isize::MAX / 2) <= top <= isize::MAX / 2,
        -(isize::MAX / 2) <= bottom_y <= isize::MAX / 2,
    ensures
        final(b).wf(),
        final(b)@.faithful(),
        final(b)@.tidy(),
        final(b).width == old(b).width,
        final(b).height == old(b).height,
        grows(old(b)@, final(b)@),
        fills_within(old(b)@, final(b)@, willow_chars()),
        (final(b)@, final(dice).state()) == strand_run(
            (old(b)@, old(dice).state()),
            x as int,
            top as int,
            bottom_y as int,
            sway.strands@,
            len as int,
        ),
{
    let ghost init: Stage = (b@, dice.state());
    let mut l: i32 = 0;
    while l < len
        invariant
            b.wf(),
            b@.faithful(),
            b@.tidy(),
            b.width == old(b).width,
            b.height == old(b).height,
            grows(old(b)@, b@),
            fills_within(old(b)@, b@, willow_chars()),
            sway.covers(0),
            0 <= l <= len <= STRAND_STEPS,
            -(isize::MAX / 2) <= x <= isize::MAX / 2,
            -(isize::MAX / 2) <= top <= isize::MAX / 2,
            -(isize::MAX / 2) <= bottom_y <= isize::MAX / 2,
            (b@, dice.state()) == strand_run(
                init,
                x as int,
                top as int,
                bottom_y as int,
                sway.strands@,
                l as int,
            ),
        decreases len - l,
    {
        let lean = sway.strands[l as usize];
        let y = top + l as isize;
        if y < bottom_y - 3 {
            let strand_chars = [',', '.', '`'];
            assert(strand_chars@ == strand_palette());
            let idx = dice.below(strand_chars.len());
            place(b, x + lean, y, strand_chars[idx]);
        }
        l = l + 1;
    }
}

/// Draws a willow standing on row `bottom_y`, centred on column `cx`, with a
/// trunk `trunk_height` rows tall above its base row, leaning as `sway` says.
pub(crate) fn draw_willow(
    b: &mut Bonsai,
    cx: usize,
    bottom_y: usize,
    tree_height: usize,
    trunk_height: usize,
    density: u8,
    sway: &Sway,
    dice: &mut Dice,
)
    requires
        old(b).wf(),
        old(b)@.faithful(),
        old(b)@.tidy(),
        roomy(old(b)@),
        cx <= old(b).width,
        bottom_y <= old(b).height,
        trunk_height <= bottom_y,
        tree_height <= bottom_y,
        sway.covers(bottom_y + 1),
    ensures
        final(b).wf(),
        final(b)@.faithful(),
        final(b)@.tidy(),
        final(b).width == old(b).width,
        final(b).height == old(b).height,
        grows(old(b)@, final(b)@),
        fills_within(old(b)@, final(b)@, willow_chars()),
        (final(b)@, final(dice).state()) == willow_drawing(
            (old(b)@, old(dice).state()),
            cx as int,
            bottom_y as int,
            tree_height as int,
            trunk_height as int,
            density as int,
            sway.trunk@,
            sway.strands@,
        ),
{
    let ghost init: Stage = (b@, dice.state());
    let density_mult = density as isize;
    let trunk_start = bottom_y;
    let trunk_end = bottom_y - trunk_height;
    let rows = trunk_start - trunk_end + 1;
    let mut k: usize = 0;
    while k < rows
        invariant
            b.wf(),
            b@.faithful(),
            b@.tidy(),
            b.width == old(b).width,
            b.height == old(b).height,
            grows(old(b)@, b@),
            fills_within(old(b)@, b@, willow_chars()),
            k <= rows,
            rows == trunk_height + 1,
            trunk_start == bottom_y,
            trunk_height <= bottom_y,
            trunk_end == bottom_y - trunk_height,
            cx <= b.width,
            bottom_y <= b.height,
            roomy(b@),
            sway.covers(bottom_y + 1),
            (b@, dice.state()) == willow_trunk(init, cx as int, bottom_y as int, sway.trunk@, k as int),
        decreases rows - k,
    {
        let y = trunk_start - k;
        let lean = sway.trunk[y];
        place(b, cx as isize + lean, y as isize, '/');
        place(b, cx as isize + lean - 1, y as isize, '\\');
        k = k + 1;
    }
    let canopy_top = trunk_end as isize - (tree_height as isize) / 2;
    let canopy_radius = 8 + density_mult * 3;
    let ghost mid: Stage = (b@, dice.state());
    let mut dy = -canopy_radius;
    while dy <= canopy_radius
        invariant
            b.wf(),
            b@.faithful(),
            b@.tidy(),
            b.width == old(b).width,
            b.height == old(b).height,
            grows(old(b)@, b@),
            fills_within(old(b)@, b@, willow_chars()),
            canopy_radius == 8 + density * 3,
            -canopy_radius <= dy <= canopy_radius + 1,
            cx <= b.width,
            roomy(b@),
            trunk_end <= bottom_y,
            bottom_y <= b.height,
            tree_height <= bottom_y,
            canopy_top == trunk_end - tree_height / 2,
            (b@, dice.state()) == willow_canopy(
                mid,
                cx as int,
                canopy_top as int,
                trunk_end as int,
                canopy_radius as int,
                dy + canopy_radius,
            ),
        decreases canopy_radius + 1 - dy,
    {
        willow_canopy_row_exec(
            b,
            dice,
            cx as isize,
            canopy_top,
            trunk_end as isize,
            canopy_radius,
            dy,
        );
        dy = dy + 1;
    }
    let strand_count = 6 + density_mult as usize;
    let ghost late: Stage = (b@, dice.state());
    let mut s: usize = 0;
    while s < strand_count
        invariant
            b.wf(),
            b@.faithful(),
            b@.tidy(),
            b.width == old(b).width,
            b.height == old(b).height,
            grows(old(b)@, b@),
            fills_within(old(b)@, b@, willow_chars()),
            strand_count == 6 + density,
            s <= strand_count,
            cx <= b.width,
            roomy(b@),
            trunk_end <= bottom_y,
            bottom_y <= b.height,
            tree_height <= bottom_y,
            canopy_top == trunk_end - tree_height / 2,
            sway.covers(bottom_y + 1),
            (b@, dice.state()) == willow_strands(
                late,
                cx as int,
                strand_count as int,
                canopy_top as int,
                bottom_y as int,
                sway.strands@,
                s as int,
            ),
        decreases strand_count - s,
    {
        let offset = (s as isize - strand_count as isize / 2) * 3;
        let strand_x = cx as isize + offset;
        let strand_length = 8 + dice.range_i32(0, 6);
        willow_strand_exec(b, dice, strand_x, canopy_top, bottom_y as isize, sway, strand_length);
        s = s + 1;
    }
}

} // verus!

verus! {

proof fn lemma_put_grows_from(p: Picture, q: Picture, x: int, y: int, c: char)
    requires
        p.wf(),
        grows(p, q),
    ensures
        grows(p, q.put(x, y, c)),
{
    law_put_grows(q, x, y, c);
    law_grows_transitive(p, q, q.put(x, y, c));
}

proof fn lemma_willow_leaf_grows(st: Stage, cx: int, top: int, trunk_end: int, r: int, dx: int, dy: int)
    requires
        st.0.wf(),
    ensures
        grows(st.0, willow_leaf(st, cx, top, trunk_end, r, dx, dy).0),
{
    let c = chance_draw(st.1, WILLOW_LEAF_CUT);
    let d = usize_below_draw(c.1, 5);
    law_put_grows(st.0, cx + dx, top + dy, willow_leaf_palette()[d.0 as int]);
    lemma_confined_none(st.0, 0, 0, 0, 0);
}

proof fn lemma_willow_canopy_row_grows(st: Stage, cx: int, top: int, trunk_end: int, r: int, dy: int, k: int)
    requires
        st.0.wf(),
    ensures
        grows(st.0, willow_canopy_row(st, cx, top, trunk_end, r, dy, k).0),
    decreases k,
{
    if k <= 0 {
        lemma_confined_none(st.0, 0, 0, 0, 0);
    } else {
        let prev = willow_canopy_row(st, cx, top, trunk_end, r, dy, k - 1);
        lemma_willow_canopy_row_grows(st, cx, top, trunk_end, r, dy, k - 1);
        lemma_willow_leaf_grows(prev, cx, top, trunk_end, r, -2 * r + (k - 1), dy);
        law_grows_transitive(st.0, prev.0, willow_canopy_row(st, cx, top, trunk_end, r, dy, k).0);
    }
}

proof fn lemma_willow_canopy_grows(st: Stage, cx: int, top: int, trunk_end: int, r: int, k: int)
    requires
        st.0.wf(),
    ensures
        grows(st.0, willow_canopy(st, cx, top, trunk_end, r, k).0),
    decreases k,
{
    if k <= 0 {
        lemma_confined_none(st.0, 0, 0, 0, 0);
    } else {
        let prev = willow_canopy(st, cx, top, trunk_end, r, k - 1);
        lemma_willow_canopy_grows(st, cx, top, trunk_end, r, k - 1);
        lemma_willow_canopy_row_grows(prev, cx, top, trunk_end, r, -r + (k - 1), 4 * r + 1);
        law_grows_transitive(st.0, prev.0, willow_canopy(st, cx, top, trunk_end, r, k).0);
    }
}

proof fn lemma_strand_run_grows(st: Stage, x: int, top: int, bottom_y: int, strands: Seq<isize>, k: int)
    requires
        st.0.wf(),
    ensures
        grows(st.0, strand_run(st, x, top, bottom_y, strands, k).0),
    decreases k,
{
    if k <= 0 {
        lemma_confined_none(st.0, 0, 0, 0, 0);
    } else {
        let prev = strand_run(st, x, top, bottom_y, strands, k - 1);
        lemma_strand_run_grows(st, x, top, bottom_y, strands, k - 1);
        let l = k - 1;
        let d = usize_below_draw(prev.1, 3);
        lemma_put_grows_from(st.0, prev.0, x + strands[l] as int, top + l, strand_palette()[d.0 as int]);
    }
}

proof fn lemma_willow_strands_grow(
    st: Stage,
    cx: int,
    count: int,
    top: int,
    bottom_y: int,
    strands: Seq<isize>,
    k: int,
)
    requires
        st.0.wf(),
    ensures
        grows(st.0, willow_strands(st, cx, count, top, bottom_y, strands, k).0),
    decreases k,
{
    if k <= 0 {
        lemma_confined_none(st.0, 0, 0, 0, 0);
    } else {
        let prev = willow_strands(st, cx, count, top, bottom_y, strands, k - 1);
        lemma_willow_strands_grow(st, cx, count, top, bottom_y, strands, k - 1);
        let offset = ((k - 1) - count / 2) * 3;
        let len = i32_range_draw(prev.1, 0, 6);
        lemma_strand_run_grows((prev.0, len.1), cx + offset, top, bottom_y, strands, 8 + len.0);
        law_grows_transitive(st.0, prev.0, willow_strands(st, cx, count, top, bottom_y, strands, k).0);
    }
}

/// Both cells of trunk row `y` leaning by `lean` (the `/` and, left of it,
/// the `\`) lie on the canvas and are blank.
spec fn trunk_cells_blank(p: Picture, cx: int, y: int, lean: int) -> bool {
    &&& p.in_bounds(cx + lean, y)
    &&& p.in_bounds(cx + lean - 1, y)
    &&& p.cell(cx + lean, y) == ' '
    &&& p.cell(cx + lean - 1, y) == ' '
}

proof fn lemma_willow_trunk(st: Stage, cx: int, bottom_y: int, trunk: Seq<isize>, k: int)
    requires
        st.0.wf(),
        0 <= k,
        bottom_y < trunk.len(),
        forall|y: int| bottom_y - k < y <= bottom_y ==> trunk_cells_blank(st.0, cx, y, #[trigger] trunk[y] as int),
    ensures
        ({
            let q = willow_trunk(st, cx, bottom_y, trunk, k).0;
            &&& grows(st.0, q)
            &&& forall|x: int, y: int|
                st.0.in_bounds(x, y) && !(bottom_y - k < y <= bottom_y) ==> #[trigger] q.cell(x, y) == st.0.cell(x, y)
            &&& forall|y: int|
                bottom_y - k < y <= bottom_y ==> q.cell(cx + #[trigger] trunk[y] as int, y) == '/' && q.cell(
                    cx + trunk[y] as int - 1,
                    y,
                ) == '\\'
        }),
    decreases k,
{
    if k == 0 {
        lemma_confined_none(st.0, 0, 0, 0, 0);
    } else {
        let prev = willow_trunk(st, cx, bottom_y, trunk, k - 1);
        lemma_willow_trunk(st, cx, bottom_y, trunk, k - 1);
        let y = bottom_y - (k - 1);
        let s = trunk[y] as int;
        assert(trunk_cells_blank(st.0, cx, y, s));
        let p = prev.0;
        let one = p.put(cx + s, y, '/');
        let two = one.put(cx + s - 1, y, '\\');
        assert(p.cell(cx + s, y) == st.0.cell(cx + s, y));
        assert(p.cell(cx + s - 1, y) == st.0.cell(cx + s - 1, y));
        law_put_records(p, cx + s, y, '/');
        law_put_keeps_shape(p, cx + s, y, '/');
        law_first_writer_wins(p, cx + s, y, '/', cx + s - 1, y);
        law_put_records(one, cx + s - 1, y, '\\');
        law_first_writer_wins(one, cx + s - 1, y, '\\', cx + s, y);
        lemma_put_grows_from(st.0, p, cx + s, y, '/');
        lemma_put_grows_from(st.0, one, cx + s - 1, y, '\\');
        assert(willow_trunk(st, cx, bottom_y, trunk, k).0 == two);
        assert forall|x: int, y2: int| st.0.in_bounds(x, y2) && !(bottom_y - k < y2 <= bottom_y) implies #[trigger] two.cell(
            x,
            y2,
        ) == st.0.cell(x, y2) by {
            law_first_writer_wins(p, cx + s, y, '/', x, y2);
            law_first_writer_wins(one, cx + s - 1, y, '\\', x, y2);
        }
        assert forall|y2: int| bottom_y - k < y2 <= bottom_y implies two.cell(cx + #[trigger] trunk[y2] as int, y2) == '/'
            && two.cell(cx + trunk[y2] as int - 1, y2) == '\\' by {
            if y2 != y {
                assert(trunk_cells_blank(st.0, cx, y2, trunk[y2] as int));
                law_first_writer_wins(p, cx + s, y, '/', cx + trunk[y2] as int, y2);
                law_first_writer_wins(one, cx + s - 1, y, '\\', cx + trunk[y2] as int, y2);
                law_first_writer_wins(p, cx + s, y, '/', cx + trunk[y2] as int - 1, y2);
                law_first_writer_wins(one, cx + s - 1, y, '\\', cx + trunk[y2] as int - 1, y2);
            }
        }
    }
}

/// The willow's trunk sways row by row: on a canvas where the trunk's cells
/// are blank, every trunk row `y` (from `bottom_y - trunk_height` down to
/// `bottom_y`) of the finished willow holds `/` at column
/// `cx + sway[y]` and `\` just left of it, whatever the canopy and strands
/// drawn afterwards.
pub proof fn law_willow_trunk_sways(
    st: Stage,
    cx: int,
    bottom_y: int,
    tree_height: int,
    trunk_height: int,
    density: int,
    sway: Seq<isize>,
    strands: Seq<isize>,
)
    requires
        st.0.wf(),
        0 <= trunk_height,
        bottom_y < sway.len(),
        forall|y: int|
            bottom_y - trunk_height <= y <= bottom_y ==> {
                &&& st.0.in_bounds(cx + #[trigger] sway[y] as int, y)
                &&& st.0.in_bounds(cx + sway[y] as int - 1, y)
                &&& st.0.cell(cx + sway[y] as int, y) == ' '
                &&& st.0.cell(cx + sway[y] as int - 1, y) == ' '
            },
    ensures
        forall|y: int|
            bottom_y - trunk_height <= y <= bottom_y ==> {
                let done = willow_drawing(st, cx, bottom_y, tree_height, trunk_height, density, sway, strands).0;
                &&& done.cell(cx + #[trigger] sway[y] as int, y) == '/'
                &&& done.cell(cx + sway[y] as int - 1, y) == '\\'
            },
{
    let trunk_end = bottom_y - trunk_height;
    let trunk = willow_trunk(st, cx, bottom_y, sway, trunk_height + 1);
    assert forall|y: int| bottom_y - (trunk_height + 1) < y <= bottom_y implies trunk_cells_blank(
        st.0,
        cx,
        y,
        #[trigger] sway[y] as int,
    ) by {}
    lemma_willow_trunk(st, cx, bottom_y, sway, trunk_height + 1);
    let top = trunk_end - tree_height / 2;
    let r = 8 + density * 3;
    let canopy = willow_canopy(trunk, cx, top, trunk_end, r, 2 * r + 1);
    lemma_willow_canopy_grows(trunk, cx, top, trunk_end, r, 2 * r + 1);
    let count = 6 + density;
    lemma_willow_strands_grow(canopy, cx, count, top, bottom_y, strands, count);
    let done = willow_drawing(st, cx, bottom_y, tree_height, trunk_height, density, sway, strands).0;
    law_grows_transitive(trunk.0, canopy.0, done);
    assert forall|y: int| bottom_y - trunk_height <= y <= bottom_y implies {
        &&& done.cell(cx + #[trigger] sway[y] as int, y) == '/'
        &&& done.cell(cx + sway[y] as int - 1, y) == '\\'
    } by {
        assert(trunk.0.cell(cx + sway[y] as int, y) == '/');
        assert(trunk.0.cell(cx + sway[y] as int - 1, y) == '\\');
        assert(trunk.0.in_bounds(cx + sway[y] as int, y));
        assert(trunk.0.in_bounds(cx + sway[y] as int - 1, y));
    }
}

} // verus!

verus! {

/// Fill `f` lies in the canopy of radius `r` centred on (`cx`, `top`) and
/// above the trunk's top row `trunk_end`.
pub open spec fn canopy_spot(f: (usize, usize, char), cx: int, top: int, trunk_end: int, r: int) -> bool {
    &&& in_willow_canopy(f.0 - cx, f.1 - top, r)
    &&& f.1 < trunk_end
}

/// Every fill from `p` to `q` is a canopy spot.
spec fn canopy_fills(p: Picture, q: Picture, cx: int, top: int, trunk_end: int, r: int) -> bool {
    forall|i: int| p.order.len() <= i < q.order.len() ==> canopy_spot(#[trigger] q.order[i], cx, top, trunk_end, r)
}

proof fn lemma_canopy_fills_chain(p: Picture, q: Picture, s: Picture, cx: int, top: int, trunk_end: int, r: int)
    requires
        grows(p, q),
        grows(q, s),
        canopy_fills(p, q, cx, top, trunk_end, r),
        canopy_fills(q, s, cx, top, trunk_end, r),
    ensures
        grows(p, s),
        canopy_fills(p, s, cx, top, trunk_end, r),
{
    law_grows_transitive(p, q, s);
    assert forall|i: int| p.order.len() <= i < s.order.len() implies canopy_spot(#[trigger] s.order[i], cx, top, trunk_end, r) by {
        if i < q.order.len() {
            assert(s.order[i] == q.order[i]);
        }
    }
}

proof fn lemma_willow_leaf_spot(st: Stage, cx: int, top: int, trunk_end: int, r: int, dx: int, dy: int)
    requires
        st.0.wf(),
    ensures
        grows(st.0, willow_leaf(st, cx, top, trunk_end, r, dx, dy).0),
        canopy_fills(st.0, willow_leaf(st, cx, top, trunk_end, r, dx, dy).0, cx, top, trunk_end, r),
{
    lemma_willow_leaf_grows(st, cx, top, trunk_end, r, dx, dy);
    let c = chance_draw(st.1, WILLOW_LEAF_CUT);
    let d = usize_below_draw(c.1, 5);
    law_put_records(st.0, cx + dx, top + dy, willow_leaf_palette()[d.0 as int]);
}

proof fn lemma_willow_canopy_row_spots(st: Stage, cx: int, top: int, trunk_end: int, r: int, dy: int, k: int)
    requires
        st.0.wf(),
    ensures
        grows(st.0, willow_canopy_row(st, cx, top, trunk_end, r, dy, k).0),
        canopy_fills(st.0, willow_canopy_row(st, cx, top, trunk_end, r, dy, k).0, cx, top, trunk_end, r),
    decreases k,
{
    if k <= 0 {
        lemma_confined_none(st.0, 0, 0, 0, 0);
    } else {
        let prev = willow_canopy_row(st, cx, top, trunk_end, r, dy, k - 1);
        lemma_willow_canopy_row_spots(st, cx, top, trunk_end, r, dy, k - 1);
        lemma_willow_leaf_spot(prev, cx, top, trunk_end, r, -2 * r + (k - 1), dy);
        lemma_canopy_fills_chain(st.0, prev.0, willow_canopy_row(st, cx, top, trunk_end, r, dy, k).0, cx, top, trunk_end, r);
    }
}

/// The willow's canopy is an oval above the trunk: every leaf it places
/// lies inside the oval of radius `r` around (`cx`, `top`), twice as wide as
/// it is tall, and on a row above the trunk's top row `trunk_end`.
pub proof fn law_willow_canopy_is_oval(st: Stage, cx: int, top: int, trunk_end: int, r: int, k: int)
    requires
        st.0.wf(),
    ensures
        grows(st.0, willow_canopy(st, cx, top, trunk_end, r, k).0),
        forall|i: int|
            st.0.order.len() <= i < willow_canopy(st, cx, top, trunk_end, r, k).0.order.len() ==> canopy_spot(
                #[trigger] willow_canopy(st, cx, top, trunk_end, r, k).0.order[i],
                cx,
                top,
                trunk_end,
                r,
            ),
    decreases k,
{
    if k <= 0 {
        lemma_confined_none(st.0, 0, 0, 0, 0);
    } else {
        let prev = willow_canopy(st, cx, top, trunk_end, r, k - 1);
        law_willow_canopy_is_oval(st, cx, top, trunk_end, r, k - 1);
        lemma_willow_canopy_row_spots(prev, cx, top, trunk_end, r, -r + (k - 1), 4 * r + 1);
        lemma_canopy_fills_chain(st.0, prev.0, willow_canopy(st, cx, top, trunk_end, r, k).0, cx, top, trunk_end, r);
    }
}

} // verus!
