//! Broadleaf trees, the oak and the cherry: a bark trunk, branches that
//! alternate left and right, and a wide oval crown; cherry blossom also falls.
use crate::canvas::{confined, law_put_grows, law_put_records, Picture, lemma_confined_chain, lemma_pick_run_confined, fills_inside, law_grows_transitive, lemma_confined_join, lemma_confined_none, lemma_confined_put, lemma_confined_widen, fills_within, grows, pick_run, pick_run_exec, place, put_at, roomy, Bonsai, Stage};
use crate::dice::{chance_draw, i32_range_draw, isize_range_draw, usize_below_draw, Dice};
use vstd::prelude::*;

verus! {

/// An oak leaf is drawn when a draw passes this cut.
pub const OAK_LEAF_CUT: u32 = 5872025;

/// A cherry blossom is drawn when a draw passes this cut.
pub const BLOSSOM_CUT: u32 = 5033165;

/// Every character an oak (`oak`) or a cherry may show.
pub open spec fn broadleaf_chars(oak: bool) -> Set<char> {
    if oak {
        set!['|', 'I', 'l', '!', '/', '\\', '@', '#', '&', '%', '*', 'o']
    } else {
        set!['|', 'I', 'l', '-', '*', 'o', 'O', '.', '·']
    }
}

pub open spec fn oak_bark_palette() -> Seq<char> {
    seq!['|', 'I', 'l', '!']
}

pub open spec fn cherry_bark_palette() -> Seq<char> {
    seq!['|', 'I', 'l']
}

pub open spec fn oak_leaf_palette() -> Seq<char> {
    seq!['@', '#', '&', '%', '*', 'o']
}

pub open spec fn blossom_palette() -> Seq<char> {
    seq!['*', 'o', 'O', '.', '·']
}

pub open spec fn fallen_petal_palette() -> Seq<char> {
    seq!['·', '.', '*']
}

/// Width of trunk row `y`: an oak is three cells wide below the lower third
/// of its trunk and two above; a cherry is two cells wide throughout.
pub open spec fn bark_width(oak: bool, y: int, trunk_end: int, trunk_height: int) -> int {
    if oak && y > trunk_end + trunk_height / 3 {
        3
    } else {
        2
    }
}

/// The first `k` trunk rows from `bottom_y` upwards, each cell of bark
/// picked from `palette`.
pub open spec fn bark_trunk(
    st: Stage,
    cx: int,
    bottom_y: int,
    trunk_end: int,
    trunk_height: int,
    oak: bool,
    palette: Seq<char>,
    k: int,
) -> Stage
    decreases k,
{
    if k <= 0 {
        st
    } else {
        let prev = bark_trunk(st, cx, bottom_y, trunk_end, trunk_height, oak, palette, k - 1);
        let y = bottom_y - (k - 1);
        let w = bark_width(oak, y, trunk_end, trunk_height);
        pick_run(prev, cx - w / 2, y, palette, w)
    }
}

/// The character of step `l` of a branch: an oak branch bends every third
/// step, a cherry branch is straight.
pub open spec fn bough_char(oak: bool, l: int) -> char {
    if !oak {
        '-'
    } else if l % 3 == 0 {
        '\\'
    } else {
        '/'
    }
}

/// Steps 1..=`k` of a branch leaving column `cx` at row `branch_y` in
/// direction `dir`, rising one row every `rise` steps; steps at or above the
/// top row are not drawn.
pub open spec fn bough(st: Stage, cx: int, branch_y: int, dir: int, rise: int, oak: bool, k: int) -> Stage
    decreases k,
{
    if k <= 0 {
        st
    } else {
        let prev = bough(st, cx, branch_y, dir, rise, oak, k - 1);
        let y = branch_y - k / rise;
        if y > 0 {
            put_at(prev, cx + dir * k, y, bough_char(oak, k))
        } else {
            prev
        }
    }
}

/// The first `k` branches: branch `b` leaves the trunk two rows above the
/// last, to the right for even `b` and to the left for odd, and is
/// `base + spread draw` steps long.
pub open spec fn boughs(
    st: Stage,
    cx: int,
    trunk_end: int,
    base: int,
    spread: i32,
    rise: int,
    oak: bool,
    k: int,
) -> Stage
    decreases k,
{
    if k <= 0 {
        st
    } else {
        let prev = boughs(st, cx, trunk_end, base, spread, rise, oak, k - 1);
        let b = k - 1;
        let dir: int = if b % 2 == 0 {
            1
        } else {
            -1
        };
        let len = i32_range_draw(prev.1, 0, spread);
        bough((prev.0, len.1), cx, trunk_end - b * 2, dir, rise, oak, base + len.0)
    }
}

/// Offset (`dx`, `dy`) lies in a crown of radius `r`: an oval whose width
/// is √3.5 times its height.
pub open spec fn in_crown(dx: int, dy: int, r: int) -> bool {
    2 * (dx * dx) + 7 * (dy * dy) <= 7 * (r * r)
}

/// One cell of a crown centred on (`cx`, `cy`). Inside the oval and below
/// the top row, a leaf picked from `palette` is drawn when a draw passes
/// `cut`; an oak draws its chance before looking at the row, a cherry after.
pub open spec fn crown_cell(
    st: Stage,
    cx: int,
    cy: int,
    r: int,
    cut: u32,
    palette: Seq<char>,
    oak: bool,
    dx: int,
    dy: int,
) -> Stage {
    if !in_crown(dx, dy, r) {
        st
    } else if !oak && cy + dy <= 0 {
        st
    } else {
        let c = chance_draw(st.1, cut);
        if c.0 && cy + dy > 0 {
            let d = usize_below_draw(c.1, palette.len() as usize);
            (st.0.put(cx + dx, cy + dy, palette[d.0 as int]), d.1)
        } else {
            (st.0, c.1)
        }
    }
}

/// The first `k` cells of crown row `dy`, from `dx = -2r` rightwards.
pub open spec fn crown_row(
    st: Stage,
    cx: int,
    cy: int,
    r: int,
    cut: u32,
    palette: Seq<char>,
    oak: bool,
    dy: int,
    k: int,
) -> Stage
    decreases k,
{
    if k <= 0 {
        st
    } else {
        crown_cell(
            crown_row(st, cx, cy, r, cut, palette, oak, dy, k - 1),
            cx,
            cy,
            r,
            cut,
            palette,
            oak,
            -2 * r + (k - 1),
            dy,
        )
    }
}

/// The first `k` crown rows, from `dy = -r` downwards.
pub open spec fn crown(st: Stage, cx: int, cy: int, r: int, cut: u32, palette: Seq<char>, oak: bool, k: int) -> Stage
    decreases k,
{
    if k <= 0 {
        st
    } else {
        crown_row(
            crown(st, cx, cy, r, cut, palette, oak, k - 1),
            cx,
            cy,
            r,
            cut,
            palette,
            oak,
            -r + (k - 1),
            4 * r + 1,
        )
    }
}

/// `k` fallen petals: each lands at a drawn column offset in -15..15 from
/// `cx` and a drawn row 1..10 below `base_y`, and shows when it is more than
/// six rows above `bottom_y`.
pub open spec fn fallen_petals(st: Stage, cx: int, base_y: int, bottom_y: int, k: int) -> Stage
    decreases k,
{
    if k <= 0 {
        st
    } else {
        let prev = fallen_petals(st, cx, base_y, bottom_y, k - 1);
        let px = isize_range_draw(prev.1, -15isize, 15isize);
        let py = isize_range_draw(px.1, 1isize, 10isize);
        let y = base_y + py.0;
        if y < bottom_y - 6 {
            let d = usize_below_draw(py.1, 3);
            (prev.0.put(cx + px.0, y, fallen_petal_palette()[d.0 as int]), d.1)
        } else {
            (prev.0, py.1)
        }
    }
}

/// The whole oak standing on row `bottom_y`, centred on column `cx`.
pub open spec fn oak_drawing(st: Stage, cx: int, bottom_y: int, trunk_height: int, density: int) -> Stage {
    let trunk_end = bottom_y - trunk_height;
    let trunk = bark_trunk(st, cx, bottom_y, trunk_end, trunk_height, true, oak_bark_palette(), trunk_height + 1);
    let branches = boughs(trunk, cx, trunk_end, 6, 6, 2, true, 3 + density);
    let r = 10 + density * 3;
    crown(branches, cx, trunk_end - r / 2, r, OAK_LEAF_CUT, oak_leaf_palette(), true, 2 * r + 1)
}

/// The whole cherry standing on row `bottom_y`, centred on column `cx`.
pub open spec fn cherry_drawing(st: Stage, cx: int, bottom_y: int, trunk_height: int, density: int) -> Stage {
    let trunk_end = bottom_y - trunk_height;
    let trunk = bark_trunk(st, cx, bottom_y, trunk_end, trunk_height, false, cherry_bark_palette(), trunk_height + 1);
    let branches = boughs(trunk, cx, trunk_end, 5, 5, 3, false, 4 + density);
    let r = 9 + density * 3;
    let cy = trunk_end - r / 2;
    let blossom = crown(branches, cx, cy, r, BLOSSOM_CUT, blossom_palette(), false, 2 * r + 1);
    fallen_petals(blossom, cx, cy + r, bottom_y, density * 2)
}

fn bark_trunk_exec(
    b: &mut Bonsai,
    dice: &mut Dice,
    cx: usize,
    bottom_y: usize,
    trunk_height: usize,
    oak: bool,
    palette: &[char],
)
    requires
        old(b).wf(),
        old(b)@.faithful(),
        old(b)@.tidy(),
        roomy(old(b)@),
        cx <= old(b).width,
        bottom_y <= old(b).height,
        trunk_height <= bottom_y,
        0 < palette@.len(),
        forall|j: int| 0 <= j < palette@.len() ==> broadleaf_chars(oak).contains(#[trigger] palette@[j]),
    ensures
        final(b).wf(),
        final(b)@.faithful(),
        final(b)@.tidy(),
        final(b).width == old(b).width,
        final(b).height == old(b).height,
        grows(old(b)@, final(b)@),
        fills_within(old(b)@, final(b)@, broadleaf_chars(oak)),
        (final(b)@, final(dice).state()) == bark_trunk(
            (old(b)@, old(dice).state()),
            cx as int,
            bottom_y as int,
            bottom_y - trunk_height,
            trunk_height as int,
            oak,
            palette@,
            trunk_height + 1,
        ),
{
    let ghost init: Stage = (b@, dice.state());
    let trunk_end = bottom_y - trunk_height;
    let rows = bottom_y - trunk_end + 1;
    let mut k: usize = 0;
    while k < rows
        invariant
            b.wf(),
            b@.faithful(),
            b@.tidy(),
            b.width == old(b).width,
            b.height == old(b).height,
            grows(old(b)@, b@),
            fills_within(old(b)@, b@, broadleaf_chars(oak)),
            k <= rows,
            rows == trunk_height + 1,
            trunk_height <= bottom_y,
            trunk_end == bottom_y - trunk_height,
            cx <= b.width,
            bottom_y <= b.height,
            roomy(b@),
            0 < palette@.len(),
            forall|j: int| 0 <= j < palette@.len() ==> broadleaf_chars(oak).contains(#[trigger] palette@[j]),
            (b@, dice.state()) == bark_trunk(
                init,
                cx as int,
                bottom_y as int,
                trunk_end as int,
                trunk_height as int,
                oak,
                palette@,
                k as int,
            ),
        decreases rows - k,
    {
        let y = bottom_y - k;
        let thickness: isize = if oak && y > trunk_end + trunk_height / 3 {
            3
        } else {
            2
        };
        let left = cx as isize - thickness / 2;
        pick_run_exec(b, dice, left, left + thickness - 1, y as isize, palette, Ghost(broadleaf_chars(oak)));
        k = k + 1;
    }
}

fn bough_exec(
    b: &mut Bonsai,
    dice: &Dice,
    cx: isize,
    branch_y: isize,
    dir: isize,
    rise: isize,
    oak: bool,
    len: i32,
)
    requires
        old(b).wf(),
        old(b)@.faithful(),
        old(b)@.tidy(),
        dir == 1 || dir == -1,
        rise == 2 || rise == 3,
        0 <= len <= 20,
        -(isize::MAX / 2) <= cx <= isize::MAX / 2,
        -(isize::MAX / 2) <= branch_y <= isize::MAX / 2,
    ensures
        final(b).wf(),
        final(b)@.faithful(),
        final(b)@.tidy(),
        final(b).width == old(b).width,
        final(b).height == old(b).height,
        grows(old(b)@, final(b)@),
        fills_within(old(b)@, final(b)@, broadleaf_chars(oak)),
        (final(b)@, dice.state()) == bough(
            (old(b)@, dice.state()),
            cx as int,
            branch_y as int,
            dir as int,
            rise as int,
            oak,
            len as int,
        ),
{
    let ghost init: Stage = (b@, dice.state());
    let mut l: i32 = 1;
    while l <= len
        invariant
            b.wf(),
            b@.faithful(),
            b@.tidy(),
            b.width == old(b).width,
            b.height == old(b).height,
            grows(old(b)@, b@),
            fills_within(old(b)@, b@, broadleaf_chars(oak)),
            dir == 1 || dir == -1,
            rise == 2 || rise == 3,
            1 <= l <= len + 1,
            len <= 20,
            -(isize::MAX / 2) <= cx <= isize::MAX / 2,
            -(isize::MAX / 2) <= branch_y <= isize::MAX / 2,
            (b@, dice.state()) == bough(init, cx as int, branch_y as int, dir as int, rise as int, oak, l - 1),
        decreases len + 1 - l,
    {
        proof {
            if dir == 1 {
                assert(dir * l == l);
            } else {
                assert(dir * l == -l) by (nonlinear_arith)
                    requires
                        dir == -1,
                ;
            }
        }
        let x = cx + dir * l as isize;
        let y = branch_y - (l as isize) / rise;
        if y > 0 {
            let c = if !oak {
                '-'
            } else if l % 3 == 0 {
                '\\'
            } else {
                '/'
            };
            place(b, x, y, c);
        }
        l = l + 1;
    }
}

fn boughs_exec(
    b: &mut Bonsai,
    dice: &mut Dice,
    cx: usize,
    trunk_end: usize,
    count: usize,
    base: i32,
    spread: i32,
    rise: isize,
    oak: bool,
)
    requires
        old(b).wf(),
        old(b)@.faithful(),
        old(b)@.tidy(),
        roomy(old(b)@),
        cx <= old(b).width,
        trunk_end <= old(b).height,
        count <= 300,
        0 <= base <= 6,
        1 <= spread <= 6,
        rise == 2 || rise == 3,
    ensures
        final(b).wf(),
        final(b)@.faithful(),
        final(b)@.tidy(),
        final(b).width == old(b).width,
        final(b).height == old(b).height,
        grows(old(b)@, final(b)@),
        fills_within(old(b)@, final(b)@, broadleaf_chars(oak)),
        (final(b)@, final(dice).state()) == boughs(
            (old(b)@, old(dice).state()),
            cx as int,
            trunk_end as int,
            base as int,
            spread,
            rise as int,
            oak,
            count as int,
        ),
{
    let ghost init: Stage = (b@, dice.state());
    let mut k: usize = 0;
    while k < count
        invariant
            b.wf(),
            b@.faithful(),
            b@.tidy(),
            b.width == old(b).width,
            b.height == old(b).height,
            grows(old(b)@, b@),
            fills_within(old(b)@, b@, broadleaf_chars(oak)),
            roomy(b@),
            cx <= b.width,
            trunk_end <= b.height,
            k <= count <= 300,
            0 <= base <= 6,
            1 <= spread <= 6,
            rise == 2 || rise == 3,
            (b@, dice.state()) == boughs(init, cx as int, trunk_end as int, base as int, spread, rise as int, oak, k as int),
        decreases count - k,
    {
        let branch_y = trunk_end as isize - (k as isize) * 2;
        let dir: isize = if k % 2 == 0 {
            1
        } else {
            -1
        };
        let branch_len = base + dice.range_i32(0, spread);
        bough_exec(b, dice, cx as isize, branch_y, dir, rise, oak, branch_len);
        k = k + 1;
    }
}

fn crown_cell_exec(
    b: &mut Bonsai,
    dice: &mut Dice,
    cx: isize,
    cy: isize,
    r: isize,
    cut: u32,
    palette: &[char],
    oak: bool,
    dx: isize,
    dy: isize,
)
    requires
        old(b).wf(),
        old(b)@.faithful(),
        old(b)@.tidy(),
        0 < palette@.len(),
        forall|j: int| 0 <= j < palette@.len() ==> broadleaf_chars(oak).contains(#[trigger] palette@[j]),
        0 <= r <= 1000,
        -2 * r <= dx <= 2 * r,
        -r <= dy <= r,
        -(isize::MAX / 2) <= cx <= isize::MAX / 2,
        -(isize::MAX / 2) <= cy <= isize::MAX / 2,
    ensures
        final(b).wf(),
        final(b)@.faithful(),
        final(b)@.tidy(),
        final(b).width == old(b).width,
        final(b).height == old(b).height,
        grows(old(b)@, final(b)@),
        fills_within(old(b)@, final(b)@, broadleaf_chars(oak)),
        (final(b)@, final(dice).state()) == crown_cell(
            (old(b)@, old(dice).state()),
            cx as int,
            cy as int,
            r as int,
            cut,
            palette@,
            oak,
            dx as int,
            dy as int,
        ),
{
    proof {
        assert(0 <= dx * dx <= 4000000) by (nonlinear_arith)
            requires
                -2000 <= dx <= 2000,
        ;
        assert(0 <= dy * dy <= 1000000) by (nonlinear_arith)
            requires
                -1000 <= dy <= 1000,
        ;
        assert(0 <= r * r <= 1000000) by (nonlinear_arith)
            requires
                0 <= r <= 1000,
        ;
    }
    if 2 * (dx * dx) + 7 * (dy * dy) <= 7 * (r * r) {
        let x = cx + dx;
        let y = cy + dy;
        assert(!broadleaf_chars(oak).contains(' '));
        if oak {
            if dice.chance(cut) {
                if y > 0 {
                    let idx = dice.below(palette.len());
                    place(b, x, y, palette[idx]);
                }
            }
        } else if y > 0 && dice.chance(cut) {
            let idx = dice.below(palette.len());
            place(b, x, y, palette[idx]);
        }
    }
}

fn crown_row_exec(
    b: &mut Bonsai,
    dice: &mut Dice,
    cx: isize,
    cy: isize,
    r: isize,
    cut: u32,
    palette: &[char],
    oak: bool,
    dy: isize,
)
    requires
        old(b).wf(),
        old(b)@.faithful(),
        old(b)@.tidy(),
        0 < palette@.len(),
        forall|j: int| 0 <= j < palette@.len() ==> broadleaf_chars(oak).contains(#[trigger] palette@[j]),
        0 <= r <= 1000,
        -r <= dy <= r,
        -(isize::MAX / 2) <= cx <= isize::MAX / 2,
        -(isize::MAX / 2) <= cy <= isize::MAX / 2,
    ensures
        final(b).wf(),
        final(b)@.faithful(),
        final(b)@.tidy(),
        final(b).width == old(b).width,
        final(b).height == old(b).height,
        grows(old(b)@, final(b)@),
        fills_within(old(b)@, final(b)@, broadleaf_chars(oak)),
        (final(b)@, final(dice).state()) == crown_row(
            (old(b)@, old(dice).state()),
            cx as int,
            cy as int,
            r as int,
            cut,
            palette@,
            oak,
            dy as int,
            4 * r + 1,
        ),
{
    let ghost init: Stage = (b@, dice.state());
    let mut dx = -r * 2;
    while dx <= r * 2
        invariant
            b.wf(),
            b@.faithful(),
            b@.tidy(),
            b.width == old(b).width,
            b.height == old(b).height,
            grows(old(b)@, b@),
            fills_within(old(b)@, b@, broadleaf_chars(oak)),
            0 < palette@.len(),
            forall|j: int| 0 <= j < palette@.len() ==> broadleaf_chars(oak).contains(#[trigger] palette@[j]),
            0 <= r <= 1000,
            -r <= dy <= r,
            -(isize::MAX / 2) <= cx <= isize::MAX / 2,
            -(isize::MAX / 2) <= cy <= isize::MAX / 2,
            -2 * r <= dx <= 2 * r + 1,
            (b@, dice.state()) == crown_row(
                init,
                cx as int,
                cy as int,
                r as int,
                cut,
                palette@,
                oak,
                dy as int,
                dx + 2 * r,
            ),
        decreases 2 * r + 1 - dx,
    {
        crown_cell_exec(b, dice, cx, cy, r, cut, palette, oak, dx, dy);
        dx = dx + 1;
    }
}

fn crown_exec(
    b: &mut Bonsai,
    dice: &mut Dice,
    cx: isize,
    cy: isize,
    r: isize,
    cut: u32,
    palette: &[char],
    oak: bool,
)
    requires
        old(b).wf(),
        old(b)@.faithful(),
        old(b)@.tidy(),
        0 < palette@.len(),
        forall|j: int| 0 <= j < palette@.len() ==> broadleaf_chars(oak).contains(#[trigger] palette@[j]),
        0 <= r <= 1000,
        -(isize::MAX / 2) <= cx <= isize::MAX / 2,
        -(isize::MAX / 2) <= cy <= isize::MAX / 2,
    ensures
        final(b).wf(),
        final(b)@.faithful(),
        final(b)@.tidy(),
        final(b).width == old(b).width,
        final(b).height == old(b).height,
        grows(old(b)@, final(b)@),
        fills_within(old(b)@, final(b)@, broadleaf_chars(oak)),
        (final(b)@, final(dice).state()) == crown(
            (old(b)@, old(dice).state()),
            cx as int,
            cy as int,
            r as int,
            cut,
            palette@,
            oak,
            2 * r + 1,
        ),
{
    let ghost init: Stage = (b@, dice.state());
    let mut dy = -r;
    while dy <= r
        invariant
            b.wf(),
            b@.faithful(),
            b@.tidy(),
            b.width == old(b).width,
            b.height == old(b).height,
            grows(old(b)@, b@),
            fills_within(old(b)@, b@, broadleaf_chars(oak)),
            0 < palette@.len(),
            forall|j: int| 0 <= j < palette@.len() ==> broadleaf_chars(oak).contains(#[trigger] palette@[j]),
            0 <= r <= 1000,
            -r <= dy <= r + 1,
            -(isize::MAX / 2) <= cx <= isize::MAX / 2,
            -(isize::MAX / 2) <= cy <= isize::MAX / 2,
            (b@, dice.state()) == crown(init, cx as int, cy as int, r as int, cut, palette@, oak, dy + r),
        decreases r + 1 - dy,
    {
        crown_row_exec(b, dice, cx, cy, r, cut, palette, oak, dy);
        dy = dy + 1;
    }
}

/// Draws an oak standing on row `bottom_y`, centred on column `cx`, with a
/// trunk `trunk_height` rows tall above its base row.
pub(crate) fn draw_oak(
    b: &mut Bonsai,
    cx: usize,
    bottom_y: usize,
    trunk_height: usize,
    density: u8,
    dice: &mut Dice,
)
    requires
        old(b).wf(),
        old(b)@.faithful(),
        old(b)@.tidy(),
        roomy(old(b)@),
        cx <= old(b).width,
        bottom_y <= old(b).height,
        trunk_height <= bottom_y,
    ensures
        final(b).wf(),
        final(b)@.faithful(),
        final(b)@.tidy(),
        final(b).width == old(b).width,
        final(b).height == old(b).height,
        grows(old(b)@, final(b)@),
        fills_within(old(b)@, final(b)@, broadleaf_chars(true)),
        (final(b)@, final(dice).state()) == oak_drawing(
            (old(b)@, old(dice).state()),
            cx as int,
            bottom_y as int,
            trunk_height as int,
            density as int,
        ),
{
    let density_mult = density as isize;
    let trunk_end = bottom_y - trunk_height;
    let bark_chars = ['|', 'I', 'l', '!'];
    assert(bark_chars@ == oak_bark_palette());
    bark_trunk_exec(b, dice, cx, bottom_y, trunk_height, true, &bark_chars);
    let branch_count = 3 + density_mult as usize;
    boughs_exec(b, dice, cx, trunk_end, branch_count, 6, 6, 2, true);
    let canopy_radius = 10 + density_mult * 3;
    let canopy_cy = trunk_end as isize - canopy_radius / 2;
    let leaf_chars = ['@', '#', '&', '%', '*', 'o'];
    assert(leaf_chars@ == oak_leaf_palette());
    crown_exec(b, dice, cx as isize, canopy_cy, canopy_radius, OAK_LEAF_CUT, &leaf_chars, true);
}

/// Draws a cherry standing on row `bottom_y`, centred on column `cx`, with a
/// trunk `trunk_height` rows tall above its base row.
pub(crate) fn draw_cherry(
    b: &mut Bonsai,
    cx: usize,
    bottom_y: usize,
    trunk_height: usize,
    density: u8,
    dice: &mut Dice,
)
    requires
        old(b).wf(),
        old(b)@.faithful(),
        old(b)@.tidy(),
        roomy(old(b)@),
        cx <= old(b).width,
        bottom_y <= old(b).height,
        trunk_height <= bottom_y,
    ensures
        final(b).wf(),
        final(b)@.faithful(),
        final(b)@.tidy(),
        final(b).width == old(b).width,
        final(b).height == old(b).height,
        grows(old(b)@, final(b)@),
        fills_within(old(b)@, final(b)@, broadleaf_chars(false)),
        (final(b)@, final(dice).state()) == cherry_drawing(
            (old(b)@, old(dice).state()),
            cx as int,
            bottom_y as int,
            trunk_height as int,
            density as int,
        ),
{
    let density_mult = density as isize;
    let trunk_end = bottom_y - trunk_height;
    let bark_chars = ['|', 'I', 'l'];
    assert(bark_chars@ == cherry_bark_palette());
    bark_trunk_exec(b, dice, cx, bottom_y, trunk_height, false, &bark_chars);
    let branch_count = 4 + density_mult as usize;
    boughs_exec(b, dice, cx, trunk_end, branch_count, 5, 5, 3, false);
    let canopy_radius = 9 + density_mult * 3;
    let canopy_cy = trunk_end as isize - canopy_radius / 2;
    let petal_chars = ['*', 'o', 'O', '.', '·'];
    assert(petal_chars@ == blossom_palette());
    crown_exec(b, dice, cx as isize, canopy_cy, canopy_radius, BLOSSOM_CUT, &petal_chars, false);
    let ghost late: Stage = (b@, dice.state());
    let petal_fall = density_mult as usize * 2;
    let mut k: usize = 0;
    while k < petal_fall
        invariant
            b.wf(),
            b@.faithful(),
            b@.tidy(),
            b.width == old(b).width,
            b.height == old(b).height,
            grows(old(b)@, b@),
            fills_within(old(b)@, b@, broadleaf_chars(false)),
            roomy(b@),
            cx <= b.width,
            bottom_y <= b.height,
            trunk_end <= bottom_y,
            canopy_radius == 9 + density * 3,
            canopy_cy == trunk_end - canopy_radius / 2,
            k <= petal_fall,
            (b@, dice.state()) == fallen_petals(
                late,
                cx as int,
                canopy_cy + canopy_radius,
                bottom_y as int,
                k as int,
            ),
        decreases petal_fall - k,
    {
        let px = (cx as isize) + dice.range_isize(-15, 15);
        let py = (canopy_cy + canopy_radius) + dice.range_isize(1, 10);
        if py < (bottom_y as isize) - 6 {
            let petals = ['·', '.', '*'];
            assert(petals@ == fallen_petal_palette());
            let idx = dice.below(petals.len());
            place(b, px, py, petals[idx]);
        }
        k = k + 1;
    }
}

} // verus!

verus! {

/// The leftmost column a branch of `k` steps from `cx` in direction `dir`
/// can reach.
spec fn reach_left(cx: int, dir: int, k: int) -> int {
    if dir == 1 {
        cx + 1
    } else {
        cx - k
    }
}

/// The rightmost column a branch of `k` steps from `cx` in direction `dir`
/// can reach.
spec fn reach_right(cx: int, dir: int, k: int) -> int {
    if dir == 1 {
        cx + k
    } else {
        cx - 1
    }
}

proof fn lemma_bough_confined(st: Stage, cx: int, branch_y: int, dir: int, rise: int, oak: bool, k: int)
    requires
        st.0.wf(),
        dir == 1 || dir == -1,
        0 < rise,
    ensures
        confined(st.0, bough(st, cx, branch_y, dir, rise, oak, k).0, reach_left(cx, dir, k), reach_right(cx, dir, k), 1, branch_y),
    decreases k,
{
    let x0 = reach_left(cx, dir, k);
    let x1 = reach_right(cx, dir, k);
    if k <= 0 {
        lemma_confined_none(st.0, x0, x1, 1, branch_y);
    } else {
        let prev = bough(st, cx, branch_y, dir, rise, oak, k - 1);
        let next = bough(st, cx, branch_y, dir, rise, oak, k);
        lemma_bough_confined(st, cx, branch_y, dir, rise, oak, k - 1);
        let y = branch_y - k / rise;
        vstd::arithmetic::div_mod::lemma_div_pos_is_pos(k, rise);
        if y > 0 {
            lemma_confined_put(prev.0, cx + dir * k, y, bough_char(oak, k), cx + dir * k, cx + dir * k, y, y);
            lemma_confined_join(
                st.0,
                prev.0,
                next.0,
                x0,
                x1,
                1,
                branch_y,
                reach_left(cx, dir, k - 1),
                reach_right(cx, dir, k - 1),
                1,
                branch_y,
                cx + dir * k,
                cx + dir * k,
                y,
                y,
            );
        } else {
            lemma_confined_widen(st.0, prev.0, x0, x1, 1, branch_y, reach_left(cx, dir, k - 1), reach_right(cx, dir, k - 1), 1, branch_y);
        }
    }
}

proof fn lemma_boughs_grow(
    st: Stage,
    cx: int,
    trunk_end: int,
    base: int,
    spread: i32,
    rise: int,
    oak: bool,
    k: int,
)
    requires
        st.0.wf(),
        0 < rise,
    ensures
        grows(st.0, boughs(st, cx, trunk_end, base, spread, rise, oak, k).0),
    decreases k,
{
    if k <= 0 {
        lemma_confined_none(st.0, 0, 0, 0, 0);
    } else {
        let prev = boughs(st, cx, trunk_end, base, spread, rise, oak, k - 1);
        lemma_boughs_grow(st, cx, trunk_end, base, spread, rise, oak, k - 1);
        let b = k - 1;
        let dir: int = if b % 2 == 0 {
            1
        } else {
            -1
        };
        let len = i32_range_draw(prev.1, 0, spread);
        lemma_bough_confined((prev.0, len.1), cx, trunk_end - b * 2, dir, rise, oak, base + len.0);
        law_grows_transitive(st.0, prev.0, boughs(st, cx, trunk_end, base, spread, rise, oak, k).0);
    }
}

/// Branches alternate sides: every cell that branch `b` fills lies right of
/// the trunk's centre column `cx` for even `b` and left of it for odd `b`,
/// fewer than `base + spread` columns away, and on a row from 1 up to the
/// branch's own row `trunk_end - 2b`.
pub proof fn law_branches_alternate(
    st: Stage,
    cx: int,
    trunk_end: int,
    base: int,
    spread: i32,
    rise: int,
    oak: bool,
    b: int,
)
    requires
        st.0.wf(),
        0 <= b,
        0 <= base,
        0 < spread,
        0 < rise,
    ensures
        forall|i: int|
            boughs(st, cx, trunk_end, base, spread, rise, oak, b).0.order.len() <= i < boughs(
                st,
                cx,
                trunk_end,
                base,
                spread,
                rise,
                oak,
                b + 1,
            ).0.order.len() ==> {
                let f = #[trigger] boughs(st, cx, trunk_end, base, spread, rise, oak, b + 1).0.order[i];
                &&& b % 2 == 0 ==> cx < f.0 < cx + base + spread
                &&& b % 2 == 1 ==> cx - base - spread < f.0 < cx
                &&& 1 <= f.1 <= trunk_end - 2 * b
            },
{
    let prev = boughs(st, cx, trunk_end, base, spread, rise, oak, b);
    lemma_boughs_grow(st, cx, trunk_end, base, spread, rise, oak, b);
    let dir: int = if b % 2 == 0 {
        1
    } else {
        -1
    };
    let len = i32_range_draw(prev.1, 0, spread);
    lemma_bough_confined((prev.0, len.1), cx, trunk_end - b * 2, dir, rise, oak, base + len.0);
    reveal(fills_inside);
}

} // verus!

verus! {

/// The lowest row a fallen petal can land on: nine rows below `base_y`, and
/// more than six rows above `bottom_y`.
pub open spec fn petal_floor(base_y: int, bottom_y: int) -> int {
    if base_y + 9 < bottom_y - 7 {
        base_y + 9
    } else {
        bottom_y - 7
    }
}

/// Fallen petals land near the tree: every petal lies from 15 columns left
/// of `cx` to 14 columns right of it, on a row from one below `base_y` down
/// to `petal_floor(base_y, bottom_y)`; no other cell changes.
pub proof fn law_petals_land_near(st: Stage, cx: int, base_y: int, bottom_y: int, k: int)
    requires
        st.0.wf(),
    ensures
        ({
            let done = fallen_petals(st, cx, base_y, bottom_y, k).0;
            &&& grows(st.0, done)
            &&& forall|i: int|
                st.0.order.len() <= i < done.order.len() ==> {
                    let f = #[trigger] done.order[i];
                    &&& cx - 15 <= f.0 <= cx + 14
                    &&& base_y + 1 <= f.1 <= petal_floor(base_y, bottom_y)
                }
            &&& forall|x: int, y: int|
                st.0.in_bounds(x, y) && !(cx - 15 <= x <= cx + 14 && base_y + 1 <= y <= petal_floor(base_y, bottom_y))
                    ==> #[trigger] done.cell(x, y) == st.0.cell(x, y)
        }),
{
    lemma_petals_confined(st, cx, base_y, bottom_y, k);
    reveal(fills_inside);
}

proof fn lemma_petals_confined(st: Stage, cx: int, base_y: int, bottom_y: int, k: int)
    requires
        st.0.wf(),
    ensures
        confined(st.0, fallen_petals(st, cx, base_y, bottom_y, k).0, cx - 15, cx + 14, base_y + 1, petal_floor(base_y, bottom_y)),
    decreases k,
{
    let y1 = petal_floor(base_y, bottom_y);
    if k <= 0 {
        lemma_confined_none(st.0, cx - 15, cx + 14, base_y + 1, y1);
    } else {
        let prev = fallen_petals(st, cx, base_y, bottom_y, k - 1);
        lemma_petals_confined(st, cx, base_y, bottom_y, k - 1);
        let px = isize_range_draw(prev.1, -15isize, 15isize);
        let py = isize_range_draw(px.1, 1isize, 10isize);
        let y = base_y + py.0;
        lemma_confined_none(prev.0, cx - 15, cx + 14, base_y + 1, y1);
        if y < bottom_y - 6 {
            let d = usize_below_draw(py.1, 3);
            lemma_confined_put(prev.0, cx + px.0, y, fallen_petal_palette()[d.0 as int], cx - 15, cx + 14, base_y + 1, y1);
        }
        lemma_confined_chain(
            st.0,
            prev.0,
            fallen_petals(st, cx, base_y, bottom_y, k).0,
            cx - 15,
            cx + 14,
            base_y + 1,
            y1,
            cx - 15,
            cx + 14,
            base_y + 1,
            y1,
        );
    }
}

proof fn lemma_bark_trunk_confined(
    st: Stage,
    cx: int,
    bottom_y: int,
    trunk_end: int,
    trunk_height: int,
    oak: bool,
    palette: Seq<char>,
    k: int,
)
    requires
        st.0.wf(),
        0 < palette.len(),
    ensures
        confined(
            st.0,
            bark_trunk(st, cx, bottom_y, trunk_end, trunk_height, oak, palette, k).0,
            cx - 1,
            cx + 1,
            bottom_y - k + 1,
            bottom_y,
        ),
    decreases k,
{
    if k <= 0 {
        lemma_confined_none(st.0, cx - 1, cx + 1, bottom_y - k + 1, bottom_y);
    } else {
        let prev = bark_trunk(st, cx, bottom_y, trunk_end, trunk_height, oak, palette, k - 1);
        lemma_bark_trunk_confined(st, cx, bottom_y, trunk_end, trunk_height, oak, palette, k - 1);
        let y = bottom_y - (k - 1);
        let w = bark_width(oak, y, trunk_end, trunk_height);
        lemma_pick_run_confined(prev, cx - w / 2, y, palette, w);
        lemma_confined_join(
            st.0,
            prev.0,
            bark_trunk(st, cx, bottom_y, trunk_end, trunk_height, oak, palette, k).0,
            cx - 1,
            cx + 1,
            bottom_y - k + 1,
            bottom_y,
            cx - 1,
            cx + 1,
            bottom_y - k + 2,
            bottom_y,
            cx - w / 2,
            cx - w / 2 + w - 1,
            y,
            y,
        );
    }
}

/// The bark trunk of an oak or a cherry stands on its centre column: every
/// cell it fills or changes lies in columns `cx - 1 ..= cx + 1` of its rows,
/// from `bottom_y - k + 1` to `bottom_y`.
pub proof fn law_bark_trunk_in_place(
    st: Stage,
    cx: int,
    bottom_y: int,
    trunk_end: int,
    trunk_height: int,
    oak: bool,
    palette: Seq<char>,
    k: int,
)
    requires
        st.0.wf(),
        0 < palette.len(),
    ensures
        ({
            let done = bark_trunk(st, cx, bottom_y, trunk_end, trunk_height, oak, palette, k).0;
            &&& grows(st.0, done)
            &&& forall|i: int|
                st.0.order.len() <= i < done.order.len() ==> {
                    let f = #[trigger] done.order[i];
                    &&& cx - 1 <= f.0 <= cx + 1
                    &&& bottom_y - k + 1 <= f.1 <= bottom_y
                }
            &&& forall|x: int, y: int|
                st.0.in_bounds(x, y) && !(cx - 1 <= x <= cx + 1 && bottom_y - k + 1 <= y <= bottom_y)
                    ==> #[trigger] done.cell(x, y) == st.0.cell(x, y)
        }),
{
    lemma_bark_trunk_confined(st, cx, bottom_y, trunk_end, trunk_height, oak, palette, k);
    reveal(fills_inside);
}

} // verus!

verus! {

/// Fill `f` lies in the crown of radius `r` centred on (`cx`, `cy`), below
/// the top row.
pub open spec fn crown_spot(f: (usize, usize, char), cx: int, cy: int, r: int) -> bool {
    &&& in_crown(f.0 - cx, f.1 - cy, r)
    &&& f.1 > 0
}

/// Every fill from `p` to `q` is a crown spot.
spec fn crown_fills(p: Picture, q: Picture, cx: int, cy: int, r: int) -> bool {
    forall|i: int| p.order.len() <= i < q.order.len() ==> crown_spot(#[trigger] q.order[i], cx, cy, r)
}

proof fn lemma_crown_fills_chain(p: Picture, q: Picture, s: Picture, cx: int, cy: int, r: int)
    requires
        grows(p, q),
        grows(q, s),
        crown_fills(p, q, cx, cy, r),
        crown_fills(q, s, cx, cy, r),
    ensures
        grows(p, s),
        crown_fills(p, s, cx, cy, r),
{
    law_grows_transitive(p, q, s);
    assert forall|i: int| p.order.len() <= i < s.order.len() implies crown_spot(#[trigger] s.order[i], cx, cy, r) by {
        if i < q.order.len() {
            assert(s.order[i] == q.order[i]);
        }
    }
}

proof fn lemma_crown_cell_spot(
    st: Stage,
    cx: int,
    cy: int,
    r: int,
    cut: u32,
    palette: Seq<char>,
    oak: bool,
    dx: int,
    dy: int,
)
    requires
        st.0.wf(),
    ensures
        grows(st.0, crown_cell(st, cx, cy, r, cut, palette, oak, dx, dy).0),
        crown_fills(st.0, crown_cell(st, cx, cy, r, cut, palette, oak, dx, dy).0, cx, cy, r),
{
    let c = chance_draw(st.1, cut);
    let d = usize_below_draw(c.1, palette.len() as usize);
    lemma_confined_none(st.0, 0, 0, 0, 0);
    law_put_grows(st.0, cx + dx, cy + dy, palette[d.0 as int]);
    law_put_records(st.0, cx + dx, cy + dy, palette[d.0 as int]);
}

proof fn lemma_crown_row_spots(
    st: Stage,
    cx: int,
    cy: int,
    r: int,
    cut: u32,
    palette: Seq<char>,
    oak: bool,
    dy: int,
    k: int,
)
    requires
        st.0.wf(),
    ensures
        grows(st.0, crown_row(st, cx, cy, r, cut, palette, oak, dy, k).0),
        crown_fills(st.0, crown_row(st, cx, cy, r, cut, palette, oak, dy, k).0, cx, cy, r),
    decreases k,
{
    if k <= 0 {
        lemma_confined_none(st.0, 0, 0, 0, 0);
    } else {
        let prev = crown_row(st, cx, cy, r, cut, palette, oak, dy, k - 1);
        lemma_crown_row_spots(st, cx, cy, r, cut, palette, oak, dy, k - 1);
        lemma_crown_cell_spot(prev, cx, cy, r, cut, palette, oak, -2 * r + (k - 1), dy);
        lemma_crown_fills_chain(st.0, prev.0, crown_row(st, cx, cy, r, cut, palette, oak, dy, k).0, cx, cy, r);
    }
}

/// The crown of an oak or a cherry is an oval: every leaf or blossom it
/// places lies inside the oval of radius `r` around (`cx`, `cy`), √3.5
/// times as wide as it is tall, and below the top row.
pub proof fn law_crown_is_oval(st: Stage, cx: int, cy: int, r: int, cut: u32, palette: Seq<char>, oak: bool, k: int)
    requires
        st.0.wf(),
    ensures
        grows(st.0, crown(st, cx, cy, r, cut, palette, oak, k).0),
        forall|i: int|
            st.0.order.len() <= i < crown(st, cx, cy, r, cut, palette, oak, k).0.order.len() ==> crown_spot(
                #[trigger] crown(st, cx, cy, r, cut, palette, oak, k).0.order[i],
                cx,
                cy,
                r,
            ),
    decreases k,
{
    if k <= 0 {
        lemma_confined_none(st.0, 0, 0, 0, 0);
    } else {
        let prev = crown(st, cx, cy, r, cut, palette, oak, k - 1);
        law_crown_is_oval(st, cx, cy, r, cut, palette, oak, k - 1);
        lemma_crown_row_spots(prev, cx, cy, r, cut, palette, oak, -r + (k - 1), 4 * r + 1);
        lemma_crown_fills_chain(st.0, prev.0, crown(st, cx, cy, r, cut, palette, oak, k).0, cx, cy, r);
    }
}

} // verus!
