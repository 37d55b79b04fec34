//! A bamboo clump: jointed stalks of drawn heights with leaves sprouting in
//! pairs.
use crate::canvas::{confined, lemma_confined_chain, fills_inside, law_grows_transitive, lemma_confined_join, lemma_confined_none, lemma_confined_put, lemma_confined_widen, fills_within, grows, place, put_at, roomy, Bonsai, Stage};
use crate::dice::{chance_draw, i32_range_draw, usize_below_draw, Dice};
use crate::pine::HALF_CUT;
use vstd::prelude::*;

verus! {

/// Every character a bamboo clump may show.
pub open spec fn bamboo_chars() -> Set<char> {
    set!['=', '|', '/', '\\', 'V', '^']
}

pub open spec fn bamboo_leaf_palette() -> Seq<char> {
    seq!['/', '\\', 'V', '^']
}

/// Cell `y` of a stalk at column `x`, counted up from `bottom_y`: a joint
/// (`=`) every fifth cell, `|` between; a second cell to its right when a
/// draw passes one chance in two.
pub open spec fn stalk_cell(st: Stage, x: int, bottom_y: int, y: int) -> Stage {
    let py = bottom_y - y;
    let ch = if y % 5 == 0 {
        '='
    } else {
        '|'
    };
    let a = put_at(st, x, py, ch);
    let c = chance_draw(a.1, HALF_CUT);
    if c.0 {
        (a.0.put(x + 1, py, ch), c.1)
    } else {
        (a.0, c.1)
    }
}

/// The first `k` cells of a stalk.
pub open spec fn stalk(st: Stage, x: int, bottom_y: int, k: int) -> Stage
    decreases k,
{
    if k <= 0 {
        st
    } else {
        stalk_cell(stalk(st, x, bottom_y, k - 1), x, bottom_y, k - 1)
    }
}

/// Steps 1..=`k` of a leaf leaving column `x` at row `ly` in direction
/// `dir`, rising one row every two steps; each step picked from the leaf
/// palette, and none drawn above the top row.
pub open spec fn leaf_run(st: Stage, x: int, ly: int, dir: int, k: int) -> Stage
    decreases k,
{
    if k <= 0 {
        st
    } else {
        let prev = leaf_run(st, x, ly, dir, k - 1);
        let ly2 = ly - k / 2;
        if ly2 >= 0 {
            let d = usize_below_draw(prev.1, 4);
            (prev.0.put(x + dir * k, ly2, bamboo_leaf_palette()[d.0 as int]), d.1)
        } else {
            prev
        }
    }
}

/// The first `k` leaves at a node: even leaves go right, odd ones left, each
/// 3 to 6 steps long.
pub open spec fn node_leaves(st: Stage, x: int, ly: int, k: int) -> Stage
    decreases k,
{
    if k <= 0 {
        st
    } else {
        let prev = node_leaves(st, x, ly, k - 1);
        let dir: int = if (k - 1) % 2 == 0 {
            1
        } else {
            -1
        };
        let len = i32_range_draw(prev.1, 0, 4);
        leaf_run((prev.0, len.1), x, ly, dir, 3 + len.0)
    }
}

/// The first `k` of the `nodes` leaf nodes of a stalk `height` cells tall:
/// node `ln` sits `ln * (height / nodes) + 2` rows above `bottom_y` and
/// carries 2 to 4 leaves.
pub open spec fn stalk_nodes(st: Stage, x: int, bottom_y: int, height: int, nodes: int, k: int) -> Stage
    decreases k,
{
    if k <= 0 {
        st
    } else {
        let prev = stalk_nodes(st, x, bottom_y, height, nodes, k - 1);
        let ly = bottom_y - (k - 1) * (height / nodes) - 2;
        if ly < 0 {
            prev
        } else {
            let count = i32_range_draw(prev.1, 0, 3);
            node_leaves((prev.0, count.1), x, ly, 2 + count.0)
        }
    }
}

/// Stalk `s` of `count`, three columns from its neighbours and centred on
/// `cx`: its height is `tree_height` less a draw below 8; a stalk under five
/// cells is not drawn.
pub open spec fn bamboo_stalk(
    st: Stage,
    cx: int,
    s: int,
    count: int,
    bottom_y: int,
    tree_height: int,
    nodes: int,
) -> Stage {
    let x = cx + (s - count / 2) * 3;
    let h = i32_range_draw(st.1, 0, 8);
    let height = tree_height - h.0;
    if height < 5 {
        (st.0, h.1)
    } else {
        let grown = stalk((st.0, h.1), x, bottom_y, height);
        stalk_nodes(grown, x, bottom_y, height, nodes, nodes)
    }
}

/// The first `k` stalks of the clump.
pub open spec fn bamboo_stalks(
    st: Stage,
    cx: int,
    count: int,
    bottom_y: int,
    tree_height: int,
    nodes: int,
    k: int,
) -> Stage
    decreases k,
{
    if k <= 0 {
        st
    } else {
        bamboo_stalk(
            bamboo_stalks(st, cx, count, bottom_y, tree_height, nodes, k - 1),
            cx,
            k - 1,
            count,
            bottom_y,
            tree_height,
            nodes,
        )
    }
}

/// The whole clump standing on row `bottom_y`, centred on column `cx`.
pub open spec fn bamboo_drawing(st: Stage, cx: int, bottom_y: int, tree_height: int, density: int) -> Stage {
    let count = 3 + density / 2;
    bamboo_stalks(st, cx, count, bottom_y, tree_height, 2 + density / 2, count)
}

fn stalk_exec(b: &mut Bonsai, dice: &mut Dice, x: isize, bottom_y: usize, height: isize)
    requires
        old(b).wf(),
        old(b)@.faithful(),
        old(b)@.tidy(),
        roomy(old(b)@),
        bottom_y <= old(b).height,
        0 <= height <= bottom_y,
        -(isize::MAX / 2) <= x <= isize::MAX / 2,
    ensures
        final(b).wf(),
        final(b)@.faithful(),
        final(b)@.tidy(),
        final(b).width == old(b).width,
        final(b).height == old(b).height,
        grows(old(b)@, final(b)@),
        fills_within(old(b)@, final(b)@, bamboo_chars()),
        (final(b)@, final(dice).state()) == stalk(
            (old(b)@, old(dice).state()),
            x as int,
            bottom_y as int,
            height as int,
        ),
{
    let ghost init: Stage = (b@, dice.state());
    let mut y: isize = 0;
    while y < height
        invariant
            b.wf(),
            b@.faithful(),
            b@.tidy(),
            b.width == old(b).width,
            b.height == old(b).height,
            grows(old(b)@, b@),
            fills_within(old(b)@, b@, bamboo_chars()),
            roomy(b@),
            bottom_y <= b.height,
            0 <= y <= height <= bottom_y,
            -(isize::MAX / 2) <= x <= isize::MAX / 2,
            (b@, dice.state()) == stalk(init, x as int, bottom_y as int, y as int),
        decreases height - y,
    {
        let py = bottom_y as isize - y;
        let bamboo_chars = if y % 5 == 0 {
            '='
        } else {
            '|'
        };
        place(b, x, py, bamboo_chars);
        if dice.chance(HALF_CUT) {
            place(b, x + 1, py, bamboo_chars);
        }
        y = y + 1;
    }
}

fn leaf_run_exec(b: &mut Bonsai, dice: &mut Dice, x: isize, ly: isize, dir: isize, len: i32)
    requires
        old(b).wf(),
        old(b)@.faithful(),
        old(b)@.tidy(),
        dir == 1 || dir == -1,
        0 <= len <= 10,
        -(isize::MAX / 2) <= x <= isize::MAX / 2,
        -(isize::MAX / 2) <= ly <= isize::MAX / 2,
    ensures
        final(b).wf(),
        final(b)@.faithful(),
        final(b)@.tidy(),
        final(b).width == old(b).width,
        final(b).height == old(b).height,
        grows(old(b)@, final(b)@),
        fills_within(old(b)@, final(b)@, bamboo_chars()),
        (final(b)@, final(dice).state()) == leaf_run(
            (old(b)@, old(dice).state()),
            x as int,
            ly as int,
            dir as int,
            len as int,
        ),
{
    let ghost init: Stage = (b@, dice.state());
    let mut ll: i32 = 1;
    while ll <= len
        invariant
            b.wf(),
            b@.faithful(),
            b@.tidy(),
            b.width == old(b).width,
            b.height == old(b).height,
            grows(old(b)@, b@),
            fills_within(old(b)@, b@, bamboo_chars()),
            dir == 1 || dir == -1,
            1 <= ll <= len + 1,
            len <= 10,
            -(isize::MAX / 2) <= x <= isize::MAX / 2,
            -(isize::MAX / 2) <= ly <= isize::MAX / 2,
            (b@, dice.state()) == leaf_run(init, x as int, ly as int, dir as int, ll - 1),
        decreases len + 1 - ll,
    {
        proof {
            if dir == 1 {
                assert(dir * ll == ll);
            } else {
                assert(dir * ll == -ll) by (nonlinear_arith)
                    requires
                        dir == -1,
                ;
            }
        }
        let lx = x + dir * ll as isize;
        let ly2 = ly - ll as isize / 2;
        if ly2 >= 0 {
            let leaf_chars = ['/', '\\', 'V', '^'];
            assert(leaf_chars@ == bamboo_leaf_palette());
            let idx = dice.below(leaf_chars.len());
            place(b, lx, ly2, leaf_chars[idx]);
        }
        ll = ll + 1;
    }
}

fn node_leaves_exec(b: &mut Bonsai, dice: &mut Dice, x: isize, ly: isize, count: i32)
    requires
        old(b).wf(),
        old(b)@.faithful(),
        old(b)@.tidy(),
        0 <= count <= 10,
        -(isize::MAX / 2) <= x <= isize::MAX / 2,
        -(isize::MAX / 2) <= ly <= isize::MAX / 2,
    ensures
        final(b).wf(),
        final(b)@.faithful(),
        final(b)@.tidy(),
        final(b).width == old(b).width,
        final(b).height == old(b).height,
        grows(old(b)@, final(b)@),
        fills_within(old(b)@, final(b)@, bamboo_chars()),
        (final(b)@, final(dice).state()) == node_leaves(
            (old(b)@, old(dice).state()),
            x as int,
            ly as int,
            count as int,
        ),
{
    let ghost init: Stage = (b@, dice.state());
    let mut lf: i32 = 0;
    while lf < count
        invariant
            b.wf(),
            b@.faithful(),
            b@.tidy(),
            b.width == old(b).width,
            b.height == old(b).height,
            grows(old(b)@, b@),
            fills_within(old(b)@, b@, bamboo_chars()),
            0 <= lf <= count <= 10,
            -(isize::MAX / 2) <= x <= isize::MAX / 2,
            -(isize::MAX / 2) <= ly <= isize::MAX / 2,
            (b@, dice.state()) == node_leaves(init, x as int, ly as int, lf as int),
        decreases count - lf,
    {
        let dir: isize = if lf % 2 == 0 {
            1
        } else {
            -1
        };
        let leaf_len = 3 + dice.range_i32(0, 4);
        leaf_run_exec(b, dice, x, ly, dir, leaf_len);
        lf = lf + 1;
    }
}

fn stalk_nodes_exec(
    b: &mut Bonsai,
    dice: &mut Dice,
    x: isize,
    bottom_y: usize,
    height: isize,
    nodes: usize,
)
    requires
        old(b).wf(),
        old(b)@.faithful(),
        old(b)@.tidy(),
        roomy(old(b)@),
        bottom_y <= old(b).height,
        5 <= height <= bottom_y,
        2 <= nodes <= 200,
        -(isize::MAX / 2) <= x <= isize::MAX / 2,
    ensures
        final(b).wf(),
        final(b)@.faithful(),
        final(b)@.tidy(),
        final(b).width == old(b).width,
        final(b).height == old(b).height,
        grows(old(b)@, final(b)@),
        fills_within(old(b)@, final(b)@, bamboo_chars()),
        (final(b)@, final(dice).state()) == stalk_nodes(
            (old(b)@, old(dice).state()),
            x as int,
            bottom_y as int,
            height as int,
            nodes as int,
            nodes as int,
        ),
{
    let ghost init: Stage = (b@, dice.state());
    let mut ln: usize = 0;
    while ln < nodes
        invariant
            b.wf(),
            b@.faithful(),
            b@.tidy(),
            b.width == old(b).width,
            b.height == old(b).height,
            grows(old(b)@, b@),
            fills_within(old(b)@, b@, bamboo_chars()),
            roomy(b@),
            bottom_y <= b.height,
            5 <= height <= bottom_y,
            2 <= nodes <= 200,
            ln <= nodes,
            -(isize::MAX / 2) <= x <= isize::MAX / 2,
            (b@, dice.state()) == stalk_nodes(init, x as int, bottom_y as int, height as int, nodes as int, ln as int),
        decreases nodes - ln,
    {
        let step = height / nodes as isize;
        proof {
            assert(0 <= ln * step <= height) by (nonlinear_arith)
                requires
                    0 <= ln < nodes,
                    step as int == (height as int) / (nodes as int),
                    0 < nodes,
                    0 <= height,
            ;
        }
        let ly = bottom_y as isize - (ln as isize) * step - 2;
        if ly >= 0 {
            let leaf_count = 2 + dice.range_i32(0, 3);
            node_leaves_exec(b, dice, x, ly, leaf_count);
        }
        ln = ln + 1;
    }
}

/// Draws a bamboo clump standing on row `bottom_y`, centred on column `cx`,
/// with stalks up to `tree_height` cells tall.
pub(crate) fn draw_bamboo(
    b: &mut Bonsai,
    cx: usize,
    bottom_y: usize,
    tree_height: usize,
    density: u8,
    dice: &mut Dice,
)
    requires
        old(b).wf(),
        old(b)@.faithful(),
        old(b)@.tidy(),
        roomy(old(b)@),
        cx <= old(b).width,
        bottom_y <= old(b).height,
        tree_height <= bottom_y,
    ensures
        final(b).wf(),
        final(b)@.faithful(),
        final(b)@.tidy(),
        final(b).width == old(b).width,
        final(b).height == old(b).height,
        grows(old(b)@, final(b)@),
        fills_within(old(b)@, final(b)@, bamboo_chars()),
        (final(b)@, final(dice).state()) == bamboo_drawing(
            (old(b)@, old(dice).state()),
            cx as int,
            bottom_y as int,
            tree_height as int,
            density as int,
        ),
{
    let ghost init: Stage = (b@, dice.state());
    let density_mult = density as isize;
    let stalk_count = 3 + density_mult as usize / 2;
    let leaf_nodes = 2 + density_mult as usize / 2;
    let mut s: usize = 0;
    while s < stalk_count
        invariant
            b.wf(),
            b@.faithful(),
            b@.tidy(),
            b.width == old(b).width,
            b.height == old(b).height,
            grows(old(b)@, b@),
            fills_within(old(b)@, b@, bamboo_chars()),
            roomy(b@),
            cx <= b.width,
            bottom_y <= b.height,
            tree_height <= bottom_y,
            stalk_count == 3 + density / 2,
            leaf_nodes == 2 + density / 2,
            s <= stalk_count,
            (b@, dice.state()) == bamboo_stalks(
                init,
                cx as int,
                stalk_count as int,
                bottom_y as int,
                tree_height as int,
                leaf_nodes as int,
                s as int,
            ),
        decreases stalk_count - s,
    {
        let stalk_x = cx as isize + (s as isize - stalk_count as isize / 2) * 3;
        let stalk_height = tree_height as isize - dice.range_i32(0, 8) as isize;
        if stalk_height >= 5 {
            stalk_exec(b, dice, stalk_x, bottom_y, stalk_height);
            stalk_nodes_exec(b, dice, stalk_x, bottom_y, stalk_height, leaf_nodes);
        }
        s = s + 1;
    }
}

} // verus!

verus! {

/// The leftmost column a leaf of `k` steps from `x` in direction `dir` can
/// reach.
spec fn leaf_reach_left(x: int, dir: int, k: int) -> int {
    if dir == 1 {
        x + 1
    } else {
        x - k
    }
}

/// The rightmost column a leaf of `k` steps from `x` in direction `dir` can
/// reach.
spec fn leaf_reach_right(x: int, dir: int, k: int) -> int {
    if dir == 1 {
        x + k
    } else {
        x - 1
    }
}

proof fn lemma_leaf_run_confined(st: Stage, x: int, ly: int, dir: int, k: int)
    requires
        st.0.wf(),
        dir == 1 || dir == -1,
    ensures
        confined(st.0, leaf_run(st, x, ly, dir, k).0, leaf_reach_left(x, dir, k), leaf_reach_right(x, dir, k), 0, ly),
    decreases k,
{
    let x0 = leaf_reach_left(x, dir, k);
    let x1 = leaf_reach_right(x, dir, k);
    if k <= 0 {
        lemma_confined_none(st.0, x0, x1, 0, ly);
    } else {
        let prev = leaf_run(st, x, ly, dir, k - 1);
        let next = leaf_run(st, x, ly, dir, k);
        lemma_leaf_run_confined(st, x, ly, dir, k - 1);
        let ly2 = ly - k / 2;
        if ly2 >= 0 {
            let d = usize_below_draw(prev.1, 4);
            lemma_confined_put(prev.0, x + dir * k, ly2, bamboo_leaf_palette()[d.0 as int], x + dir * k, x + dir * k, ly2, ly2);
            lemma_confined_join(
                st.0,
                prev.0,
                next.0,
                x0,
                x1,
                0,
                ly,
                leaf_reach_left(x, dir, k - 1),
                leaf_reach_right(x, dir, k - 1),
                0,
                ly,
                x + dir * k,
                x + dir * k,
                ly2,
                ly2,
            );
        } else {
            lemma_confined_widen(st.0, prev.0, x0, x1, 0, ly, leaf_reach_left(x, dir, k - 1), leaf_reach_right(x, dir, k - 1), 0, ly);
        }
    }
}

proof fn lemma_node_leaves_grow(st: Stage, x: int, ly: int, k: int)
    requires
        st.0.wf(),
    ensures
        grows(st.0, node_leaves(st, x, ly, k).0),
    decreases k,
{
    if k <= 0 {
        lemma_confined_none(st.0, 0, 0, 0, 0);
    } else {
        let prev = node_leaves(st, x, ly, k - 1);
        lemma_node_leaves_grow(st, x, ly, k - 1);
        let dir: int = if (k - 1) % 2 == 0 {
            1
        } else {
            -1
        };
        let len = i32_range_draw(prev.1, 0, 4);
        lemma_leaf_run_confined((prev.0, len.1), x, ly, dir, 3 + len.0);
        law_grows_transitive(st.0, prev.0, node_leaves(st, x, ly, k).0);
    }
}

/// Leaves sprout on both sides of a stalk: every cell that leaf `j` of a
/// node at row `ly` on the stalk in column `x` fills lies right of the stalk
/// (at most six columns) for even `j` and left of it for odd `j`, on a row
/// from 0 up to the node's row.
pub proof fn law_leaves_alternate(st: Stage, x: int, ly: int, j: int)
    requires
        st.0.wf(),
        0 <= j,
    ensures
        forall|i: int|
            node_leaves(st, x, ly, j).0.order.len() <= i < node_leaves(st, x, ly, j + 1).0.order.len() ==> {
                let f = #[trigger] node_leaves(st, x, ly, j + 1).0.order[i];
                &&& j % 2 == 0 ==> x < f.0 <= x + 6
                &&& j % 2 == 1 ==> x - 6 <= f.0 < x
                &&& 0 <= f.1 <= ly
            },
{
    let prev = node_leaves(st, x, ly, j);
    lemma_node_leaves_grow(st, x, ly, j);
    let dir: int = if j % 2 == 0 {
        1
    } else {
        -1
    };
    let len = i32_range_draw(prev.1, 0, 4);
    lemma_leaf_run_confined((prev.0, len.1), x, ly, dir, 3 + len.0);
    reveal(fills_inside);
}

} // verus!

verus! {

proof fn lemma_stalk_confined(st: Stage, x: int, bottom_y: int, k: int)
    requires
        st.0.wf(),
    ensures
        confined(st.0, stalk(st, x, bottom_y, k).0, x, x + 1, bottom_y - k + 1, bottom_y),
    decreases k,
{
    if k <= 0 {
        lemma_confined_none(st.0, x, x + 1, bottom_y - k + 1, bottom_y);
    } else {
        let prev = stalk(st, x, bottom_y, k - 1);
        let next = stalk(st, x, bottom_y, k);
        lemma_stalk_confined(st, x, bottom_y, k - 1);
        let y = k - 1;
        let py = bottom_y - y;
        let ch = if y % 5 == 0 {
            '='
        } else {
            '|'
        };
        let a = put_at(prev, x, py, ch);
        lemma_confined_put(prev.0, x, py, ch, x, x + 1, py, py);
        lemma_confined_put(a.0, x + 1, py, ch, x, x + 1, py, py);
        lemma_confined_none(a.0, x, x + 1, py, py);
        lemma_confined_chain(prev.0, a.0, next.0, x, x + 1, py, py, x, x + 1, py, py);
        lemma_confined_join(
            st.0,
            prev.0,
            next.0,
            x,
            x + 1,
            bottom_y - k + 1,
            bottom_y,
            x,
            x + 1,
            bottom_y - k + 2,
            bottom_y,
            x,
            x + 1,
            py,
            py,
        );
    }
}

proof fn lemma_node_leaves_confined(st: Stage, x: int, ly: int, k: int)
    requires
        st.0.wf(),
    ensures
        confined(st.0, node_leaves(st, x, ly, k).0, x - 6, x + 6, 0, ly),
    decreases k,
{
    if k <= 0 {
        lemma_confined_none(st.0, x - 6, x + 6, 0, ly);
    } else {
        let prev = node_leaves(st, x, ly, k - 1);
        lemma_node_leaves_confined(st, x, ly, k - 1);
        let dir: int = if (k - 1) % 2 == 0 {
            1
        } else {
            -1
        };
        let len = i32_range_draw(prev.1, 0, 4);
        lemma_leaf_run_confined((prev.0, len.1), x, ly, dir, 3 + len.0);
        lemma_confined_join(
            st.0,
            prev.0,
            node_leaves(st, x, ly, k).0,
            x - 6,
            x + 6,
            0,
            ly,
            x - 6,
            x + 6,
            0,
            ly,
            leaf_reach_left(x, dir, 3 + len.0),
            leaf_reach_right(x, dir, 3 + len.0),
            0,
            ly,
        );
    }
}

proof fn lemma_stalk_nodes_confined(st: Stage, x: int, bottom_y: int, height: int, nodes: int, k: int)
    requires
        st.0.wf(),
        0 <= height,
        0 < nodes,
    ensures
        confined(st.0, stalk_nodes(st, x, bottom_y, height, nodes, k).0, x - 6, x + 6, 0, bottom_y),
    decreases k,
{
    if k <= 0 {
        lemma_confined_none(st.0, x - 6, x + 6, 0, bottom_y);
    } else {
        let prev = stalk_nodes(st, x, bottom_y, height, nodes, k - 1);
        lemma_stalk_nodes_confined(st, x, bottom_y, height, nodes, k - 1);
        let step = height / nodes;
        vstd::arithmetic::div_mod::lemma_div_pos_is_pos(height, nodes);
        let ly = bottom_y - (k - 1) * step - 2;
        assert((k - 1) * step >= 0) by (nonlinear_arith)
            requires
                k >= 1,
                step >= 0,
        ;
        if ly < 0 {
            lemma_confined_none(prev.0, x - 6, x + 6, 0, bottom_y);
            lemma_confined_chain(st.0, prev.0, prev.0, x - 6, x + 6, 0, bottom_y, x - 6, x + 6, 0, bottom_y);
        } else {
            let count = i32_range_draw(prev.1, 0, 3);
            lemma_node_leaves_confined((prev.0, count.1), x, ly, 2 + count.0);
            lemma_confined_join(
                st.0,
                prev.0,
                stalk_nodes(st, x, bottom_y, height, nodes, k).0,
                x - 6,
                x + 6,
                0,
                bottom_y,
                x - 6,
                x + 6,
                0,
                bottom_y,
                x - 6,
                x + 6,
                0,
                ly,
            );
        }
    }
}

/// Stalk `s` of a clump of `count` stalks stands in its own column
/// `cx + 3 (s - count / 2)`: everything it draws (the stalk and its leaves)
/// lies within six columns of that column, on rows no lower than `bottom_y`.
pub proof fn law_stalk_stands_in_its_column(
    st: Stage,
    cx: int,
    s: int,
    count: int,
    bottom_y: int,
    tree_height: int,
    nodes: int,
)
    requires
        st.0.wf(),
        0 <= bottom_y,
        0 <= tree_height,
        0 < nodes,
    ensures
        ({
            let x = cx + (s - count / 2) * 3;
            let done = bamboo_stalk(st, cx, s, count, bottom_y, tree_height, nodes).0;
            &&& grows(st.0, done)
            &&& forall|i: int|
                st.0.order.len() <= i < done.order.len() ==> {
                    let f = #[trigger] done.order[i];
                    &&& x - 6 <= f.0 <= x + 6
                    &&& f.1 <= bottom_y
                }
        }),
{
    let x = cx + (s - count / 2) * 3;
    let h = i32_range_draw(st.1, 0, 8);
    let height = tree_height - h.0;
    let y0 = -tree_height;
    if height < 5 {
        lemma_confined_none(st.0, x - 6, x + 6, y0, bottom_y);
    } else {
        let grown = stalk((st.0, h.1), x, bottom_y, height);
        lemma_stalk_confined((st.0, h.1), x, bottom_y, height);
        lemma_stalk_nodes_confined(grown, x, bottom_y, height, nodes, nodes);
        lemma_confined_join(
            st.0,
            grown.0,
            bamboo_stalk(st, cx, s, count, bottom_y, tree_height, nodes).0,
            x - 6,
            x + 6,
            y0,
            bottom_y,
            x,
            x + 1,
            bottom_y - height + 1,
            bottom_y,
            x - 6,
            x + 6,
            0,
            bottom_y,
        );
    }
    reveal(fills_inside);
}

} // verus!
