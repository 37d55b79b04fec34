//! The drawing surface: a rectangular grid of characters that remembers the
//! order in which its cells were filled.
use crate::dice::{usize_below_draw, Dice};
use vstd::prelude::*;

verus! {

/// A character grid in mathematical form, with the sequence of fills that
/// produced it (each fill is a column, a row and the character written).
#[verifier::ext_equal]
pub struct Picture {
    pub width: int,
    pub height: int,
    pub grid: Seq<Seq<char>>,
    pub order: Seq<(usize, usize, char)>,
}

/// A grid of `height` rows of `width` spaces.
pub open spec fn blank_grid(width: int, height: int) -> Seq<Seq<char>> {
    Seq::new(height as nat, |_y: int| Seq::new(width as nat, |_x: int| ' '))
}

/// The grid with the cell in column `x` of row `y` set to `c`.
pub open spec fn paint(grid: Seq<Seq<char>>, x: int, y: int, c: char) -> Seq<Seq<char>> {
    grid.update(y, grid[y].update(x, c))
}

/// The grid obtained by writing each step, in order, onto `grid`.
pub open spec fn replay(grid: Seq<Seq<char>>, steps: Seq<(usize, usize, char)>) -> Seq<Seq<char>>
    decreases steps.len(),
{
    if steps.len() == 0 {
        grid
    } else {
        let last = steps.last();
        paint(replay(grid, steps.drop_last()), last.0 as int, last.1 as int, last.2)
    }
}

/// The text of a grid: every row followed by a line break.
pub open spec fn text_of(grid: Seq<Seq<char>>) -> Seq<char>
    decreases grid.len(),
{
    if grid.len() == 0 {
        Seq::empty()
    } else {
        text_of(grid.drop_last()) + grid.last() + seq!['\n']
    }
}

impl Picture {
    /// The grid has `height` rows of `width` cells.
    pub open spec fn wf(self) -> bool {
        &&& 0 <= self.width <= usize::MAX
        &&& 0 <= self.height <= usize::MAX
        &&& self.grid.len() == self.height
        &&& forall|y: int| 0 <= y < self.height ==> #[trigger] self.grid[y].len() == self.width
    }

    pub open spec fn in_bounds(self, x: int, y: int) -> bool {
        0 <= x < self.width && 0 <= y < self.height
    }

    pub open spec fn cell(self, x: int, y: int) -> char {
        self.grid[y][x]
    }

    /// Writing `c` at (`x`, `y`): it lands, and is recorded, only when the
    /// cell lies on the canvas and still holds a space.
    pub open spec fn put(self, x: int, y: int, c: char) -> Picture {
        if self.in_bounds(x, y) && self.cell(x, y) == ' ' {
            Picture {
                width: self.width,
                height: self.height,
                grid: paint(self.grid, x, y, c),
                order: self.order.push((x as usize, y as usize, c)),
            }
        } else {
            self
        }
    }

    /// Every recorded fill lies on the canvas, and replaying the fills onto a
    /// blank canvas gives the grid.
    pub open spec fn faithful(self) -> bool {
        &&& forall|i: int|
            0 <= i < self.order.len() ==> self.in_bounds(
                #[trigger] self.order[i].0 as int,
                self.order[i].1 as int,
            )
        &&& self.grid == replay(blank_grid(self.width, self.height), self.order)
    }

    pub open spec fn blank(width: int, height: int) -> Picture {
        Picture { width, height, grid: blank_grid(width, height), order: Seq::empty() }
    }
}

/// `q` grows from `p`: same canvas size, the fills of `p` are the first fills
/// of `q`, and every cell that held a character in `p` still holds it in `q`.
pub open spec fn grows(p: Picture, q: Picture) -> bool {
    &&& q.wf()
    &&& q.width == p.width
    &&& q.height == p.height
    &&& p.order.len() <= q.order.len()
    &&& forall|i: int| 0 <= i < p.order.len() ==> #[trigger] q.order[i] == p.order[i]
    &&& forall|x: int, y: int|
        p.in_bounds(x, y) && p.cell(x, y) != ' ' ==> #[trigger] q.cell(x, y) == p.cell(x, y)
}

/// Writing only adds to a picture: it keeps every earlier fill and every
/// character already on the canvas.
pub proof fn law_put_grows(p: Picture, x: int, y: int, c: char)
    requires
        p.wf(),
    ensures
        grows(p, p.put(x, y, c)),
{
    let q = p.put(x, y, c);
    assert forall|a: int, b: int| p.in_bounds(a, b) && p.cell(a, b) != ' ' implies #[trigger] q.cell(a, b)
        == p.cell(a, b) by {
        law_first_writer_wins(p, x, y, c, a, b);
    }
}

/// Growing is transitive.
pub proof fn law_grows_transitive(p: Picture, q: Picture, r: Picture)
    requires
        grows(p, q),
        grows(q, r),
    ensures
        grows(p, r),
{
    assert forall|x: int, y: int| p.in_bounds(x, y) && p.cell(x, y) != ' ' implies #[trigger] r.cell(x, y)
        == p.cell(x, y) by {
        assert(q.cell(x, y) == p.cell(x, y));
        assert(q.in_bounds(x, y));
    }
}

/// Every fill made between `p` and `q` wrote a character of `ok`.
pub open spec fn fills_within(p: Picture, q: Picture, ok: Set<char>) -> bool {
    forall|i: int| p.order.len() <= i < q.order.len() ==> ok.contains(#[trigger] q.order[i].2)
}

/// Every fill made between `p` and `q` lies in columns `x0..=x1` of rows
/// `y0..=y1`.
#[verifier::opaque]
pub open spec fn fills_inside(p: Picture, q: Picture, x0: int, x1: int, y0: int, y1: int) -> bool {
    forall|i: int|
        p.order.len() <= i < q.order.len() ==> x0 <= (#[trigger] q.order[i]).0 && q.order[i].0 <= x1
            && y0 <= q.order[i].1 && q.order[i].1 <= y1
}

/// A picture with no new fills has them all inside any box.
pub(crate) proof fn lemma_fills_inside_none(p: Picture, q: Picture, x0: int, x1: int, y0: int, y1: int)
    requires
        q.order.len() <= p.order.len(),
    ensures
        fills_inside(p, q, x0, x1, y0, y1),
{
    reveal(fills_inside);
}

/// Fills inside a box, followed by fills inside a smaller box, stay inside
/// the larger one.
pub(crate) proof fn lemma_fills_inside_chain(
    p: Picture,
    q: Picture,
    r: Picture,
    x0: int,
    x1: int,
    y0: int,
    y1: int,
    a0: int,
    a1: int,
    b0: int,
    b1: int,
)
    requires
        grows(p, q),
        grows(q, r),
        fills_inside(p, q, x0, x1, y0, y1),
        fills_inside(q, r, a0, a1, b0, b1),
        x0 <= a0,
        a1 <= x1,
        y0 <= b0,
        b1 <= y1,
    ensures
        fills_inside(p, r, x0, x1, y0, y1),
{
    reveal(fills_inside);
    assert forall|i: int| p.order.len() <= i < r.order.len() implies x0 <= (#[trigger] r.order[i]).0
        && r.order[i].0 <= x1 && y0 <= r.order[i].1 && r.order[i].1 <= y1 by {
        if i < q.order.len() {
            assert(r.order[i] == q.order[i]);
        }
    }
}

/// Every cell of `p` outside columns `x0..=x1` of rows `y0..=y1` shows the
/// same character in `q`.
pub open spec fn kept_outside(p: Picture, q: Picture, x0: int, x1: int, y0: int, y1: int) -> bool {
    forall|x: int, y: int|
        p.in_bounds(x, y) && !(x0 <= x <= x1 && y0 <= y <= y1) ==> #[trigger] q.cell(x, y) == p.cell(x, y)
}

/// `q` grows from `p` by fills inside columns `x0..=x1` of rows `y0..=y1`
/// alone: no fill and no change lies outside that box.
pub open spec fn confined(p: Picture, q: Picture, x0: int, x1: int, y0: int, y1: int) -> bool {
    &&& grows(p, q)
    &&& fills_inside(p, q, x0, x1, y0, y1)
    &&& kept_outside(p, q, x0, x1, y0, y1)
}

/// Nothing drawn is confined to any box.
pub(crate) proof fn lemma_confined_none(p: Picture, x0: int, x1: int, y0: int, y1: int)
    requires
        p.wf(),
    ensures
        confined(p, p, x0, x1, y0, y1),
{
    lemma_fills_inside_none(p, p, x0, x1, y0, y1);
}

/// One write inside a box is confined to it.
pub(crate) proof fn lemma_confined_put(p: Picture, x: int, y: int, c: char, x0: int, x1: int, y0: int, y1: int)
    requires
        p.wf(),
        x0 <= x <= x1,
        y0 <= y <= y1,
    ensures
        confined(p, p.put(x, y, c), x0, x1, y0, y1),
{
    let q = p.put(x, y, c);
    law_put_grows(p, x, y, c);
    reveal(fills_inside);
    assert forall|a: int, b: int| p.in_bounds(a, b) && !(x0 <= a <= x1 && y0 <= b <= y1) implies #[trigger] q.cell(
        a,
        b,
    ) == p.cell(a, b) by {
        law_first_writer_wins(p, x, y, c, a, b);
    }
}

/// Confined drawing followed by drawing confined to a smaller box stays
/// confined to the larger one.
pub(crate) proof fn lemma_confined_chain(
    p: Picture,
    q: Picture,
    r: Picture,
    x0: int,
    x1: int,
    y0: int,
    y1: int,
    a0: int,
    a1: int,
    b0: int,
    b1: int,
)
    requires
        confined(p, q, x0, x1, y0, y1),
        confined(q, r, a0, a1, b0, b1),
        x0 <= a0,
        a1 <= x1,
        y0 <= b0,
        b1 <= y1,
    ensures
        confined(p, r, x0, x1, y0, y1),
{
    law_grows_transitive(p, q, r);
    lemma_fills_inside_chain(p, q, r, x0, x1, y0, y1, a0, a1, b0, b1);
    assert forall|x: int, y: int| p.in_bounds(x, y) && !(x0 <= x <= x1 && y0 <= y <= y1) implies #[trigger] r.cell(
        x,
        y,
    ) == p.cell(x, y) by {
        assert(q.cell(x, y) == p.cell(x, y));
        assert(q.in_bounds(x, y));
    }
}

/// Drawing confined to a box is confined to every box around it.
pub(crate) proof fn lemma_confined_widen(
    p: Picture,
    q: Picture,
    x0: int,
    x1: int,
    y0: int,
    y1: int,
    a0: int,
    a1: int,
    b0: int,
    b1: int,
)
    requires
        p.wf(),
        confined(p, q, a0, a1, b0, b1),
        x0 <= a0,
        a1 <= x1,
        y0 <= b0,
        b1 <= y1,
    ensures
        confined(p, q, x0, x1, y0, y1),
{
    lemma_confined_none(p, x0, x1, y0, y1);
    lemma_confined_chain(p, p, q, x0, x1, y0, y1, a0, a1, b0, b1);
}

/// Two confined stretches of drawing, each inside a box, are together
/// confined to that box.
pub(crate) proof fn lemma_confined_join(
    p: Picture,
    q: Picture,
    r: Picture,
    x0: int,
    x1: int,
    y0: int,
    y1: int,
    a0: int,
    a1: int,
    b0: int,
    b1: int,
    c0: int,
    c1: int,
    d0: int,
    d1: int,
)
    requires
        p.wf(),
        confined(p, q, a0, a1, b0, b1),
        confined(q, r, c0, c1, d0, d1),
        x0 <= a0,
        a1 <= x1,
        y0 <= b0,
        b1 <= y1,
        x0 <= c0,
        c1 <= x1,
        y0 <= d0,
        d1 <= y1,
    ensures
        confined(p, r, x0, x1, y0, y1),
{
    lemma_confined_widen(p, q, x0, x1, y0, y1, a0, a1, b0, b1);
    lemma_confined_chain(p, q, r, x0, x1, y0, y1, c0, c1, d0, d1);
}

impl Picture {
    /// The fills are tidy: each lies on the canvas and wrote a character
    /// other than a space that its cell still holds, no two fills share a
    /// cell, and every cell that is not blank was filled.
    pub open spec fn tidy(self) -> bool {
        &&& forall|i: int|
            0 <= i < self.order.len() ==> {
                let f = #[trigger] self.order[i];
                &&& self.in_bounds(f.0 as int, f.1 as int)
                &&& f.2 != ' '
                &&& self.cell(f.0 as int, f.1 as int) == f.2
            }
        &&& forall|i: int, j: int|
            0 <= i < j < self.order.len() ==> (#[trigger] self.order[i]).0 != (#[trigger] self.order[j]).0
                || self.order[i].1 != self.order[j].1
        &&& forall|x: int, y: int|
            self.in_bounds(x, y) && #[trigger] self.cell(x, y) != ' ' ==> exists|i: int|
                0 <= i < self.order.len() && (#[trigger] self.order[i]).0 == x && self.order[i].1 == y
    }
}

/// A blank canvas has tidy (no) fills.
pub proof fn law_blank_is_tidy(width: usize, height: usize)
    ensures
        Picture::blank(width as int, height as int).tidy(),
{
}

/// Writing a character other than a space keeps the fills tidy: the fills
/// are on the canvas, hold characters other than spaces that their cells
/// still show, fill distinct cells, and cover every non-blank cell.
pub proof fn law_put_keeps_tidy(p: Picture, x: int, y: int, c: char)
    requires
        p.wf(),
        p.tidy(),
        c != ' ',
    ensures
        p.put(x, y, c).tidy(),
{
    let q = p.put(x, y, c);
    if p.in_bounds(x, y) && p.cell(x, y) == ' ' {
        let n = p.order.len() as int;
        law_put_records(p, x, y, c);
        assert forall|i: int| 0 <= i < q.order.len() implies {
            let f = #[trigger] q.order[i];
            &&& q.in_bounds(f.0 as int, f.1 as int)
            &&& f.2 != ' '
            &&& q.cell(f.0 as int, f.1 as int) == f.2
        } by {
            if i < n {
                let f = p.order[i];
                assert(q.order[i] == f);
                law_first_writer_wins(p, x, y, c, f.0 as int, f.1 as int);
            }
        }
        assert forall|i: int, j: int| 0 <= i < j < q.order.len() implies (#[trigger] q.order[i]).0
            != (#[trigger] q.order[j]).0 || q.order[i].1 != q.order[j].1 by {
            assert(q.order[i] == p.order[i]);
            if j < n {
                assert(q.order[j] == p.order[j]);
            }
        }
        assert forall|a: int, b: int| q.in_bounds(a, b) && #[trigger] q.cell(a, b) != ' ' implies exists|i: int|
            0 <= i < q.order.len() && (#[trigger] q.order[i]).0 == a && q.order[i].1 == b by {
            if a == x && b == y {
                assert(q.order[n].0 == a && q.order[n].1 == b);
            } else {
                law_first_writer_wins(p, x, y, c, a, b);
                let i = choose|i: int| 0 <= i < p.order.len() && (#[trigger] p.order[i]).0 == a && p.order[i].1 == b;
                assert(q.order[i] == p.order[i]);
            }
        }
    }
}

/// Between two tidy pictures, one grown from the other, a cell changes only
/// where it was blank and a later fill wrote the character it now shows.
pub proof fn law_changes_are_new_fills(p: Picture, q: Picture, x: int, y: int)
    requires
        p.tidy(),
        q.tidy(),
        grows(p, q),
        p.in_bounds(x, y),
        q.cell(x, y) != p.cell(x, y),
    ensures
        p.cell(x, y) == ' ',
        q.cell(x, y) != ' ',
        exists|i: int|
            p.order.len() <= i < q.order.len() && (#[trigger] q.order[i]).0 == x && q.order[i].1 == y
                && q.order[i].2 == q.cell(x, y),
{
    assert(p.cell(x, y) == ' ');
    let i = choose|i: int| 0 <= i < q.order.len() && (#[trigger] q.order[i]).0 == x && q.order[i].1 == y;
    assert(q.order[i].2 == q.cell(x, y));
    if i < p.order.len() {
        assert(q.order[i] == p.order[i]);
        assert(p.cell(x, y) == p.order[i].2);
    }
}

/// Between two tidy pictures, one grown from the other, where every new
/// fill lies in a box, every cell that changed lies in that box, was blank
/// and is no longer blank.
pub proof fn law_changes_stay_inside(p: Picture, q: Picture, x0: int, x1: int, y0: int, y1: int)
    requires
        p.tidy(),
        q.tidy(),
        grows(p, q),
        fills_inside(p, q, x0, x1, y0, y1),
    ensures
        forall|x: int, y: int|
            p.in_bounds(x, y) && #[trigger] q.cell(x, y) != p.cell(x, y) ==> {
                &&& p.cell(x, y) == ' '
                &&& q.cell(x, y) != ' '
                &&& y0 <= y <= y1
                &&& x0 <= x <= x1
            },
{
    reveal(fills_inside);
    assert forall|x: int, y: int| p.in_bounds(x, y) && #[trigger] q.cell(x, y) != p.cell(x, y) implies {
        &&& p.cell(x, y) == ' '
        &&& q.cell(x, y) != ' '
        &&& y0 <= y <= y1
        &&& x0 <= x <= x1
    } by {
        law_changes_are_new_fills(p, q, x, y);
        let i = choose|i: int|
            p.order.len() <= i < q.order.len() && (#[trigger] q.order[i]).0 == x && q.order[i].1 == y
                && q.order[i].2 == q.cell(x, y);
        assert(q.order[i].0 == x);
    }
}

/// A blank canvas is well formed and faithful to its (empty) history.
pub proof fn law_blank_is_faithful(width: usize, height: usize)
    ensures
        Picture::blank(width as int, height as int).wf(),
        Picture::blank(width as int, height as int).faithful(),
{
}

/// Writing never changes the size of the canvas.
pub proof fn law_put_keeps_shape(p: Picture, x: int, y: int, c: char)
    requires
        p.wf(),
    ensures
        p.put(x, y, c).wf(),
        p.put(x, y, c).width == p.width,
        p.put(x, y, c).height == p.height,
{
}

/// Writing keeps the canvas faithful to its history: the recorded fills,
/// replayed onto a blank canvas, still give the grid.
pub proof fn law_put_keeps_faithful(p: Picture, x: int, y: int, c: char)
    requires
        p.wf(),
        p.faithful(),
    ensures
        p.put(x, y, c).faithful(),
{
    let q = p.put(x, y, c);
    if p.in_bounds(x, y) && p.cell(x, y) == ' ' {
        assert(q.order.drop_last() =~= p.order);
        assert(q.grid == replay(blank_grid(q.width, q.height), q.order));
        assert forall|i: int| 0 <= i < q.order.len() implies q.in_bounds(
            #[trigger] q.order[i].0 as int,
            q.order[i].1 as int,
        ) by {
            if i < p.order.len() {
                assert(q.order[i] == p.order[i]);
            }
        }
    }
}

/// The first character written to a cell stays: a cell that holds anything
/// but a space is never changed, and no cell but (`x`, `y`) ever changes.
pub proof fn law_first_writer_wins(p: Picture, x: int, y: int, c: char, a: int, b: int)
    requires
        p.wf(),
        p.in_bounds(a, b),
        p.cell(a, b) != ' ' || a != x || b != y,
    ensures
        p.put(x, y, c).cell(a, b) == p.cell(a, b),
{
}

/// A written character is recorded exactly when it landed on a blank cell
/// of the canvas.
pub proof fn law_put_records(p: Picture, x: int, y: int, c: char)
    requires
        p.wf(),
    ensures
        p.put(x, y, c).order.len() == p.order.len() + (if p.in_bounds(x, y) && p.cell(x, y)
            == ' ' {
            1int
        } else {
            0int
        }),
        p.in_bounds(x, y) && p.cell(x, y) == ' ' ==> p.put(x, y, c).cell(x, y) == c,
{
}

/// The text of a well-formed grid holds `width + 1` characters per row:
/// the row and its line break.
pub proof fn law_text_length(p: Picture)
    requires
        p.wf(),
    ensures
        text_of(p.grid).len() == p.height * (p.width + 1),
{
    lemma_text_length(p.grid, p.width);
}

proof fn lemma_text_length(grid: Seq<Seq<char>>, width: int)
    requires
        0 <= width,
        forall|y: int| 0 <= y < grid.len() ==> #[trigger] grid[y].len() == width,
    ensures
        text_of(grid).len() == grid.len() * (width + 1),
    decreases grid.len(),
{
    if grid.len() > 0 {
        let shorter = grid.drop_last();
        assert forall|y: int| 0 <= y < shorter.len() implies #[trigger] shorter[y].len() == width by {
            assert(shorter[y] == grid[y]);
        }
        lemma_text_length(shorter, width);
        assert(grid.last().len() == width);
        assert((grid.len() - 1) * (width + 1) + width + 1 == grid.len() * (width + 1)) by (nonlinear_arith);
    }
}

/// Where cell `x` of row `y` (or, for `x == width`, the row's line break)
/// stands in the text of a grid whose rows are `width` cells long.
pub open spec fn text_index(width: int, y: int, x: int) -> int {
    y * (width + 1) + x
}

/// How many line breaks a text holds.
pub open spec fn line_breaks(text: Seq<char>) -> nat
    decreases text.len(),
{
    if text.len() == 0 {
        0
    } else {
        line_breaks(text.drop_last()) + if text.last() == '\n' {
            1nat
        } else {
            0nat
        }
    }
}

proof fn lemma_line_breaks_add(a: Seq<char>, b: Seq<char>)
    ensures
        line_breaks(a + b) == line_breaks(a) + line_breaks(b),
    decreases b.len(),
{
    if b.len() == 0 {
        assert(a + b =~= a);
    } else {
        lemma_line_breaks_add(a, b.drop_last());
        assert((a + b).drop_last() =~= a + b.drop_last());
    }
}

proof fn lemma_no_line_breaks(s: Seq<char>)
    requires
        forall|i: int| 0 <= i < s.len() ==> #[trigger] s[i] != '\n',
    ensures
        line_breaks(s) == 0,
    decreases s.len(),
{
    if s.len() > 0 {
        lemma_no_line_breaks(s.drop_last());
    }
}

proof fn lemma_text_cells(grid: Seq<Seq<char>>, width: int)
    requires
        0 <= width,
        forall|y: int| 0 <= y < grid.len() ==> #[trigger] grid[y].len() == width,
    ensures
        text_of(grid).len() == grid.len() * (width + 1),
        forall|y: int, x: int|
            0 <= y < grid.len() && 0 <= x <= width ==> text_of(grid)[#[trigger] text_index(width, y, x)] == (
            if x == width {
                '\n'
            } else {
                grid[y][x]
            }),
    decreases grid.len(),
{
    lemma_text_length(grid, width);
    if grid.len() > 0 {
        let g0 = grid.drop_last();
        assert forall|y: int| 0 <= y < g0.len() implies #[trigger] g0[y].len() == width by {
            assert(g0[y] == grid[y]);
        }
        lemma_text_cells(g0, width);
        let n = g0.len() as int;
        assert(text_of(grid) == text_of(g0) + grid.last() + seq!['\n']);
        assert(text_of(g0).len() == n * (width + 1));
        assert forall|y: int, x: int| 0 <= y < grid.len() && 0 <= x <= width implies text_of(grid)[
            #[trigger] text_index(width, y, x)] == (if x == width {
            '\n'
        } else {
            grid[y][x]
        }) by {
            let k = text_index(width, y, x);
            if y < n {
                assert(k < n * (width + 1)) by (nonlinear_arith)
                    requires
                        k == y * (width + 1) + x,
                        0 <= y < n,
                        0 <= x <= width,
                ;
                assert(g0[y] == grid[y]);
            } else {
                assert(k == n * (width + 1) + x);
            }
        }
    }
}

/// The text of a well-formed grid, read row by row: row `y` is the `width`
/// characters that start at `text_index(width, y, 0)`, and a line break
/// follows it.
pub proof fn law_text_rows(p: Picture)
    requires
        p.wf(),
    ensures
        forall|y: int|
            0 <= y < p.height ==> text_of(p.grid).subrange(
                #[trigger] text_index(p.width, y, 0),
                text_index(p.width, y, p.width),
            ) == p.grid[y],
        forall|y: int| 0 <= y < p.height ==> text_of(p.grid)[#[trigger] text_index(p.width, y, p.width)] == '\n',
{
    lemma_text_cells(p.grid, p.width);
    assert forall|y: int| 0 <= y < p.height implies text_of(p.grid).subrange(
        #[trigger] text_index(p.width, y, 0),
        text_index(p.width, y, p.width),
    ) == p.grid[y] by {
        assert(text_index(p.width, y, p.width) + 1 <= p.height * (p.width + 1)) by (nonlinear_arith)
            requires
                0 <= y < p.height,
                0 <= p.width,
        ;
        assert forall|x: int| 0 <= x < p.width implies text_of(p.grid).subrange(
            text_index(p.width, y, 0),
            text_index(p.width, y, p.width),
        )[x] == p.grid[y][x] by {
            assert(text_index(p.width, y, 0) + x == text_index(p.width, y, x));
        }
        assert(text_of(p.grid).subrange(text_index(p.width, y, 0), text_index(p.width, y, p.width)) =~= p.grid[y]);
    }
}

/// When no cell holds a line break, the text of a well-formed grid holds
/// line breaks exactly at the ends of its rows: one per row.
pub proof fn law_text_breaks(p: Picture)
    requires
        p.wf(),
        forall|x: int, y: int| p.in_bounds(x, y) ==> #[trigger] p.cell(x, y) != '\n',
    ensures
        forall|k: int|
            0 <= k < text_of(p.grid).len() ==> (#[trigger] text_of(p.grid)[k] == '\n' <==> k % (p.width + 1)
                == p.width),
        line_breaks(text_of(p.grid)) == p.height,
{
    let w = p.width;
    lemma_text_cells(p.grid, w);
    assert forall|k: int| 0 <= k < text_of(p.grid).len() implies (#[trigger] text_of(p.grid)[k] == '\n' <==> k
        % (w + 1) == w) by {
        let y = k / (w + 1);
        let x = k % (w + 1);
        vstd::arithmetic::div_mod::lemma_fundamental_div_mod(k, w + 1);
        vstd::arithmetic::div_mod::lemma_mod_pos_bound(k, w + 1);
        vstd::arithmetic::div_mod::lemma_div_pos_is_pos(k, w + 1);
        assert(y < p.height) by (nonlinear_arith)
            requires
                k == (w + 1) * y + x,
                0 <= x,
                0 <= w,
                k < p.height * (w + 1),
        ;
        assert(k == text_index(w, y, x)) by (nonlinear_arith)
            requires
                k == (w + 1) * y + x,
        ;
        if x < w {
            assert(p.in_bounds(x, y));
            assert(p.cell(x, y) != '\n');
        }
    }
    assert forall|y: int, x: int| 0 <= y < p.grid.len() && 0 <= x < p.grid[y].len() implies #[trigger] p.grid[y][x]
        != '\n' by {
        assert(p.in_bounds(x, y));
        assert(p.cell(x, y) != '\n');
    }
    lemma_line_breaks(p.grid);
}

proof fn lemma_line_breaks(grid: Seq<Seq<char>>)
    requires
        forall|y: int, x: int| 0 <= y < grid.len() && 0 <= x < grid[y].len() ==> #[trigger] grid[y][x] != '\n',
    ensures
        line_breaks(text_of(grid)) == grid.len(),
    decreases grid.len(),
{
    if grid.len() > 0 {
        let g0 = grid.drop_last();
        assert forall|y: int, x: int| 0 <= y < g0.len() && 0 <= x < g0[y].len() implies #[trigger] g0[y][x]
            != '\n' by {
            assert(g0[y] == grid[y]);
        }
        lemma_line_breaks(g0);
        let row = grid.last();
        assert forall|i: int| 0 <= i < row.len() implies #[trigger] row[i] != '\n' by {
            assert(grid[grid.len() - 1][i] == row[i]);
        }
        lemma_no_line_breaks(row);
        lemma_line_breaks_add(text_of(g0) + row, seq!['\n']);
        lemma_line_breaks_add(text_of(g0), row);
        assert(seq!['\n'].drop_last() =~= Seq::<char>::empty());
        assert(line_breaks(Seq::<char>::empty()) == 0);
        assert(line_breaks(seq!['\n']) == 1);
        assert(text_of(grid) == text_of(g0) + row + seq!['\n']);
    }
}

/// Appends one character to a string.
#[verifier::external_body]
pub(crate) fn push_char(s: &mut String, c: char)
    ensures
        final(s)@ == old(s)@.push(c),
{
    s.push(c);
}

/// A canvas of `height` rows of `width` spaces.
pub fn blank_canvas(width: usize, height: usize) -> (canvas: Vec<Vec<char>>)
    ensures
        canvas@.map_values(|r: Vec<char>| r@) == blank_grid(width as int, height as int),
{
    let mut canvas: Vec<Vec<char>> = Vec::new();
    let mut j: usize = 0;
    while j < height
        invariant
            j <= height,
            canvas@.len() == j,
            forall|k: int| 0 <= k < j ==> #[trigger] canvas@[k]@ == Seq::new(width as nat, |_x: int| ' '),
        decreases height - j,
    {
        let mut row: Vec<char> = Vec::new();
        let mut i: usize = 0;
        while i < width
            invariant
                i <= width,
                row@ == Seq::new(i as nat, |_x: int| ' '),
            decreases width - i,
        {
            row.push(' ');
            i = i + 1;
            assert(row@ =~= Seq::new(i as nat, |_x: int| ' '));
        }
        canvas.push(row);
        j = j + 1;
    }
    assert(canvas@.map_values(|r: Vec<char>| r@) =~= blank_grid(width as int, height as int));
    canvas
}

proof fn lemma_text_step(grid: Seq<Seq<char>>, k: int)
    requires
        0 <= k < grid.len(),
    ensures
        text_of(grid.take(k + 1)) == text_of(grid.take(k)) + grid[k] + seq!['\n'],
{
    assert(grid.take(k + 1).drop_last() =~= grid.take(k));
}

/// The text of a canvas: every row followed by a line break.
pub fn canvas_text(canvas: &Vec<Vec<char>>) -> (text: String)
    ensures
        text@ == text_of(canvas@.map_values(|r: Vec<char>| r@)),
{
    let ghost grid = canvas@.map_values(|r: Vec<char>| r@);
    let mut text = String::new();
    let mut j: usize = 0;
    while j < canvas.len()
        invariant
            j <= canvas@.len(),
            grid == canvas@.map_values(|r: Vec<char>| r@),
            text@ == text_of(grid.take(j as int)),
        decreases canvas@.len() - j,
    {
        let row = &canvas[j];
        let ghost before = text@;
        let mut i: usize = 0;
        while i < row.len()
            invariant
                i <= row@.len(),
                text@ == before + row@.take(i as int),
            decreases row@.len() - i,
        {
            push_char(&mut text, row[i]);
            i = i + 1;
            assert(text@ =~= before + row@.take(i as int));
        }
        push_char(&mut text, '\n');
        proof {
            lemma_text_step(grid, j as int);
            assert(row@.take(row@.len() as int) =~= row@);
        }
        j = j + 1;
    }
    assert(grid.take(canvas@.len() as int) =~= grid);
    text
}

/// A bonsai drawn on a character canvas, with the order in which its
/// characters were placed (used to animate its growth).
pub struct Bonsai {
    pub canvas: Vec<Vec<char>>,
    pub width: usize,
    pub height: usize,
    pub growth_order: Vec<(usize, usize, char)>,
}

impl View for Bonsai {
    type V = Picture;

    open spec fn view(&self) -> Picture {
        Picture {
            width: self.width as int,
            height: self.height as int,
            grid: self.canvas@.map_values(|r: Vec<char>| r@),
            order: self.growth_order@,
        }
    }
}

impl Bonsai {
    /// The canvas has `height` rows of `width` cells.
    pub open spec fn wf(&self) -> bool {
        self@.wf()
    }

    /// The picture as text: each canvas row followed by a line break.
    pub fn to_string(&self) -> (text: String)
        ensures
            text@ == text_of(self@.grid),
    {
        canvas_text(&self.canvas)
    }

    /// Writes `c` at column `x`, row `y` when that cell lies on the canvas and
    /// still holds a space, and records the write; does nothing otherwise.
    pub fn set_char(&mut self, x: isize, y: isize, c: char)
        requires
            old(self).wf(),
        ensures
            final(self)@ == old(self)@.put(x as int, y as int, c),
            final(self).wf(),
    {
        if x >= 0 && y >= 0 && (x as usize) < self.width && (y as usize) < self.height {
            let xu = x as usize;
            let yu = y as usize;
            proof {
                assert(self@.grid[yu as int] == self.canvas@[yu as int]@);
            }
            if self.canvas[yu][xu] == ' ' {
                let ghost before = self@;
                self.canvas[yu].set(xu, c);
                self.growth_order.push((xu, yu, c));
                proof {
                    assert(self@.grid =~= paint(before.grid, x as int, y as int, c));
                    assert(self@ =~= before.put(x as int, y as int, c));
                }
            }
        }
        proof {
            law_put_keeps_shape(old(self)@, x as int, y as int, c);
        }
    }
}

/// A drawing in progress: the picture and the state of the random source.
pub type Stage = (Picture, int);

/// Writing `c` at (`x`, `y`) on the picture of a stage.
pub open spec fn put_at(st: Stage, x: int, y: int, c: char) -> Stage {
    (st.0.put(x, y, c), st.1)
}

/// The canvas is small enough that every coordinate the drawing computes
/// fits in an `isize` (a row of chars longer than `isize::MAX / 4` cannot be
/// allocated).
pub open spec fn roomy(p: Picture) -> bool {
    p.width <= isize::MAX / 4 && p.height <= isize::MAX / 24
}

/// `set_char`, keeping the picture faithful to its history.
pub(crate) fn place(b: &mut Bonsai, x: isize, y: isize, c: char)
    requires
        old(b).wf(),
        old(b)@.faithful(),
        old(b)@.tidy(),
        c != ' ',
    ensures
        final(b)@ == old(b)@.put(x as int, y as int, c),
        final(b).wf(),
        final(b)@.faithful(),
        final(b)@.tidy(),
        final(b).width == old(b).width,
        final(b).height == old(b).height,
        grows(old(b)@, final(b)@),
        forall|i: int| old(b)@.order.len() <= i < final(b)@.order.len() ==> #[trigger] final(b)@.order[i].2 == c,
        fills_inside(old(b)@, final(b)@, x as int, x as int, y as int, y as int),
{
    proof {
        reveal(fills_inside);
        law_put_keeps_faithful(b@, x as int, y as int, c);
        law_put_grows(b@, x as int, y as int, c);
        law_put_keeps_tidy(b@, x as int, y as int, c);
        law_put_records(b@, x as int, y as int, c);
    }
    b.set_char(x, y, c);
}

/// `k` cells of `c` from `left` rightwards on row `y`.
pub open spec fn run_of(st: Stage, left: int, y: int, c: char, k: int) -> Stage
    decreases k,
{
    if k <= 0 {
        st
    } else {
        put_at(run_of(st, left, y, c, k - 1), left + k - 1, y, c)
    }
}

pub(crate) fn run_exec(
    b: &mut Bonsai,
    dice: &Dice,
    left: isize,
    right: isize,
    y: isize,
    c: char,
    ok: Ghost<Set<char>>,
)
    requires
        old(b).wf(),
        old(b)@.faithful(),
        old(b)@.tidy(),
        ok@.contains(c),
        !ok@.contains(' '),
        -100 <= left,
        right <= isize::MAX - 100,
    ensures
        final(b).wf(),
        final(b)@.faithful(),
        final(b)@.tidy(),
        final(b).width == old(b).width,
        final(b).height == old(b).height,
        grows(old(b)@, final(b)@),
        fills_within(old(b)@, final(b)@, ok@),
        fills_inside(old(b)@, final(b)@, left as int, right as int, y as int, y as int),
        (final(b)@, dice.state()) == run_of((old(b)@, dice.state()), left as int, y as int, c, right - left + 1),
{
    let ghost init: Stage = (b@, dice.state());
    let mut x = left;
    proof {
        lemma_fills_inside_none(b@, b@, left as int, right as int, y as int, y as int);
    }
    while x <= right
        invariant
            b.wf(),
            b@.faithful(),
            b@.tidy(),
            b.width == old(b).width,
            b.height == old(b).height,
            grows(old(b)@, b@),
            fills_within(old(b)@, b@, ok@),
            fills_inside(old(b)@, b@, left as int, right as int, y as int, y as int),
            !ok@.contains(' '),
            ok@.contains(c),
            left <= x <= right + 1 || (x == left && left > right),
            -100 <= left,
            right <= isize::MAX - 100,
            (b@, dice.state()) == run_of(init, left as int, y as int, c, x - left),
        decreases right + 1 - x,
    {
        let ghost before = b@;
        place(b, x, y, c);
        proof {
            lemma_fills_inside_chain(old(b)@, before, b@, left as int, right as int, y as int, y as int, x as int, x as int, y as int, y as int);
        }
        x = x + 1;
    }
}

/// `k` cells from `left` rightwards on row `y`, each picked from `palette`
/// by one draw.
pub open spec fn pick_run(st: Stage, left: int, y: int, palette: Seq<char>, k: int) -> Stage
    decreases k,
{
    if k <= 0 {
        st
    } else {
        let prev = pick_run(st, left, y, palette, k - 1);
        let d = usize_below_draw(prev.1, palette.len() as usize);
        (prev.0.put(left + k - 1, y, palette[d.0 as int]), d.1)
    }
}

pub(crate) fn pick_run_exec(
    b: &mut Bonsai,
    dice: &mut Dice,
    left: isize,
    right: isize,
    y: isize,
    palette: &[char],
    ok: Ghost<Set<char>>,
)
    requires
        old(b).wf(),
        old(b)@.faithful(),
        old(b)@.tidy(),
        0 < palette@.len(),
        forall|j: int| 0 <= j < palette@.len() ==> ok@.contains(#[trigger] palette@[j]),
        !ok@.contains(' '),
        -1000 <= left,
        right <= isize::MAX - 1000,
    ensures
        final(b).wf(),
        final(b)@.faithful(),
        final(b)@.tidy(),
        final(b).width == old(b).width,
        final(b).height == old(b).height,
        grows(old(b)@, final(b)@),
        fills_within(old(b)@, final(b)@, ok@),
        fills_inside(old(b)@, final(b)@, left as int, right as int, y as int, y as int),
        (final(b)@, final(dice).state()) == pick_run(
            (old(b)@, old(dice).state()),
            left as int,
            y as int,
            palette@,
            right - left + 1,
        ),
{
    let ghost init: Stage = (b@, dice.state());
    let mut x = left;
    proof {
        lemma_fills_inside_none(b@, b@, left as int, right as int, y as int, y as int);
    }
    while x <= right
        invariant
            b.wf(),
            b@.faithful(),
            b@.tidy(),
            b.width == old(b).width,
            b.height == old(b).height,
            grows(old(b)@, b@),
            fills_within(old(b)@, b@, ok@),
            fills_inside(old(b)@, b@, left as int, right as int, y as int, y as int),
            !ok@.contains(' '),
            0 < palette@.len(),
            forall|j: int| 0 <= j < palette@.len() ==> ok@.contains(#[trigger] palette@[j]),
            left <= x <= right + 1 || (x == left && left > right),
            -1000 <= left,
            right <= isize::MAX - 1000,
            (b@, dice.state()) == pick_run(init, left as int, y as int, palette@, x - left),
        decreases right + 1 - x,
    {
        let idx = dice.below(palette.len());
        let ghost before = b@;
        place(b, x, y, palette[idx]);
        proof {
            lemma_fills_inside_chain(old(b)@, before, b@, left as int, right as int, y as int, y as int, x as int, x as int, y as int, y as int);
        }
        x = x + 1;
    }
}

} // verus!

verus! {

pub(crate) proof fn lemma_run_of_confined(st: Stage, left: int, y: int, c: char, k: int)
    requires
        st.0.wf(),
    ensures
        confined(st.0, run_of(st, left, y, c, k).0, left, left + k - 1, y, y),
    decreases k,
{
    if k <= 0 {
        lemma_confined_none(st.0, left, left + k - 1, y, y);
    } else {
        let prev = run_of(st, left, y, c, k - 1);
        lemma_run_of_confined(st, left, y, c, k - 1);
        lemma_confined_put(prev.0, left + k - 1, y, c, left + k - 1, left + k - 1, y, y);
        lemma_confined_join(
            st.0,
            prev.0,
            run_of(st, left, y, c, k).0,
            left,
            left + k - 1,
            y,
            y,
            left,
            left + k - 2,
            y,
            y,
            left + k - 1,
            left + k - 1,
            y,
            y,
        );
    }
}

pub(crate) proof fn lemma_pick_run_confined(st: Stage, left: int, y: int, palette: Seq<char>, k: int)
    requires
        st.0.wf(),
        0 < palette.len(),
    ensures
        confined(st.0, pick_run(st, left, y, palette, k).0, left, left + k - 1, y, y),
    decreases k,
{
    if k <= 0 {
        lemma_confined_none(st.0, left, left + k - 1, y, y);
    } else {
        let prev = pick_run(st, left, y, palette, k - 1);
        lemma_pick_run_confined(st, left, y, palette, k - 1);
        let d = usize_below_draw(prev.1, palette.len() as usize);
        lemma_confined_put(prev.0, left + k - 1, y, palette[d.0 as int], left + k - 1, left + k - 1, y, y);
        lemma_confined_join(
            st.0,
            prev.0,
            pick_run(st, left, y, palette, k).0,
            left,
            left + k - 1,
            y,
            y,
            left,
            left + k - 2,
            y,
            y,
            left + k - 1,
            left + k - 1,
            y,
            y,
        );
    }
}

} // verus!
