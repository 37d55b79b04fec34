//! Replaying a bonsai's growth one character at a time, as the animation
//! shows it.
use crate::color::{apply_colors, painted_text, ColorChoice};
use crate::canvas::{blank_canvas, blank_grid, canvas_text, paint, replay, text_of, Bonsai, Picture};
use vstd::prelude::*;

verus! {

/// A canvas that starts blank and receives the recorded fills of a bonsai
/// one at a time.
pub struct Growth {
    canvas: Vec<Vec<char>>,
    width: usize,
    height: usize,
}

impl Growth {
    pub closed spec fn grid(&self) -> Seq<Seq<char>> {
        self.canvas@.map_values(|r: Vec<char>| r@)
    }

    pub closed spec fn width(&self) -> usize {
        self.width
    }

    pub closed spec fn height(&self) -> usize {
        self.height
    }

    /// The grid has `height` rows of `width` cells.
    pub open spec fn wf(&self) -> bool {
        Picture { width: self.width() as int, height: self.height() as int, grid: self.grid(), order: Seq::empty() }.wf()
    }

    /// A blank canvas of `width` by `height`.
    pub fn start(width: usize, height: usize) -> (g: Growth)
        ensures
            g.wf(),
            g.width() == width,
            g.height() == height,
            g.grid() == blank_grid(width as int, height as int),
    {
        Growth { canvas: blank_canvas(width, height), width, height }
    }

    /// Writes `c` at column `x`, row `y`, whatever the cell held.
    pub fn place(&mut self, x: usize, y: usize, c: char)
        requires
            old(self).wf(),
            x < old(self).width(),
            y < old(self).height(),
        ensures
            final(self).wf(),
            final(self).width() == old(self).width(),
            final(self).height() == old(self).height(),
            final(self).grid() == paint(old(self).grid(), x as int, y as int, c),
    {
        let ghost before = self.grid();
        proof {
            assert(self.grid()[y as int] == self.canvas@[y as int]@);
        }
        self.canvas[y].set(x, c);
        proof {
            assert(self.grid() =~= paint(before, x as int, y as int, c));
        }
    }

    /// The canvas as text: each row followed by a line break.
    pub fn text(&self) -> (text: String)
        ensures
            text@ == text_of(self.grid()),
    {
        canvas_text(&self.canvas)
    }
}

/// The next frame of the animation: the `i`-th recorded fill of the bonsai
/// written onto a canvas that shows the fills before it, and the text of the
/// canvas after it. Only the fill itself must lie on the canvas; the
/// bonsai's own canvas is not read.
pub fn next_frame(growth: &mut Growth, bonsai: &Bonsai, i: usize) -> (frame: String)
    requires
        old(growth).wf(),
        old(growth).width() == bonsai.width,
        old(growth).height() == bonsai.height,
        i < bonsai@.order.len(),
        (bonsai@.order[i as int].0 as int) < bonsai.width,
        (bonsai@.order[i as int].1 as int) < bonsai.height,
        old(growth).grid() == replay(
            blank_grid(bonsai.width as int, bonsai.height as int),
            bonsai@.order.take(i as int),
        ),
    ensures
        final(growth).wf(),
        final(growth).width() == bonsai.width,
        final(growth).height() == bonsai.height,
        final(growth).grid() == replay(
            blank_grid(bonsai.width as int, bonsai.height as int),
            bonsai@.order.take(i + 1),
        ),
        frame@ == text_of(final(growth).grid()),
{
    let (x, y, c) = bonsai.growth_order[i];
    proof {
        assert(bonsai@.order.take(i + 1).drop_last() =~= bonsai@.order.take(i as int));
    }
    growth.place(x, y, c);
    growth.text()
}

/// The bonsai as it is printed: its text, painted in the given colours
/// (unchanged without either colour).
pub fn render_static(bonsai: &Bonsai, fg: Option<&ColorChoice>, bg: Option<&ColorChoice>) -> (shown: String)
    ensures
        fg is None && bg is None ==> shown@ == text_of(bonsai@.grid),
        exists|on: bool| shown@ == painted_text(text_of(bonsai@.grid), fg, bg, on),
{
    let text = bonsai.to_string();
    apply_colors(text.as_str(), fg, bg)
}

/// Replaying every recorded fill of a faithful picture onto a blank canvas
/// gives the picture: the last frame of the animation is the bonsai itself.
pub proof fn law_last_frame_is_picture(p: Picture)
    requires
        p.wf(),
        p.faithful(),
    ensures
        replay(blank_grid(p.width, p.height), p.order.take(p.order.len() as int)) == p.grid,
        text_of(replay(blank_grid(p.width, p.height), p.order.take(p.order.len() as int))) == text_of(p.grid),
{
    assert(p.order.take(p.order.len() as int) =~= p.order);
}

/// Before any fill the animation shows a blank canvas.
pub proof fn law_first_frame_is_blank(p: Picture)
    ensures
        replay(blank_grid(p.width, p.height), p.order.take(0)) == blank_grid(p.width, p.height),
{
    assert(p.order.take(0) =~= Seq::<(usize, usize, char)>::empty());
}

} // verus!
