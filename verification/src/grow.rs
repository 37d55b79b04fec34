//! Growing a whole bonsai: the pot first, then the tree that stands in it.
use crate::bamboo::{bamboo_chars, bamboo_drawing, draw_bamboo};
use crate::broadleaf::{broadleaf_chars, cherry_drawing, draw_cherry, draw_oak, oak_drawing};
use crate::canvas::{fills_within, grows, blank_canvas, law_blank_is_faithful, law_blank_is_tidy, roomy, Bonsai, Picture, Stage};
use crate::dice::{seeded_state, Dice};
use crate::pine::{draw_pine, pine_chars, pine_drawing};
use crate::pot::{draw_pot, pot_chars, pot_drawing, POT_HEIGHT};
use crate::styles::{BonsaiConfig, PotStyle, TreeStyle};
use crate::willow::{draw_willow, willow_chars, willow_drawing, Sway};
use vstd::prelude::*;

verus! {

/// Height of the tree standing on row `bottom_y`: three rows short of it.
pub open spec fn tree_height_of(bottom_y: int) -> int {
    if bottom_y >= 3 {
        bottom_y - 3
    } else {
        0
    }
}

/// The tree of the given style standing on row `bottom_y`, centred on `cx`;
/// its trunk is a third of the tree's height.
pub open spec fn tree_drawing(
    st: Stage,
    style: TreeStyle,
    cx: int,
    bottom_y: int,
    density: int,
    sway: Seq<isize>,
    strands: Seq<isize>,
) -> Stage {
    let tree_height = tree_height_of(bottom_y);
    let trunk_height = tree_height / 3;
    match style {
        TreeStyle::Pine => pine_drawing(st, cx, bottom_y, trunk_height, density),
        TreeStyle::Willow => willow_drawing(
            st,
            cx,
            bottom_y,
            tree_height,
            trunk_height,
            density,
            sway,
            strands,
        ),
        TreeStyle::Oak => oak_drawing(st, cx, bottom_y, trunk_height, density),
        TreeStyle::Cherry => cherry_drawing(st, cx, bottom_y, trunk_height, density),
        TreeStyle::Bamboo => bamboo_drawing(st, cx, bottom_y, tree_height, density),
    }
}

/// A bonsai grown on a blank `width` by `height` canvas from random state
/// `state`: the pot fills the bottom five rows, its rim on row `height - 5`,
/// and the tree stands on the row above; both are centred on column
/// `width / 2`.
pub open spec fn bonsai_drawing(
    width: int,
    height: int,
    density: int,
    tree: TreeStyle,
    pot: PotStyle,
    sway: Seq<isize>,
    strands: Seq<isize>,
    state: int,
) -> Stage {
    let start = (Picture::blank(width, height), state);
    let tree_bottom = height - 6;
    let cx = width / 2;
    let potted = pot_drawing(start, pot, cx, tree_bottom + 1);
    tree_drawing(potted, tree, cx, tree_bottom, density, sway, strands)
}

/// Every character a tree of the given style may show.
pub open spec fn tree_chars(style: TreeStyle) -> Set<char> {
    match style {
        TreeStyle::Pine => pine_chars(),
        TreeStyle::Willow => willow_chars(),
        TreeStyle::Oak => broadleaf_chars(true),
        TreeStyle::Cherry => broadleaf_chars(false),
        TreeStyle::Bamboo => bamboo_chars(),
    }
}

/// Every fill of the picture wrote a character of its pot's or its tree's
/// palettes.
pub open spec fn drawn_from_palettes(p: Picture, config: &BonsaiConfig) -> bool {
    forall|i: int|
        0 <= i < p.order.len() ==> pot_chars(config.pot_style).contains(#[trigger] p.order[i].2)
            || tree_chars(config.tree_style).contains(p.order[i].2)
}

/// What the settings ask of the canvas: room for the pot (and for a pine,
/// one row above it), and sizes that can be allocated.
pub open spec fn config_fits(config: &BonsaiConfig) -> bool {
    &&& config.height >= POT_HEIGHT + 1
    &&& config.tree_style == TreeStyle::Pine ==> config.height >= POT_HEIGHT + 2
    &&& config.width <= isize::MAX / 4
    &&& config.height <= isize::MAX / 24
}

/// The leans a willow needs on a canvas of these settings.
pub open spec fn sway_fits(config: &BonsaiConfig, sway: &Sway) -> bool {
    config.tree_style == TreeStyle::Willow ==> sway.covers(config.height as int)
}

/// The pot alone, as it stands on the canvas before the tree is drawn.
pub open spec fn potted_picture(config: &BonsaiConfig, state: int) -> Picture {
    pot_drawing(
        (Picture::blank(config.width as int, config.height as int), state),
        config.pot_style,
        config.width as int / 2,
        config.height as int - POT_HEIGHT as int,
    ).0
}

/// The picture a bonsai of these settings grows into from random state `state`.
pub open spec fn grown_picture(config: &BonsaiConfig, sway: &Sway, state: int) -> Picture {
    bonsai_drawing(
        config.width as int,
        config.height as int,
        config.density as int,
        config.tree_style,
        config.pot_style,
        sway.trunk@,
        sway.strands@,
        state,
    ).0
}

fn draw_tree(
    b: &mut Bonsai,
    cx: usize,
    bottom_y: usize,
    config: &BonsaiConfig,
    sway: &Sway,
    dice: &mut Dice,
)
    requires
        old(b).wf(),
        old(b)@.faithful(),
        old(b)@.tidy(),
        roomy(old(b)@),
        cx <= old(b).width,
        bottom_y < old(b).height,
        config.tree_style == TreeStyle::Pine ==> bottom_y >= 1,
        config.tree_style == TreeStyle::Willow ==> sway.covers(bottom_y + 1),
    ensures
        final(b).wf(),
        final(b)@.faithful(),
        final(b)@.tidy(),
        final(b).width == old(b).width,
        final(b).height == old(b).height,
        grows(old(b)@, final(b)@),
        fills_within(old(b)@, final(b)@, tree_chars(config.tree_style)),
        (final(b)@, final(dice).state()) == tree_drawing(
            (old(b)@, old(dice).state()),
            config.tree_style,
            cx as int,
            bottom_y as int,
            config.density as int,
            sway.trunk@,
            sway.strands@,
        ),
{
    let tree_height = if bottom_y >= 3 {
        bottom_y - 3
    } else {
        0
    };
    let trunk_height = tree_height / 3;
    match config.tree_style {
        TreeStyle::Pine => draw_pine(b, cx, bottom_y, trunk_height, config.density, dice),
        TreeStyle::Willow => draw_willow(
            b,
            cx,
            bottom_y,
            tree_height,
            trunk_height,
            config.density,
            sway,
            dice,
        ),
        TreeStyle::Oak => draw_oak(b, cx, bottom_y, trunk_height, config.density, dice),
        TreeStyle::Cherry => draw_cherry(b, cx, bottom_y, trunk_height, config.density, dice),
        TreeStyle::Bamboo => draw_bamboo(b, cx, bottom_y, tree_height, config.density, dice),
    }
}

impl Bonsai {
    /// Grows a bonsai of the given settings, drawing from `dice`: a blank
    /// canvas, then the pot, then the tree.
    pub fn grow(config: &BonsaiConfig, sway: &Sway, dice: &mut Dice) -> (bonsai: Bonsai)
        requires
            config_fits(config),
            sway_fits(config, sway),
        ensures
            bonsai.wf(),
            bonsai@.faithful(),
            bonsai@.tidy(),
            drawn_from_palettes(bonsai@, config),
            bonsai.width == config.width,
            bonsai.height == config.height,
            bonsai@ == grown_picture(config, sway, old(dice).state()),
            grows(potted_picture(config, old(dice).state()), bonsai@),
            (bonsai@, final(dice).state()) == bonsai_drawing(
                config.width as int,
                config.height as int,
                config.density as int,
                config.tree_style,
                config.pot_style,
                sway.trunk@,
                sway.strands@,
                old(dice).state(),
            ),
    {
        let canvas = blank_canvas(config.width, config.height);
        let mut bonsai = Bonsai {
            canvas,
            width: config.width,
            height: config.height,
            growth_order: Vec::new(),
        };
        proof {
            law_blank_is_faithful(config.width, config.height);
            law_blank_is_tidy(config.width, config.height);
            assert(bonsai@ =~= Picture::blank(config.width as int, config.height as int));
        }
        let tree_bottom = config.height - POT_HEIGHT - 1;
        let center_x = config.width / 2;
        draw_pot(&mut bonsai, center_x, tree_bottom + 1, config.pot_style, dice);
        draw_tree(&mut bonsai, center_x, tree_bottom, config, sway, dice);
        bonsai
    }

    /// Grows a bonsai of the given settings from `seed`, or from the operating
    /// system's randomness when no seed is given.
    pub fn new(config: &BonsaiConfig, seed: Option<u64>, sway: &Sway) -> (bonsai: Bonsai)
        requires
            config_fits(config),
            sway_fits(config, sway),
        ensures
            bonsai.wf(),
            bonsai@.faithful(),
            bonsai@.tidy(),
            drawn_from_palettes(bonsai@, config),
            bonsai.width == config.width,
            bonsai.height == config.height,
            seed matches Some(s) ==> bonsai@ == grown_picture(config, sway, seeded_state(s)),
            seed matches Some(s) ==> grows(potted_picture(config, seeded_state(s)), bonsai@),
            exists|state: int|
                bonsai@ == grown_picture(config, sway, state) && grows(potted_picture(config, state), bonsai@),
    {
        let mut dice = Dice::from_seed(seed);
        let ghost start = dice.state();
        let bonsai = Bonsai::grow(config, sway, &mut dice);
        assert(bonsai@ == grown_picture(config, sway, start));
        bonsai
    }
}

/// The same seed and settings always grow the same bonsai: two bonsais grown
/// from one seed have the same canvas and the same growth order.
pub proof fn law_seed_fixes_bonsai(config: BonsaiConfig, sway: Sway, seed: u64, a: Picture, b: Picture)
    requires
        a == grown_picture(&config, &sway, seeded_state(seed)),
        b == grown_picture(&config, &sway, seeded_state(seed)),
    ensures
        a == b,
        a.grid == b.grid,
        a.order == b.order,
{
}

} // verus!
