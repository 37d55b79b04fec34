//! The shapes a bonsai can take and the settings it is drawn with.
use crate::dice::{usize_below_draw, Dice};
use vstd::prelude::*;

verus! {

/// The kind of tree that grows in the pot.
#[derive(Debug, Clone, Copy, PartialEq, Eq, Structural)]
pub enum TreeStyle {
    Pine,
    Willow,
    Oak,
    Cherry,
    Bamboo,
}

/// The kind of pot the tree grows in.
#[derive(Debug, Clone, Copy, PartialEq, Eq, Structural)]
pub enum PotStyle {
    Classic,
    Rectangular,
    Round,
    Decorated,
}

/// The size of the canvas, how dense the foliage is, and the two styles.
pub struct BonsaiConfig {
    pub width: usize,
    pub height: usize,
    pub density: u8,
    pub tree_style: TreeStyle,
    pub pot_style: PotStyle,
}

/// The tree style at position `i` of the list Pine, Willow, Oak, Cherry, Bamboo.
pub open spec fn tree_style_at(i: int) -> TreeStyle {
    if i == 0 {
        TreeStyle::Pine
    } else if i == 1 {
        TreeStyle::Willow
    } else if i == 2 {
        TreeStyle::Oak
    } else if i == 3 {
        TreeStyle::Cherry
    } else {
        TreeStyle::Bamboo
    }
}

/// The pot style at position `i` of the list Classic, Rectangular, Round, Decorated.
pub open spec fn pot_style_at(i: int) -> PotStyle {
    if i == 0 {
        PotStyle::Classic
    } else if i == 1 {
        PotStyle::Rectangular
    } else if i == 2 {
        PotStyle::Round
    } else {
        PotStyle::Decorated
    }
}

/// A tree style picked uniformly by one draw below 5.
pub fn random_tree_style(dice: &mut Dice) -> (style: TreeStyle)
    ensures
        style == tree_style_at(usize_below_draw(old(dice).state(), 5).0 as int),
        final(dice).state() == usize_below_draw(old(dice).state(), 5).1,
{
    let styles = [
        TreeStyle::Pine,
        TreeStyle::Willow,
        TreeStyle::Oak,
        TreeStyle::Cherry,
        TreeStyle::Bamboo,
    ];
    let idx = dice.below(5);
    styles[idx]
}

/// A pot style picked uniformly by one draw below 4.
pub fn random_pot_style(dice: &mut Dice) -> (style: PotStyle)
    ensures
        style == pot_style_at(usize_below_draw(old(dice).state(), 4).0 as int),
        final(dice).state() == usize_below_draw(old(dice).state(), 4).1,
{
    let styles = [PotStyle::Classic, PotStyle::Rectangular, PotStyle::Round, PotStyle::Decorated];
    let idx = dice.below(4);
    styles[idx]
}

} // verus!
