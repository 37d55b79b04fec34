use cbonsai::canvas::Bonsai;
use cbonsai::dice::Dice;
use cbonsai::show::{next_frame, Growth};
use cbonsai::styles::{random_pot_style, random_tree_style, BonsaiConfig, PotStyle, TreeStyle};
use cbonsai::willow::Sway;

fn sway_for(height: usize) -> Sway {
    let trunk = (0..height).map(|y| ((y as f32 * 0.2).sin() * 2.0) as isize).collect();
    let strands = (0..13).map(|l: i32| ((l as f32 * 0.5).sin() * 1.5) as isize).collect();
    Sway { trunk, strands }
}

fn config(width: usize, height: usize, density: u8, tree: TreeStyle, pot: PotStyle) -> BonsaiConfig {
    BonsaiConfig { width, height, density, tree_style: tree, pot_style: pot }
}

const TREES: [TreeStyle; 5] = [TreeStyle::Pine, TreeStyle::Willow, TreeStyle::Oak, TreeStyle::Cherry, TreeStyle::Bamboo];
const POTS: [PotStyle; 4] = [PotStyle::Classic, PotStyle::Rectangular, PotStyle::Round, PotStyle::Decorated];

fn blank(width: usize, height: usize) -> Bonsai {
    Bonsai { canvas: vec![vec![' '; width]; height], width, height, growth_order: Vec::new() }
}

#[test]
fn set_char_writes_blank_cell_and_records_it() {
    let mut b = blank(3, 2);
    b.set_char(1, 1, '#');
    assert_eq!(b.canvas[1][1], '#');
    assert_eq!(b.growth_order, vec![(1, 1, '#')]);
}

#[test]
fn set_char_keeps_the_first_character() {
    let mut b = blank(3, 2);
    b.set_char(0, 0, 'a');
    b.set_char(0, 0, 'b');
    assert_eq!(b.canvas[0][0], 'a');
    assert_eq!(b.growth_order, vec![(0, 0, 'a')]);
}

#[test]
fn set_char_ignores_cells_off_the_canvas() {
    let mut b = blank(3, 2);
    b.set_char(-1, 0, 'x');
    b.set_char(0, -1, 'x');
    b.set_char(3, 0, 'x');
    b.set_char(0, 2, 'x');
    assert_eq!(b.canvas, vec![vec![' '; 3]; 2]);
    assert!(b.growth_order.is_empty());
}

#[test]
fn to_string_ends_every_row_with_a_line_break() {
    let mut b = blank(2, 2);
    b.set_char(0, 0, 'a');
    b.set_char(1, 1, 'b');
    assert_eq!(b.to_string(), "a \n b\n");
    assert_eq!(blank(0, 0).to_string(), "");
}

#[test]
fn text_has_width_plus_one_chars_per_row() {
    let c = config(40, 20, 2, TreeStyle::Oak, PotStyle::Round);
    let b = Bonsai::new(&c, Some(7), &sway_for(20));
    assert_eq!(b.to_string().chars().count(), 20 * 41);
}

#[test]
fn same_seed_grows_the_same_bonsai() {
    for tree in TREES {
        for pot in POTS {
            let c = config(60, 30, 3, tree, pot);
            let a = Bonsai::new(&c, Some(42), &sway_for(30));
            let b = Bonsai::new(&c, Some(42), &sway_for(30));
            assert_eq!(a.canvas, b.canvas);
            assert_eq!(a.growth_order, b.growth_order);
        }
    }
}

#[test]
fn growth_order_replays_to_the_canvas() {
    for tree in TREES {
        for pot in POTS {
            for density in [1u8, 3, 5] {
                let c = config(80, 40, density, tree, pot);
                let b = Bonsai::new(&c, Some(9), &sway_for(40));
                let mut canvas = vec![vec![' '; 80]; 40];
                for &(x, y, ch) in &b.growth_order {
                    assert!(x < 80 && y < 40);
                    assert_eq!(canvas[y][x], ' ');
                    canvas[y][x] = ch;
                }
                assert_eq!(canvas, b.canvas);
                assert_eq!(b.canvas.len(), 40);
                assert!(b.canvas.iter().all(|r| r.len() == 80));
            }
        }
    }
}

#[test]
fn rectangular_pot_sits_at_the_bottom() {
    let c = config(60, 30, 1, TreeStyle::Bamboo, PotStyle::Rectangular);
    let b = Bonsai::new(&c, Some(1), &sway_for(30));
    // half width: min(20, 60 / 3) / 2 = 10, centred on column 30
    for x in 20..=40 {
        assert_eq!(b.canvas[25][x], '+');
        assert_eq!(b.canvas[29][x], '+');
    }
    for y in 27..29 {
        assert_eq!(b.canvas[y][20], '+');
        assert_eq!(b.canvas[y][40], '+');
        for x in 21..40 {
            assert_eq!(b.canvas[y][x], '-');
        }
    }
    for x in 21..40 {
        assert!(['.', ',', '`', '\''].contains(&b.canvas[26][x]) || b.canvas[26][x] == '-');
    }
    assert_eq!(b.canvas[25][19], ' ');
    assert_eq!(b.canvas[25][41], ' ');
}

#[test]
fn classic_pot_has_a_rim_wider_than_the_pot() {
    let c = config(30, 20, 1, TreeStyle::Pine, PotStyle::Classic);
    let b = Bonsai::new(&c, Some(3), &sway_for(20));
    // half width: min(20, 10) / 2 = 5, centred on column 15, rim on row 15
    assert_eq!(b.canvas[15][9], '=');
    assert_eq!(b.canvas[15][21], '=');
    assert_eq!(b.canvas[15][10], '#');
    assert_eq!(b.canvas[15][20], '#');
    for x in 11..20 {
        assert_eq!(b.canvas[15][x], '~');
    }
    assert_eq!(b.canvas[19][14], '#');
}

#[test]
fn pine_trunk_stands_in_the_middle() {
    let c = config(40, 30, 1, TreeStyle::Pine, PotStyle::Round);
    let b = Bonsai::new(&c, Some(11), &sway_for(30));
    // the tree stands on row 24; its trunk rises 7 rows above it
    assert_eq!(b.canvas[24][20], '|');
    assert_eq!(b.canvas[24][19], '|');
    assert_eq!(b.canvas[17][20], '|');
}

#[test]
fn oak_trunk_is_bark() {
    let c = config(50, 30, 2, TreeStyle::Oak, PotStyle::Classic);
    let b = Bonsai::new(&c, Some(5), &sway_for(30));
    for x in 24..=26 {
        assert!(['|', 'I', 'l', '!'].contains(&b.canvas[24][x]));
    }
}

#[test]
fn every_placed_character_comes_from_the_palettes() {
    let allowed: Vec<char> = "#~.=+-Oo║═▀╔╗♥♦♣♠*·,`'|^v<>/\\;I l!@&%V".chars().collect();
    for tree in TREES {
        for pot in POTS {
            let c = config(70, 35, 4, tree, pot);
            let b = Bonsai::new(&c, Some(123), &sway_for(35));
            for &(_, _, ch) in &b.growth_order {
                assert!(allowed.contains(&ch), "unexpected {:?}", ch);
            }
        }
    }
}

#[test]
fn small_canvases_grow_without_panicking() {
    for tree in TREES {
        for pot in POTS {
            for (w, h) in [(0usize, 7usize), (1, 7), (3, 8), (10, 9), (5, 40)] {
                let c = config(w, h, 5, tree, pot);
                let b = Bonsai::new(&c, Some(2), &sway_for(h));
                assert_eq!(b.canvas.len(), h);
            }
        }
    }
    let c = config(20, 6, 1, TreeStyle::Oak, PotStyle::Classic);
    let b = Bonsai::new(&c, Some(2), &sway_for(6));
    assert_eq!(b.canvas.len(), 6);
}

#[test]
fn frames_replay_the_growth_and_end_on_the_picture() {
    let c = config(50, 25, 2, TreeStyle::Cherry, PotStyle::Decorated);
    let b = Bonsai::new(&c, Some(77), &sway_for(25));
    let mut g = Growth::start(50, 25);
    assert_eq!(g.text(), (" ".repeat(50) + "\n").repeat(25));
    let mut last = String::new();
    for i in 0..b.growth_order.len() {
        last = next_frame(&mut g, &b, i);
    }
    assert_eq!(last, b.to_string());
}

#[test]
fn styles_drawn_from_a_seed_are_fixed() {
    let mut d1 = Dice::from_seed(Some(5));
    let mut d2 = Dice::from_seed(Some(5));
    assert_eq!(random_tree_style(&mut d1), random_tree_style(&mut d2));
    assert_eq!(random_pot_style(&mut d1), random_pot_style(&mut d2));
    assert_eq!(d1.next_seed(), d2.next_seed());
}

#[test]
fn all_styles_can_be_drawn() {
    let mut seen_trees = Vec::new();
    let mut seen_pots = Vec::new();
    for seed in 0..200u64 {
        let mut d = Dice::from_seed(Some(seed));
        let t = random_tree_style(&mut d);
        let p = random_pot_style(&mut d);
        if !seen_trees.contains(&t) {
            seen_trees.push(t);
        }
        if !seen_pots.contains(&p) {
            seen_pots.push(p);
        }
    }
    assert_eq!(seen_trees.len(), 5);
    assert_eq!(seen_pots.len(), 4);
}

#[test]
fn unseeded_bonsai_keeps_its_shape() {
    let c = config(40, 20, 3, TreeStyle::Willow, PotStyle::Round);
    let b = Bonsai::new(&c, None, &sway_for(20));
    assert_eq!(b.width, 40);
    assert_eq!(b.height, 20);
    assert_eq!(b.canvas.len(), 20);
}

#[test]
fn tiny_bamboo_is_only_its_pot() {
    let c = config(12, 10, 1, TreeStyle::Bamboo, PotStyle::Rectangular);
    let b = Bonsai::new(&c, Some(7), &sway_for(10));
    let expected = "            \n".repeat(5) + "    +++++   \n" + &"    +---+   \n".repeat(3) + "    +++++   \n";
    assert_eq!(b.to_string(), expected);
    assert_eq!(b.growth_order.len(), 25);
}

#[test]
fn fills_are_distinct_and_never_blank() {
    for tree in TREES {
        for pot in POTS {
            let c = config(64, 32, 3, tree, pot);
            let b = Bonsai::new(&c, Some(31), &sway_for(32));
            let mut seen = std::collections::HashSet::new();
            for &(x, y, ch) in &b.growth_order {
                assert_ne!(ch, ' ');
                assert!(seen.insert((x, y)));
                assert_eq!(b.canvas[y][x], ch);
            }
            for y in 0..32 {
                for x in 0..64 {
                    assert_eq!(b.canvas[y][x] != ' ', seen.contains(&(x, y)));
                }
            }
        }
    }
}

#[test]
fn text_holds_one_line_break_per_row_and_splits_back() {
    for (k, tree) in TREES.iter().enumerate() {
        let b = Bonsai::new(&config(30, 20, 2, *tree, POTS[k % 4]), Some(11 + k as u64), &sway_for(20));
        let text = b.to_string();
        assert_eq!(text.chars().count(), 20 * 31);
        assert_eq!(text.matches('\n').count(), 20);
        let rows: Vec<Vec<char>> = text.split_terminator('\n').map(|l| l.chars().collect()).collect();
        assert_eq!(rows, b.canvas);
    }
}

#[test]
fn pot_changes_only_its_own_box() {
    for pot in POTS {
        let before = blank(40, 20);
        let b = Bonsai::new(&config(40, 20, 1, TreeStyle::Bamboo, pot), Some(3), &sway_for(20));
        // The pot's box: rows 15..=19, columns 20 - 6 - 1 ..= 20 + 6 + 1 (half width 6).
        for y in 15..20 {
            for x in 0..40 {
                if !(13..=27).contains(&x) {
                    assert_eq!(b.canvas[y][x], before.canvas[y][x]);
                }
            }
        }
    }
}

#[test]
fn animation_reads_only_the_fills() {
    let mut b = blank(4, 2);
    b.canvas[0][0] = 'x';
    b.growth_order = vec![(1, 0, 'a'), (3, 1, 'b')];
    let mut g = Growth::start(4, 2);
    assert_eq!(next_frame(&mut g, &b, 0), " a  \n    \n");
    assert_eq!(next_frame(&mut g, &b, 1), " a  \n   b\n");
}
