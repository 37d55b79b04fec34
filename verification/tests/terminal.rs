use cbonsai::cli::{endless_plan, first_seed, following_seed, get_terminal_size, plan_bonsai, quits, render_screensaver, Cli, Key};
use cbonsai::color::{apply_colors, paint_text, ColorChoice};
use cbonsai::canvas::Bonsai;
use cbonsai::dice::Dice;
use cbonsai::show::render_static;

fn cli() -> Cli {
    Cli {
        live: true,
        infinite: false,
        seed: Some(4),
        width: 80,
        height: 40,
        density: 3,
        fg_color: Some("green".to_string()),
        bg_color: None,
        output: Some("tree.txt".to_string()),
        quiet: false,
        delay: 15,
        interval: 3,
    }
}

#[test]
fn colour_names_are_read_in_any_case() {
    assert_eq!(ColorChoice::parse("red"), Some(ColorChoice::Red));
    assert_eq!(ColorChoice::parse("RED"), Some(ColorChoice::Red));
    assert_eq!(ColorChoice::parse("Cyan"), Some(ColorChoice::Cyan));
    assert_eq!(ColorChoice::parse("mAgEnTa"), Some(ColorChoice::Magenta));
    assert_eq!(ColorChoice::parse("black"), Some(ColorChoice::Black));
    assert_eq!(ColorChoice::parse("WHITE"), Some(ColorChoice::White));
    assert_eq!(ColorChoice::parse("Yellow"), Some(ColorChoice::Yellow));
    assert_eq!(ColorChoice::parse("blue"), Some(ColorChoice::Blue));
    assert_eq!(ColorChoice::parse("green"), Some(ColorChoice::Green));
}

#[test]
fn unknown_colour_names_are_refused() {
    assert_eq!(ColorChoice::parse("purple"), None);
    assert_eq!(ColorChoice::parse(""), None);
    assert_eq!(ColorChoice::parse(" red"), None);
    assert_eq!(ColorChoice::from_name("RED"), None);
    assert_eq!(ColorChoice::from_name("red"), Some(ColorChoice::Red));
}

#[test]
fn text_without_colours_is_unchanged() {
    assert_eq!(apply_colors("ab\n c\n", None, None), "ab\n c\n");
    assert_eq!(apply_colors("", None, None), "");
}

#[test]
fn colours_wrap_every_character_but_line_breaks() {
    colored::control::set_override(true);
    let red = ColorChoice::Red;
    assert_eq!(apply_colors("a\nb", Some(&red), None), "\x1b[31ma\x1b[0m\n\x1b[31mb\x1b[0m");
    let blue = ColorChoice::Blue;
    assert_eq!(apply_colors("x", None, Some(&blue)), "\x1b[44;37mx\x1b[0m");
    assert_eq!(apply_colors("x\n", Some(&red), Some(&blue)), "\x1b[44;31mx\x1b[0m\n");
}

#[test]
fn colours_are_left_out_when_disabled() {
    colored::control::set_override(false);
    let red = ColorChoice::Red;
    assert_eq!(apply_colors("a\nb", Some(&red), Some(&red)), "a\nb");
}

#[test]
fn terminal_size_falls_back_to_80_by_40() {
    assert_eq!(get_terminal_size(None), (80, 40));
    assert_eq!(get_terminal_size(Some((120, 33))), (120, 33));
}

#[test]
fn screensaver_runs_endlessly_and_quietly_on_the_terminal() {
    let c = cli();
    let s = render_screensaver(&c, Some((100, 50)));
    assert_eq!((s.width, s.height), (100, 50));
    assert!(s.infinite && s.quiet && s.live);
    assert_eq!(s.seed, Some(4));
    assert_eq!(s.fg_color, Some("green".to_string()));
    assert_eq!(s.output, Some("tree.txt".to_string()));
    assert_eq!((s.density, s.delay, s.interval), (3, 15, 3));
    let d = render_screensaver(&c, None);
    assert_eq!((d.width, d.height), (80, 40));
}

#[test]
fn escape_and_q_stop_the_endless_display() {
    assert!(quits(Key::Esc));
    assert!(quits(Key::Char('q')));
    assert!(!quits(Key::Char('Q')));
    assert!(!quits(Key::Char('x')));
    assert!(!quits(Key::Other));
}

#[test]
fn endless_seeds_count_up_and_wrap() {
    assert_eq!(first_seed(Some(9)), 9);
    assert_eq!(first_seed(None), 0);
    assert_eq!(following_seed(9), 10);
    assert_eq!(following_seed(u64::MAX), 0);
}

#[test]
fn plans_keep_the_given_seed() {
    let mut d = Dice::from_seed(Some(1));
    let (config, seed) = plan_bonsai(30, 20, 2, Some(77), &mut d);
    assert_eq!(seed, 77);
    assert_eq!((config.width, config.height, config.density), (30, 20, 2));
    let mut d1 = Dice::from_seed(Some(1));
    let mut d2 = Dice::from_seed(Some(1));
    let (_, s1) = plan_bonsai(30, 20, 2, None, &mut d1);
    let (_, s2) = plan_bonsai(30, 20, 2, None, &mut d2);
    assert_eq!(s1, s2);
}

#[test]
fn endless_plans_are_fixed_by_the_counter() {
    let c = cli();
    let (a, sa) = endless_plan(&c, 12);
    let (b, sb) = endless_plan(&c, 12);
    assert_eq!((sa, sb), (12, 12));
    assert_eq!(a.tree_style, b.tree_style);
    assert_eq!(a.pot_style, b.pot_style);
    assert_eq!((a.width, a.height, a.density), (80, 40, 3));
}

#[test]
fn printed_bonsai_is_its_text_in_colour() {
    let mut b = Bonsai { canvas: vec![vec![' '; 2]; 1], width: 2, height: 1, growth_order: Vec::new() };
    b.set_char(0, 0, '*');
    assert_eq!(render_static(&b, None, None), "* \n");
    colored::control::set_override(true);
    let green = ColorChoice::Green;
    assert_eq!(render_static(&b, Some(&green), None), "\x1b[32m*\x1b[0m\x1b[32m \x1b[0m\n");
}

#[test]
fn painting_follows_the_colouring_switch() {
    let red = ColorChoice::Red;
    let blue = ColorChoice::Blue;
    let white = ColorChoice::White;
    assert_eq!(paint_text("a\nb", Some(&red), None, true), "\x1b[31ma\x1b[0m\n\x1b[31mb\x1b[0m");
    assert_eq!(paint_text("a\nb", Some(&red), None, false), "a\nb");
    assert_eq!(paint_text("xy", None, Some(&blue), true), paint_text("xy", Some(&white), Some(&blue), true));
    assert_eq!(paint_text("x", None, Some(&blue), true), "\x1b[44;37mx\x1b[0m");
    let whole = paint_text("ab\ncd", Some(&red), Some(&blue), true);
    let parts = paint_text("ab\n", Some(&red), Some(&blue), true) + &paint_text("cd", Some(&red), Some(&blue), true);
    assert_eq!(whole, parts);
    assert_eq!(paint_text("q", None, None, true), "q");
}
