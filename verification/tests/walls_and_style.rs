use evonomics::gridgen::{dir, dirs, generate_walls, wrap};
use evonomics::rng::{shuffle, SimRng};
use evonomics::style::{Button, ButtonNested, Container, ContainerNested, Slider, Theme};

#[test]
fn wrap_steps_around_the_torus() {
    assert_eq!(wrap(0, 5, -1), 4);
    assert_eq!(wrap(4, 5, 1), 0);
    assert_eq!(wrap(2, 5, 0), 2);
    assert_eq!(wrap(3, 5, 1), 4);
}

#[test]
fn dir_moves_both_axes() {
    assert_eq!(dir((0, 0), (3, 4), (-1, -1)), (2, 3));
    assert_eq!(dir((2, 3), (3, 4), (1, 1)), (0, 0));
}

#[test]
fn dirs_lists_the_four_axis_neighbors() {
    let n = dirs((1, 1), (3, 3));
    assert_eq!(n, vec![(2, 1), (1, 2), (0, 1), (1, 0)]);
}

#[test]
fn generated_walls_cover_the_shape() {
    let mut rng = SimRng::from_seed(8);
    let walls = generate_walls(&mut rng, (6, 7));
    assert_eq!(walls.len(), 42);
    // the pattern keeps at least one open cell
    assert!(walls.iter().any(|w| !*w));
}

#[test]
fn a_single_cell_grid_opens() {
    let mut rng = SimRng::from_seed(8);
    let walls = generate_walls(&mut rng, (1, 1));
    assert_eq!(walls, vec![false]);
}

#[test]
fn shuffle_keeps_the_elements() {
    let mut rng = SimRng::from_seed(21);
    let mut v: Vec<u32> = (0..50).collect();
    shuffle(&mut rng, &mut v);
    assert_eq!(v.len(), 50);
    let mut sorted = v.clone();
    sorted.sort();
    let expected: Vec<u32> = (0..50).collect();
    assert_eq!(sorted, expected);
}

#[test]
fn random_draws_stay_in_range() {
    let mut rng = SimRng::from_seed(33);
    for _ in 0..100 {
        assert!(rng.below(7) < 7);
    }
    let mut saw_true = false;
    let mut saw_false = false;
    for _ in 0..200 {
        if rng.coin() {
            saw_true = true;
        } else {
            saw_false = true;
        }
    }
    assert!(saw_true && saw_false);
    assert!(!rng.chance_ppm(0));
    assert!(rng.chance_ppm(1_000_000));
}

#[test]
fn slider_palette_matches_the_shell_theme() {
    let s = Slider;
    let active = s.active();
    assert_eq!(active.handle_radius, 9);
    assert_eq!(active.border_width, 0);
    assert_eq!((active.rail_top.red, active.rail_top.green, active.rail_top.blue), (0xD4, 0xAF, 0x37));
    assert_eq!(active.rail_bottom.alpha_pct, 10);
    assert_eq!(s.hovered().handle_color.red, 0xE5);
    assert_eq!(s.dragging().handle_color.red, 0xE2);
}

#[test]
fn container_and_button_palettes() {
    assert_eq!(Container.style().background.red, 0x90);
    assert_eq!(ContainerNested.style().background.red, 0x4C);
    assert_eq!(Button.active().text_color.red, 0xD4);
    assert_eq!(Button.hovered().text_color.red, 0xFF);
    assert_eq!(ButtonNested.active().background.red, 0x6F);
    assert_eq!(ButtonNested.hovered().text_color.blue, 0xFF);
    assert!(matches!(Theme::Default, Theme::Default));
    assert!(matches!(Theme::Nested, Theme::Nested));
}
