use water_sort::game_elements::color::Color;
use water_sort::game_elements::color_palette::{ColorPalette, ColorScheme, Rgb};
use water_sort::game_elements::glass::{Glass, GlassError};
use water_sort::game_elements::step::Step;

fn c(id: u8) -> Color {
    Color::new(id)
}

fn glass_of(ids: &[u8]) -> Glass {
    let mut g = Glass::new();
    for &id in ids {
        g.push(c(id)).unwrap();
    }
    g
}

#[test]
fn color_basics() {
    assert!(Color::empty().is_empty());
    assert_eq!(Color::empty().id(), 0);
    assert!(!c(7).is_empty());
    assert_eq!(c(7).id(), 7);
    assert_eq!(c(7), Color::new(7));
    assert_ne!(c(7), c(8));
}

#[test]
fn glass_push_pop_round_trip() {
    let mut g = Glass::new();
    assert!(g.is_empty());
    assert_eq!(g.push(c(3)), Ok(()));
    assert_eq!(g.top().id(), 3);
    assert_eq!(g.pop().id(), 3);
    assert!(g.is_empty());
    assert_eq!(g, Glass::new());
    assert_eq!(g.top, 0);
}

#[test]
fn glass_pop_on_empty_gives_the_empty_slot() {
    let mut g = Glass::new();
    assert!(g.pop().is_empty());
    assert_eq!(g.top, 0);
}

#[test]
fn glass_push_on_full_fails() {
    let mut g = glass_of(&[1, 2, 3, 4]);
    assert!(g.is_full());
    assert_eq!(g.push(c(5)), Err(GlassError::FullGlass));
    assert_eq!(g.top, 4);
    assert_eq!(g.top().id(), 4);
}

#[test]
fn glass_from_colors() {
    let g = Glass::from_colors(&[c(1), c(2), c(3), c(4)]).unwrap();
    assert_eq!(g.top, 4);
    assert!(g.glass[0].is_empty());
    assert_eq!(g.glass[1].id(), 1);
    assert_eq!(g.glass[4].id(), 4);
    assert_eq!(g.top().id(), 4);
    assert_eq!(
        Glass::from_colors(&[c(1), c(2)]).unwrap_err(),
        GlassError::InvalidConstructorColorLength(2)
    );
    assert_eq!(
        Glass::from_colors(&[c(1), c(2), c(3), c(4), c(5)]).unwrap_err(),
        GlassError::InvalidConstructorColorLength(5)
    );
}

#[test]
fn glass_sorted() {
    assert!(glass_of(&[2, 2, 2, 2]).is_sorted());
    assert!(!glass_of(&[2, 2, 2, 1]).is_sorted());
    assert!(!glass_of(&[2, 2, 2]).is_sorted());
    assert!(!Glass::new().is_sorted());
}

#[test]
fn glass_equality_compares_slots() {
    assert_eq!(glass_of(&[1, 2]), glass_of(&[1, 2]));
    assert_ne!(glass_of(&[1, 2]), glass_of(&[2, 1]));
    let mut a = glass_of(&[1, 2]);
    a.top = 4;
    assert_eq!(a, glass_of(&[1, 2]));
}

#[test]
fn glass_default_is_empty() {
    let g = Glass::default();
    assert!(g.is_empty());
    assert_eq!(g, Glass::new());
}

#[test]
fn step_to_string() {
    assert_eq!(Step { source: 1, destination: 12 }.to_string(), "(1, 12)");
    assert_eq!(Step { source: 0, destination: 0 }.to_string(), "(0, 0)");
}

#[test]
fn palette_wraps_ids() {
    let colors = vec![Rgb { r: 1, g: 2, b: 3 }, Rgb { r: 4, g: 5, b: 6 }, Rgb { r: 7, g: 8, b: 9 }];
    let p = ColorPalette::with_colors(ColorScheme::Pastel, colors);
    assert_eq!(p.scheme(), ColorScheme::Pastel);
    assert_eq!(p.get_color(0), None);
    assert_eq!(p.get_color(1), Some(&Rgb { r: 1, g: 2, b: 3 }));
    assert_eq!(p.get_color(3), Some(&Rgb { r: 7, g: 8, b: 9 }));
    assert_eq!(p.get_color(4), Some(&Rgb { r: 1, g: 2, b: 3 }));
    assert_eq!(ColorScheme::default(), ColorScheme::Vibrant);
}
