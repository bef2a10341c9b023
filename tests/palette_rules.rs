use colorfill::color::Color;
use colorfill::palette::{is_acceptable, is_clear_of, nearest_palette_index, palette_color, Location};

#[test]
fn palette_colors_are_rejected() {
    for k in 0..4 {
        assert!(!is_acceptable(palette_color(k)));
    }
    assert!(!is_acceptable(Color { r: 250, g: 240, b: 50 }));
}

#[test]
fn far_colors_are_accepted() {
    assert!(is_acceptable(Color { r: 85, g: 85, b: 85 }));
    assert!(is_acceptable(Color { r: 0, g: 170, b: 85 }));
}

#[test]
fn nearest_palette_picks_band() {
    assert_eq!(nearest_palette_index(Color { r: 250, g: 240, b: 50 }), 0);
    assert_eq!(nearest_palette_index(Color { r: 255, g: 255, b: 255 }), 1);
    assert_eq!(nearest_palette_index(Color { r: 150, g: 90, b: 200 }), 2);
    assert_eq!(nearest_palette_index(Color { r: 10, g: 0, b: 20 }), 3);
}

#[test]
fn seed_spacing_threshold() {
    // size 8 and one seed: the spacing is 8 / (2 * 1) = 4
    let seeds = vec![Location { row: 0, col: 0 }];
    assert!(!is_clear_of(&seeds, Location { row: 0, col: 3 }, 8, 1));
    assert!(is_clear_of(&seeds, Location { row: 0, col: 4 }, 8, 1));
    assert!(!is_clear_of(&seeds, Location { row: 2, col: 3 }, 8, 1));
    // from column 0 to column 5 the gap wraps to 3
    assert!(!is_clear_of(&seeds, Location { row: 0, col: 5 }, 8, 1));
    assert!(is_clear_of(&vec![], Location { row: 0, col: 0 }, 8, 1));
}

#[test]
fn seed_spacing_wraps_one_way_only() {
    // from the earlier seed at column 5 to column 0 the gap is 5, not 3
    let seeds = vec![Location { row: 0, col: 5 }];
    assert!(is_clear_of(&seeds, Location { row: 0, col: 0 }, 8, 1));
    // from column 0 to column 7 it wraps: the gap is 1
    let seeds = vec![Location { row: 0, col: 0 }];
    assert!(!is_clear_of(&seeds, Location { row: 0, col: 7 }, 8, 1));
}
