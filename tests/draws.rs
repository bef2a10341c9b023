use colorfill::color::color_base_to_color;
use colorfill::palette::{draw_color_base, draw_seed_location, is_acceptable, is_clear_of, Location};
use rand::rngs::StdRng;
use rand::SeedableRng;

#[test]
fn drawn_colors_are_in_range_and_acceptable() {
    let mut rng = StdRng::seed_from_u64(3);
    let mut distinct = std::collections::HashSet::new();
    for _ in 0..200 {
        let cb = draw_color_base(&mut rng, 4).unwrap();
        assert!(cb.r < 4 && cb.g < 4 && cb.b < 4);
        assert!(is_acceptable(color_base_to_color(cb, 4)));
        distinct.insert((cb.r, cb.g, cb.b));
    }
    assert!(distinct.len() > 1);
}

#[test]
fn drawn_seeds_stay_in_band_and_spaced() {
    let mut rng = StdRng::seed_from_u64(11);
    let seeds = vec![Location { row: 4, col: 0 }];
    for _ in 0..100 {
        let l = draw_seed_location(&mut rng, 2, 8, &seeds, 2).unwrap();
        assert!(l.row >= 4 && l.row < 6);
        assert!(l.col < 8);
        assert!(is_clear_of(&seeds, l, 8, 2));
    }
}
