use colorfill::canvas::Canvas;
use colorfill::color::{color_base_to_color, ColorBase};
use colorfill::engine::{switchover, uses_global_phase};
use colorfill::fill::make_grid;
use colorfill::offsets::{build_color_offsets, build_location_offsets};
use colorfill::palette::{nearest_palette_index, Location};

#[test]
fn switchover_at_nine_tenths() {
    assert_eq!(switchover(64), 57);
    assert_eq!(switchover(531441), 478296);
    assert!(!uses_global_phase(56, 64));
    assert!(uses_global_phase(57, 64));
    assert!(uses_global_phase(63, 64));
}

#[test]
fn first_placement_goes_to_origin() {
    let mut c = Canvas::new(8, 4);
    let co = build_color_offsets(4);
    let lo = build_location_offsets(8);
    let cb = ColorBase { r: 1, g: 2, b: 3 };
    assert_eq!(c.nearest_placed(cb, &co), None);
    let r = c.place_candidate(cb, 0, 64, &co, &lo);
    assert_eq!(r, Some(Location { row: 0, col: 0 }));
    assert_eq!(c.cells[0], Some(color_base_to_color(cb, 4)));
    // the next color grows from there along the column first
    let r2 = c.place_candidate(ColorBase { r: 1, g: 2, b: 2 }, 1, 64, &co, &lo);
    assert_eq!(r2, Some(Location { row: 0, col: 1 }));
}

#[test]
fn first_placement_in_global_phase_goes_to_origin() {
    let mut c = Canvas::new(8, 4);
    let co = build_color_offsets(4);
    let lo = build_location_offsets(8);
    let r = c.place_candidate(ColorBase { r: 3, g: 0, b: 1 }, 60, 64, &co, &lo);
    assert_eq!(r, Some(Location { row: 0, col: 0 }));
}

#[test]
fn local_search_skips_filled_cells() {
    let mut c = Canvas::new(8, 4);
    let lo = build_location_offsets(8);
    c.commit(ColorBase { r: 0, g: 0, b: 1 }, Location { row: 4, col: 4 });
    c.commit(ColorBase { r: 0, g: 0, b: 2 }, Location { row: 4, col: 3 });
    let a = Location { row: 4, col: 4 };
    let r = c.find_open_near(a, &lo).unwrap();
    assert_eq!(r, Location { row: 4, col: 5 });
    assert!(c.cell_is_open(r));
}

#[test]
fn global_search_finds_nearest_open() {
    let mut c = Canvas::new(8, 4);
    let mut n = 0u8;
    for row in 0..8 {
        for col in 0..8 {
            if (row, col) != (7, 7) && (row, col) != (2, 6) {
                let cb = ColorBase { r: n % 4, g: (n / 4) % 4, b: n / 16 };
                c.commit(cb, Location { row, col });
                n += 1;
            }
        }
    }
    assert_eq!(c.find_open_global(Location { row: 3, col: 3 }), Some(Location { row: 2, col: 6 }));
    assert_eq!(c.find_open_global(Location { row: 7, col: 4 }), Some(Location { row: 7, col: 7 }));
    c.commit(ColorBase { r: 3, g: 3, b: 3 }, Location { row: 7, col: 7 });
    c.commit(ColorBase { r: 2, g: 3, b: 3 }, Location { row: 2, col: 6 });
    assert_eq!(c.find_open_global(Location { row: 0, col: 0 }), None);
    assert_eq!(c.find_open_near(Location { row: 0, col: 0 }, &build_location_offsets(8)), None);
}

#[test]
fn nearest_placed_follows_color_distance() {
    let mut c = Canvas::new(8, 4);
    let co = build_color_offsets(4);
    c.commit(ColorBase { r: 3, g: 3, b: 3 }, Location { row: 1, col: 1 });
    c.commit(ColorBase { r: 0, g: 1, b: 0 }, Location { row: 5, col: 5 });
    assert_eq!(c.nearest_placed(ColorBase { r: 0, g: 0, b: 0 }, &co), Some(Location { row: 5, col: 5 }));
    assert_eq!(c.nearest_placed(ColorBase { r: 3, g: 2, b: 3 }, &co), Some(Location { row: 1, col: 1 }));
}

#[test]
fn runs_are_deterministic() {
    for seed in 0..3 {
        let a = make_grid(2, 1, seed);
        let b = make_grid(2, 1, seed);
        assert_eq!(a.cells, b.cells);
        assert_eq!(a.seeds, b.seeds);
    }
}

#[test]
fn small_grid_with_one_seed() {
    let c = make_grid(2, 1, 0);
    assert_eq!(c.size, 8);
    assert_eq!(c.levels, 4);
    assert_eq!(c.cells.len(), 64);
    assert_eq!(c.placed.len(), 64);
    assert!(c.seeds.len() <= 1);
    for s in &c.seeds {
        let color = c.cells[s.row * 8 + s.col].unwrap();
        let band = nearest_palette_index(color);
        assert!(band * 2 <= s.row && s.row < band * 2 + 2);
    }
    let filled = c.cells.iter().filter(|x| x.is_some()).count();
    let missing = c.cells.iter().filter(|x| x.is_none()).count();
    assert_eq!(filled + missing, 64);
    assert!(filled >= 1);
}

#[test]
fn no_seeds_starts_at_origin() {
    for seed in 0..3 {
        let c = make_grid(2, 0, seed);
        assert!(c.seeds.is_empty());
        assert!(c.cells[0].is_some());
    }
}

#[test]
fn placed_index_matches_cells() {
    let c = make_grid(2, 2, 7);
    let mut seen = std::collections::HashSet::new();
    for (k, p) in c.placed.iter().enumerate() {
        if let Some(l) = p {
            assert!(seen.insert((l.row, l.col)));
            let cb = ColorBase { r: (k % 4) as u8, g: ((k / 4) % 4) as u8, b: (k / 16) as u8 };
            assert_eq!(c.cells[l.row * 8 + l.col], Some(color_base_to_color(cb, 4)));
        }
    }
    for cell in c.cells.iter().flatten() {
        let found = c.placed.iter().enumerate().any(|(k, p)| {
            let cb = ColorBase { r: (k % 4) as u8, g: ((k / 4) % 4) as u8, b: (k / 16) as u8 };
            p.is_some() && color_base_to_color(cb, 4) == *cell
        });
        assert!(found);
    }
}

#[test]
fn lookup_reaches_a_lone_far_color() {
    let mut c = Canvas::new(8, 4);
    let co = build_color_offsets(4);
    c.commit(ColorBase { r: 3, g: 3, b: 3 }, Location { row: 6, col: 2 });
    assert_eq!(c.nearest_placed(ColorBase { r: 0, g: 0, b: 0 }, &co), Some(Location { row: 6, col: 2 }));
    c.commit(ColorBase { r: 0, g: 3, b: 0 }, Location { row: 0, col: 7 });
    assert_eq!(c.nearest_placed(ColorBase { r: 0, g: 0, b: 0 }, &co), Some(Location { row: 0, col: 7 }));
}

#[test]
fn global_tie_goes_to_first_in_row_order() {
    let mut c = Canvas::new(8, 4);
    let mut n = 0u8;
    for row in 0..8 {
        for col in 0..8 {
            if (row, col) != (3, 2) && (row, col) != (3, 6) {
                let cb = ColorBase { r: n % 4, g: (n / 4) % 4, b: n / 16 };
                c.commit(cb, Location { row, col });
                n += 1;
            }
        }
    }
    assert_eq!(c.find_open_global(Location { row: 3, col: 4 }), Some(Location { row: 3, col: 2 }));
}
