use colorfill::offsets::{build_color_offsets, build_location_offsets, ColorOffset, LocationOffset};

fn color_len(o: &ColorOffset) -> i64 {
    let (r, g, b) = (o.dr as i64, o.dg as i64, o.db as i64);
    r * r + g * g + b * b
}

fn location_len(o: &LocationOffset) -> i64 {
    let (i, j) = (o.di as i64, o.dj as i64);
    5 * i * i + j * j
}

#[test]
fn color_offsets_sorted_and_complete() {
    let levels = 4i16;
    let t = build_color_offsets(4);
    assert_eq!(t.len(), 8 * 64);
    for w in t.windows(2) {
        assert!(color_len(&w[0]) <= color_len(&w[1]));
    }
    for r in 1..levels {
        for g in 1..levels {
            for b in 1..levels {
                for s in 0..8 {
                    let o = ColorOffset {
                        dr: if s & 4 != 0 { -r } else { r },
                        dg: if s & 2 != 0 { -g } else { g },
                        db: if s & 1 != 0 { -b } else { b },
                    };
                    assert_eq!(t.iter().filter(|x| **x == o).count(), 1);
                }
            }
        }
    }
    let zero = ColorOffset { dr: 0, dg: 0, db: 0 };
    assert_eq!(t.iter().filter(|x| **x == zero).count(), 8);
    assert_eq!(t[0], zero);
}

#[test]
fn location_offsets_sorted() {
    let t = build_location_offsets(8);
    assert_eq!(t.len(), 4 * 64);
    for w in t.windows(2) {
        assert!(location_len(&w[0]) <= location_len(&w[1]));
    }
    assert_eq!(t[0], LocationOffset { di: 0, dj: 0 });
    // a column step is cheaper than a row step
    let first_nonzero = t.iter().find(|o| o.di != 0 || o.dj != 0).unwrap();
    assert_eq!(first_nonzero.di, 0);
    assert_eq!(first_nonzero.dj.abs(), 1);
}
