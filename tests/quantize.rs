use colorfill::color::{channel_to_display, color_base_to_color, Color, ColorBase};

#[test]
fn display_of_black_and_white() {
    for levels in [2u64, 4, 81, 256] {
        let top = (levels - 1) as u8;
        assert_eq!(
            color_base_to_color(ColorBase { r: 0, g: 0, b: 0 }, levels),
            Color { r: 0, g: 0, b: 0 }
        );
        assert_eq!(
            color_base_to_color(ColorBase { r: top, g: top, b: top }, levels),
            Color { r: 255, g: 255, b: 255 }
        );
    }
}

#[test]
fn display_rounds_to_nearest() {
    assert_eq!(channel_to_display(1, 4), 85);
    assert_eq!(channel_to_display(2, 4), 170);
    // 255 / 80 = 3.1875
    assert_eq!(channel_to_display(1, 81), 3);
    // 40 * 255 / 80 = 127.5 rounds up
    assert_eq!(channel_to_display(40, 81), 128);
    // 3 * 255 / 80 = 9.5625
    assert_eq!(channel_to_display(3, 81), 10);
}

#[test]
fn display_is_monotonic() {
    for levels in [4u64, 81, 256] {
        let mut prev = 0u8;
        for x in 0..levels {
            let d = channel_to_display(x as u8, levels);
            assert!(d >= prev);
            prev = d;
        }
    }
}
