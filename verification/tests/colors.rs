use colorconv::colors::Color;
use colorconv::colors::HslaColorType;
use colorconv::colors::RgbaColorType;

// Fixed-point scale: the real value 1.0 is stored as 255000.
const UNIT: i64 = 255000;

/// Mean signed channel difference, in fixed-point units.
fn error(c: RgbaColorType, d: RgbaColorType) -> i64 {
    let e = c.r - d.r + c.g - d.g + c.b - d.b + c.a - d.a;
    e / 4
}

#[test]
fn test_new() {
    let c = RgbaColorType::new(25500, 51000, 76500);
    assert_eq!(
        c,
        RgbaColorType {
            r: 25500,
            g: 51000,
            b: 76500,
            a: UNIT,
        }
    );
}

#[test]
fn test_complement() {
    let c = RgbaColorType::new(25500, 51000, 76500);
    assert_eq!(
        c.complement(),
        RgbaColorType {
            r: 229500,
            g: 204000,
            b: 178500,
            a: UNIT,
        }
    );
}

#[test]
fn test_from_array() {
    let a: RgbaColorType = RgbaColorType::from_unit_triple([255000, 127500, 0]);
    assert_eq!(
        a,
        RgbaColorType {
            r: UNIT,
            g: 127500,
            b: 0,
            a: UNIT,
        }
    );
}

#[test]
fn test_from_bytes() {
    let a = RgbaColorType::from_byte_triple([255, 255, 255]);
    assert_eq!(
        a,
        RgbaColorType {
            r: UNIT,
            g: UNIT,
            b: UNIT,
            a: UNIT,
        }
    );
    let b = RgbaColorType::from_byte_triple([128, 128, 128]);
    // Within 0.005 of mid-gray: 1275 is 0.005 in fixed-point units.
    assert!(
        error(
            b,
            RgbaColorType {
                r: 127500,
                g: 127500,
                b: 127500,
                a: UNIT,
            }
        ) < 1275
    );
}

#[test]
fn test_into() {
    let a = RgbaColorType::new(255000, 127500, 63750);
    let arr: [u8; 3] = a.to_byte_triple();
    assert_eq!(arr, [255, 128, 64]);
}

#[test]
fn test_conv() {
    let a = RgbaColorType::new(255000, 127500, 63750);
    let b: HslaColorType = HslaColorType::from_rgba(a);
    assert_eq!(a, RgbaColorType::from_hsla(b));
}

#[test]
fn test_new_keeps_out_of_range_channels() {
    let c = RgbaColorType::new(-5, 300000, 7);
    assert_eq!(c.r, -5);
    assert_eq!(c.g, 300000);
    assert_eq!(c.b, 7);
    assert_eq!(c.a, UNIT);
}

#[test]
fn test_complement_involution() {
    let c = RgbaColorType::new(25500, 51000, 76500);
    assert_eq!(c.complement().complement(), c);
}

#[test]
fn test_byte_extremes() {
    let z = RgbaColorType::from_byte_triple([0, 0, 0]);
    assert_eq!(
        z,
        RgbaColorType {
            r: 0,
            g: 0,
            b: 0,
            a: UNIT,
        }
    );
}

#[test]
fn test_byte_midpoint_close() {
    let b = RgbaColorType::from_byte_triple([128, 128, 128]);
    assert_eq!(b.r, 128000);
    assert!((b.r - 127500).abs() < 1275);
    assert!((b.g - 127500).abs() < 1275);
    assert!((b.b - 127500).abs() < 1275);
}

#[test]
fn test_byte_export_saturates() {
    let c = RgbaColorType::new(300000, -5, 255000);
    assert_eq!(c.to_byte_triple(), [255, 0, 255]);
}

#[test]
fn test_hue_wrap_above() {
    let c = HslaColorType::new(400 * UNIT, 50 * UNIT, 50 * UNIT);
    assert_eq!(c.h, 40 * UNIT);
    assert_eq!(c.s, 50 * UNIT);
    assert_eq!(c.l, 50 * UNIT);
    assert_eq!(c.a, UNIT);
}

#[test]
fn test_hue_wrap_negative() {
    let c = HslaColorType::new(-30 * UNIT, 50 * UNIT, 50 * UNIT);
    assert_eq!(c.h, 330 * UNIT);
}

#[test]
fn test_saturation_lightness_clamping() {
    let c = HslaColorType::new(0, 150 * UNIT, -20 * UNIT);
    assert_eq!(c.s, 100 * UNIT);
    assert_eq!(c.l, 0);
}

#[test]
fn test_achromatic_to_hsla() {
    let gray = RgbaColorType::new(102000, 102000, 102000);
    let h = HslaColorType::from_rgba(gray);
    assert_eq!(h.h, 0);
    assert_eq!(h.s, 0);
    assert_eq!(h.l, 10_200_000);
    assert_eq!(h.a, UNIT);
}

#[test]
fn test_achromatic_round_trip() {
    let gray = RgbaColorType::new(102000, 102000, 102000);
    let back = RgbaColorType::from_hsla(HslaColorType::from_rgba(gray));
    assert_eq!(back, gray);
}

#[test]
fn test_primary_colors_to_hsla() {
    let red = HslaColorType::from_rgba(RgbaColorType::new(UNIT, 0, 0));
    assert_eq!(
        red,
        HslaColorType {
            h: 0,
            s: 100 * UNIT,
            l: 50 * UNIT,
            a: UNIT,
        }
    );
    let green = HslaColorType::from_rgba(RgbaColorType::new(0, UNIT, 0));
    assert_eq!(green.h, 120 * UNIT);
    let blue = HslaColorType::from_rgba(RgbaColorType::new(0, 0, UNIT));
    assert_eq!(blue.h, 240 * UNIT);
}

#[test]
fn test_primary_colors_round_trip() {
    let red = RgbaColorType::new(UNIT, 0, 0);
    assert_eq!(RgbaColorType::from_hsla(HslaColorType::from_rgba(red)), red);
    let green = RgbaColorType::new(0, UNIT, 0);
    assert_eq!(
        RgbaColorType::from_hsla(HslaColorType::from_rgba(green)),
        green
    );
    let blue = RgbaColorType::new(0, 0, UNIT);
    assert_eq!(RgbaColorType::from_hsla(HslaColorType::from_rgba(blue)), blue);
}

#[test]
fn test_saturated_edge_round_trip() {
    // One channel full and one empty is fully saturated; such colors
    // round trip exactly, whatever the middle channel holds.
    for mid in [0, 1, 100_000, 254_999, UNIT] {
        let edge = [
            RgbaColorType::new(UNIT, mid, 0),
            RgbaColorType::new(mid, UNIT, 0),
            RgbaColorType::new(0, UNIT, mid),
            RgbaColorType::new(0, mid, UNIT),
            RgbaColorType::new(mid, 0, UNIT),
            RgbaColorType::new(UNIT, 0, mid),
        ];
        for c in edge {
            assert_eq!(RgbaColorType::from_hsla(HslaColorType::from_rgba(c)), c);
        }
    }
}

#[test]
fn test_round_trip_grid() {
    // Any color with unit-range channels round trips exactly.
    let samples = [0, 1, 500, 63750, 127500, 191250, 254999, UNIT];
    for r in samples {
        for g in samples {
            for b in samples {
                let c = RgbaColorType::new(r, g, b);
                assert_eq!(RgbaColorType::from_hsla(HslaColorType::from_rgba(c)), c);
            }
        }
    }
}

#[test]
fn test_orange_to_hsla_exact() {
    // 1.0, 0.5, 0.25 is hue 20 degrees, saturation 100, lightness 62.5.
    let h = HslaColorType::from_rgba(RgbaColorType::new(255000, 127500, 63750));
    assert_eq!(h.h, 20 * UNIT);
    assert_eq!(h.s, 100 * UNIT);
    assert_eq!(h.l, 15_937_500);
}

#[test]
fn test_from_hsla_ignores_alpha() {
    let mut h = HslaColorType::new(40 * UNIT, 30 * UNIT, 60 * UNIT);
    h.a = 0;
    let c = RgbaColorType::from_hsla(h);
    assert_eq!(c.a, UNIT);
}

#[test]
fn test_byte_export_rounding_boundary() {
    // 500 fixed-point units is exactly half a byte step and rounds up;
    // 499 rounds down.
    let c = RgbaColorType::new(500, 499, 0);
    assert_eq!(c.to_byte_triple(), [1, 0, 0]);
}

#[test]
fn test_display_string() {
    let c = RgbaColorType::new(25500, 51000, 76500);
    assert_eq!(c.display_string(), "RGB(25500, 51000, 76500)");
    let d = RgbaColorType::new(-1, 0, 10);
    assert_eq!(d.display_string(), "RGB(-1, 0, 10)");
}
