use beams::color::{close_to, isqrt64, mix, Color, CHANNEL_FULL, CHANNEL_TOLERANCE};

#[test]
fn isqrt_small_values() {
    assert_eq!(isqrt64(0), 0);
    assert_eq!(isqrt64(1), 1);
    assert_eq!(isqrt64(3), 1);
    assert_eq!(isqrt64(4), 2);
    assert_eq!(isqrt64(15), 3);
    assert_eq!(isqrt64(16), 4);
}

#[test]
fn isqrt_large_values() {
    // The squared norm of the mixed red/blue beam.
    assert_eq!(isqrt64(2_130_739_200), 46_159);
    assert_eq!(isqrt64(u64::from(u32::MAX)) * isqrt64(u64::from(u32::MAX)), 65535 * 65535);
}

#[test]
fn from_rgb8_scales_to_fixed_point() {
    let c = Color::from_rgb8(255, 0, 2);
    assert_eq!(c, Color { r: CHANNEL_FULL, g: 0, b: 512 });
    assert_eq!(Color::from_rgb8(0, 0, 0), Color { r: 0, g: 0, b: 0 });
}

#[test]
fn mix_red_and_blue_gives_normalized_purple() {
    let red = Color::from_rgb8(255, 0, 0);
    let blue = Color::from_rgb8(0, 0, 255);
    // Average (32640, 0, 32640), scaled to unit length: 32640 * 65280
    // divided by isqrt(2 * 32640^2) = 46159, rounded down.
    assert_eq!(mix(red, blue), Color { r: 46_160, g: 0, b: 46_160 });
}

#[test]
fn mix_equal_colors_normalizes_in_place() {
    let red = Color::from_rgb8(255, 0, 0);
    // The average of red with itself is red, already unit length.
    assert_eq!(mix(red, red), Color { r: CHANNEL_FULL, g: 0, b: 0 });
}

#[test]
fn mix_black_stays_black() {
    let black = Color::from_rgb8(0, 0, 0);
    assert_eq!(mix(black, black), black);
}

#[test]
fn close_to_boundary_is_inclusive() {
    let a = Color { r: CHANNEL_FULL, g: 0, b: 0 };
    let within = Color { r: CHANNEL_FULL, g: CHANNEL_TOLERANCE, b: 0 };
    let beyond = Color { r: CHANNEL_FULL, g: CHANNEL_TOLERANCE + 1, b: 0 };
    assert!(close_to(a, within));
    assert!(close_to(within, a));
    assert!(!close_to(a, beyond));
    assert!(close_to(a, a));
}
