use raytracer::color::{postprocess_color, Color, FIXED_ONE};

fn grey(v: u64) -> Color {
    Color::new(v, v, v)
}

#[test]
fn white_single_sample_is_top_level() {
    assert_eq!(postprocess_color(Color::white(), 1), [255, 255, 255]);
}

#[test]
fn black_is_zero() {
    assert_eq!(postprocess_color(grey(0), 1), [0, 0, 0]);
    assert_eq!(postprocess_color(grey(0), 7), [0, 0, 0]);
}

#[test]
fn quarter_intensity_is_half_after_gamma() {
    // sqrt(0.25) = 0.5, and 256 * 0.5 = 128
    assert_eq!(postprocess_color(grey(FIXED_ONE / 4), 1), [128, 128, 128]);
}

#[test]
fn channels_are_independent() {
    let c = Color::new(FIXED_ONE, FIXED_ONE / 4, 0);
    assert_eq!(postprocess_color(c, 1), [255, 128, 0]);
}

#[test]
fn sum_is_divided_by_samples() {
    // four samples adding up to one: mean 0.25
    assert_eq!(postprocess_color(grey(FIXED_ONE), 4), [128, 128, 128]);
    // four samples of full intensity: mean one
    assert_eq!(postprocess_color(grey(4 * FIXED_ONE), 4), [255, 255, 255]);
}

#[test]
fn intensity_above_one_is_clamped() {
    assert_eq!(postprocess_color(grey(10 * FIXED_ONE), 1), [255, 255, 255]);
    assert_eq!(postprocess_color(grey(u64::MAX), 3), [255, 255, 255]);
}

#[test]
fn lowest_levels_follow_square_root() {
    // 256 * sqrt(v / 65536) = sqrt(v)
    assert_eq!(postprocess_color(grey(1), 1), [1, 1, 1]);
    assert_eq!(postprocess_color(grey(3), 1), [1, 1, 1]);
    assert_eq!(postprocess_color(grey(4), 1), [2, 2, 2]);
    assert_eq!(postprocess_color(grey(255 * 255), 1), [255, 255, 255]);
    assert_eq!(postprocess_color(grey(254 * 254), 1), [254, 254, 254]);
    assert_eq!(postprocess_color(grey(255 * 255 - 1), 1), [254, 254, 254]);
}

#[test]
fn levels_are_monotonic() {
    let mut last = 0;
    for v in (0..2 * FIXED_ONE).step_by(97) {
        let px = postprocess_color(grey(v), 2);
        assert!(px[0] >= last);
        assert!(px[0] >= 0 && px[0] <= 255);
        last = px[0];
    }
    assert_eq!(last, 255);
}

#[test]
fn no_samples() {
    assert_eq!(postprocess_color(Color::new(0, 1, FIXED_ONE), 0), [0, 255, 255]);
}

#[test]
fn modulate_multiplies_fixed_point() {
    let a = Color::new(FIXED_ONE / 2, FIXED_ONE, 0);
    let b = Color::new(FIXED_ONE / 2, 3, FIXED_ONE);
    assert_eq!(a.modulate(&b), Color::new(FIXED_ONE / 4, 3, 0));
    assert_eq!(Color::white().modulate(&b), b);
}

#[test]
fn modulate_rounds_down_and_saturates() {
    assert_eq!(Color::new(1, 1, 3).modulate(&Color::new(1, FIXED_ONE - 1, FIXED_ONE / 2)), Color::new(0, 0, 1));
    let big = Color::new(u64::MAX, u64::MAX, u64::MAX);
    assert_eq!(big.modulate(&big), big);
}

#[test]
fn saturating_add_sums_channels() {
    let a = Color::new(1, 2, u64::MAX - 1);
    let b = Color::new(10, 20, 5);
    assert_eq!(a.saturating_add(&b), Color::new(11, 22, u64::MAX));
    assert_eq!(Color::black().saturating_add(&b), b);
}
