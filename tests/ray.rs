use raytracer::color::{Color, FIXED_ONE};
use raytracer::ray::{ray_color, Bounce};

fn sky() -> Color {
    Color::new(FIXED_ONE / 2, 7 * FIXED_ONE / 10, FIXED_ONE)
}

#[test]
fn no_bounces_left_is_black() {
    let step = |_r: u32| Bounce::Miss(sky());
    assert_eq!(ray_color(0u32, &step, 0), Color::black());
}

#[test]
fn miss_gives_sky() {
    let step = |_r: u32| Bounce::Miss(sky());
    assert_eq!(ray_color(0u32, &step, 5), sky());
}

#[test]
fn absorbed_ray_keeps_its_attenuation() {
    let att = Color::new(100, 200, 300);
    let step = |_r: u32| Bounce::Absorbed(att);
    assert_eq!(ray_color(0u32, &step, 3), att);
}

#[test]
fn scattered_light_is_attenuated_per_bounce() {
    // two half-grey bounces, then the sky
    let half = Color::new(FIXED_ONE / 2, FIXED_ONE / 2, FIXED_ONE / 2);
    let step = |r: u32| if r < 2 { Bounce::Scattered(half, r + 1) } else { Bounce::Miss(sky()) };
    assert_eq!(
        ray_color(0u32, &step, 10),
        Color::new(FIXED_ONE / 8, 7 * FIXED_ONE / 40, FIXED_ONE / 4)
    );
}

#[test]
fn bounce_budget_cuts_the_path() {
    let half = Color::new(FIXED_ONE / 2, FIXED_ONE / 2, FIXED_ONE / 2);
    let step = |r: u32| if r < 2 { Bounce::Scattered(half, r + 1) } else { Bounce::Miss(sky()) };
    // with two bounces allowed, the second scattered ray has none left
    assert_eq!(ray_color(0u32, &step, 2), Color::black());
    assert_eq!(ray_color(0u32, &step, 3), Color::new(FIXED_ONE / 8, 7 * FIXED_ONE / 40, FIXED_ONE / 4));
}

#[test]
fn endless_mirror_spends_the_budget() {
    let white = Color::white();
    let step = |r: u32| Bounce::Scattered(white, r);
    assert_eq!(ray_color(0u32, &step, 50), Color::black());
}

#[test]
fn single_bounce_gives_sky_surface_or_black() {
    let ground = Color::new(FIXED_ONE / 2, FIXED_ONE / 2, FIXED_ONE / 2);
    let scatter = |r: u32| if r == 0 { Bounce::Scattered(ground, 1) } else { Bounce::Miss(sky()) };
    assert_eq!(ray_color(0u32, &scatter, 1), Color::black());
    assert_eq!(ray_color(1u32, &scatter, 1), sky());
    let absorb = |_r: u32| Bounce::Absorbed(ground);
    assert_eq!(ray_color(0u32, &absorb, 1), ground);
}
