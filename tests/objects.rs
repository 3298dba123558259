use raytracer::color::{Color, FIXED_ONE};
use raytracer::objects::{choose_root, nearest_hit, order_key, Dielectric, Lambertian, Material, Metal};

fn key(t: f32) -> u32 {
    order_key(t.to_bits())
}

#[test]
fn lambertian_keeps_albedo() {
    let albedo = Color::new(1, 2, 3);
    let m = Lambertian::new(albedo);
    assert_eq!(m.albedo, albedo);
    assert_eq!(Material::Lambertian(m).attenuation(), albedo);
}

#[test]
fn metal_keeps_fuzz_below_one() {
    let albedo = Color::new(5, 6, 7);
    let m = Metal::new(albedo, 3 * FIXED_ONE as i64 / 10);
    assert_eq!(m.fuzz, 3 * FIXED_ONE / 10);
    assert_eq!(m.albedo, albedo);
    assert_eq!(Metal::new(albedo, 0).fuzz, 0);
    assert_eq!(Material::Metal(m).attenuation(), albedo);
}

#[test]
fn metal_fuzz_of_one_or_more_becomes_one() {
    let albedo = Color::new(0, 0, 0);
    assert_eq!(Metal::new(albedo, FIXED_ONE as i64).fuzz, FIXED_ONE);
    assert_eq!(Metal::new(albedo, 5 * FIXED_ONE as i64).fuzz, FIXED_ONE);
    assert_eq!(Metal::new(albedo, i64::MAX).fuzz, FIXED_ONE);
}

#[test]
fn metal_negative_fuzz_becomes_zero() {
    let albedo = Color::new(0, 0, 0);
    assert_eq!(Metal::new(albedo, -1).fuzz, 0);
    assert_eq!(Metal::new(albedo, -(FIXED_ONE as i64)).fuzz, 0);
    assert_eq!(Metal::new(albedo, i64::MIN).fuzz, 0);
}

#[test]
fn glass_does_not_tint() {
    let m = Dielectric::new(3 * FIXED_ONE / 2);
    assert_eq!(m.index, 3 * FIXED_ONE / 2);
    assert_eq!(Material::Dielectric(m).attenuation(), Color::white());
}

#[test]
fn order_keys_follow_values() {
    let values = [-100.0f32, -1.5, -0.001, 0.0, 0.001, 0.5, 1.0, 2.0, 100.0, f32::INFINITY];
    for w in values.windows(2) {
        assert!(key(w[0]) < key(w[1]), "{} {}", w[0], w[1]);
    }
    assert_eq!(order_key(0), 0x8000_0000);
    assert_eq!(order_key(0xffff_ffff), 0);
}

#[test]
fn nearest_of_two_overlapping_hits() {
    // the far sphere comes first in the scene, the near one second
    let keys = vec![Some(key(5.0)), Some(key(2.0))];
    assert_eq!(nearest_hit(&keys, key(100.0)), Some(1));
}

#[test]
fn nearest_skips_misses_and_keeps_first_of_equals() {
    let keys = vec![None, Some(key(3.0)), Some(key(1.0)), None, Some(key(1.0))];
    assert_eq!(nearest_hit(&keys, key(100.0)), Some(2));
}

#[test]
fn hits_at_or_beyond_limit_are_ignored() {
    let keys = vec![Some(key(3.0)), Some(key(4.0))];
    assert_eq!(nearest_hit(&keys, key(3.0)), None);
    assert_eq!(nearest_hit(&keys, key(3.5)), Some(0));
}

#[test]
fn no_hits() {
    assert_eq!(nearest_hit(&vec![], key(1.0)), None);
    assert_eq!(nearest_hit(&vec![None, None], key(1.0)), None);
}

#[test]
fn nearer_root_in_range_is_taken() {
    assert_eq!(choose_root(key(1.0), key(3.0), key(0.001), key(100.0)), Some(false));
}

#[test]
fn farther_root_when_nearer_is_behind() {
    // the ray starts inside the sphere
    assert_eq!(choose_root(key(-1.0), key(3.0), key(0.001), key(100.0)), Some(true));
}

#[test]
fn range_ends_are_rejected() {
    assert_eq!(choose_root(key(0.001), key(3.0), key(0.001), key(100.0)), Some(true));
    assert_eq!(choose_root(key(0.001), key(150.0), key(0.001), key(100.0)), None);
    assert_eq!(choose_root(key(-2.0), key(100.0), key(0.001), key(100.0)), None);
    assert_eq!(choose_root(key(100.0), key(120.0), key(0.001), key(100.0)), None);
}

#[test]
fn no_root_in_range() {
    assert_eq!(choose_root(key(-3.0), key(-1.0), key(0.001), key(100.0)), None);
    assert_eq!(choose_root(key(150.0), key(200.0), key(0.001), key(100.0)), None);
}
