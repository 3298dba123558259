use vstd::prelude::*;
use crate::color::Color;

verus! {

/// What happens to a ray of type `R` at its first meeting with the scene.
pub enum Bounce<R> {
    /// It leaves the scene; the sky sends this light along it.
    Miss(Color),
    /// It hits a surface that absorbs it, with this attenuation.
    Absorbed(Color),
    /// It hits a surface with this attenuation and goes on as the given ray.
    Scattered(Color, R),
}

/// Whether `c` is a radiance estimate for `r` with at most `depth` bounces,
/// when `step` tells what becomes of each ray: no light once the bounces are
/// spent; the sky's light on a miss; the attenuation itself when the ray is
/// absorbed; the attenuation times the estimate for the scattered ray with
/// one bounce less otherwise.
pub open spec fn is_radiance<R, F: Fn(R) -> Bounce<R>>(step: &F, r: R, depth: nat, c: Color) -> bool
    decreases depth,
{
    if depth == 0 {
        c == (Color { r: 0, g: 0, b: 0 })
    } else {
        exists|b: Bounce<R>|
            #[trigger] step.ensures((r,), b) && match b {
                Bounce::Miss(sky) => c == sky,
                Bounce::Absorbed(a) => c == a,
                Bounce::Scattered(a, next) => exists|rest: Color|
                    is_radiance(step, next, (depth - 1) as nat, rest) && c == a.spec_modulate(
                        rest,
                    ),
            }
    }
}

/// Estimates the light arriving along `r`, following it through at most
/// `depth` bounces; `step` finds what becomes of a ray in the scene.
pub fn ray_color<R, F: Fn(R) -> Bounce<R>>(r: R, step: &F, depth: usize) -> (c: Color)
    requires
        forall|x: R| step.requires((x,)),
    ensures
        is_radiance(step, r, depth as nat, c),
    decreases depth,
{
    if depth == 0 {
        return Color::black();
    }
    let ghost start = r;
    let b = step(r);
    assert(step.ensures((start,), b));
    match b {
        Bounce::Miss(sky) => sky,
        Bounce::Absorbed(a) => a,
        Bounce::Scattered(a, next) => {
            let rest = ray_color(next, step, depth - 1);
            let c = a.modulate(&rest);
            assert(is_radiance(step, next, (depth - 1) as nat, rest));
            c
        },
    }
}

/// With a budget of one bounce, an estimate is the sky's light where the
/// ray misses, the attenuation where it is absorbed, and no light where it
/// scatters: nothing but sky or surface colours can appear.
pub proof fn lemma_single_bounce<R, F: Fn(R) -> Bounce<R>>(step: &F, r: R, c: Color)
    requires
        is_radiance(step, r, 1, c),
    ensures
        exists|b: Bounce<R>|
            #[trigger] step.ensures((r,), b) && match b {
                Bounce::Miss(sky) => c == sky,
                Bounce::Absorbed(a) => c == a,
                Bounce::Scattered(_, _) => c == (Color { r: 0, g: 0, b: 0 }),
            },
{
    let b = choose|b: Bounce<R>|
        #[trigger] step.ensures((r,), b) && match b {
            Bounce::Miss(sky) => c == sky,
            Bounce::Absorbed(a) => c == a,
            Bounce::Scattered(a, next) => exists|rest: Color|
                is_radiance(step, next, 0, rest) && c == a.spec_modulate(rest),
        };
    if let Bounce::Scattered(a, next) = b {
        let rest = choose|rest: Color| is_radiance(step, next, 0, rest) && c == a.spec_modulate(rest);
        assert(rest == (Color { r: 0, g: 0, b: 0 }));
        assert(c == (Color { r: 0, g: 0, b: 0 }));
    }
    assert(step.ensures((r,), b));
}

} // verus!
