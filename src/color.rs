use vstd::prelude::*;

verus! {

/// The value one in the fixed-point scale of [`Color`] and of material parameters.
///
/// With 16 fractional bits every gamma threshold `k * k * samples / 65536`
/// of [`postprocess_color`] is a representable value.
pub const FIXED_ONE: u64 = 65536;

/// The largest output level of a channel.
pub const MAX_LEVEL: i32 = 255;

/// A linear colour, each channel in units of `1 / FIXED_ONE`.
#[derive(Clone, Copy, Debug, PartialEq, Eq, Structural)]
pub struct Color {
    pub r: u64,
    pub g: u64,
    pub b: u64,
}

impl Color {
    pub fn new(r: u64, g: u64, b: u64) -> (c: Color)
        ensures
            c == (Color { r, g, b }),
    {
        Color { r, g, b }
    }

    /// No light.
    pub fn black() -> (c: Color)
        ensures
            c == (Color { r: 0, g: 0, b: 0 }),
    {
        Color { r: 0, g: 0, b: 0 }
    }

    /// The light of `self` filtered by `other`, channel by channel, rounded
    /// down to the fixed-point scale and saturating at the largest value.
    pub fn modulate(&self, other: &Color) -> (c: Color)
        ensures
            c == self.spec_modulate(*other),
    {
        Color {
            r: modulate_channel(self.r, other.r),
            g: modulate_channel(self.g, other.g),
            b: modulate_channel(self.b, other.b),
        }
    }

    pub open spec fn spec_modulate(self, other: Color) -> Color {
        Color {
            r: spec_modulate_channel(self.r, other.r),
            g: spec_modulate_channel(self.g, other.g),
            b: spec_modulate_channel(self.b, other.b),
        }
    }

    /// The sum of two colours, channel by channel, saturating at the largest value.
    pub fn saturating_add(&self, other: &Color) -> (c: Color)
        ensures
            c == self.spec_saturating_add(*other),
    {
        Color {
            r: self.r.saturating_add(other.r),
            g: self.g.saturating_add(other.g),
            b: self.b.saturating_add(other.b),
        }
    }

    pub open spec fn spec_saturating_add(self, other: Color) -> Color {
        Color {
            r: spec_add_channel(self.r, other.r),
            g: spec_add_channel(self.g, other.g),
            b: spec_add_channel(self.b, other.b),
        }
    }

    /// Opaque white: intensity one in every channel.
    pub fn white() -> (c: Color)
        ensures
            c == (Color { r: FIXED_ONE as u64, g: FIXED_ONE as u64, b: FIXED_ONE as u64 }),
    {
        Color { r: FIXED_ONE, g: FIXED_ONE, b: FIXED_ONE }
    }
}

/// The sum of two intensities, at most `u64::MAX`.
pub open spec fn spec_add_channel(x: u64, y: u64) -> u64 {
    if x + y > u64::MAX { u64::MAX } else { (x + y) as u64 }
}

/// The sum of a sequence of colours, added from the first.
pub open spec fn color_total(cs: Seq<Color>) -> Color
    decreases cs.len(),
{
    if cs.len() == 0 {
        Color { r: 0, g: 0, b: 0 }
    } else {
        color_total(cs.drop_last()).spec_saturating_add(cs.last())
    }
}

/// The product of two fixed-point intensities, rounded down, at most `u64::MAX`.
pub open spec fn spec_modulate_channel(x: u64, y: u64) -> u64 {
    let p = x as int * y as int / FIXED_ONE as int;
    if p > u64::MAX { u64::MAX } else { p as u64 }
}

fn modulate_channel(x: u64, y: u64) -> (p: u64)
    ensures
        p == spec_modulate_channel(x, y),
{
    assert(x as int * y as int <= u64::MAX as int * u64::MAX as int) by (nonlinear_arith);
    let product = (x as u128) * (y as u128) / (FIXED_ONE as u128);
    if product > u64::MAX as u128 {
        u64::MAX
    } else {
        product as u64
    }
}

/// Whether `k` is the output level of a channel holding `sum` over `samples`
/// samples: the largest `k` in `0..=255` with `256 * sqrt(sum / (FIXED_ONE * samples)) >= k`,
/// that is `k * k * samples <= sum`.
pub open spec fn is_level(k: int, sum: int, samples: int) -> bool {
    &&& 0 <= k <= MAX_LEVEL
    &&& k * k * samples <= sum
    &&& (k == MAX_LEVEL || sum < (k + 1) * (k + 1) * samples)
}

/// The output level of one channel: the gamma-corrected mean intensity,
/// scaled to `0..=255` and clamped. With no samples the mean is unbounded,
/// so any light gives the top level and none gives zero.
pub open spec fn channel_level(sum: int, samples: int) -> int
    recommends
        sum >= 0,
        samples >= 0,
{
    if samples == 0 {
        if sum == 0 { 0 } else { MAX_LEVEL as int }
    } else {
        level_below(MAX_LEVEL as int, sum, samples)
    }
}

/// The largest `k <= top` (and at least zero) with `k * k * samples <= sum`.
pub open spec fn level_below(top: int, sum: int, samples: int) -> int
    decreases top,
{
    if top <= 0 {
        0
    } else if top * top * samples <= sum {
        top
    } else {
        level_below(top - 1, sum, samples)
    }
}

/// Whether `px` holds the output levels of a pixel whose samples add up to `c`.
pub open spec fn has_levels(px: [i32; 3], c: Color, samples: int) -> bool {
    &&& px[0] == channel_level(c.r as int, samples)
    &&& px[1] == channel_level(c.g as int, samples)
    &&& px[2] == channel_level(c.b as int, samples)
}

/// The output level of one channel, found by counting down from the top
/// level until its threshold lies within `sum`.
fn channel_to_level(sum: u64, samples: usize) -> (k: i32)
    ensures
        k == channel_level(sum as int, samples as int),
{
    if samples == 0 {
        return if sum == 0 { 0 } else { MAX_LEVEL };
    }
    let s = samples as u128;
    let total = sum as u128;
    let mut k: u128 = MAX_LEVEL as u128;
    loop
        invariant
            0 <= k <= MAX_LEVEL,
            s == samples,
            total == sum,
            level_below(MAX_LEVEL as int, sum as int, s as int) == level_below(
                k as int,
                sum as int,
                s as int,
            ),
        ensures
            k <= MAX_LEVEL,
            level_below(MAX_LEVEL as int, sum as int, samples as int) == k,
        decreases k,
    {
        assert(k * k <= 255 * 255) by (nonlinear_arith)
            requires
                k <= 255,
        ;
        assert(k * k * s <= 255 * 255 * 0x1_0000_0000_0000_0000) by (nonlinear_arith)
            requires
                k * k <= 255 * 255,
                s < 0x1_0000_0000_0000_0000,
        ;
        let threshold = k * k * s;
        if k == 0 || threshold <= total {
            break;
        }
        k = k - 1;
    }
    k as i32
}

/// Divides a pixel's accumulated colour by the number of samples, applies
/// gamma 2 (square root), clamps to `[0, 0.999]` and scales to `0..=255`.
pub fn postprocess_color(pixel_color: Color, samples: usize) -> (px: [i32; 3])
    ensures
        has_levels(px, pixel_color, samples as int),
        samples > 0 ==> {
            &&& is_level(px[0] as int, pixel_color.r as int, samples as int)
            &&& is_level(px[1] as int, pixel_color.g as int, samples as int)
            &&& is_level(px[2] as int, pixel_color.b as int, samples as int)
        },
{
    if samples > 0 {
        proof {
            lemma_level_is_largest(pixel_color.r as int, samples as int);
            lemma_level_is_largest(pixel_color.g as int, samples as int);
            lemma_level_is_largest(pixel_color.b as int, samples as int);
        }
    }
    [
        channel_to_level(pixel_color.r, samples),
        channel_to_level(pixel_color.g, samples),
        channel_to_level(pixel_color.b, samples),
    ]
}

proof fn lemma_level_below_range(top: int, sum: int, samples: int)
    ensures
        0 <= level_below(top, sum, samples),
        top >= 0 ==> level_below(top, sum, samples) <= top,
    decreases top,
{
    if top > 0 {
        lemma_level_below_range(top - 1, sum, samples);
    }
}

proof fn lemma_level_below_monotonic(top: int, sum1: int, sum2: int, samples: int)
    requires
        sum1 <= sum2,
    ensures
        level_below(top, sum1, samples) <= level_below(top, sum2, samples),
    decreases top,
{
    if top > 0 {
        lemma_level_below_monotonic(top - 1, sum1, sum2, samples);
        lemma_level_below_range(top - 1, sum1, samples);
    }
}

proof fn lemma_level_below_dark(top: int, samples: int)
    requires
        samples > 0,
    ensures
        level_below(top, 0, samples) == 0,
    decreases top,
{
    if top > 0 {
        assert(top * top * samples > 0) by (nonlinear_arith)
            requires
                top > 0,
                samples > 0,
        ;
        lemma_level_below_dark(top - 1, samples);
    }
}

/// More light in a channel never gives a lower output level.
pub proof fn lemma_level_monotonic(sum1: int, sum2: int, samples: int)
    requires
        0 <= sum1 <= sum2,
        0 <= samples,
    ensures
        channel_level(sum1, samples) <= channel_level(sum2, samples),
{
    if samples > 0 {
        lemma_level_below_monotonic(MAX_LEVEL as int, sum1, sum2, samples);
    }
}

/// A channel whose mean intensity reaches one gives the top level, and a
/// channel with no light gives level zero.
pub proof fn lemma_level_clamps(sum: int, samples: int)
    requires
        0 <= sum,
        0 < samples,
    ensures
        sum >= FIXED_ONE * samples ==> channel_level(sum, samples) == MAX_LEVEL,
        channel_level(0, samples) == 0,
{
    lemma_level_below_dark(MAX_LEVEL as int, samples);
    assert(MAX_LEVEL * MAX_LEVEL * samples <= FIXED_ONE * samples) by (nonlinear_arith)
        requires
            0 < samples,
    ;
}

/// The level of a channel is the largest in `0..=255` whose threshold
/// `k * k * samples` the channel's sum reaches.
pub proof fn lemma_level_is_largest(sum: int, samples: int)
    requires
        0 <= sum,
        0 < samples,
    ensures
        is_level(channel_level(sum, samples), sum, samples),
{
    lemma_level_below_exact(MAX_LEVEL as int, sum, samples);
}

proof fn lemma_level_below_exact(top: int, sum: int, samples: int)
    requires
        0 <= top,
        0 <= sum,
        0 < samples,
    ensures
        ({
            let k = level_below(top, sum, samples);
            &&& 0 <= k <= top
            &&& k * k * samples <= sum
            &&& (k == top || sum < (k + 1) * (k + 1) * samples)
        }),
    decreases top,
{
    if top > 0 && top * top * samples > sum {
        lemma_level_below_exact(top - 1, sum, samples);
        let k = level_below(top - 1, sum, samples);
        if k == top - 1 {
            assert((k + 1) * (k + 1) * samples == top * top * samples);
        }
        assert(level_below(top, sum, samples) == k);
    } else if top == 0 {
        assert(0 * 0 * samples == 0);
    } else {
        assert(level_below(top, sum, samples) == top);
    }
}

} // verus!
