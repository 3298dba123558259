use vstd::prelude::*;
use crate::color::{Color, FIXED_ONE};

verus! {

/// A diffuse surface: it scatters light in random directions about the
/// normal and tints it by its albedo.
#[derive(Clone, Copy, Debug, PartialEq, Eq, Structural)]
pub struct Lambertian {
    pub albedo: Color,
}

impl Lambertian {
    pub fn new(albedo: Color) -> (m: Lambertian)
        ensures
            m.albedo == albedo,
    {
        Lambertian { albedo }
    }
}

/// A reflective surface. `fuzz`, in units of `1 / FIXED_ONE`, scales the
/// random perturbation of the mirror direction and lies in `[0, 1]`.
#[derive(Clone, Copy, Debug, PartialEq, Eq, Structural)]
pub struct Metal {
    pub albedo: Color,
    pub fuzz: u64,
}

/// The fuzz a metal keeps: a negative value as zero, a value in `[0, 1)`
/// as given, any larger one as one.
pub open spec fn kept_fuzz(fuzzy: int) -> int {
    if fuzzy < 0 {
        0
    } else if fuzzy < FIXED_ONE {
        fuzzy
    } else {
        FIXED_ONE as int
    }
}

impl Metal {
    pub fn new(albedo: Color, fuzzy: i64) -> (m: Metal)
        ensures
            m.albedo == albedo,
            m.fuzz == kept_fuzz(fuzzy as int),
            m.fuzz <= FIXED_ONE,
    {
        let fuzz = if fuzzy < 0 {
            0
        } else if (fuzzy as u64) < FIXED_ONE {
            fuzzy as u64
        } else {
            FIXED_ONE
        };
        Metal { albedo, fuzz }
    }
}

/// A transparent surface with refractive index `index` (in units of
/// `1 / FIXED_ONE`); it refracts or reflects and never tints.
#[derive(Clone, Copy, Debug, PartialEq, Eq, Structural)]
pub struct Dielectric {
    pub index: u64,
}

impl Dielectric {
    pub fn new(index: u64) -> (m: Dielectric)
        ensures
            m.index == index,
    {
        Dielectric { index }
    }
}

/// The scattering policy of a surface.
#[derive(Clone, Copy, Debug, PartialEq, Eq, Structural)]
pub enum Material {
    Lambertian(Lambertian),
    Metal(Metal),
    Dielectric(Dielectric),
}

impl Material {
    /// The colour by which a scattered ray's light is multiplied: the albedo
    /// of a diffuse or metal surface, white for glass.
    pub open spec fn spec_attenuation(self) -> Color {
        match self {
            Material::Lambertian(m) => m.albedo,
            Material::Metal(m) => m.albedo,
            Material::Dielectric(_) => Color { r: FIXED_ONE as u64, g: FIXED_ONE as u64, b: FIXED_ONE as u64 },
        }
    }

    pub fn attenuation(&self) -> (c: Color)
        ensures
            c == self.spec_attenuation(),
    {
        match self {
            Material::Lambertian(m) => m.albedo,
            Material::Metal(m) => m.albedo,
            Material::Dielectric(_) => Color::white(),
        }
    }
}

/// The sign bit of a 32-bit IEEE 754 value.
pub const SIGN_BIT: u32 = 0x8000_0000;

/// The number that a sign-and-magnitude bit pattern stands for, scaled as
/// an integer: IEEE 754 values that are not NaN compare as these do.
pub open spec fn signed_magnitude(bits: u32) -> int {
    if bits >= SIGN_BIT {
        -(bits - SIGN_BIT)
    } else {
        bits as int
    }
}

/// A key that orders the bit patterns of ray parameters as unsigned
/// integers: negative values are inverted, the others have the sign bit set.
pub open spec fn spec_order_key(bits: u32) -> u32 {
    if bits >= SIGN_BIT {
        (u32::MAX - bits) as u32
    } else {
        (bits + SIGN_BIT) as u32
    }
}

pub fn order_key(bits: u32) -> (k: u32)
    ensures
        k == spec_order_key(bits),
{
    if bits >= SIGN_BIT {
        u32::MAX - bits
    } else {
        bits + SIGN_BIT
    }
}

/// Keys follow the values that the bit patterns stand for: a smaller value
/// has a smaller key, and a smaller key never belongs to a larger value.
pub proof fn lemma_order_key_monotonic(a: u32, b: u32)
    ensures
        signed_magnitude(a) < signed_magnitude(b) ==> spec_order_key(a) < spec_order_key(b),
        spec_order_key(a) < spec_order_key(b) ==> signed_magnitude(a) <= signed_magnitude(b),
{
}

/// Whether a parameter with order key `t` lies strictly inside `(t_min, t_max)`.
pub open spec fn in_range(t: u32, t_min: u32, t_max: u32) -> bool {
    t_min < t < t_max
}

/// The root at which a ray meets a sphere, given the order keys of the
/// nearer root, the farther root and the ends of the open accepted range:
/// the nearer one if it lies inside the range, else the farther one if it does
/// (`Some(false)` for the nearer, `Some(true)` for the farther), else none.
pub fn choose_root(near: u32, far: u32, t_min: u32, t_max: u32) -> (r: Option<bool>)
    ensures
        r == if in_range(near, t_min, t_max) {
            Some(false)
        } else if in_range(far, t_min, t_max) {
            Some(true)
        } else {
            None::<bool>
        },
{
    if t_min < near && near < t_max {
        Some(false)
    } else if t_min < far && far < t_max {
        Some(true)
    } else {
        None
    }
}

/// Whether candidate `i` is a hit whose key lies below `limit`.
pub open spec fn is_candidate(keys: Seq<Option<u32>>, limit: u32, i: int) -> bool {
    &&& 0 <= i < keys.len()
    &&& keys[i] is Some
    &&& keys[i]->0 < limit
}

/// Whether `i` is the nearest candidate: no candidate has a smaller key,
/// and none before it has the same key.
pub open spec fn is_nearest(keys: Seq<Option<u32>>, limit: u32, i: int) -> bool {
    &&& is_candidate(keys, limit, i)
    &&& forall|j: int| is_candidate(keys, limit, j) ==> keys[i]->0 <= keys[j]->0
    &&& forall|j: int| 0 <= j < i && is_candidate(keys, limit, j) ==> keys[i]->0 < keys[j]->0
}

/// Picks, among the hits that the members of a scene report for one ray,
/// the nearest one below `limit`. `keys[i]` is the order key of member `i`'s
/// hit parameter, or `None` where it missed.
pub fn nearest_hit(keys: &Vec<Option<u32>>, limit: u32) -> (r: Option<usize>)
    ensures
        r is None <==> forall|j: int| !is_candidate(keys@, limit, j),
        r matches Some(i) ==> is_nearest(keys@, limit, i as int),
{
    let mut best: Option<usize> = None;
    let mut closest: u32 = limit;
    let mut i: usize = 0;
    while i < keys.len()
        invariant
            i <= keys.len(),
            best is None ==> closest == limit,
            best is None ==> forall|j: int| 0 <= j < i ==> !is_candidate(keys@, limit, j),
            best matches Some(b) ==> {
                &&& b < i
                &&& is_candidate(keys@, limit, b as int)
                &&& keys@[b as int]->0 == closest
                &&& forall|j: int|
                    0 <= j < i && is_candidate(keys@, limit, j) ==> closest <= keys@[j]->0
                &&& forall|j: int|
                    0 <= j < b && is_candidate(keys@, limit, j) ==> closest < keys@[j]->0
            },
        decreases keys.len() - i,
    {
        if let Some(k) = keys[i] {
            if k < closest {
                closest = k;
                best = Some(i);
            }
        }
        i = i + 1;
    }
    best
}

/// Selecting by order keys selects the nearest hit by value: where `keys`
/// holds the keys of the hit parameters `bits`, the candidate that
/// [`nearest_hit`] returns has a parameter no larger than any other's.
pub proof fn lemma_nearest_is_closest(bits: Seq<Option<u32>>, keys: Seq<Option<u32>>, limit: u32, i: int)
    requires
        keys.len() == bits.len(),
        forall|j: int|
            0 <= j < keys.len() ==> (#[trigger] keys[j] is Some <==> bits[j] is Some),
        forall|j: int|
            0 <= j < keys.len() && bits[j] is Some ==> #[trigger] keys[j]->0 == spec_order_key(
                bits[j]->0,
            ),
        is_nearest(keys, limit, i),
    ensures
        forall|j: int|
            is_candidate(keys, limit, j) ==> signed_magnitude(bits[i]->0) <= signed_magnitude(
                #[trigger] bits[j]->0,
            ),
{
    assert forall|j: int| is_candidate(keys, limit, j) implies signed_magnitude(bits[i]->0)
        <= signed_magnitude(#[trigger] bits[j]->0) by {
        assert(keys[i] is Some && keys[j] is Some);
        assert(keys[i]->0 == spec_order_key(bits[i]->0));
        assert(keys[j]->0 == spec_order_key(bits[j]->0));
        lemma_order_key_monotonic(bits[j]->0, bits[i]->0);
    }
}

} // verus!
