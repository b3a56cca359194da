//! Three-component fixed-point vectors, used at once as geometric
//! vectors, points in space and color triples.  Every executable
//! operation has a specification twin (`*_val`) giving its exact result,
//! and a fits predicate (`*_fits`) naming the machine-range side
//! conditions under which it can be computed at all.

use crate::fixed::{
    fits_i64, fx_div, fx_div_val, fx_mul, fx_mul_val, fx_sqrt, fx_sqrt_val, lemma_isqrt_bound,
    lemma_isqrt_val, lemma_mul_bound, lemma_tdiv_size, tdiv, SCALE,
};
use crate::rng::rand_range;
use crate::utils::{clamp, clamp_val};
use rand::rngs::StdRng;
use vstd::prelude::*;

verus! {

#[derive(Clone, Copy, PartialEq, Eq, Structural, Debug)]
pub struct Vec3 {
    pub x: i64,
    pub y: i64,
    pub z: i64,
}

/// A point is a position vector; a color is a red-green-blue triple.
pub type Color = Vec3;

/// Smallest squared length the ball sampler accepts: a quarter-unit
/// radius, below which truncated normalization loses too much accuracy.
pub const BALL_MIN_LS: i64 = 4096;

pub type Point = Vec3;

impl Vec3 {
    /// Every component within `[-b, b]`.
    pub open spec fn bounded(self, b: int) -> bool {
        &&& -b <= self.x <= b
        &&& -b <= self.y <= b
        &&& -b <= self.z <= b
    }

    pub open spec fn add_val(self, o: Vec3) -> Vec3 {
        Vec3 { x: (self.x + o.x) as i64, y: (self.y + o.y) as i64, z: (self.z + o.z) as i64 }
    }

    pub open spec fn add_fits(self, o: Vec3) -> bool {
        fits_i64(self.x + o.x) && fits_i64(self.y + o.y) && fits_i64(self.z + o.z)
    }

    pub open spec fn sub_val(self, o: Vec3) -> Vec3 {
        Vec3 { x: (self.x - o.x) as i64, y: (self.y - o.y) as i64, z: (self.z - o.z) as i64 }
    }

    pub open spec fn sub_fits(self, o: Vec3) -> bool {
        fits_i64(self.x - o.x) && fits_i64(self.y - o.y) && fits_i64(self.z - o.z)
    }

    pub open spec fn neg_val(self) -> Vec3 {
        Vec3 { x: (-(self.x as int)) as i64, y: (-(self.y as int)) as i64, z: (-(self.z as int)) as i64 }
    }

    pub open spec fn neg_fits(self) -> bool {
        fits_i64(-(self.x as int)) && fits_i64(-(self.y as int)) && fits_i64(-(self.z as int))
    }

    /// Scaling by a fixed-point factor `k`.
    pub open spec fn mul_val(self, k: i64) -> Vec3 {
        Vec3 {
            x: fx_mul_val(self.x as int, k as int) as i64,
            y: fx_mul_val(self.y as int, k as int) as i64,
            z: fx_mul_val(self.z as int, k as int) as i64,
        }
    }

    pub open spec fn mul_fits(self, k: i64) -> bool {
        &&& fits_i64(fx_mul_val(self.x as int, k as int))
        &&& fits_i64(fx_mul_val(self.y as int, k as int))
        &&& fits_i64(fx_mul_val(self.z as int, k as int))
    }

    /// Division by a fixed-point factor `k`.
    pub open spec fn div_val(self, k: i64) -> Vec3 {
        Vec3 {
            x: fx_div_val(self.x as int, k as int) as i64,
            y: fx_div_val(self.y as int, k as int) as i64,
            z: fx_div_val(self.z as int, k as int) as i64,
        }
    }

    pub open spec fn div_fits(self, k: i64) -> bool {
        &&& fits_i64(fx_div_val(self.x as int, k as int))
        &&& fits_i64(fx_div_val(self.y as int, k as int))
        &&& fits_i64(fx_div_val(self.z as int, k as int))
    }

    /// Exact value of the dot product, as an unbounded integer.
    pub open spec fn dot_val(self, o: Vec3) -> int {
        fx_mul_val(self.x as int, o.x as int) + fx_mul_val(self.y as int, o.y as int) + fx_mul_val(
            self.z as int,
            o.z as int,
        )
    }

    pub open spec fn dot_fits(self, o: Vec3) -> bool {
        &&& fits_i64(fx_mul_val(self.x as int, o.x as int))
        &&& fits_i64(fx_mul_val(self.y as int, o.y as int))
        &&& fits_i64(fx_mul_val(self.z as int, o.z as int))
        &&& fits_i64(
            fx_mul_val(self.x as int, o.x as int) + fx_mul_val(self.y as int, o.y as int),
        )
        &&& fits_i64(self.dot_val(o))
    }

    /// Exact value of the squared length.
    pub open spec fn ls_val(self) -> int {
        self.dot_val(self)
    }

    pub open spec fn cross_val(self, o: Vec3) -> Vec3 {
        Vec3 {
            x: (fx_mul_val(self.y as int, o.z as int) - fx_mul_val(self.z as int, o.y as int)) as i64,
            y: (fx_mul_val(self.z as int, o.x as int) - fx_mul_val(self.x as int, o.z as int)) as i64,
            z: (fx_mul_val(self.x as int, o.y as int) - fx_mul_val(self.y as int, o.x as int)) as i64,
        }
    }

    pub open spec fn cross_fits(self, o: Vec3) -> bool {
        &&& fits_i64(fx_mul_val(self.y as int, o.z as int))
        &&& fits_i64(fx_mul_val(self.z as int, o.y as int))
        &&& fits_i64(fx_mul_val(self.z as int, o.x as int))
        &&& fits_i64(fx_mul_val(self.x as int, o.z as int))
        &&& fits_i64(fx_mul_val(self.x as int, o.y as int))
        &&& fits_i64(fx_mul_val(self.y as int, o.x as int))
        &&& fits_i64(fx_mul_val(self.y as int, o.z as int) - fx_mul_val(self.z as int, o.y as int))
        &&& fits_i64(fx_mul_val(self.z as int, o.x as int) - fx_mul_val(self.x as int, o.z as int))
        &&& fits_i64(fx_mul_val(self.x as int, o.y as int) - fx_mul_val(self.y as int, o.x as int))
    }

    /// Exact value of the unit vector: each component divided by the
    /// fixed-point length.
    pub open spec fn unit_val(self) -> Vec3 {
        self.div_val(fx_sqrt_val(self.ls_val()) as i64)
    }

    pub open spec fn unit_fits(self) -> bool {
        &&& self.dot_fits(self)
        &&& self.ls_val() > 0
        &&& self.div_fits(fx_sqrt_val(self.ls_val()) as i64)
    }

    pub fn new(x: i64, y: i64, z: i64) -> (v: Vec3)
        ensures
            v == (Vec3 { x, y, z }),
    {
        Vec3 { x, y, z }
    }

    pub fn add(self, other: Vec3) -> (r: Vec3)
        requires
            self.add_fits(other),
        ensures
            r == self.add_val(other),
    {
        Vec3 { x: self.x + other.x, y: self.y + other.y, z: self.z + other.z }
    }

    pub fn add_assign(&mut self, other: Vec3)
        requires
            old(self).add_fits(other),
        ensures
            *final(self) == old(self).add_val(other),
    {
        self.x = self.x + other.x;
        self.y = self.y + other.y;
        self.z = self.z + other.z;
    }

    pub fn sub(self, other: Vec3) -> (r: Vec3)
        requires
            self.sub_fits(other),
        ensures
            r == self.sub_val(other),
    {
        Vec3 { x: self.x - other.x, y: self.y - other.y, z: self.z - other.z }
    }

    pub fn neg(self) -> (r: Vec3)
        requires
            self.neg_fits(),
        ensures
            r == self.neg_val(),
    {
        Vec3 { x: -self.x, y: -self.y, z: -self.z }
    }

    pub fn mul(self, k: i64) -> (r: Vec3)
        requires
            self.mul_fits(k),
        ensures
            r == self.mul_val(k),
    {
        Vec3 { x: fx_mul(self.x, k), y: fx_mul(self.y, k), z: fx_mul(self.z, k) }
    }

    pub fn div(self, k: i64) -> (r: Vec3)
        requires
            k != 0,
            self.div_fits(k),
        ensures
            r == self.div_val(k),
    {
        Vec3 { x: fx_div(self.x, k), y: fx_div(self.y, k), z: fx_div(self.z, k) }
    }

    pub fn dot(&self, other: &Vec3) -> (r: i64)
        requires
            self.dot_fits(*other),
        ensures
            r as int == self.dot_val(*other),
    {
        fx_mul(self.x, other.x) + fx_mul(self.y, other.y) + fx_mul(self.z, other.z)
    }

    pub fn cross(&self, other: &Vec3) -> (r: Vec3)
        requires
            self.cross_fits(*other),
        ensures
            r == self.cross_val(*other),
    {
        Vec3 {
            x: fx_mul(self.y, other.z) - fx_mul(self.z, other.y),
            y: fx_mul(self.z, other.x) - fx_mul(self.x, other.z),
            z: fx_mul(self.x, other.y) - fx_mul(self.y, other.x),
        }
    }

    pub fn length_squared(&self) -> (r: i64)
        requires
            self.dot_fits(*self),
        ensures
            r as int == self.ls_val(),
            r >= 0,
    {
        proof {
            lemma_square_fx_nonneg(self.x as int);
            lemma_square_fx_nonneg(self.y as int);
            lemma_square_fx_nonneg(self.z as int);
        }
        self.dot(self)
    }

    pub fn length(&self) -> (r: i64)
        requires
            self.dot_fits(*self),
        ensures
            r as int == fx_sqrt_val(self.ls_val()),
            r >= 0,
    {
        let ls = self.length_squared();
        fx_sqrt(ls)
    }

    pub fn unit_vector(self) -> (r: Vec3)
        requires
            self.unit_fits(),
        ensures
            r == self.unit_val(),
    {
        let ls = self.length_squared();
        let l = fx_sqrt(ls);
        proof {
            lemma_fx_sqrt_pos(ls as int);
        }
        self.div(l)
    }
}

/// Ceiling on the fixed-point scale used by the 0.999 clamp bound.
pub const CHANNEL_CLAMP_MAX: i64 = 65470;

/// What one encoded channel is: the summed channel averaged over the
/// samples, gamma-corrected by square root, clamped to [0, 0.999] and
/// scaled to an integer in [0, 255].  A negative average encodes to 0.
pub open spec fn encode_channel_val(c: int, samples: int) -> int {
    let avg = tdiv(c, samples);
    if avg < 0 {
        0
    } else {
        tdiv(256 * clamp_val(fx_sqrt_val(avg), 0, CHANNEL_CLAMP_MAX as int), SCALE as int)
    }
}

/// One encoded channel always lands in the byte range, however
/// oversaturated or negative the accumulated channel was.
pub proof fn lemma_encode_channel_range(c: int, samples: int)
    requires
        samples > 0,
    ensures
        0 <= encode_channel_val(c, samples) <= 255,
{
    let avg = tdiv(c, samples);
    if avg >= 0 {
        let cl = clamp_val(fx_sqrt_val(avg), 0, CHANNEL_CLAMP_MAX as int);
        assert(0 <= cl <= CHANNEL_CLAMP_MAX);
        lemma_tdiv_size(256 * cl, SCALE as int);
        crate::fixed::lemma_tdiv_mono(256 * cl, 256 * (CHANNEL_CLAMP_MAX as int), SCALE as int);
        assert(tdiv(256 * (CHANNEL_CLAMP_MAX as int), SCALE as int) == 255);
    }
}

/// Encode one accumulated channel of a pixel.
fn encode_channel(c: i64, samples: i64) -> (r: i32)
    requires
        samples > 0,
    ensures
        r as int == encode_channel_val(c as int, samples as int),
        0 <= r <= 255,
{
    proof {
        lemma_tdiv_size(c as int, samples as int);
        lemma_encode_channel_range(c as int, samples as int);
    }
    let avg = c.checked_div(samples).unwrap();
    if avg < 0 {
        0
    } else {
        let g = fx_sqrt(avg);
        let cl = clamp(g, 0, CHANNEL_CLAMP_MAX);
        proof {
            lemma_tdiv_size(256 * (cl as int), SCALE as int);
        }
        let scaled = (256 * cl).checked_div(SCALE).unwrap();
        scaled as i32
    }
}

impl Vec3 {
    /// Finish one pixel: average the accumulated color over the samples,
    /// gamma-correct, clamp, and quantize each channel to [0, 255].
    /// The caller prints the triple; no output happens here.
    pub fn write_color(&self, samples_per_pixel: i64) -> (rgb: (i32, i32, i32))
        requires
            samples_per_pixel > 0,
        ensures
            rgb.0 as int == encode_channel_val(self.x as int, samples_per_pixel as int),
            rgb.1 as int == encode_channel_val(self.y as int, samples_per_pixel as int),
            rgb.2 as int == encode_channel_val(self.z as int, samples_per_pixel as int),
            0 <= rgb.0 <= 255,
            0 <= rgb.1 <= 255,
            0 <= rgb.2 <= 255,
    {
        (
            encode_channel(self.x, samples_per_pixel),
            encode_channel(self.y, samples_per_pixel),
            encode_channel(self.z, samples_per_pixel),
        )
    }

    /// Components drawn uniformly from [0, 1).
    pub fn random(rng: &mut StdRng) -> (v: Vec3)
        ensures
            0 <= v.x < SCALE,
            0 <= v.y < SCALE,
            0 <= v.z < SCALE,
    {
        let x = rand_range(rng, 0, SCALE);
        let y = rand_range(rng, 0, SCALE);
        let z = rand_range(rng, 0, SCALE);
        Vec3 { x, y, z }
    }

    /// Components drawn uniformly from [min, max).
    pub fn random_range(rng: &mut StdRng, min: i64, max: i64) -> (v: Vec3)
        requires
            min < max,
        ensures
            min <= v.x < max,
            min <= v.y < max,
            min <= v.z < max,
    {
        let x = rand_range(rng, min, max);
        let y = rand_range(rng, min, max);
        let z = rand_range(rng, min, max);
        Vec3 { x, y, z }
    }

    /// Rejection-sample a vector strictly inside the unit ball (and, so
    /// that normalizing it stays accurate, no shorter than a quarter
    /// unit).
    pub fn random_in_unit_sphere(rng: &mut StdRng) -> (v: Vec3)
        ensures
            v.bounded(SCALE as int),
            v.dot_fits(v),
            BALL_MIN_LS as int <= v.ls_val() < SCALE as int,
    {
        let mut tries: u64 = 0;
        while tries < 0x100000000
            invariant
                tries <= 0x100000000,
            decreases 0x100000000 - tries,
        {
            let c = Vec3::random_range(rng, -SCALE, SCALE);
            proof {
                lemma_dot_fits(c, c, SCALE as int, SCALE as int);
            }
            let ls = c.length_squared();
            if BALL_MIN_LS <= ls && ls < SCALE {
                return c;
            }
            tries = tries + 1;
        }
        // Rejection sampling misses this often only with vanishing
        // probability; fall back to a fixed interior vector then.
        let f = Vec3 { x: 32768, y: 0, z: 0 };
        proof {
            lemma_dot_fits(f, f, SCALE as int, SCALE as int);
        }
        f
    }

    /// A unit vector in a random direction: the normalized form of a
    /// rejection-sampled vector from the unit ball, with squared length
    /// within the normalizer's tolerance of one.
    pub fn random_unit_vector(rng: &mut StdRng) -> (r: Vec3)
        ensures
            exists|v: Vec3|
                {
                    &&& #[trigger] v.unit_val() == r
                    &&& v.bounded(SCALE as int)
                    &&& BALL_MIN_LS as int <= v.ls_val() < SCALE as int
                },
            SCALE as int - 10 <= r.ls_val() <= SCALE as int + 56,
    {
        let v = Vec3::random_in_unit_sphere(rng);
        proof {
            lemma_fx_sqrt_pos(v.ls_val());
            lemma_unit_fits_of_bounded(v, SCALE as int);
            lemma_unit_length(v);
        }
        let r = v.unit_vector();
        proof {
            assert(v.unit_val() == r);
        }
        r
    }
}

/// Dot products of vectors bounded by moderate limits stay within range.
pub proof fn lemma_dot_fits(u: Vec3, w: Vec3, bu: int, bw: int)
    requires
        u.bounded(bu),
        w.bounded(bw),
        0 <= bu,
        0 <= bw,
        bu * bw <= 0x1000000000000000,
    ensures
        u.dot_fits(w),
{
    lemma_mul_bound(u.x as int, w.x as int, bu, bw);
    lemma_mul_bound(u.y as int, w.y as int, bu, bw);
    lemma_mul_bound(u.z as int, w.z as int, bu, bw);
    crate::fixed::lemma_tdiv_bound(u.x as int * w.x as int, SCALE as int, bu * bw);
    crate::fixed::lemma_tdiv_bound(u.y as int * w.y as int, SCALE as int, bu * bw);
    crate::fixed::lemma_tdiv_bound(u.z as int * w.z as int, SCALE as int, bu * bw);
}

/// A bounded vector with positive squared length can be normalized:
/// all three component divisions stay within range.
pub proof fn lemma_unit_fits_of_bounded(v: Vec3, b: int)
    requires
        v.bounded(b),
        0 <= b,
        b * b <= 0x1000000000000000,
        b * (SCALE as int) <= i64::MAX as int,
        v.dot_fits(v),
        v.ls_val() > 0,
    ensures
        v.unit_fits(),
        v.unit_val().bounded(b * (SCALE as int)),
{
    lemma_fx_sqrt_pos(v.ls_val());
    lemma_isqrt_bound((v.ls_val() * (SCALE as int)) as nat, 0x10000000000);
    assert(v.ls_val() * (SCALE as int) < 0x10000000000 * 0x10000000000) by (nonlinear_arith)
        requires
            0 < v.ls_val() <= i64::MAX as int,
    ;
    let l = fx_sqrt_val(v.ls_val());
    assert(0 < l < 0x10000000000);
    lemma_mul_bound(v.x as int, SCALE as int, b, SCALE as int);
    lemma_mul_bound(v.y as int, SCALE as int, b, SCALE as int);
    lemma_mul_bound(v.z as int, SCALE as int, b, SCALE as int);
    crate::fixed::lemma_tdiv_bound(v.x as int * (SCALE as int), l, b * (SCALE as int));
    crate::fixed::lemma_tdiv_bound(v.y as int * (SCALE as int), l, b * (SCALE as int));
    crate::fixed::lemma_tdiv_bound(v.z as int * (SCALE as int), l, b * (SCALE as int));
}

/// Adding a vector and then subtracting it again gives the original back
/// exactly: fixed-point addition does not round.
pub proof fn lemma_add_sub_cancel(v: Vec3, w: Vec3)
    requires
        v.add_fits(w),
    ensures
        v.add_val(w).sub_val(w) == v,
{
}

/// Adding a vector to its own negation gives the zero vector exactly.
pub proof fn lemma_add_neg_zero(v: Vec3)
    requires
        v.neg_fits(),
    ensures
        v.add_val(v.neg_val()) == (Vec3 { x: 0, y: 0, z: 0 }),
{
}

/// The cross product is anticommutative: swapping the operands negates
/// every component exactly.
pub proof fn lemma_cross_antisym(v: Vec3, w: Vec3)
    requires
        v.cross_fits(w),
        w.cross_fits(v),
    ensures
        w.cross_val(v) == v.cross_val(w).neg_val(),
{
    assert(v.y as int * (w.z as int) == w.z as int * (v.y as int)) by (nonlinear_arith);
    assert(v.z as int * (w.y as int) == w.y as int * (v.z as int)) by (nonlinear_arith);
    assert(v.z as int * (w.x as int) == w.x as int * (v.z as int)) by (nonlinear_arith);
    assert(v.x as int * (w.z as int) == w.z as int * (v.x as int)) by (nonlinear_arith);
    assert(v.x as int * (w.y as int) == w.y as int * (v.x as int)) by (nonlinear_arith);
    assert(v.y as int * (w.x as int) == w.x as int * (v.y as int)) by (nonlinear_arith);
}

/// Each component of the computed unit vector sits within one rounding
/// step of the ideal quotient, on its side of zero.
proof fn lemma_unit_component(x: int, ll: int)
    requires
        ll >= 1,
    ensures
        ({
            let u = fx_div_val(x, ll);
            let p = ll * u;
            &&& ll * u * (ll * u) <= (x * (SCALE as int)) * (x * (SCALE as int))
            &&& (x * (SCALE as int)) * (x * (SCALE as int)) < ll * u * (ll * u) + 2 * ll * (ll * (
            if u < 0 {
                -u
            } else {
                u
            })) + ll * ll
        }),
{
    let xs = x * (SCALE as int);
    let u = tdiv(xs, ll);
    crate::fixed::lemma_tdiv_fundamental(xs, ll);
    let p = ll * u;
    let au = if u < 0 {
        -u
    } else {
        u
    };
    assert(p * p <= xs * xs && xs * xs < p * p + 2 * ll * (ll * au) + ll * ll) by (nonlinear_arith)
        requires
            ll >= 1,
            xs >= 0 ==> xs - ll < p <= xs,
            xs <= 0 ==> xs <= p < xs + ll,
            p == ll * u,
            au == (if u < 0 {
                -u
            } else {
                u
            }),
    ;
}

/// Normalizing a bounded vector no shorter than a quarter unit yields a
/// vector whose squared length is one, up to a few dozen fixed-point
/// units: the achievable accuracy of truncated division and square root.
#[verifier::rlimit(60)]
pub proof fn lemma_unit_length(v: Vec3)
    requires
        v.bounded(0x40000000),
        v.ls_val() >= BALL_MIN_LS as int,
    ensures
        SCALE as int - 10 <= v.unit_val().ls_val() <= SCALE as int + 56,
{
    let s = SCALE as int;
    let ls = v.ls_val();
    lemma_mul_bound(v.x as int, v.x as int, 0x40000000int, 0x40000000int);
    lemma_mul_bound(v.y as int, v.y as int, 0x40000000int, 0x40000000int);
    lemma_mul_bound(v.z as int, v.z as int, 0x40000000int, 0x40000000int);
    crate::fixed::lemma_tdiv_bound(v.x as int * (v.x as int), s, 0x40000000int * 0x40000000int);
    crate::fixed::lemma_tdiv_bound(v.y as int * (v.y as int), s, 0x40000000int * 0x40000000int);
    crate::fixed::lemma_tdiv_bound(v.z as int * (v.z as int), s, 0x40000000int * 0x40000000int);
    lemma_dot_fits(v, v, 0x40000000int, 0x40000000int);
    lemma_unit_fits_of_bounded(v, 0x40000000int);
    let n = (ls * s) as nat;
    lemma_isqrt_val(n);
    let ll = crate::fixed::isqrt_val(n) as int;
    lemma_fx_sqrt_pos(ls);
    // The length is at least a quarter unit, at most a modest power.
    assert(ll >= 16384) by (nonlinear_arith)
        requires
            ls >= 4096,
            (ls * s) < (ll + 1) * (ll + 1),
            ll >= 0,
            s == 65536,
    ;
    // Square-scale bookkeeping: the squared components sum to the
    // squared length, up to one unit of rounding each.
    let x = v.x as int;
    let y = v.y as int;
    let z = v.z as int;
    crate::fixed::lemma_tdiv_fundamental(x * x, s);
    crate::fixed::lemma_tdiv_fundamental(y * y, s);
    crate::fixed::lemma_tdiv_fundamental(z * z, s);
    assert(x * x >= 0 && y * y >= 0 && z * z >= 0) by (nonlinear_arith);
    let sq = x * x + y * y + z * z;
    assert(s * ls <= sq < s * ls + 3 * s);
    // No single component can be much longer than the whole length.
    assert(ll * ll <= ls * s);
    assert(ls * s <= ll * ll + 2 * ll) by (nonlinear_arith)
        requires
            ls * s < (ll + 1) * (ll + 1),
    ;
    assert(1 <= ll <= ls * s) by (nonlinear_arith)
        requires
            ll * ll <= ls * s,
            ll >= 1,
    ;
    assert((fx_sqrt_val(ls) as i64) as int == ll);
    assert(x * x <= sq && y * y <= sq && z * z <= sq);
    lemma_abs_le(x, ll + 6, sq, ll);
    lemma_abs_le(y, ll + 6, sq, ll);
    lemma_abs_le(z, ll + 6, sq, ll);
    // Per-component rounding of the normalizing division.
    lemma_unit_component(x, ll);
    lemma_unit_component(y, ll);
    lemma_unit_component(z, ll);
    let ux = fx_div_val(x, ll);
    let uy = fx_div_val(y, ll);
    let uz = fx_div_val(z, ll);
    let ax = if ux < 0 {
        -ux
    } else {
        ux
    };
    let ay = if uy < 0 {
        -uy
    } else {
        uy
    };
    let az = if uz < 0 {
        -uz
    } else {
        uz
    };
    // Components of the unit vector are hardly above one.
    assert(ll * ax <= (ll + 6) * s) by (nonlinear_arith)
        requires
            ll >= 1,
            ll * ux * (ll * ux) <= (x * s) * (x * s),
            ax == (if ux < 0 {
                -ux
            } else {
                ux
            }),
            -(ll + 6) <= x <= ll + 6,
            s > 0,
    ;
    assert(ll * ay <= (ll + 6) * s) by (nonlinear_arith)
        requires
            ll >= 1,
            ll * uy * (ll * uy) <= (y * s) * (y * s),
            ay == (if uy < 0 {
                -uy
            } else {
                uy
            }),
            -(ll + 6) <= y <= ll + 6,
            s > 0,
    ;
    assert(ll * az <= (ll + 6) * s) by (nonlinear_arith)
        requires
            ll >= 1,
            ll * uz * (ll * uz) <= (z * s) * (z * s),
            az == (if uz < 0 {
                -uz
            } else {
                uz
            }),
            -(ll + 6) <= z <= ll + 6,
            s > 0,
    ;
    assert(ax <= s + 24 && ay <= s + 24 && az <= s + 24) by (nonlinear_arith)
        requires
            ll >= 16384,
            s == 65536,
            ll * ax <= (ll + 6) * s,
            ll * ay <= (ll + 6) * s,
            ll * az <= (ll + 6) * s,
            ax >= 0,
            ay >= 0,
            az >= 0,
    ;
    // The unit vector's own squared length, before and after rounding.
    let u = v.unit_val();
    assert(u.x as int == ux && u.y as int == uy && u.z as int == uz);
    crate::fixed::lemma_tdiv_fundamental(ux * ux, s);
    crate::fixed::lemma_tdiv_fundamental(uy * uy, s);
    crate::fixed::lemma_tdiv_fundamental(uz * uz, s);
    assert(ux * ux >= 0 && uy * uy >= 0 && uz * uz >= 0) by (nonlinear_arith);
    let usq = ux * ux + uy * uy + uz * uz;
    let uls = u.ls_val();
    assert(uls == tdiv(ux * ux, s) + tdiv(uy * uy, s) + tdiv(uz * uz, s));
    assert(s * uls <= usq < s * uls + 3 * s);
    // Upper bound, component by component: the squared unit components
    // cannot outgrow the squared coordinates.
    assert(ll * ll * (ux * ux) <= (s * s) * (x * x)) by (nonlinear_arith)
        requires
            ll * ux * (ll * ux) <= (x * s) * (x * s),
    ;
    assert(ll * ll * (uy * uy) <= (s * s) * (y * y)) by (nonlinear_arith)
        requires
            ll * uy * (ll * uy) <= (y * s) * (y * s),
    ;
    assert(ll * ll * (uz * uz) <= (s * s) * (z * z)) by (nonlinear_arith)
        requires
            ll * uz * (ll * uz) <= (z * s) * (z * s),
    ;
    assert(ll * ll * usq <= (s * s) * sq) by (nonlinear_arith)
        requires
            usq == ux * ux + uy * uy + uz * uz,
            sq == x * x + y * y + z * z,
            ll * ll * (ux * ux) <= (s * s) * (x * x),
            ll * ll * (uy * uy) <= (s * s) * (y * y),
            ll * ll * (uz * uz) <= (s * s) * (z * z),
    ;
    assert(ll * ll * usq <= (s * ls + 3 * s) * (s * s)) by (nonlinear_arith)
        requires
            ll * ll * usq <= (s * s) * sq,
            sq < s * ls + 3 * s,
            s == 65536,
    ;
    assert(s * s <= 16 * (ll * ll)) by (nonlinear_arith)
        requires
            0 <= s <= 4 * ll,
    ;
    assert(uls <= s + 56) by (nonlinear_arith)
        requires
            ll * ll * usq <= (s * ls + 3 * s) * (s * s),
            ls * s <= ll * ll + 2 * ll,
            s * uls <= usq,
            4 * ll >= s,
            s * s <= 16 * (ll * ll),
            ll >= 1,
            s == 65536,
            uls >= 0,
    ;
    // Lower bound, the same way: the squared coordinates cannot outgrow
    // the squared unit components by more than the rounding slack.
    assert((s * s) * (x * x) < ll * ll * (ux * ux) + 2 * (ll * ll) * ax + ll * ll)
        by (nonlinear_arith)
        requires
            (x * s) * (x * s) < ll * ux * (ll * ux) + 2 * ll * (ll * ax) + ll * ll,
    ;
    assert((s * s) * (y * y) < ll * ll * (uy * uy) + 2 * (ll * ll) * ay + ll * ll)
        by (nonlinear_arith)
        requires
            (y * s) * (y * s) < ll * uy * (ll * uy) + 2 * ll * (ll * ay) + ll * ll,
    ;
    assert((s * s) * (z * z) < ll * ll * (uz * uz) + 2 * (ll * ll) * az + ll * ll)
        by (nonlinear_arith)
        requires
            (z * s) * (z * s) < ll * uz * (ll * uz) + 2 * ll * (ll * az) + ll * ll,
    ;
    assert((s * s) * sq == (s * s) * (x * x) + (s * s) * (y * y) + (s * s) * (z * z))
        by (nonlinear_arith)
        requires
            sq == x * x + y * y + z * z,
    ;
    assert(ll * ll * (usq + 2 * (ax + ay + az) + 3) == ll * ll * (ux * ux) + ll * ll * (uy * uy)
        + ll * ll * (uz * uz) + 2 * (ll * ll) * ax + 2 * (ll * ll) * ay + 2 * (ll * ll) * az + 3 * (
    ll * ll)) by (nonlinear_arith)
        requires
            usq == ux * ux + uy * uy + uz * uz,
    ;
    assert((s * s) * sq < ll * ll * (usq + 2 * (ax + ay + az) + 3));
    assert((s * s) * (ll * ll) < ll * ll * (usq + 6 * s + 147)) by (nonlinear_arith)
        requires
            (s * s) * sq < ll * ll * (usq + 2 * (ax + ay + az) + 3),
            ax <= s + 24,
            ay <= s + 24,
            az <= s + 24,
            s * ls <= sq,
            ll * ll <= ls * s,
            ll >= 1,
            s == 65536,
    ;
    assert(uls >= s - 10) by (nonlinear_arith)
        requires
            (s * s) * (ll * ll) < ll * ll * (usq + 6 * s + 147),
            usq < s * uls + 3 * s,
            ll >= 1,
            s == 65536,
    ;
}

/// No single component of a computed unit vector can rise far above
/// one: its square is held down by the unit vector's squared length.
pub proof fn lemma_unit_y_bound(v: Vec3)
    requires
        v.bounded(0x40000000),
        v.ls_val() >= BALL_MIN_LS as int,
    ensures
        -(SCALE as int + 28) <= v.unit_val().y <= SCALE as int + 28,
{
    lemma_unit_length(v);
    let s = SCALE as int;
    let u = v.unit_val();
    let uy = u.y as int;
    lemma_square_fx_nonneg(u.x as int);
    lemma_square_fx_nonneg(u.z as int);
    crate::fixed::lemma_tdiv_fundamental(uy * uy, s);
    assert(uy * uy >= 0) by (nonlinear_arith);
    assert(fx_mul_val(uy, uy) <= u.ls_val());
    assert(uy * uy < s * (u.ls_val()) + s);
    assert(-(s + 28) <= uy <= s + 28) by (nonlinear_arith)
        requires
            uy * uy < s * (s + 56) + s,
            s == 65536,
    ;
}

/// A magnitude bound from a squared bound: any coordinate whose square
/// stays under the bounding square stays under the bound.
proof fn lemma_abs_le(x: int, m: int, sq: int, ll: int)
    requires
        x * x <= sq,
        sq < ll * ll + 2 * ll + 3 * 65536,
        ll >= 16384,
        m == ll + 6,
    ensures
        -m <= x <= m,
{
    assert(-m <= x <= m) by (nonlinear_arith)
        requires
            x * x <= sq,
            sq < ll * ll + 2 * ll + 3 * 65536,
            ll >= 16384,
            m == ll + 6,
    ;
}

/// The fixed-point square of any scalar is nonnegative.
pub proof fn lemma_square_fx_nonneg(a: int)
    ensures
        fx_mul_val(a, a) >= 0,
{
    assert(a * a >= 0) by (nonlinear_arith);
    lemma_tdiv_size(a * a, SCALE as int);
}

/// A positive scalar has a positive fixed-point square root.
pub proof fn lemma_fx_sqrt_pos(a: int)
    requires
        a > 0,
    ensures
        fx_sqrt_val(a) > 0,
{
    assert(a * (SCALE as int) >= SCALE as int) by (nonlinear_arith)
        requires
            a > 0,
    ;
    let n = (a * (SCALE as int)) as nat;
    lemma_isqrt_val(n);
    let r = crate::fixed::isqrt_val(n) as int;
    if r == 0 {
        assert((r + 1) * (r + 1) == 1) by (nonlinear_arith)
            requires
                r == 0,
        ;
    }
}

} // verus!
