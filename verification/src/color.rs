//! Direct color quantization: a color triple scaled by 255.99 and
//! truncated to integer channels, with no averaging, gamma curve or
//! clamp.  The caller prints the triple; nothing is written here.

use crate::fixed::{fits_i64, fx_mul, fx_mul_val, lemma_tdiv_size, tdiv, SCALE};
use crate::vec3::Vec3;
use vstd::prelude::*;

verus! {

pub type Color = Vec3;

/// Fixed-point image of the 255.99 quantization factor.
pub const BYTE_SCALE: i64 = 16776561;

/// What one directly quantized channel is: the channel value times
/// 255.99, truncated toward zero to an integer.
pub open spec fn byte_val(c: int) -> int {
    tdiv(fx_mul_val(BYTE_SCALE as int, c), SCALE as int)
}

pub open spec fn byte_fits(c: int) -> bool {
    &&& fits_i64(fx_mul_val(BYTE_SCALE as int, c))
    &&& -0x80000000 <= byte_val(c) <= 0x7fffffff
}

impl Color {
    /// Quantize each channel of this color by the 255.99 rule.  The
    /// channels are not clamped, exactly as in the direct encoding.
    pub fn write(&self) -> (rgb: (i32, i32, i32))
        requires
            byte_fits(self.x as int),
            byte_fits(self.y as int),
            byte_fits(self.z as int),
        ensures
            rgb.0 as int == byte_val(self.x as int),
            rgb.1 as int == byte_val(self.y as int),
            rgb.2 as int == byte_val(self.z as int),
    {
        (byte_channel(self.x), byte_channel(self.y), byte_channel(self.z))
    }
}

/// Quantize one channel by the 255.99 rule.
fn byte_channel(c: i64) -> (r: i32)
    requires
        byte_fits(c as int),
    ensures
        r as int == byte_val(c as int),
{
    let m = fx_mul(BYTE_SCALE, c);
    proof {
        lemma_tdiv_size(m as int, SCALE as int);
    }
    let q = m.checked_div(SCALE).unwrap();
    q as i32
}

} // verus!
