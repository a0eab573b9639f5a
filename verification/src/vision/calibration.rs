//! From pixels to robot coordinates.
use crate::float::Float32;
use crate::hardware::Position;
use vstd::prelude::*;

verus! {

#[derive(Clone, Copy, Debug)]
pub struct CalibrationParams {
    /// Millimetres per pixel.
    pub scale_x: Float32,
    pub scale_y: Float32,
    /// Robot x at pixel 0.
    pub offset_x: Float32,
    /// Robot y at pixel 0.
    pub offset_y: Float32,
    /// Camera rotation relative to the belt axes, in radians.
    pub rotation: Float32,
}

/// The offset that puts the middle of `length` pixels at zero.
pub open spec fn centering_offset(length: u32, scale: Float32) -> Float32 {
    Float32::nearest(length as int, 1).opposite().product(scale).quotient(Float32::nearest(2, 1))
}

impl CalibrationParams {
    pub open spec fn centered_at(width: u32, height: u32, scale: Float32) -> CalibrationParams {
        CalibrationParams {
            scale_x: scale,
            scale_y: scale,
            offset_x: centering_offset(width, scale),
            offset_y: centering_offset(height, scale),
            rotation: Float32::nearest(0, 1),
        }
    }

    /// Parameters for a camera whose optical centre maps to the robot origin:
    /// pixel (width/2, height/2) -> world (0, 0).
    pub fn centered(width: u32, height: u32, scale_mm_per_px: Float32) -> (r: CalibrationParams)
        ensures
            r == CalibrationParams::centered_at(width, height, scale_mm_per_px),
    {
        let two = Float32::of(2);
        CalibrationParams {
            scale_x: scale_mm_per_px,
            scale_y: scale_mm_per_px,
            offset_x: Float32::of(width as i64).negated().times(scale_mm_per_px).over(two),
            offset_y: Float32::of(height as i64).negated().times(scale_mm_per_px).over(two),
            rotation: Float32::of(0),
        }
    }
}

#[derive(Clone, Copy, Debug)]
pub struct CoordinateTransformer {
    pub params: CalibrationParams,
    /// Sine of the rotation.
    pub sin_r: Float32,
    /// Cosine of the rotation.
    pub cos_r: Float32,
}

impl CoordinateTransformer {
    /// Where a pixel lies: scaled, rotated, translated. Z is the belt plane.
    pub open spec fn world(self, px: Float32, py: Float32) -> Position {
        let sx = px.product(self.params.scale_x);
        let sy = py.product(self.params.scale_y);
        Position {
            x: sx.product(self.cos_r).difference(sy.product(self.sin_r)).sum(
                self.params.offset_x,
            ),
            y: sx.product(self.sin_r).sum(sy.product(self.cos_r)).sum(self.params.offset_y),
            z: Float32::nearest(0, 1),
        }
    }

    /// A transformer for the given parameters; `sin_r` and `cos_r` are the
    /// sine and the cosine of their rotation.
    pub fn new(
        params: CalibrationParams,
        sin_r: Float32,
        cos_r: Float32,
    ) -> (r: CoordinateTransformer)
        ensures
            r == (CoordinateTransformer { params, sin_r, cos_r }),
    {
        CoordinateTransformer { params, sin_r, cos_r }
    }

    /// Affine pixel -> robot transform. Z is reported as 0 (the belt plane in
    /// vision terms); the pick height comes from the configuration, applied
    /// by the orchestrator.
    pub fn pixel_to_world(&self, px: Float32, py: Float32) -> (r: Position)
        ensures
            r == self.world(px, py),
    {
        let sx = px.times(self.params.scale_x);
        let sy = py.times(self.params.scale_y);
        Position {
            x: sx.times(self.cos_r).minus(sy.times(self.sin_r)).plus(self.params.offset_x),
            y: sx.times(self.sin_r).plus(sy.times(self.cos_r)).plus(self.params.offset_y),
            z: Float32::of(0),
        }
    }

    /// The transformer of an upright camera whose optical centre is above the
    /// robot origin.
    pub open spec fn upright(width: u32, height: u32, scale: Float32) -> CoordinateTransformer {
        CoordinateTransformer {
            params: CalibrationParams::centered_at(width, height, scale),
            sin_r: Float32::nearest(0, 1),
            cos_r: Float32::nearest(1, 1),
        }
    }
}

/// The middle of `length` pixels.
pub open spec fn middle(length: u32) -> Float32 {
    Float32::nearest(length as int, 1).quotient(Float32::nearest(2, 1))
}

/// The middle of the picture lies exactly at the robot origin, at every
/// resolution and scale at which the size of the picture can be told in
/// millimetres at all.
pub proof fn law_centre_is_the_origin(width: u32, height: u32, scale: Float32)
    requires
        Float32::nearest(width as int, 1).product(scale).finite(),
        Float32::nearest(height as int, 1).product(scale).finite(),
    ensures
        ({
            let p = CoordinateTransformer::upright(width, height, scale).world(
                middle(width),
                middle(height),
            );
            let zero = Float32::nearest(0, 1);
            p.x.equals(zero) && p.y.equals(zero) && p.z == zero
        }),
{
    let t = CoordinateTransformer::upright(width, height, scale);
    let zero = Float32::nearest(0, 1);
    let sx = middle(width).product(scale);
    let sy = middle(height).product(scale);
    Float32::law_halving_commutes(width, scale);
    Float32::law_halving_commutes(height, scale);
    Float32::law_times_one(sx);
    Float32::law_times_one(sy);
    Float32::law_times_zero(sx);
    Float32::law_times_zero(sy);
    Float32::lemma_constants();
    Float32::lemma_zero_size();
    let x = sx.difference(sy.product(zero));
    Float32::law_representable_difference(sx, sy.product(zero), sx);
    Float32::law_representable_sum(x, t.params.offset_x, zero);
    Float32::lemma_equals_zero(x.sum(t.params.offset_x));
    let y = sx.product(zero).sum(sy);
    Float32::law_representable_sum(sx.product(zero), sy, sy);
    Float32::law_representable_sum(y, t.params.offset_y, zero);
    Float32::lemma_equals_zero(y.sum(t.params.offset_y));
}

/// The map from pixels to the belt is affine: scaled, turned and moved, in
/// exact arithmetic wherever the digits suffice. Pixels `p` and `q` and the
/// scales `kx` and `ky` are counted in halves, the sine `s` and the cosine `c`
/// in steps of two to the power of `g`, and the offsets as the result is.
pub proof fn law_transform_is_affine(
    t: CoordinateTransformer,
    px: Float32,
    py: Float32,
    p: int,
    q: int,
    kx: int,
    ky: int,
    s: int,
    c: int,
    ox: int,
    oy: int,
    g: nat,
)
    requires
        100 <= g <= 160,
        px.exactly(p, 148),
        py.exactly(q, 148),
        t.params.scale_x.exactly(kx, 148),
        t.params.scale_y.exactly(ky, 148),
        t.sin_r.exactly(s, g),
        t.cos_r.exactly(c, g),
        t.params.offset_x.exactly(ox, (g - 2) as nat),
        t.params.offset_y.exactly(oy, (g - 2) as nat),
        -0x100_0000 < p * kx < 0x100_0000,
        -0x100_0000 < q * ky < 0x100_0000,
        -0x100_0000 < (p * kx) * c < 0x100_0000,
        -0x100_0000 < (p * kx) * s < 0x100_0000,
        -0x100_0000 < (q * ky) * c < 0x100_0000,
        -0x100_0000 < (q * ky) * s < 0x100_0000,
        -0x100_0000 < (p * kx) * c - (q * ky) * s < 0x100_0000,
        -0x100_0000 < (p * kx) * s + (q * ky) * c < 0x100_0000,
        -0x100_0000 < (p * kx) * c - (q * ky) * s + ox < 0x100_0000,
        -0x100_0000 < (p * kx) * s + (q * ky) * c + oy < 0x100_0000,
    ensures
        ({
            let w = t.world(px, py);
            &&& w.x.exactly((p * kx) * c - (q * ky) * s + ox, (g - 2) as nat)
            &&& w.y.exactly((p * kx) * s + (q * ky) * c + oy, (g - 2) as nat)
            &&& w.z.exactly(0, 149)
        }),
{
    let e = (g - 2) as nat;
    let sx = px.product(t.params.scale_x);
    let sy = py.product(t.params.scale_y);
    Float32::law_whole_product(px, t.params.scale_x, p, kx, 148, 148);
    Float32::law_whole_product(py, t.params.scale_y, q, ky, 148, 148);
    Float32::law_whole_product(sx, t.cos_r, p * kx, c, 147, g);
    Float32::law_whole_product(sx, t.sin_r, p * kx, s, 147, g);
    Float32::law_whole_product(sy, t.cos_r, q * ky, c, 147, g);
    Float32::law_whole_product(sy, t.sin_r, q * ky, s, 147, g);
    let x = sx.product(t.cos_r).difference(sy.product(t.sin_r));
    let y = sx.product(t.sin_r).sum(sy.product(t.cos_r));
    Float32::law_whole_difference(
        sx.product(t.cos_r),
        sy.product(t.sin_r),
        (p * kx) * c,
        (q * ky) * s,
        e,
    );
    Float32::law_whole_sum(
        sx.product(t.sin_r),
        sy.product(t.cos_r),
        (p * kx) * s,
        (q * ky) * c,
        e,
    );
    Float32::law_whole_sum(x, t.params.offset_x, (p * kx) * c - (q * ky) * s, ox, e);
    Float32::law_whole_sum(y, t.params.offset_y, (p * kx) * s + (q * ky) * c, oy, e);
    Float32::law_integers_are_exact(0);
}

/// A camera that is turned by a quarter sees the belt turned by a quarter, and
/// not mirrored: what is to the right of the picture lies towards +Y, and what
/// is down in it lies towards -X. With the other sense of rotation it is the
/// other way round.
pub proof fn law_quarter_turn(t: CoordinateTransformer, px: Float32, py: Float32, sense: int)
    requires
        px.finite(),
        py.finite(),
        sense == 1 || sense == -1,
        t.params.scale_x == Float32::nearest(1, 1),
        t.params.scale_y == Float32::nearest(1, 1),
        t.params.offset_x == Float32::nearest(0, 1),
        t.params.offset_y == Float32::nearest(0, 1),
        t.sin_r == Float32::nearest(sense, 1),
        t.cos_r == Float32::nearest(0, 1),
    ensures
        ({
            let w = t.world(px, py);
            &&& w.x.finite() && w.x.units() == -(sense * py.units())
            &&& w.y.finite() && w.y.units() == sense * px.units()
        }),
{
    let zero = Float32::nearest(0, 1);
    Float32::lemma_constants();
    Float32::lemma_zero_size();
    Float32::law_times_one(px);
    Float32::law_times_one(py);
    Float32::law_times_zero(px);
    Float32::law_times_zero(py);
    Float32::law_times_sign(px, sense);
    Float32::law_times_sign(py, sense);
    let turned = py.product(t.sin_r);
    let back = turned.opposite();
    assert(back.finite() && back.units() == -turned.units());
    let x = px.product(zero).difference(turned);
    Float32::law_representable_difference(px.product(zero), turned, back);
    Float32::law_representable_sum(x, zero, x);
    let y = px.product(t.sin_r).sum(py.product(zero));
    Float32::law_representable_sum(px.product(t.sin_r), py.product(zero), px.product(t.sin_r));
    Float32::law_representable_sum(y, zero, y);
}

} // verus!
