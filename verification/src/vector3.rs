//! Three-component vectors.
//!
//! `Vec3` holds fixed-point components and serves as point, direction and
//! color alike.  Its mathematical model is `V3`, a triple of unbounded
//! integers; every operation's contract states the exact integer result,
//! rounding included.

use vstd::prelude::*;

verus! {

use crate::fixed::SCALE;
use crate::fixed::div_euclid_i128;
use crate::fixed::fx_div;
use crate::fixed::fx_mul;
use crate::fixed::fxdiv;
use crate::fixed::fxmul;
use crate::fixed::isqrt;
use crate::fixed::lemma_sqrt_of;
use crate::fixed::sqrt_of;

/// The mathematical model of a vector: components as unbounded integers,
/// still in fixed-point units.
pub struct V3 {
    pub x: int,
    pub y: int,
    pub z: int,
}

/// Componentwise sum.
pub open spec fn vadd(a: V3, b: V3) -> V3 {
    V3 { x: a.x + b.x, y: a.y + b.y, z: a.z + b.z }
}

/// Componentwise difference.
pub open spec fn vsub(a: V3, b: V3) -> V3 {
    V3 { x: a.x - b.x, y: a.y - b.y, z: a.z - b.z }
}

/// Scaling by a fixed-point scalar, each component rounded down.
pub open spec fn vscale(a: V3, s: int) -> V3 {
    V3 { x: fx_mul(a.x, s), y: fx_mul(a.y, s), z: fx_mul(a.z, s) }
}

/// Componentwise fixed-point product (color tinting).
pub open spec fn vmul(a: V3, b: V3) -> V3 {
    V3 { x: fx_mul(a.x, b.x), y: fx_mul(a.y, b.y), z: fx_mul(a.z, b.z) }
}

/// Division of each component by a fixed-point scalar.
pub open spec fn vdiv(a: V3, s: int) -> V3 {
    V3 { x: fx_div(a.x, s), y: fx_div(a.y, s), z: fx_div(a.z, s) }
}

/// Componentwise negation.
pub open spec fn vneg(a: V3) -> V3 {
    V3 { x: -a.x, y: -a.y, z: -a.z }
}

/// The raw (unscaled) inner product of the stored integers.
pub open spec fn rdot(a: V3, b: V3) -> int {
    a.x * b.x + a.y * b.y + a.z * b.z
}

/// The fixed-point dot product: the raw inner product rescaled once.
pub open spec fn vdot(a: V3, b: V3) -> int {
    rdot(a, b) / (SCALE as int)
}

/// The fixed-point cross product, each component rescaled once.
pub open spec fn vcross(a: V3, b: V3) -> V3 {
    V3 {
        x: (a.y * b.z - a.z * b.y) / (SCALE as int),
        y: (-(a.x * b.z) + a.z * b.x) / (SCALE as int),
        z: (a.x * b.y - a.y * b.x) / (SCALE as int),
    }
}

/// The fixed-point length: since components carry one factor of `SCALE`,
/// the square root of the raw self-product is already in fixed point.
pub open spec fn vlen(a: V3) -> int {
    sqrt_of(rdot(a, a))
}

/// The unit vector, each component `a_i * SCALE / |a|` rounded down.
pub open spec fn vunit(a: V3) -> V3 {
    vdiv(a, vlen(a))
}

/// All components within `[-m, m]`.
pub open spec fn in_bounds(a: V3, m: int) -> bool {
    -m <= a.x <= m && -m <= a.y <= m && -m <= a.z <= m
}

/// All components representable as `i64`.
pub open spec fn fits_i64(a: V3) -> bool {
    i64::MIN <= a.x <= i64::MAX && i64::MIN <= a.y <= i64::MAX && i64::MIN <= a.z <= i64::MAX
}

/// The zero vector.
pub open spec fn vzero() -> V3 {
    V3 { x: 0, y: 0, z: 0 }
}

/// Component bound under which raw products and their sums stay well inside
/// `i128`, and the rescaled dot product inside `i64`.
pub const VEC_ARG_MAX: i64 = 0x80000000000000;

/// A fixed-point vector; a component `v` stands for the real `v / SCALE`.
#[derive(Clone, Copy, Debug, PartialEq, Eq, Structural)]
pub struct Vec3 {
    pub x: i64,
    pub y: i64,
    pub z: i64,
}

impl View for Vec3 {
    type V = V3;

    open spec fn view(&self) -> V3 {
        V3 { x: self.x as int, y: self.y as int, z: self.z as int }
    }
}

/// A product of scalars bounded by `mx` and `my` is bounded by `mx * my`.
pub proof fn lemma_prod_bound2(x: int, y: int, mx: int, my: int)
    requires
        0 <= mx,
        0 <= my,
        -mx <= x <= mx,
        -my <= y <= my,
    ensures
        -(mx * my) <= x * y <= mx * my,
        mx * my >= 0,
{
    assert(-(mx * my) <= x * y <= mx * my && mx * my >= 0) by (nonlinear_arith)
        requires
            0 <= mx,
            0 <= my,
            -mx <= x <= mx,
            -my <= y <= my,
    ;
}

/// A product of two scalars bounded by `m` is bounded by `m * m`.
proof fn lemma_prod_bound(x: int, y: int, m: int)
    requires
        0 <= m,
        -m <= x <= m,
        -m <= y <= m,
    ensures
        -(m * m) <= x * y <= m * m,
{
    lemma_prod_bound2(x, y, m, m);
}

/// The raw inner product of vectors bounded by `ma` and `mb` is bounded
/// by `3 * ma * mb`.
pub proof fn lemma_rdot_bound(a: V3, b: V3, ma: int, mb: int)
    requires
        0 <= ma,
        0 <= mb,
        in_bounds(a, ma),
        in_bounds(b, mb),
    ensures
        -(3 * (ma * mb)) <= rdot(a, b) <= 3 * (ma * mb),
        ma * mb >= 0,
{
    lemma_prod_bound2(a.x, b.x, ma, mb);
    lemma_prod_bound2(a.y, b.y, ma, mb);
    lemma_prod_bound2(a.z, b.z, ma, mb);
}

/// The fixed-point dot product of bounded vectors, with the rescaling
/// accounted for.
pub proof fn lemma_vdot_bound(a: V3, b: V3, ma: int, mb: int)
    requires
        0 <= ma,
        0 <= mb,
        in_bounds(a, ma),
        in_bounds(b, mb),
    ensures
        -((3 * (ma * mb)) / (SCALE as int)) - 1 <= vdot(a, b) <= (3 * (ma * mb)) / (
        SCALE as int),
{
    lemma_rdot_bound(a, b, ma, mb);
    crate::fixed::lemma_div_scale_sandwich(rdot(a, b), 3 * (ma * mb));
}

/// Scaling a bounded vector by a bounded scalar keeps every component
/// within `ma * ms / SCALE + 1`.
pub proof fn lemma_vscale_bound(a: V3, s: int, ma: int, ms: int)
    requires
        0 <= ma,
        0 <= ms,
        in_bounds(a, ma),
        -ms <= s <= ms,
    ensures
        in_bounds(vscale(a, s), (ma * ms) / (SCALE as int) + 1),
        (ma * ms) / (SCALE as int) >= 0,
{
    crate::fixed::lemma_fx_mul_bound(a.x, s, ma, ms);
    crate::fixed::lemma_fx_mul_bound(a.y, s, ma, ms);
    crate::fixed::lemma_fx_mul_bound(a.z, s, ma, ms);
    lemma_prod_bound2(ma, ms, ma, ms);
    vstd::arithmetic::div_mod::lemma_div_pos_is_pos(ma * ms, SCALE as int);
}

/// Each cross-product component of bounded vectors is bounded.
pub proof fn lemma_vcross_bound(a: V3, b: V3, ma: int, mb: int)
    requires
        0 <= ma,
        0 <= mb,
        in_bounds(a, ma),
        in_bounds(b, mb),
    ensures
        in_bounds(vcross(a, b), (2 * (ma * mb)) / (SCALE as int) + 1),
        (2 * (ma * mb)) / (SCALE as int) >= 0,
{
    lemma_prod_bound2(a.y, b.z, ma, mb);
    lemma_prod_bound2(a.z, b.y, ma, mb);
    lemma_prod_bound2(a.x, b.z, ma, mb);
    lemma_prod_bound2(a.z, b.x, ma, mb);
    lemma_prod_bound2(a.x, b.y, ma, mb);
    lemma_prod_bound2(a.y, b.x, ma, mb);
    crate::fixed::lemma_div_scale_sandwich(a.y * b.z - a.z * b.y, 2 * (ma * mb));
    crate::fixed::lemma_div_scale_sandwich(-(a.x * b.z) + a.z * b.x, 2 * (ma * mb));
    crate::fixed::lemma_div_scale_sandwich(a.x * b.y - a.y * b.x, 2 * (ma * mb));
    vstd::arithmetic::div_mod::lemma_div_pos_is_pos(2 * (ma * mb), SCALE as int);
}

/// The raw inner product against a vector bounded by `mb` is at most
/// `3 * mb` times the first vector's length.
pub proof fn lemma_rdot_len_bound(a: V3, b: V3, mb: int)
    requires
        0 <= mb,
        in_bounds(b, mb),
    ensures
        -(3 * (mb * vlen(a))) <= rdot(a, b) <= 3 * (mb * vlen(a)),
        vlen(a) >= 0,
{
    lemma_component_le_len(a);
    let l = vlen(a);
    lemma_prod_bound2(a.x, b.x, l, mb);
    lemma_prod_bound2(a.y, b.y, l, mb);
    lemma_prod_bound2(a.z, b.z, l, mb);
    assert(l * mb == mb * l) by (nonlinear_arith);
}

/// Each squared component is at most the raw self-product.
proof fn lemma_square_le_rdot(a: V3)
    ensures
        a.x * a.x <= rdot(a, a),
        a.y * a.y <= rdot(a, a),
        a.z * a.z <= rdot(a, a),
        rdot(a, a) >= 0,
{
    assert(a.x * a.x >= 0 && a.y * a.y >= 0 && a.z * a.z >= 0) by (nonlinear_arith);
}

/// A component can be no longer than the whole vector.
pub proof fn lemma_component_le_len(a: V3)
    ensures
        -vlen(a) <= a.x <= vlen(a),
        -vlen(a) <= a.y <= vlen(a),
        -vlen(a) <= a.z <= vlen(a),
        vlen(a) >= 0,
{
    lemma_square_le_rdot(a);
    lemma_sqrt_of(rdot(a, a));
    let l = vlen(a);
    assert forall|c: int| #[trigger] (c * c) <= rdot(a, a) implies -l <= c <= l by {
        if c > l {
            assert((l + 1) * (l + 1) <= c * c) by (nonlinear_arith)
                requires
                    0 <= l,
                    l + 1 <= c,
            ;
        }
        if c < -l {
            assert((l + 1) * (l + 1) <= c * c) by (nonlinear_arith)
                requires
                    0 <= l,
                    c <= -(l + 1),
            ;
        }
    }
    assert(a.x * a.x <= rdot(a, a));
    assert(a.y * a.y <= rdot(a, a));
    assert(a.z * a.z <= rdot(a, a));
}

/// A nonzero vector has a positive raw self-product and a positive length.
pub proof fn lemma_nonzero_len(a: V3)
    requires
        a != vzero(),
    ensures
        rdot(a, a) > 0,
        vlen(a) >= 1,
{
    assert(a.x * a.x >= 0 && a.y * a.y >= 0 && a.z * a.z >= 0) by (nonlinear_arith);
    assert(a.x != 0 ==> a.x * a.x >= 1) by (nonlinear_arith);
    assert(a.y != 0 ==> a.y * a.y >= 1) by (nonlinear_arith);
    assert(a.z != 0 ==> a.z * a.z >= 1) by (nonlinear_arith);
    assert(a.x != 0 || a.y != 0 || a.z != 0);
    assert(rdot(a, a) >= 1);
    lemma_sqrt_of(rdot(a, a));
    let l = vlen(a);
    if l == 0 {
        assert(rdot(a, a) < (l + 1) * (l + 1));
        assert((l + 1) * (l + 1) == 1) by (nonlinear_arith)
            requires
                l == 0,
        ;
        assert(false);
    }
}

impl Vec3 {
    /// Componentwise sum.
    pub fn add(self, rhs: Vec3) -> (r: Vec3)
        requires
            fits_i64(vadd(self@, rhs@)),
        ensures
            r@ == vadd(self@, rhs@),
    {
        Vec3 { x: self.x + rhs.x, y: self.y + rhs.y, z: self.z + rhs.z }
    }

    /// Componentwise negation.
    pub fn neg(self) -> (r: Vec3)
        requires
            fits_i64(vneg(self@)),
        ensures
            r@ == vneg(self@),
    {
        Vec3 { x: -self.x, y: -self.y, z: -self.z }
    }

    /// Componentwise difference.
    pub fn sub(self, rhs: Vec3) -> (r: Vec3)
        requires
            fits_i64(vsub(self@, rhs@)),
        ensures
            r@ == vsub(self@, rhs@),
    {
        Vec3 { x: self.x - rhs.x, y: self.y - rhs.y, z: self.z - rhs.z }
    }

    /// Scaling by a fixed-point scalar.
    pub fn scale(self, s: i64) -> (r: Vec3)
        requires
            fits_i64(vscale(self@, s as int)),
        ensures
            r@ == vscale(self@, s as int),
    {
        Vec3 { x: fxmul(self.x, s), y: fxmul(self.y, s), z: fxmul(self.z, s) }
    }

    /// Componentwise fixed-point product (color tinting).
    pub fn mul_elem(self, rhs: Vec3) -> (r: Vec3)
        requires
            fits_i64(vmul(self@, rhs@)),
        ensures
            r@ == vmul(self@, rhs@),
    {
        Vec3 { x: fxmul(self.x, rhs.x), y: fxmul(self.y, rhs.y), z: fxmul(self.z, rhs.z) }
    }

    /// Division of each component by a fixed-point scalar.
    pub fn div_scalar(self, s: i64) -> (r: Vec3)
        requires
            s != 0,
            fits_i64(vdiv(self@, s as int)),
        ensures
            r@ == vdiv(self@, s as int),
    {
        Vec3 { x: fxdiv(self.x, s), y: fxdiv(self.y, s), z: fxdiv(self.z, s) }
    }

    /// The fixed-point dot product.
    pub fn dot(&self, rhs: &Vec3) -> (r: i64)
        requires
            in_bounds(self@, VEC_ARG_MAX as int),
            in_bounds(rhs@, VEC_ARG_MAX as int),
            i64::MIN <= vdot(self@, rhs@) <= i64::MAX,
        ensures
            r == vdot(self@, rhs@),
    {
        proof {
            let m = VEC_ARG_MAX as int;
            lemma_prod_bound(self@.x, rhs@.x, m);
            lemma_prod_bound(self@.y, rhs@.y, m);
            lemma_prod_bound(self@.z, rhs@.z, m);
        }
        let sum: i128 = (self.x as i128) * (rhs.x as i128) + (self.y as i128) * (rhs.y as i128)
            + (self.z as i128) * (rhs.z as i128);
        let q = div_euclid_i128(sum, SCALE as i128);
        q as i64
    }

    /// The squared length as a fixed-point scalar.
    pub fn length_squared(&self) -> (r: i64)
        requires
            in_bounds(self@, VEC_ARG_MAX as int),
            vdot(self@, self@) <= i64::MAX,
        ensures
            r == vdot(self@, self@),
            r >= 0,
    {
        proof {
            lemma_square_le_rdot(self@);
            vstd::arithmetic::div_mod::lemma_div_pos_is_pos(rdot(self@, self@), SCALE as int);
        }
        self.dot(self)
    }

    /// The length as a fixed-point scalar: exactly the rounded-down square
    /// root of the real length, in fixed-point units.
    pub fn length(&self) -> (r: i64)
        requires
            in_bounds(self@, VEC_ARG_MAX as int),
        ensures
            r == vlen(self@),
            r >= 0,
            r * r <= rdot(self@, self@),
            rdot(self@, self@) < (r + 1) * (r + 1),
    {
        proof {
            lemma_square_le_rdot(self@);
            let m = VEC_ARG_MAX as int;
            lemma_prod_bound(self@.x, self@.x, m);
            lemma_prod_bound(self@.y, self@.y, m);
            lemma_prod_bound(self@.z, self@.z, m);
        }
        let sum: i128 = (self.x as i128) * (self.x as i128) + (self.y as i128) * (self.y as i128)
            + (self.z as i128) * (self.z as i128);
        let root = isqrt(sum as u128);
        proof {
            let r = root as int;
            if r > 0x7fffffffffffffff {
                assert(r * r > 0x7fffffffffffffffi128 * 0x7fffffffffffffffi128) by (nonlinear_arith)
                    requires
                        r > 0x7fffffffffffffff,
                ;
            }
        }
        root as i64
    }

    /// The cross product.
    pub fn cross(&self, rhs: &Vec3) -> (r: Vec3)
        requires
            in_bounds(self@, VEC_ARG_MAX as int),
            in_bounds(rhs@, VEC_ARG_MAX as int),
            fits_i64(vcross(self@, rhs@)),
        ensures
            r@ == vcross(self@, rhs@),
    {
        proof {
            let m = VEC_ARG_MAX as int;
            lemma_prod_bound(self@.y, rhs@.z, m);
            lemma_prod_bound(self@.z, rhs@.y, m);
            lemma_prod_bound(self@.x, rhs@.z, m);
            lemma_prod_bound(self@.z, rhs@.x, m);
            lemma_prod_bound(self@.x, rhs@.y, m);
            lemma_prod_bound(self@.y, rhs@.x, m);
        }
        let cx = div_euclid_i128(
            (self.y as i128) * (rhs.z as i128) - (self.z as i128) * (rhs.y as i128),
            SCALE as i128,
        );
        let cy = div_euclid_i128(
            -((self.x as i128) * (rhs.z as i128)) + (self.z as i128) * (rhs.x as i128),
            SCALE as i128,
        );
        let cz = div_euclid_i128(
            (self.x as i128) * (rhs.y as i128) - (self.y as i128) * (rhs.x as i128),
            SCALE as i128,
        );
        Vec3 { x: cx as i64, y: cy as i64, z: cz as i64 }
    }

    /// The unit vector in the same direction.  Every component of the
    /// result lies in `[-SCALE, SCALE]`.
    pub fn unit_vector(self) -> (r: Vec3)
        requires
            self@ != vzero(),
            in_bounds(self@, VEC_ARG_MAX as int),
        ensures
            r@ == vunit(self@),
            in_bounds(r@, SCALE as int),
    {
        proof {
            lemma_nonzero_len(self@);
            lemma_component_le_len(self@);
            lemma_unit_bounds(self@);
        }
        let len = self.length();
        Vec3 { x: fxdiv(self.x, len), y: fxdiv(self.y, len), z: fxdiv(self.z, len) }
    }
}

/// `unit_vector` returns a vector of length one, up to quantization: for
/// any vector of real length at least one, the normalized vector's raw
/// self-product lies within a few parts in `SCALE` of `SCALE^2`, so its
/// fixed-point length lies within four units of `SCALE`.
#[verifier::rlimit(100)]
pub proof fn lemma_unit_vector_length(v: V3)
    requires
        rdot(v, v) >= (SCALE as int) * (SCALE as int),
    ensures
        (SCALE as int) * (SCALE as int) - 6 * SCALE <= rdot(vunit(v), vunit(v)),
        rdot(vunit(v), vunit(v)) <= (SCALE as int) * (SCALE as int) + 8 * SCALE + 3,
        SCALE - 4 <= vlen(vunit(v)) <= SCALE + 3,
{
    let s = SCALE as int;
    let q = rdot(v, v);
    lemma_square_le_rdot(v);
    crate::fixed::lemma_sqrt_of(q);
    let l = vlen(v);
    if l < s {
        assert((l + 1) * (l + 1) <= s * s) by (nonlinear_arith)
            requires
                0 <= l,
                l + 1 <= s,
        ;
    }
    assert(l >= s);
    lemma_component_le_len(v);
    let u = vunit(v);
    let rx = (v.x * s) % l;
    let ry = (v.y * s) % l;
    let rz = (v.z * s) % l;
    vstd::arithmetic::div_mod::lemma_fundamental_div_mod(v.x * s, l);
    vstd::arithmetic::div_mod::lemma_fundamental_div_mod(v.y * s, l);
    vstd::arithmetic::div_mod::lemma_fundamental_div_mod(v.z * s, l);
    assert(0 <= rx < l && 0 <= ry < l && 0 <= rz < l);
    // per component, (l u_i)^2 == (v_i s - r_i)^2
    assert(l * l * (u.x * u.x) == s * s * (v.x * v.x) - 2 * (s * (v.x * rx)) + rx * rx)
        by (nonlinear_arith)
        requires
            v.x * s == l * u.x + rx,
    ;
    assert(l * l * (u.y * u.y) == s * s * (v.y * v.y) - 2 * (s * (v.y * ry)) + ry * ry)
        by (nonlinear_arith)
        requires
            v.y * s == l * u.y + ry,
    ;
    assert(l * l * (u.z * u.z) == s * s * (v.z * v.z) - 2 * (s * (v.z * rz)) + rz * rz)
        by (nonlinear_arith)
        requires
            v.z * s == l * u.z + rz,
    ;
    assert(l * l * rdot(u, u) == l * l * (u.x * u.x) + l * l * (u.y * u.y) + l * l * (u.z
        * u.z)) by (nonlinear_arith)
        requires
            rdot(u, u) == u.x * u.x + u.y * u.y + u.z * u.z,
    ;
    assert(s * s * q == s * s * (v.x * v.x) + s * s * (v.y * v.y) + s * s * (v.z * v.z))
        by (nonlinear_arith)
        requires
            q == v.x * v.x + v.y * v.y + v.z * v.z,
    ;
    // bound the cross terms and the remainders
    lemma_prod_bound2(v.x, rx, l, l);
    lemma_prod_bound2(v.y, ry, l, l);
    lemma_prod_bound2(v.z, rz, l, l);
    assert(-(s * (l * l)) <= s * (v.x * rx) <= s * (l * l)) by (nonlinear_arith)
        requires
            -(l * l) <= v.x * rx <= l * l,
            s >= 1,
    ;
    assert(-(s * (l * l)) <= s * (v.y * ry) <= s * (l * l)) by (nonlinear_arith)
        requires
            -(l * l) <= v.y * ry <= l * l,
            s >= 1,
    ;
    assert(-(s * (l * l)) <= s * (v.z * rz) <= s * (l * l)) by (nonlinear_arith)
        requires
            -(l * l) <= v.z * rz <= l * l,
            s >= 1,
    ;
    assert(0 <= rx * rx <= l * l && 0 <= ry * ry <= l * l && 0 <= rz * rz <= l * l)
        by (nonlinear_arith)
        requires
            0 <= rx < l,
            0 <= ry < l,
            0 <= rz < l,
    ;
    assert(l * l * rdot(u, u) >= s * s * q - 6 * (s * (l * l)));
    assert(l * l * rdot(u, u) <= s * s * q + 6 * (s * (l * l)) + 3 * (l * l));
    assert(s * s * q >= (s * s) * (l * l)) by (nonlinear_arith)
        requires
            q >= l * l,
            s >= 1,
    ;
    assert(s * s * q <= (s * s) * (l * l) + 2 * ((s * s) * l)) by (nonlinear_arith)
        requires
            q < (l + 1) * (l + 1),
            s >= 1,
            l >= 1,
    ;
    assert(2 * ((s * s) * l) <= 2 * (s * (l * l))) by (nonlinear_arith)
        requires
            0 <= s <= l,
    ;
    // cancel the positive factor l^2 on both sides of each bound
    assert(rdot(u, u) >= s * s - 6 * s) by (nonlinear_arith)
        requires
            l * l * rdot(u, u) >= (s * s) * (l * l) - 6 * (s * (l * l)),
            l >= 1,
    ;
    assert(rdot(u, u) <= s * s + 8 * s + 3) by (nonlinear_arith)
        requires
            l * l * rdot(u, u) <= (s * s) * (l * l) + 8 * (s * (l * l)) + 3 * (l * l),
            l >= 1,
            s >= 2,
    ;
    crate::fixed::lemma_sqrt_of(rdot(u, u));
    let m = vlen(u);
    if m < s - 4 {
        assert((m + 1) * (m + 1) <= (s - 4) * (s - 4)) by (nonlinear_arith)
            requires
                0 <= m,
                m + 1 <= s - 4,
        ;
        assert((s - 4) * (s - 4) <= s * s - 6 * s) by (nonlinear_arith)
            requires
                s >= 8,
        ;
    }
    if m > s + 3 {
        assert(m * m >= (s + 4) * (s + 4)) by (nonlinear_arith)
            requires
                m >= s + 4,
                s >= 0,
        ;
        assert((s + 4) * (s + 4) > s * s + 8 * s + 3) by (nonlinear_arith);
    }
}

/// Dividing a component by the vector's own length lands in `[-SCALE, SCALE]`.
pub proof fn lemma_unit_bounds(a: V3)
    requires
        a != vzero(),
    ensures
        in_bounds(vunit(a), SCALE as int),
{
    lemma_nonzero_len(a);
    lemma_component_le_len(a);
    let l = vlen(a);
    lemma_div_in_unit(a.x, l);
    lemma_div_in_unit(a.y, l);
    lemma_div_in_unit(a.z, l);
}

/// For `-l <= c <= l` and `l >= 1`, the quotient `c * SCALE / l` lies in
/// `[-SCALE, SCALE]`.
pub proof fn lemma_div_in_unit(c: int, l: int)
    requires
        l >= 1,
        -l <= c <= l,
    ensures
        -SCALE <= fx_div(c, l) <= SCALE,
{
    let s = SCALE as int;
    assert(c * s <= l * s && -(l * s) <= c * s) by (nonlinear_arith)
        requires
            -l <= c <= l,
            s > 0,
    ;
    vstd::arithmetic::div_mod::lemma_div_is_ordered(c * s, l * s, l);
    vstd::arithmetic::div_mod::lemma_div_is_ordered(-(l * s), c * s, l);
    vstd::arithmetic::div_mod::lemma_div_multiples_vanish(s, l);
    vstd::arithmetic::div_mod::lemma_div_multiples_vanish(-s, l);
    assert(l * s == s * l && -(l * s) == -s * l) by (nonlinear_arith);
}

} // verus!
