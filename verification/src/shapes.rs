//! Spheres, hit records and materials.
//!
//! Intersection solves the quadratic `|O + tD - C|^2 = r^2` in fixed point;
//! the contract pins the returned record to an exact mirror of that
//! computation.  A sphere of negative radius has an inward-pointing normal,
//! which models a hollow shell for dielectrics.

use rand::RngExt;
use vstd::prelude::*;

verus! {

use crate::fixed::SCALE;
use crate::fixed::div_euclid_i128;
use crate::fixed::fx_div;
use crate::fixed::fx_mul;
use crate::fixed::fxdiv;
use crate::fixed::fxmul;
use crate::fixed::isqrt;
use crate::fixed::lemma_div_magnitude;
use crate::fixed::lemma_div_scale_sandwich;
use crate::fixed::lemma_fx_mul_bound;
use crate::fixed::lemma_fx_mul_mono2;
use crate::fixed::lemma_fx_mul_unit;
use crate::fixed::sqrt_of;
use crate::ray::Ray;
use crate::ray::point_at;
use crate::vector3::V3;
use crate::vector3::Vec3;
use crate::vector3::in_bounds;
use crate::vector3::lemma_div_in_unit;
use crate::vector3::lemma_nonzero_len;
use crate::vector3::lemma_prod_bound2;
use crate::vector3::lemma_rdot_len_bound;
use crate::vector3::lemma_vdot_bound;
use crate::vector3::lemma_vscale_bound;
use crate::vector3::rdot;
use crate::vector3::vadd;
use crate::vector3::vdiv;
use crate::vector3::vdot;
use crate::vector3::vlen;
use crate::vector3::vneg;
use crate::vector3::vscale;
use crate::vector3::vsub;
use crate::vector3::vunit;
use crate::vector3::vzero;

/// Bound on hit points and ray origins.
pub const POS_MAX: i64 = 0x2000000000;

/// Bound on sphere centers.
pub const CEN_MAX: i64 = 0x1000000000;

/// Bound on ray directions.
pub const DIR_MAX: i64 = 0x1000000000;

/// Bound on sphere radii.
pub const RAD_MAX: i64 = 0x100000000;

/// Bound on stored hit normals (true normals are near unit length).
pub const NORM_MAX: i64 = 0x40000;

/// Bound on the admissible hit interval.
pub const T_MAX: i64 = 0x1000000000;

/// A ray whose origin and direction the intersector can take.
pub open spec fn wf_ray(r: Ray) -> bool {
    in_bounds(r.a@, POS_MAX as int) && in_bounds(r.b@, DIR_MAX as int)
}

/// A color: every channel in `[0, 1]` in fixed point.
pub open spec fn wf_color(c: V3) -> bool {
    0 <= c.x <= SCALE && 0 <= c.y <= SCALE && 0 <= c.z <= SCALE
}

/// Tagged union of the three surface models.
#[derive(Clone, Copy, Debug, PartialEq, Eq, Structural)]
pub enum Material {
    Lambertian { albedo: Vec3 },
    Metal { albedo: Vec3, fuzz: i64 },
    Dielectric { ref_idx: i64 },
}

/// A material with its parameters in range: albedo a color, fuzz in
/// `[0, 1]`, refractive index in `[1/2, 4]`.
pub open spec fn wf_material(m: Material) -> bool {
    match m {
        Material::Lambertian { albedo } => wf_color(albedo@),
        Material::Metal { albedo, fuzz } => wf_color(albedo@) && 0 <= fuzz <= SCALE,
        Material::Dielectric { ref_idx } => SCALE / 2 <= ref_idx <= 4 * SCALE,
    }
}

/// What a hit reports: the ray parameter, the hit point, the outward unit
/// normal, and a copy of the surface's material.
pub struct HitRecord {
    pub t: i64,
    pub p: Vec3,
    pub normal: Vec3,
    pub material: Material,
}

/// A hit record with all components in range.
pub open spec fn wf_hit(h: HitRecord) -> bool {
    -T_MAX <= h.t <= T_MAX && in_bounds(h.p@, POS_MAX as int) && in_bounds(
        h.normal@,
        NORM_MAX as int,
    ) && wf_material(h.material)
}

/// The mathematical content of a hit, over unbounded integers.
pub struct HitMath {
    pub t: int,
    pub p: V3,
    pub n: V3,
    pub material: Material,
}

/// A hit record as its mathematical content.
pub open spec fn to_math(h: HitRecord) -> HitMath {
    HitMath { t: h.t as int, p: h.p@, n: h.normal@, material: h.material }
}

/// A sphere with its material.  A negative radius flips the normal inward.
#[derive(Clone, Copy)]
pub struct Sphere {
    pub center: Vec3,
    pub radius: i64,
    pub material: Material,
}

/// A sphere the intersector can take: bounded center, nonzero bounded
/// radius, well-formed material.
pub open spec fn wf_sphere(s: Sphere) -> bool {
    in_bounds(s.center@, CEN_MAX as int) && s.radius != 0 && -RAD_MAX <= s.radius <= RAD_MAX
        && wf_material(s.material)
}

/// Ray origin relative to the sphere's center.
pub open spec fn oc_of(s: Sphere, r: Ray) -> V3 {
    vsub(r.a@, s.center@)
}

/// Quadratic coefficient `a = D . D`.
pub open spec fn quad_a(r: Ray) -> int {
    vdot(r.b@, r.b@)
}

/// Quadratic coefficient `b = 2 D . (O - C)`.
pub open spec fn quad_b(s: Sphere, r: Ray) -> int {
    2 * vdot(r.b@, oc_of(s, r))
}

/// Quadratic coefficient `c = (O - C) . (O - C) - r^2`.
pub open spec fn quad_c(s: Sphere, r: Ray) -> int {
    vdot(oc_of(s, r), oc_of(s, r)) - fx_mul(s.radius as int, s.radius as int)
}

/// The discriminant `b^2 - 4 a c`, in fixed point.
pub open spec fn quad_disc(s: Sphere, r: Ray) -> int {
    fx_mul(quad_b(s, r), quad_b(s, r)) - 4 * fx_mul(quad_a(r), quad_c(s, r))
}

/// The fixed-point square root of the discriminant.
pub open spec fn disc_root(s: Sphere, r: Ray) -> int {
    sqrt_of(quad_disc(s, r) * SCALE)
}

/// The nearer quadratic root `(-b - sqrt(disc)) / (2 a)`.
pub open spec fn near_root(s: Sphere, r: Ray) -> int {
    fx_div(-quad_b(s, r) - disc_root(s, r), 2 * quad_a(r))
}

/// The farther quadratic root `(-b + sqrt(disc)) / (2 a)`.
pub open spec fn far_root(s: Sphere, r: Ray) -> int {
    fx_div(-quad_b(s, r) + disc_root(s, r), 2 * quad_a(r))
}

/// The outward normal at parameter `t`: `(P(t) - C) / radius`, whose sign
/// follows the radius.
pub open spec fn normal_at(s: Sphere, r: Ray, t: int) -> V3 {
    vdiv(vsub(point_at(r.a@, r.b@, t), s.center@), s.radius as int)
}

/// A root is reported when it lies strictly inside the interval and the
/// derived point and normal are in range.
pub open spec fn root_ok(s: Sphere, r: Ray, tmin: int, tmax: int, t: int) -> bool {
    tmin < t < tmax && in_bounds(point_at(r.a@, r.b@, t), POS_MAX as int) && in_bounds(
        normal_at(s, r, t),
        NORM_MAX as int,
    )
}

/// The hit at a given root.
pub open spec fn root_hit(s: Sphere, r: Ray, t: int) -> HitMath {
    HitMath { t: t, p: point_at(r.a@, r.b@, t), n: normal_at(s, r, t), material: s.material }
}

/// What intersecting a sphere returns: a strictly positive discriminant is
/// required (a tangent ray misses by design), the nearer root is preferred,
/// and the farther root is tried only when the nearer is not reported.
pub open spec fn sphere_hit(s: Sphere, r: Ray, tmin: int, tmax: int) -> Option<HitMath> {
    if quad_a(r) > 0 && quad_disc(s, r) > 0 {
        if root_ok(s, r, tmin, tmax, near_root(s, r)) {
            Some(root_hit(s, r, near_root(s, r)))
        } else if root_ok(s, r, tmin, tmax, far_root(s, r)) {
            Some(root_hit(s, r, far_root(s, r)))
        } else {
            None
        }
    } else {
        None
    }
}

/// The farther root is never below the nearer root.
proof fn lemma_roots_ordered(s: Sphere, r: Ray)
    requires
        quad_a(r) > 0,
        quad_disc(s, r) > 0,
    ensures
        near_root(s, r) <= far_root(s, r),
{
    let b = quad_b(s, r);
    let sq = disc_root(s, r);
    assert(quad_disc(s, r) * SCALE >= 0) by (nonlinear_arith)
        requires
            quad_disc(s, r) > 0,
    ;
    crate::fixed::lemma_sqrt_of(quad_disc(s, r) * SCALE);
    vstd::arithmetic::mul::lemma_mul_inequality(-b - sq, -b + sq, SCALE as int);
    vstd::arithmetic::div_mod::lemma_div_is_ordered(
        (-b - sq) * SCALE,
        (-b + sq) * SCALE,
        2 * quad_a(r),
    );
}

/// Shrinking the admissible interval cannot create a hit.
pub proof fn lemma_sphere_hit_shrink(s: Sphere, r: Ray, tmin: int, tmax1: int, tmax2: int)
    requires
        tmax2 <= tmax1,
        sphere_hit(s, r, tmin, tmax1) == None::<HitMath>,
    ensures
        sphere_hit(s, r, tmin, tmax2) == None::<HitMath>,
{
}

/// At or below the distance of a reported hit, the same sphere reports
/// nothing: the nearer root either was that hit or already failed a
/// stricter test, and the farther root lies at least as far away.
pub proof fn lemma_sphere_hit_below(
    s: Sphere,
    r: Ray,
    tmin: int,
    tmax1: int,
    tmax2: int,
    h: HitMath,
)
    requires
        sphere_hit(s, r, tmin, tmax1) == Some(h),
        tmax2 <= h.t,
    ensures
        sphere_hit(s, r, tmin, tmax2) == None::<HitMath>,
{
    lemma_roots_ordered(s, r);
}

/// Anything a ray can strike over an open parameter interval.
pub trait Hitable {
    /// The mathematical outcome of intersecting `ray` over `(tmin, tmax)`.
    spec fn hit_model(&self, ray: Ray, tmin: int, tmax: int) -> Option<HitMath>;

    /// What the intersector may assume of its inputs.
    spec fn hit_pre(&self, ray: Ray, tmin: int, tmax: int) -> bool;

    /// Intersect, returning the record the model prescribes.
    fn hit(&self, ray: &Ray, tmin: i64, tmax: i64) -> (r: Option<HitRecord>)
        requires
            self.hit_pre(*ray, tmin as int, tmax as int),
        ensures
            match r {
                Some(h) => self.hit_model(*ray, tmin as int, tmax as int) == Some(to_math(h))
                    && wf_hit(h) && tmin < h.t < tmax,
                None => self.hit_model(*ray, tmin as int, tmax as int) == None::<HitMath>,
            },
    ;
}

/// Builds the record for one candidate root, or rejects it: the root must
/// lie strictly inside `(tmin, tmax)` and yield an in-range point and normal.
fn try_root(s: &Sphere, ray: &Ray, t_i: i128, tmin: i64, tmax: i64) -> (r: Option<HitRecord>)
    requires
        wf_sphere(*s),
        wf_ray(*ray),
        -T_MAX <= tmin <= T_MAX,
        -T_MAX <= tmax <= T_MAX,
    ensures
        match r {
            Some(h) => root_ok(*s, *ray, tmin as int, tmax as int, t_i as int) && to_math(h)
                == root_hit(*s, *ray, t_i as int) && wf_hit(h) && tmin < h.t < tmax,
            None => !root_ok(*s, *ray, tmin as int, tmax as int, t_i as int),
        },
{
    if !(t_i > tmin as i128 && t_i < tmax as i128) {
        return None;
    }
    let t = t_i as i64;
    proof {
        lemma_fx_mul_bound(ray.b@.x, t as int, DIR_MAX as int, T_MAX as int);
        lemma_fx_mul_bound(ray.b@.y, t as int, DIR_MAX as int, T_MAX as int);
        lemma_fx_mul_bound(ray.b@.z, t as int, DIR_MAX as int, T_MAX as int);
    }
    let p = ray.a.add(ray.b.scale(t));
    if p.x > POS_MAX || p.x < -POS_MAX || p.y > POS_MAX || p.y < -POS_MAX || p.z > POS_MAX || p.z
        < -POS_MAX {
        return None;
    }
    let nx = div_euclid_i128(((p.x - s.center.x) as i128) * (SCALE as i128), s.radius as i128);
    let ny = div_euclid_i128(((p.y - s.center.y) as i128) * (SCALE as i128), s.radius as i128);
    let nz = div_euclid_i128(((p.z - s.center.z) as i128) * (SCALE as i128), s.radius as i128);
    proof {
        lemma_div_magnitude((p.x - s.center.x) * SCALE, s.radius as int);
        lemma_div_magnitude((p.y - s.center.y) * SCALE, s.radius as int);
        lemma_div_magnitude((p.z - s.center.z) * SCALE, s.radius as int);
    }
    if nx > NORM_MAX as i128 || nx < -NORM_MAX as i128 || ny > NORM_MAX as i128 || ny < -NORM_MAX
        as i128 || nz > NORM_MAX as i128 || nz < -NORM_MAX as i128 {
        return None;
    }
    let normal = Vec3 { x: nx as i64, y: ny as i64, z: nz as i64 };
    Some(HitRecord { t, p, normal, material: s.material })
}

impl Hitable for Sphere {
    open spec fn hit_model(&self, ray: Ray, tmin: int, tmax: int) -> Option<HitMath> {
        sphere_hit(*self, ray, tmin, tmax)
    }

    open spec fn hit_pre(&self, ray: Ray, tmin: int, tmax: int) -> bool {
        wf_sphere(*self) && wf_ray(ray) && -T_MAX <= tmin <= T_MAX && -T_MAX <= tmax <= T_MAX
    }

    fn hit(&self, ray: &Ray, tmin: i64, tmax: i64) -> (r: Option<HitRecord>) {
        proof {
            lemma_vdot_bound(ray.b@, ray.b@, DIR_MAX as int, DIR_MAX as int);
        }
        let a = ray.b.dot(&ray.b);
        if a <= 0 {
            return None;
        }
        let oc = ray.a.sub(self.center);
        proof {
            lemma_vdot_bound(ray.b@, oc@, DIR_MAX as int, (POS_MAX + CEN_MAX) as int);
            lemma_vdot_bound(oc@, oc@, (POS_MAX + CEN_MAX) as int, (POS_MAX + CEN_MAX) as int);
            lemma_fx_mul_bound(self.radius as int, self.radius as int, RAD_MAX as int,
                RAD_MAX as int);
        }
        let b = 2 * ray.b.dot(&oc);
        let c = oc.dot(&oc) - fxmul(self.radius, self.radius);
        proof {
            assert(-0x1200000000000002int <= b as int <= 0x1200000000000002int);
            assert(-0x300000000000001int <= a as int <= 0x300000000000001int);
            assert(-0x1b01000000000002int <= c as int <= 0x1b01000000000002int);
            lemma_prod_bound2(b as int, b as int, 0x2000000000000000int, 0x2000000000000000int);
            lemma_prod_bound2(a as int, c as int, 0x2000000000000000int, 0x2000000000000000int);
            assert(0x2000000000000000int * 0x2000000000000000int
                == 0x4000000000000000000000000000000int) by (nonlinear_arith);
            lemma_div_scale_sandwich(
                (b as int) * (b as int),
                0x2000000000000000int * 0x2000000000000000int,
            );
            lemma_div_scale_sandwich(
                (a as int) * (c as int),
                0x2000000000000000int * 0x2000000000000000int,
            );
            assert(0x4000000000000000000000000000000int / (SCALE as int)
                == 0x400000000000000000000000000int) by (nonlinear_arith);
        }
        let bb = div_euclid_i128((b as i128) * (b as i128), SCALE as i128);
        let ac = div_euclid_i128((a as i128) * (c as i128), SCALE as i128);
        let disc: i128 = bb - 4 * ac;
        if disc > 0 {
            let sq = isqrt((disc * (SCALE as i128)) as u128);
            proof {
                if sq >= 0x8000000000000000u128 {
                    assert(sq * sq >= 0x8000000000000000u128 * 0x8000000000000000u128)
                        by (nonlinear_arith)
                        requires
                            sq >= 0x8000000000000000u128,
                    ;
                }
            }
            let two_a: i128 = 2 * (a as i128);
            let t1 = div_euclid_i128((-(b as i128) - (sq as i128)) * (SCALE as i128), two_a);
            let r1 = try_root(self, ray, t1, tmin, tmax);
            if r1.is_some() {
                return r1;
            }
            let t2 = div_euclid_i128((-(b as i128) + (sq as i128)) * (SCALE as i128), two_a);
            let r2 = try_root(self, ray, t2, tmin, tmax);
            return r2;
        }
        None
    }
}

/// Relies on `rand::rng` (the thread-local generator) and
/// `rand::RngExt::random_range` over a half-open integer range: the draw
/// lies in `[lo, hi)`; the range is non-empty, so the call cannot panic.
/// Nothing more is assumed of a random draw.
#[verifier::external_body]
pub(crate) fn random_in_range(lo: i64, hi: i64) -> (r: i64)
    requires
        lo < hi,
    ensures
        lo <= r < hi,
{
    rand::rng().random_range(lo..hi)
}

/// A point of the closed unit ball: components in `[-1, 1]` and squared
/// length at most one.
pub open spec fn unit_ball(p: V3) -> bool {
    in_bounds(p, SCALE as int) && vdot(p, p) <= SCALE
}

/// A point drawn from the unit ball by rejection sampling; after a bounded
/// number of rejected draws the center is returned.
pub fn random_in_unit_sphere() -> (r: Vec3)
    ensures
        unit_ball(r@),
{
    let mut tries: u32 = 0;
    while tries < 64
        decreases 64 - tries,
    {
        let p = Vec3 {
            x: random_in_range(-SCALE, SCALE),
            y: random_in_range(-SCALE, SCALE),
            z: random_in_range(-SCALE, SCALE),
        };
        proof {
            lemma_vdot_bound(p@, p@, SCALE as int, SCALE as int);
        }
        if p.length_squared() <= SCALE {
            return p;
        }
        tries = tries + 1;
    }
    let center = Vec3 { x: 0, y: 0, z: 0 };
    proof {
        vstd::arithmetic::div_mod::lemma_div_of0(SCALE as int);
    }
    center
}

/// The mirror reflection `v - 2 (v . n) n`.
pub open spec fn reflect_spec(v: V3, n: V3) -> V3 {
    vsub(v, vscale(n, 2 * vdot(v, n)))
}

/// Mirror reflection about `n`; intended for unit-length `v` and
/// near-unit `n`.
pub fn reflect(v: Vec3, n: Vec3) -> (r: Vec3)
    requires
        in_bounds(v@, 2 * SCALE as int),
        in_bounds(n@, NORM_MAX as int),
    ensures
        r@ == reflect_spec(v@, n@),
        in_bounds(r@, 0x2000000),
{
    proof {
        lemma_vdot_bound(v@, n@, 2 * SCALE as int, NORM_MAX as int);
        lemma_vscale_bound(n@, 2 * vdot(v@, n@), NORM_MAX as int, 0x300002);
    }
    let d = v.dot(&n);
    v.sub(n.scale(2 * d))
}

/// `SCALE^3` times the exactly-reflected vector `v - 2 (v . n) n`, with no
/// rounding: the raw dot product carries `SCALE^2` and each component one
/// more factor of `SCALE`.
pub open spec fn reflect_exact(v: V3, n: V3) -> V3 {
    V3 {
        x: (SCALE * SCALE) * v.x - 2 * rdot(v, n) * n.x,
        y: (SCALE * SCALE) * v.y - 2 * rdot(v, n) * n.y,
        z: (SCALE * SCALE) * v.z - 2 * rdot(v, n) * n.z,
    }
}

/// Reflecting about an exactly unit-length normal reverses the normal
/// component of any vector: in exact arithmetic, with `|n|^2 == 1` stated
/// as `rdot(n, n) == SCALE^2`, the reflected vector's dot with `n` is the
/// negation of the original's (both sides carry the `SCALE^2` of the exact
/// reflection's scaling).
pub proof fn lemma_reflect_dot(v: V3, n: V3)
    requires
        rdot(n, n) == (SCALE * SCALE),
    ensures
        rdot(reflect_exact(v, n), n) == -((SCALE * SCALE) * rdot(v, n)),
{
    let s2 = (SCALE * SCALE) as int;
    let k = rdot(v, n);
    let r = reflect_exact(v, n);
    assert((s2 * v.x - 2 * k * n.x) * n.x == s2 * (v.x * n.x) - 2 * k * (n.x * n.x))
        by (nonlinear_arith);
    assert((s2 * v.y - 2 * k * n.y) * n.y == s2 * (v.y * n.y) - 2 * k * (n.y * n.y))
        by (nonlinear_arith);
    assert((s2 * v.z - 2 * k * n.z) * n.z == s2 * (v.z * n.z) - 2 * k * (n.z * n.z))
        by (nonlinear_arith);
    assert(s2 * (v.x * n.x) + s2 * (v.y * n.y) + s2 * (v.z * n.z) == s2 * k) by (nonlinear_arith)
        requires
            k == v.x * n.x + v.y * n.y + v.z * n.z,
    ;
    assert(2 * k * (n.x * n.x) + 2 * k * (n.y * n.y) + 2 * k * (n.z * n.z) == 2 * k * s2)
        by (nonlinear_arith)
        requires
            n.x * n.x + n.y * n.y + n.z * n.z == s2,
    ;
    assert(rdot(r, n) == r.x * n.x + r.y * n.y + r.z * n.z);
    assert(s2 * k - 2 * k * s2 == -(s2 * k)) by (nonlinear_arith);
}

/// Snell refraction of `v` through a surface with outward normal `n` and
/// index ratio `ratio`, or nothing on total internal reflection.
pub open spec fn refract_spec(v: V3, n: V3, ratio: int) -> Option<V3> {
    let uv = vunit(v);
    let dt = vdot(uv, n);
    let disc = SCALE - fx_mul(fx_mul(ratio, ratio), SCALE - fx_mul(dt, dt));
    if disc > 0 {
        Some(vsub(vscale(vsub(uv, vscale(n, dt)), ratio), vscale(n, sqrt_of(disc * SCALE))))
    } else {
        None
    }
}

/// Snell refraction; `None` means total internal reflection.
pub fn refract(v: Vec3, n: Vec3, in_over_tn: i64) -> (r: Option<Vec3>)
    requires
        v@ != vzero(),
        in_bounds(v@, DIR_MAX as int),
        in_bounds(n@, NORM_MAX as int),
        0 <= in_over_tn <= 4 * SCALE,
    ensures
        match r {
            Some(w) => refract_spec(v@, n@, in_over_tn as int) == Some(w@) && in_bounds(
                w@,
                0x8000000,
            ),
            None => refract_spec(v@, n@, in_over_tn as int) == None::<V3>,
        },
{
    let uv = v.unit_vector();
    proof {
        lemma_vdot_bound(uv@, n@, SCALE as int, NORM_MAX as int);
    }
    let dt = uv.dot(&n);
    proof {
        lemma_fx_mul_bound(dt as int, dt as int, 0x100000, 0x100000);
        lemma_fx_mul_bound(in_over_tn as int, in_over_tn as int, 0x40000, 0x40000);
    }
    let dtt = fxmul(dt, dt);
    let rr = fxmul(in_over_tn, in_over_tn);
    proof {
        lemma_fx_mul_bound(rr as int, (SCALE - dtt) as int, 0x100001, 0x2000000);
    }
    let k = fxmul(rr, SCALE - dtt);
    let disc = SCALE - k;
    if disc > 0 {
        proof {
            assert(0 < (disc as int) * (SCALE as int) <= 0x20010202 * 0x10000)
                by (nonlinear_arith)
                requires
                    0 < disc as int <= 0x20010202,
            ;
        }
        let sq = isqrt(((disc as i128) * (SCALE as i128)) as u128);
        proof {
            if sq >= 0x1000000u128 {
                assert(sq * sq >= 0x1000000u128 * 0x1000000u128) by (nonlinear_arith)
                    requires
                        sq >= 0x1000000u128,
                ;
            }
            lemma_vscale_bound(n@, dt as int, NORM_MAX as int, 0x100000);
            lemma_vscale_bound(
                vsub(uv@, vscale(n@, dt as int)),
                in_over_tn as int,
                0x410001,
                0x40000,
            );
            lemma_vscale_bound(n@, sq as int, NORM_MAX as int, 0x1000000);
        }
        let part1 = uv.sub(n.scale(dt)).scale(in_over_tn);
        let part2 = n.scale(sq as i64);
        Some(part1.sub(part2))
    } else {
        None
    }
}

/// The base reflectance `((1 - n) / (1 + n))^2` of the Schlick
/// approximation.
pub open spec fn r0_spec(ref_idx: int) -> int {
    let q = fx_div(SCALE - ref_idx, SCALE + ref_idx);
    fx_mul(q, q)
}

/// The fifth power, one fixed-point rounding per multiplication.
pub open spec fn pow5_spec(x: int) -> int {
    fx_mul(fx_mul(fx_mul(fx_mul(x, x), x), x), x)
}

/// The Schlick approximation `r0 + (1 - r0) (1 - cosine)^5`.
pub open spec fn schlick_spec(cosine: int, ref_idx: int) -> int {
    r0_spec(ref_idx) + fx_mul(SCALE - r0_spec(ref_idx), pow5_spec(SCALE - cosine))
}

/// The base reflectance is a valid probability: the ratio
/// `(1 - n) / (1 + n)` has magnitude below one for positive `n`.
pub proof fn lemma_r0_range(ref_idx: int)
    requires
        0 < ref_idx,
    ensures
        0 <= r0_spec(ref_idx) <= SCALE,
{
    let q = fx_div(SCALE - ref_idx, SCALE + ref_idx);
    lemma_div_in_unit(SCALE - ref_idx, SCALE + ref_idx);
    assert(0 <= q * q <= (SCALE as int) * (SCALE as int)) by (nonlinear_arith)
        requires
            -SCALE <= q <= SCALE,
    ;
    vstd::arithmetic::div_mod::lemma_div_is_ordered(
        q * q,
        (SCALE as int) * (SCALE as int),
        SCALE as int,
    );
    vstd::arithmetic::div_mod::lemma_div_pos_is_pos(q * q, SCALE as int);
    vstd::arithmetic::div_mod::lemma_div_multiples_vanish(SCALE as int, SCALE as int);
}

/// Maximum cosine magnitude the Schlick evaluation accepts.
pub const COS_MAX: i64 = 0x400000;

/// Schlick's reflectance approximation.
pub fn schlick(cosine: i64, ref_idx: i64) -> (r: i64)
    requires
        -COS_MAX <= cosine <= COS_MAX,
        SCALE / 2 <= ref_idx <= 4 * SCALE,
    ensures
        r == schlick_spec(cosine as int, ref_idx as int),
{
    proof {
        lemma_div_in_unit(SCALE - ref_idx, SCALE + ref_idx);
        lemma_r0_range(ref_idx as int);
    }
    let q = fxdiv(SCALE - ref_idx, SCALE + ref_idx);
    let r0 = fxmul(q, q);
    let x = SCALE - cosine;
    proof {
        lemma_fx_mul_bound(x as int, x as int, 0x500000, 0x500000);
        lemma_fx_mul_bound(fx_mul(x as int, x as int), x as int, 0x20000000, 0x500000);
        lemma_fx_mul_bound(
            fx_mul(fx_mul(x as int, x as int), x as int),
            x as int,
            0x1000000000,
            0x500000,
        );
        lemma_fx_mul_bound(
            fx_mul(fx_mul(fx_mul(x as int, x as int), x as int), x as int),
            x as int,
            0x80000000000,
            0x500000,
        );
    }
    let x2 = fxmul(x, x);
    let x3 = fxmul(x2, x);
    let x4 = fxmul(x3, x);
    let x5 = fxmul(x4, x);
    proof {
        lemma_fx_mul_bound((SCALE - r0) as int, x5 as int, SCALE as int, 0x4000000000000);
    }
    r0 + fxmul(SCALE - r0, x5)
}

/// At head-on incidence the Schlick reflectance is exactly the base
/// reflectance: the `(1 - cosine)^5` term vanishes.
pub proof fn lemma_schlick_at_cosine_one(ref_idx: int)
    requires
        0 < ref_idx,
    ensures
        schlick_spec(SCALE as int, ref_idx) == r0_spec(ref_idx),
{
    vstd::arithmetic::div_mod::lemma_div_of0(SCALE as int);
    assert(pow5_spec(0) == 0) by {
        vstd::arithmetic::mul::lemma_mul_by_zero_is_zero(0);
        vstd::arithmetic::div_mod::lemma_div_of0(SCALE as int);
    }
    vstd::arithmetic::mul::lemma_mul_by_zero_is_zero(SCALE - r0_spec(ref_idx));
    vstd::arithmetic::div_mod::lemma_div_of0(SCALE as int);
}

/// The fifth power preserves order and the unit interval.
proof fn lemma_pow5_mono(x: int, y: int)
    requires
        0 <= x <= y <= SCALE,
    ensures
        0 <= pow5_spec(x) <= pow5_spec(y),
        pow5_spec(y) <= SCALE,
{
    lemma_fx_mul_unit(x, x);
    lemma_fx_mul_unit(y, y);
    lemma_fx_mul_mono2(x, x, y, y);
    let x2 = fx_mul(x, x);
    let y2 = fx_mul(y, y);
    lemma_fx_mul_unit(x2, x);
    lemma_fx_mul_unit(y2, y);
    lemma_fx_mul_mono2(x2, x, y2, y);
    let x3 = fx_mul(x2, x);
    let y3 = fx_mul(y2, y);
    lemma_fx_mul_unit(x3, x);
    lemma_fx_mul_unit(y3, y);
    lemma_fx_mul_mono2(x3, x, y3, y);
    let x4 = fx_mul(x3, x);
    let y4 = fx_mul(y3, y);
    lemma_fx_mul_unit(x4, x);
    lemma_fx_mul_unit(y4, y);
    lemma_fx_mul_mono2(x4, x, y4, y);
    lemma_fx_mul_unit(fx_mul(y4, y), SCALE as int);
}

/// Schlick reflectance is monotonically non-decreasing as the cosine
/// decreases toward grazing incidence.
pub proof fn lemma_schlick_monotone(c1: int, c2: int, ref_idx: int)
    requires
        0 <= c1 <= c2 <= SCALE,
        0 < ref_idx,
    ensures
        schlick_spec(c2, ref_idx) <= schlick_spec(c1, ref_idx),
{
    lemma_r0_range(ref_idx);
    let r0 = r0_spec(ref_idx);
    lemma_pow5_mono(SCALE - c2, SCALE - c1);
    lemma_fx_mul_mono2(SCALE - r0, pow5_spec(SCALE - c2), SCALE - r0, pow5_spec(SCALE - c1));
}

/// The metal scatter direction for a given fuzz sample `p`.
pub open spec fn metal_dir(ray: Ray, rec: HitRecord, fuzz: int, p: V3) -> V3 {
    vadd(reflect_spec(vunit(ray.b@), rec.normal@), vscale(p, fuzz))
}

/// The normal the dielectric refracts through: flipped when the ray exits.
pub open spec fn dielectric_outward(ray: Ray, rec: HitRecord) -> V3 {
    if vdot(ray.b@, rec.normal@) > 0 {
        vneg(rec.normal@)
    } else {
        rec.normal@
    }
}

/// The refraction ratio: the index itself when exiting, its reciprocal
/// when entering.
pub open spec fn dielectric_ratio(ray: Ray, rec: HitRecord, ref_idx: int) -> int {
    if vdot(ray.b@, rec.normal@) > 0 {
        ref_idx
    } else {
        fx_div(SCALE as int, ref_idx)
    }
}

/// The dielectric's refracted direction, when refraction is possible.
pub open spec fn dielectric_refraction(ray: Ray, rec: HitRecord, ref_idx: int) -> Option<V3> {
    refract_spec(ray.b@, dielectric_outward(ray, rec), dielectric_ratio(ray, rec, ref_idx))
}

/// Everything `scatter` promises of its result, per material.  A diffuse
/// surface always scatters toward the normal plus a unit-ball sample; a
/// metal scatters its fuzzed mirror reflection exactly when that leaves
/// the surface outward; a dielectric always scatters, reflecting or
/// refracting, with clear attenuation.
pub open spec fn scatter_post(m: Material, ray: Ray, rec: HitRecord, r: Option<(Vec3, Ray)>) -> bool {
    match m {
        Material::Lambertian { albedo } => match r {
            Some(pair) => pair.0 == albedo && pair.1.a == rec.p && exists|p: V3|
                unit_ball(p) && pair.1.b@ == vadd(rec.normal@, p),
            None => false,
        },
        Material::Metal { albedo, fuzz } => match r {
            Some(pair) => pair.0 == albedo && pair.1.a == rec.p && vdot(pair.1.b@, rec.normal@)
                > 0 && exists|p: V3|
                unit_ball(p) && pair.1.b@ == metal_dir(ray, rec, fuzz as int, p),
            None => exists|p: V3|
                unit_ball(p) && vdot(metal_dir(ray, rec, fuzz as int, p), rec.normal@) <= 0,
        },
        Material::Dielectric { ref_idx } => match r {
            Some(pair) => pair.0 == (Vec3 { x: SCALE, y: SCALE, z: SCALE }) && pair.1.a == rec.p
                && (pair.1.b@ == reflect_spec(vunit(ray.b@), rec.normal@) || dielectric_refraction(
                ray,
                rec,
                ref_idx as int,
            ) == Some(pair.1.b@)),
            None => false,
        },
    }
}

/// Structure of any scattered result: a color attenuation and a
/// well-formed ray leaving the hit point.
pub open spec fn scatter_wf(r: Option<(Vec3, Ray)>) -> bool {
    match r {
        Some(pair) => wf_color(pair.0@) && wf_ray(pair.1),
        None => true,
    }
}

/// The Schlick cosine the dielectric computes is bounded: a direction's
/// dot with a near-unit normal is a small multiple of its length, and the
/// length then cancels.
proof fn lemma_cosine_bound(d: V3, n: V3, ref_idx: int)
    requires
        d != vzero(),
        in_bounds(n, NORM_MAX as int),
        0 < ref_idx <= 4 * SCALE,
    ensures
        -(COS_MAX as int) <= fx_div(-vdot(d, n), vlen(d)) <= COS_MAX as int,
        -(COS_MAX as int) <= fx_div(fx_mul(ref_idx, vdot(d, n)), vlen(d)) <= COS_MAX as int,
{
    let s = SCALE as int;
    let l = vlen(d);
    lemma_nonzero_len(d);
    lemma_rdot_len_bound(d, n, NORM_MAX as int);
    let nm = NORM_MAX as int;
    assert(3 * (nm * l) == s * (12 * l)) by (nonlinear_arith)
        requires
            nm == 0x40000,
            s == 0x10000,
    ;
    let dot = vdot(d, n);
    vstd::arithmetic::div_mod::lemma_div_is_ordered(rdot(d, n), s * (12 * l), s);
    vstd::arithmetic::div_mod::lemma_div_is_ordered(-(s * (12 * l)), rdot(d, n), s);
    assert(-(s * (12 * l)) == s * (-(12 * l))) by (nonlinear_arith);
    vstd::arithmetic::div_mod::lemma_div_multiples_vanish(12 * l, s);
    vstd::arithmetic::div_mod::lemma_div_multiples_vanish(-(12 * l), s);
    assert(-(12 * l) <= dot <= 12 * l);
    assert(-(l * (12 * s)) <= (-dot) * s <= l * (12 * s)) by (nonlinear_arith)
        requires
            -(12 * l) <= dot <= 12 * l,
            s > 0,
    ;
    vstd::arithmetic::div_mod::lemma_div_is_ordered((-dot) * s, l * (12 * s), l);
    vstd::arithmetic::div_mod::lemma_div_is_ordered(-(l * (12 * s)), (-dot) * s, l);
    assert(-(l * (12 * s)) == l * (-(12 * s))) by (nonlinear_arith);
    vstd::arithmetic::div_mod::lemma_div_multiples_vanish(12 * s, l);
    vstd::arithmetic::div_mod::lemma_div_multiples_vanish(-(12 * s), l);
    let m1 = fx_mul(ref_idx, dot);
    assert(-(s * (48 * l)) <= ref_idx * dot <= s * (48 * l)) by (nonlinear_arith)
        requires
            0 < ref_idx <= 4 * s,
            -(12 * l) <= dot <= 12 * l,
            s > 0,
            l >= 1,
    ;
    vstd::arithmetic::div_mod::lemma_div_is_ordered(ref_idx * dot, s * (48 * l), s);
    vstd::arithmetic::div_mod::lemma_div_is_ordered(-(s * (48 * l)), ref_idx * dot, s);
    assert(-(s * (48 * l)) == s * (-(48 * l))) by (nonlinear_arith);
    vstd::arithmetic::div_mod::lemma_div_multiples_vanish(48 * l, s);
    vstd::arithmetic::div_mod::lemma_div_multiples_vanish(-(48 * l), s);
    assert(-(48 * l) <= m1 <= 48 * l);
    assert(-(l * (48 * s)) <= m1 * s <= l * (48 * s)) by (nonlinear_arith)
        requires
            -(48 * l) <= m1 <= 48 * l,
            s > 0,
    ;
    vstd::arithmetic::div_mod::lemma_div_is_ordered(m1 * s, l * (48 * s), l);
    vstd::arithmetic::div_mod::lemma_div_is_ordered(-(l * (48 * s)), m1 * s, l);
    assert(-(l * (48 * s)) == l * (-(48 * s))) by (nonlinear_arith);
    vstd::arithmetic::div_mod::lemma_div_multiples_vanish(48 * s, l);
    vstd::arithmetic::div_mod::lemma_div_multiples_vanish(-(48 * s), l);
}

impl Material {
    /// Scatter an incoming ray at a hit: a diffuse bounce, a fuzzed mirror
    /// reflection, or refraction against reflection chosen by Schlick
    /// reflectance.  `None` means the ray was absorbed.
    pub fn scatter(&self, ray_in: &Ray, rec: &HitRecord) -> (r: Option<(Vec3, Ray)>)
        requires
            wf_material(*self),
            wf_ray(*ray_in),
            wf_hit(*rec),
            ray_in.b@ != vzero(),
        ensures
            scatter_post(*self, *ray_in, *rec, r),
            scatter_wf(r),
    {
        match *self {
            Material::Lambertian { albedo } => {
                let offset = random_in_unit_sphere();
                let dir = rec.normal.add(offset);
                let scattered = Ray { a: rec.p, b: dir };
                proof {
                    assert(unit_ball(offset@) && scattered.b@ == vadd(rec.normal@, offset@));
                }
                Some((albedo, scattered))
            },
            Material::Metal { albedo, fuzz } => {
                let unit_d = ray_in.b.unit_vector();
                let reflected = reflect(unit_d, rec.normal);
                let offset = random_in_unit_sphere();
                proof {
                    lemma_vscale_bound(offset@, fuzz as int, SCALE as int, SCALE as int);
                }
                let dir = reflected.add(offset.scale(fuzz));
                let scattered = Ray { a: rec.p, b: dir };
                proof {
                    lemma_vdot_bound(scattered.b@, rec.normal@, 0x2010001, NORM_MAX as int);
                    assert(unit_ball(offset@) && scattered.b@ == metal_dir(
                        *ray_in,
                        *rec,
                        fuzz as int,
                        offset@,
                    ));
                }
                let d = scattered.b.dot(&rec.normal);
                if d > 0 {
                    Some((albedo, scattered))
                } else {
                    None
                }
            },
            Material::Dielectric { ref_idx } => {
                proof {
                    lemma_vdot_bound(ray_in.b@, rec.normal@, DIR_MAX as int, NORM_MAX as int);
                    lemma_nonzero_len(ray_in.b@);
                    lemma_cosine_bound(ray_in.b@, rec.normal@, ref_idx as int);
                }
                let d_dot_n = ray_in.b.dot(&rec.normal);
                let unit_d = ray_in.b.unit_vector();
                let reflected = reflect(unit_d, rec.normal);
                let len_d = ray_in.b.length();
                let outward: Vec3;
                let ratio: i64;
                let cosine: i64;
                if d_dot_n > 0 {
                    proof {
                        lemma_fx_mul_bound(
                            ref_idx as int,
                            d_dot_n as int,
                            0x40000,
                            0xc000000001,
                        );
                    }
                    outward = rec.normal.neg();
                    ratio = ref_idx;
                    cosine = fxdiv(fxmul(ref_idx, d_dot_n), len_d);
                } else {
                    proof {
                        lemma_div_magnitude((SCALE as int) * (SCALE as int), ref_idx as int);
                        vstd::arithmetic::div_mod::lemma_div_pos_is_pos(
                            (SCALE as int) * (SCALE as int),
                            ref_idx as int,
                        );
                        vstd::arithmetic::div_mod::lemma_div_is_ordered_by_denominator(
                            (SCALE as int) * (SCALE as int),
                            (SCALE / 2) as int,
                            ref_idx as int,
                        );
                    }
                    outward = rec.normal;
                    ratio = fxdiv(SCALE, ref_idx);
                    cosine = fxdiv(-d_dot_n, len_d);
                }
                let refracted = refract(ray_in.b, outward, ratio);
                let reflect_prob: i64 = if refracted.is_some() {
                    schlick(cosine, ref_idx)
                } else {
                    SCALE
                };
                let frand = random_in_range(0, SCALE);
                let dir: Vec3 = if frand < reflect_prob {
                    reflected
                } else {
                    match refracted {
                        Some(w) => w,
                        None => reflected,
                    }
                };
                let scattered = Ray { a: rec.p, b: dir };
                let attenuation = Vec3 { x: SCALE, y: SCALE, z: SCALE };
                Some((attenuation, scattered))
            },
        }
    }
}

} // verus!
