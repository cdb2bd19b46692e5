//! The world of objects and the thin-lens camera.

use vstd::prelude::*;

verus! {

use crate::fixed::SCALE;
use crate::fixed::fx_mul;
use crate::fixed::fxmul;
use crate::ray::Ray;
use crate::shapes::CEN_MAX;
use crate::shapes::DIR_MAX;
use crate::shapes::HitMath;
use crate::shapes::HitRecord;
use crate::shapes::Hitable;
use crate::shapes::POS_MAX;
use crate::shapes::Sphere;
use crate::shapes::T_MAX;
use crate::shapes::sphere_hit;
use crate::shapes::to_math;
use crate::shapes::wf_hit;
use crate::shapes::wf_ray;
use crate::shapes::wf_sphere;
use crate::vector3::V3;
use crate::vector3::Vec3;
use crate::vector3::in_bounds;
use crate::vector3::lemma_vcross_bound;
use crate::vector3::lemma_vscale_bound;
use crate::vector3::vadd;
use crate::vector3::vcross;
use crate::vector3::vscale;
use crate::vector3::vsub;
use crate::vector3::vunit;
use crate::vector3::vzero;
use vstd::seq_lib::lemma_seq_skip_of_skip;

/// The aggregate of all objects a ray can strike.
pub struct World {
    pub hitables: Vec<Sphere>,
}

/// Every sphere of the world is well-formed.
pub open spec fn wf_world(w: World) -> bool {
    forall|i: int| 0 <= i < w.hitables@.len() ==> wf_sphere(#[trigger] w.hitables@[i])
}

/// The nearest-hit fold over the spheres in scan order: the front sphere
/// is tried over the whole interval, and later spheres only count when
/// strictly nearer than the hit found so far — a tie keeps the earlier
/// object.
pub open spec fn world_hit(spheres: Seq<Sphere>, ray: Ray, tmin: int, tmax: int) -> Option<
    HitMath,
>
    decreases spheres.len(),
{
    if spheres.len() == 0 {
        None
    } else {
        match sphere_hit(spheres[0], ray, tmin, tmax) {
            Some(h) => match world_hit(spheres.skip(1), ray, tmin, h.t) {
                Some(h2) => Some(h2),
                None => Some(h),
            },
            None => world_hit(spheres.skip(1), ray, tmin, tmax),
        }
    }
}

/// A world hit lies strictly inside the queried interval.
pub proof fn lemma_world_hit_in_interval(spheres: Seq<Sphere>, ray: Ray, tmin: int, tmax: int)
    ensures
        match world_hit(spheres, ray, tmin, tmax) {
            Some(h) => tmin < h.t < tmax,
            None => true,
        },
    decreases spheres.len(),
{
    if spheres.len() > 0 {
        match sphere_hit(spheres[0], ray, tmin, tmax) {
            Some(h0) => {
                lemma_world_hit_in_interval(spheres.skip(1), ray, tmin, h0.t);
            },
            None => {
                lemma_world_hit_in_interval(spheres.skip(1), ray, tmin, tmax);
            },
        }
    }
}

/// When the world reports nothing over an interval, no sphere reports
/// anything over it either.
pub proof fn lemma_world_hit_none(spheres: Seq<Sphere>, ray: Ray, tmin: int, tmax: int)
    requires
        world_hit(spheres, ray, tmin, tmax) == None::<HitMath>,
    ensures
        forall|i: int|
            0 <= i < spheres.len() ==> sphere_hit(#[trigger] spheres[i], ray, tmin, tmax)
                == None::<HitMath>,
    decreases spheres.len(),
{
    if spheres.len() > 0 {
        lemma_world_hit_none(spheres.skip(1), ray, tmin, tmax);
        assert forall|i: int| 0 <= i < spheres.len() implies sphere_hit(
            #[trigger] spheres[i],
            ray,
            tmin,
            tmax,
        ) == None::<HitMath> by {
            if i > 0 {
                assert(spheres.skip(1)[i - 1] == spheres[i]);
            }
        }
    }
}

/// The reported hit is the nearest: at its distance, every sphere's
/// intersection with the ray is already empty — which also makes the
/// scan-order tie-break irrelevant to the distance itself.
pub proof fn lemma_world_hit_nearest(
    spheres: Seq<Sphere>,
    ray: Ray,
    tmin: int,
    tmax: int,
    h: HitMath,
)
    requires
        world_hit(spheres, ray, tmin, tmax) == Some(h),
    ensures
        forall|i: int|
            0 <= i < spheres.len() ==> sphere_hit(#[trigger] spheres[i], ray, tmin, h.t)
                == None::<HitMath>,
    decreases spheres.len(),
{
    let rest = spheres.skip(1);
    match sphere_hit(spheres[0], ray, tmin, tmax) {
        Some(h0) => {
            match world_hit(rest, ray, tmin, h0.t) {
                Some(h2) => {
                    lemma_world_hit_in_interval(rest, ray, tmin, h0.t);
                    crate::shapes::lemma_sphere_hit_below(spheres[0], ray, tmin, tmax, h.t, h0);
                    lemma_world_hit_nearest(rest, ray, tmin, h0.t, h);
                },
                None => {
                    lemma_world_hit_none(rest, ray, tmin, h0.t);
                    crate::shapes::lemma_sphere_hit_below(spheres[0], ray, tmin, tmax, h.t, h0);
                },
            }
        },
        None => {
            lemma_world_hit_in_interval(rest, ray, tmin, tmax);
            crate::shapes::lemma_sphere_hit_shrink(spheres[0], ray, tmin, tmax, h.t);
            lemma_world_hit_nearest(rest, ray, tmin, tmax, h);
        },
    }
    assert forall|i: int| 0 <= i < spheres.len() implies sphere_hit(
        #[trigger] spheres[i],
        ray,
        tmin,
        h.t,
    ) == None::<HitMath> by {
        if i > 0 {
            assert(spheres.skip(1)[i - 1] == spheres[i]);
        }
    }
}

impl World {
    /// The nearest hit with parameter strictly inside `(tmin, tmax)`:
    /// a linear scan that narrows the admissible interval to each hit
    /// found, so an exactly equal distance keeps the earlier object.
    pub fn hit_anything(&self, tmin: i64, tmax: i64, ray: &Ray) -> (r: Option<HitRecord>)
        requires
            wf_world(*self),
            wf_ray(*ray),
            -T_MAX <= tmin <= T_MAX,
            -T_MAX <= tmax <= T_MAX,
        ensures
            match r {
                Some(h) => world_hit(self.hitables@, *ray, tmin as int, tmax as int) == Some(
                    to_math(h),
                ) && wf_hit(h) && tmin < h.t < tmax,
                None => world_hit(self.hitables@, *ray, tmin as int, tmax as int) == None::<
                    HitMath,
                >,
            },
    {
        let mut best: Option<HitRecord> = None;
        let mut closest: i64 = tmax;
        let n = self.hitables.len();
        let mut i: usize = 0;
        proof {
            assert(self.hitables@.skip(0) =~= self.hitables@);
        }
        while i < n
            invariant
                n == self.hitables@.len(),
                0 <= i <= n,
                wf_world(*self),
                wf_ray(*ray),
                -T_MAX <= tmin <= T_MAX,
                -T_MAX <= tmax <= T_MAX,
                -T_MAX <= closest <= T_MAX,
                match best {
                    Some(h) => closest == h.t && wf_hit(h) && tmin < h.t < tmax && world_hit(
                        self.hitables@,
                        *ray,
                        tmin as int,
                        tmax as int,
                    ) == (match world_hit(
                        self.hitables@.skip(i as int),
                        *ray,
                        tmin as int,
                        closest as int,
                    ) {
                        Some(h2) => Some(h2),
                        None => Some(to_math(h)),
                    }),
                    None => closest == tmax && world_hit(
                        self.hitables@,
                        *ray,
                        tmin as int,
                        tmax as int,
                    ) == world_hit(
                        self.hitables@.skip(i as int),
                        *ray,
                        tmin as int,
                        closest as int,
                    ),
                },
            decreases n - i,
        {
            let ghost i0 = i as int;
            let sphere = &self.hitables[i];
            let rec = sphere.hit(ray, tmin, closest);
            proof {
                lemma_seq_skip_of_skip(self.hitables@, i0, 1);
                assert(self.hitables@.skip(i0)[0] == self.hitables@[i0]);
                assert(self.hitables@.skip(i0).skip(1) == self.hitables@.skip(i0 + 1));
            }
            match rec {
                Some(h) => {
                    closest = h.t;
                    best = Some(h);
                },
                None => {},
            }
            i = i + 1;
        }
        proof {
            assert(self.hitables@.skip(n as int) =~= Seq::<Sphere>::empty());
        }
        best
    }
}

/// The thin-lens camera: an image-plane basis scaled to the focus
/// distance, plus a lens radius for depth of field.
pub struct Camera {
    pub lower_left_corner: Vec3,
    pub horizontal: Vec3,
    pub vertical: Vec3,
    pub origin: Vec3,
    pub u: Vec3,
    pub v: Vec3,
    pub lens_radius: i64,
}

/// The camera's backward axis: from the target toward the eye.
pub open spec fn cam_w(from: V3, at: V3) -> V3 {
    vunit(vsub(from, at))
}

/// The camera's right axis.
pub open spec fn cam_u(from: V3, at: V3, up: V3) -> V3 {
    vunit(vcross(up, cam_w(from, at)))
}

/// The camera's up axis.
pub open spec fn cam_v(from: V3, at: V3, up: V3) -> V3 {
    vcross(cam_w(from, at), cam_u(from, at, up))
}

/// Field bounds under which `get_ray` produces a well-formed ray.
pub open spec fn camera_wf(c: Camera) -> bool {
    in_bounds(c.origin@, CEN_MAX as int) && in_bounds(c.lower_left_corner@, POS_MAX as int)
        && in_bounds(vsub(c.lower_left_corner@, c.origin@), 0x800000000) && in_bounds(
        c.horizontal@,
        0x200000000,
    ) && in_bounds(c.vertical@, 0x200000000) && in_bounds(c.u@, 0x20001) && in_bounds(
        c.v@,
        0x20001,
    ) && 0 <= c.lens_radius <= 0x80000
}

/// A sample of the open unit disk: coordinates in `[-1, 1]` with squared
/// radius strictly under one.
pub open spec fn unit_disk(dx: int, dy: int) -> bool {
    -SCALE <= dx <= SCALE && -SCALE <= dy <= SCALE && fx_mul(dx, dx) + fx_mul(dy, dy) < SCALE
}

/// The lens offset for a disk sample `(dx, dy)`, scaled by the lens radius
/// along the camera's right and up axes.
pub open spec fn lens_offset(c: Camera, dx: int, dy: int) -> V3 {
    vadd(
        vscale(c.u@, fx_mul(c.lens_radius as int, dx)),
        vscale(c.v@, fx_mul(c.lens_radius as int, dy)),
    )
}

/// The origin of the ray for lens sample `(dx, dy)`.
pub open spec fn ray_origin_for(c: Camera, dx: int, dy: int) -> V3 {
    vadd(c.origin@, lens_offset(c, dx, dy))
}

/// The direction of the ray through image coordinates `(s, t)` for lens
/// sample `(dx, dy)`: toward the focus-plane point, back from the offset
/// origin, so all rays of one pixel converge at the focus plane.
pub open spec fn ray_dir_for(c: Camera, s: int, t: int, dx: int, dy: int) -> V3 {
    vsub(
        vsub(
            vadd(vadd(c.lower_left_corner@, vscale(c.horizontal@, s)), vscale(c.vertical@, t)),
            c.origin@,
        ),
        lens_offset(c, dx, dy),
    )
}

/// A point of the open unit disk by rejection sampling; after a bounded
/// number of rejected draws the center is returned.
fn random_in_unit_disk() -> (r: (i64, i64))
    ensures
        unit_disk(r.0 as int, r.1 as int),
{
    let mut tries: u32 = 0;
    while tries < 64
        decreases 64 - tries,
    {
        let dx = crate::shapes::random_in_range(-SCALE, SCALE);
        let dy = crate::shapes::random_in_range(-SCALE, SCALE);
        proof {
            crate::fixed::lemma_fx_mul_bound(dx as int, dx as int, SCALE as int, SCALE as int);
            crate::fixed::lemma_fx_mul_bound(dy as int, dy as int, SCALE as int, SCALE as int);
        }
        if fxmul(dx, dx) + fxmul(dy, dy) < SCALE {
            return (dx, dy);
        }
        tries = tries + 1;
    }
    proof {
        vstd::arithmetic::div_mod::lemma_div_of0(SCALE as int);
    }
    (0, 0)
}

impl Camera {
    /// Builds the camera from eye, target and up, the tangent of half the
    /// vertical field of view, the aspect ratio, the aperture and the
    /// focus distance.  The image-plane corner and spans are scaled by the
    /// focus distance, so blur is independent of focal length.
    pub fn new(
        look_from: Vec3,
        look_at: Vec3,
        vup: Vec3,
        tan_half_vfov: i64,
        aspect: i64,
        aperture: i64,
        focus_dist: i64,
    ) -> (c: Camera)
        requires
            in_bounds(look_from@, CEN_MAX as int),
            in_bounds(look_at@, CEN_MAX as int),
            in_bounds(vup@, DIR_MAX as int),
            vsub(look_from@, look_at@) != vzero(),
            vcross(vup@, cam_w(look_from@, look_at@)) != vzero(),
            0 < tan_half_vfov <= 4 * SCALE,
            0 < aspect <= 4 * SCALE,
            0 <= aperture <= 0x100000,
            0 < focus_dist <= 0x4000000,
        ensures
            c.origin == look_from,
            c.u@ == cam_u(look_from@, look_at@, vup@),
            c.v@ == cam_v(look_from@, look_at@, vup@),
            c.lens_radius == aperture as int / 2,
            c.horizontal@ == vscale(
                cam_u(look_from@, look_at@, vup@),
                2 * fx_mul(fx_mul(aspect as int, tan_half_vfov as int), focus_dist as int),
            ),
            c.vertical@ == vscale(
                cam_v(look_from@, look_at@, vup@),
                2 * fx_mul(tan_half_vfov as int, focus_dist as int),
            ),
            c.lower_left_corner@ == vsub(
                vsub(
                    vsub(
                        look_from@,
                        vscale(
                            cam_u(look_from@, look_at@, vup@),
                            fx_mul(
                                fx_mul(aspect as int, tan_half_vfov as int),
                                focus_dist as int,
                            ),
                        ),
                    ),
                    vscale(
                        cam_v(look_from@, look_at@, vup@),
                        fx_mul(tan_half_vfov as int, focus_dist as int),
                    ),
                ),
                vscale(cam_w(look_from@, look_at@), focus_dist as int),
            ),
            camera_wf(c),
    {
        proof {
            crate::fixed::lemma_fx_mul_bound(
                aspect as int,
                tan_half_vfov as int,
                0x40000,
                0x40000,
            );
        }
        let half_width = fxmul(aspect, tan_half_vfov);
        proof {
            crate::fixed::lemma_fx_mul_bound(
                half_width as int,
                focus_dist as int,
                0x100001,
                0x4000000,
            );
            crate::fixed::lemma_fx_mul_bound(
                tan_half_vfov as int,
                focus_dist as int,
                0x40000,
                0x4000000,
            );
        }
        let hwf = fxmul(half_width, focus_dist);
        let hhf = fxmul(tan_half_vfov, focus_dist);
        let w = look_from.sub(look_at).unit_vector();
        proof {
            lemma_vcross_bound(vup@, w@, DIR_MAX as int, SCALE as int);
        }
        let u2 = vup.cross(&w).unit_vector();
        proof {
            lemma_vcross_bound(w@, u2@, SCALE as int, SCALE as int);
            lemma_vscale_bound(u2@, hwf as int, SCALE as int, 0x40000401);
            lemma_vscale_bound(vcross(w@, u2@), hhf as int, 2 * SCALE as int + 1, 0x10000001);
            lemma_vscale_bound(w@, focus_dist as int, SCALE as int, 0x4000000);
            lemma_vscale_bound(u2@, 2 * hwf as int, SCALE as int, 0x80000802);
            lemma_vscale_bound(
                vcross(w@, u2@),
                2 * hhf as int,
                2 * SCALE as int + 1,
                0x20000002,
            );
        }
        let v2 = w.cross(&u2);
        let lower_left_corner = look_from.sub(u2.scale(hwf)).sub(v2.scale(hhf)).sub(
            w.scale(focus_dist),
        );
        let horizontal = u2.scale(2 * hwf);
        let vertical = v2.scale(2 * hhf);
        let lens_radius = ((aperture as u64) / 2) as i64;
        Camera {
            lower_left_corner,
            horizontal,
            vertical,
            origin: look_from,
            u: u2,
            v: v2,
            lens_radius,
        }
    }

    /// The ray through normalized image coordinates `(s, t)`: its origin
    /// is jittered across the lens disk, and with a zero aperture it is a
    /// fixed function of `(s, t)` alone.
    pub fn get_ray(&self, s: i64, t: i64) -> (r: Ray)
        requires
            camera_wf(*self),
            0 <= s <= SCALE,
            0 <= t <= SCALE,
        ensures
            exists|d: (int, int)|
                unit_disk(d.0, d.1) && r.a@ == ray_origin_for(*self, d.0, d.1) && r.b@
                    == ray_dir_for(*self, s as int, t as int, d.0, d.1),
            self.lens_radius == 0 ==> r.a@ == self.origin@ && r.b@ == ray_dir_for(
                *self,
                s as int,
                t as int,
                0,
                0,
            ),
            wf_ray(r),
    {
        let sample = random_in_unit_disk();
        let dx = sample.0;
        let dy = sample.1;
        proof {
            crate::fixed::lemma_fx_mul_bound(
                self.lens_radius as int,
                dx as int,
                0x80000,
                SCALE as int,
            );
            crate::fixed::lemma_fx_mul_bound(
                self.lens_radius as int,
                dy as int,
                0x80000,
                SCALE as int,
            );
        }
        let rdx = fxmul(self.lens_radius, dx);
        let rdy = fxmul(self.lens_radius, dy);
        proof {
            lemma_vscale_bound(self.u@, rdx as int, 0x20001, 0x80001);
            lemma_vscale_bound(self.v@, rdy as int, 0x20001, 0x80001);
            lemma_vscale_bound(self.horizontal@, s as int, 0x200000000, SCALE as int);
            lemma_vscale_bound(self.vertical@, t as int, 0x200000000, SCALE as int);
        }
        let offset = self.u.scale(rdx).add(self.v.scale(rdy));
        let origin2 = self.origin.add(offset);
        let dir = self.lower_left_corner.add(self.horizontal.scale(s)).add(
            self.vertical.scale(t),
        ).sub(self.origin).sub(offset);
        let r = Ray { a: origin2, b: dir };
        proof {
            let di = (dx as int, dy as int);
            assert(unit_disk(di.0, di.1) && r.a@ == ray_origin_for(*self, di.0, di.1) && r.b@
                == ray_dir_for(*self, s as int, t as int, di.0, di.1));
            if self.lens_radius == 0 {
                vstd::arithmetic::mul::lemma_mul_by_zero_is_zero(dx as int);
                vstd::arithmetic::mul::lemma_mul_by_zero_is_zero(dy as int);
                vstd::arithmetic::div_mod::lemma_div_of0(SCALE as int);
                assert(rdx == 0 && rdy == 0);
                vstd::arithmetic::mul::lemma_mul_by_zero_is_zero(self.u@.x);
                vstd::arithmetic::mul::lemma_mul_by_zero_is_zero(self.u@.y);
                vstd::arithmetic::mul::lemma_mul_by_zero_is_zero(self.u@.z);
                vstd::arithmetic::mul::lemma_mul_by_zero_is_zero(self.v@.x);
                vstd::arithmetic::mul::lemma_mul_by_zero_is_zero(self.v@.y);
                vstd::arithmetic::mul::lemma_mul_by_zero_is_zero(self.v@.z);
                assert(offset@ == vzero());
            }
        }
        r
    }
}

} // verus!
