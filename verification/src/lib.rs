//! A recursive Monte-Carlo ray tracer over fixed-point arithmetic.
//!
//! Scalars are signed 64-bit fixed-point numbers with `SCALE` units to one:
//! a stored value `v` stands for the real number `v / SCALE`.  All geometry,
//! shading and camera work is done on these integers, so every function can
//! carry an exact contract.

use vstd::prelude::*;

pub mod fixed;
pub mod ray;
pub mod scene;
pub mod shapes;
pub mod vector3;

verus! {

use crate::fixed::SCALE;
use crate::fixed::fx_mul;
use crate::fixed::fxmul;
use crate::fixed::lemma_fx_mul_unit;
use crate::ray::Ray;
use crate::scene::World;
use crate::scene::wf_world;
use crate::scene::world_hit;
use crate::shapes::HitMath;
use crate::shapes::T_MAX;
use crate::shapes::wf_color;
use crate::shapes::wf_ray;
use crate::vector3::V3;
use crate::vector3::Vec3;
use crate::vector3::lemma_vscale_bound;
use crate::vector3::vadd;
use crate::vector3::vscale;
use crate::vector3::vunit;
use crate::vector3::vzero;

/// Lower bound of the bounce interval, a little above zero so a scattered
/// ray cannot immediately re-strike the surface it just left.
pub const T_MIN_BOUNCE: i64 = 66;

/// Hard cap on the recursion depth; reaching it contributes black.
pub const MAX_DEPTH: usize = 50;

/// Red and green zenith channels of the sky gradient (one half and about
/// seven tenths); the blue channel is full.
pub const SKY_ZENITH_R: i64 = 32768;

pub const SKY_ZENITH_G: i64 = 45875;

/// The sky gradient: a blend from white at the horizon to blue at the
/// zenith, driven by the vertical component of the unit direction.
pub open spec fn sky_spec(unit_dir: V3) -> V3 {
    let t = fx_mul(32768, unit_dir.y + SCALE);
    vadd(
        vscale(V3 { x: SCALE as int, y: SCALE as int, z: SCALE as int }, SCALE - t),
        vscale(
            V3 { x: SKY_ZENITH_R as int, y: SKY_ZENITH_G as int, z: SCALE as int },
            t,
        ),
    )
}

/// Radiance seen along a ray: the sky on a miss, black at the recursion
/// bound or on absorption, and attenuation times the recursively traced
/// scattered ray otherwise.  Every channel of the result lies in `[0, 1]`.
pub fn color(ray: Ray, world: &World, depth: usize) -> (c: Vec3)
    requires
        wf_world(*world),
        wf_ray(ray),
    ensures
        wf_color(c@),
        ray.b@ == vzero() ==> c@ == vzero(),
        (ray.b@ != vzero() && world_hit(
            world.hitables@,
            ray,
            T_MIN_BOUNCE as int,
            T_MAX as int,
        ) == None::<HitMath>) ==> c@ == sky_spec(vunit(ray.b@)),
        (depth >= MAX_DEPTH && world_hit(
            world.hitables@,
            ray,
            T_MIN_BOUNCE as int,
            T_MAX as int,
        ) != None::<HitMath>) ==> c@ == vzero(),
    decreases (if depth < MAX_DEPTH {
        MAX_DEPTH - depth
    } else {
        0
    }),
{
    if ray.b.x == 0 && ray.b.y == 0 && ray.b.z == 0 {
        return Vec3 { x: 0, y: 0, z: 0 };
    }
    let possible_hit = world.hit_anything(T_MIN_BOUNCE, T_MAX, &ray);
    match possible_hit {
        Some(rec) => {
            if depth < MAX_DEPTH {
                let possible_scatter = rec.material.scatter(&ray, &rec);
                match possible_scatter {
                    Some(pair) => {
                        let traced = color(pair.1, world, depth + 1);
                        proof {
                            lemma_fx_mul_unit(pair.0@.x, traced@.x);
                            lemma_fx_mul_unit(pair.0@.y, traced@.y);
                            lemma_fx_mul_unit(pair.0@.z, traced@.z);
                        }
                        pair.0.mul_elem(traced)
                    },
                    None => Vec3 { x: 0, y: 0, z: 0 },
                }
            } else {
                Vec3 { x: 0, y: 0, z: 0 }
            }
        },
        None => {
            let unit_direction = ray.b.unit_vector();
            let t = fxmul(32768, unit_direction.y + SCALE);
            proof {
                crate::fixed::lemma_div_scale_sandwich(
                    32768 * (unit_direction@.y + SCALE),
                    0x100000000,
                );
                assert(0 <= fx_mul(32768, unit_direction@.y + SCALE) <= SCALE) by {
                    vstd::arithmetic::div_mod::lemma_div_pos_is_pos(
                        32768 * (unit_direction@.y + SCALE),
                        SCALE as int,
                    );
                    vstd::arithmetic::div_mod::lemma_div_is_ordered(
                        32768 * (unit_direction@.y + SCALE),
                        (SCALE as int) * (SCALE as int),
                        SCALE as int,
                    );
                    vstd::arithmetic::div_mod::lemma_div_multiples_vanish(
                        SCALE as int,
                        SCALE as int,
                    );
                    assert(32768 * (unit_direction@.y + SCALE) <= (SCALE as int) * (
                    SCALE as int)) by (nonlinear_arith)
                        requires
                            unit_direction@.y <= SCALE,
                    ;
                    assert(0 <= 32768 * (unit_direction@.y + SCALE)) by (nonlinear_arith)
                        requires
                            unit_direction@.y >= -SCALE,
                    ;
                }
            }
            let start_value = Vec3 { x: SCALE, y: SCALE, z: SCALE };
            let end_value = Vec3 { x: SKY_ZENITH_R, y: SKY_ZENITH_G, z: SCALE };
            proof {
                lemma_vscale_bound(start_value@, (SCALE - t) as int, SCALE as int, SCALE as int);
                lemma_vscale_bound(end_value@, t as int, SCALE as int, SCALE as int);
                lemma_fx_mul_unit(start_value@.x, (SCALE - t) as int);
                lemma_fx_mul_unit(start_value@.y, (SCALE - t) as int);
                lemma_fx_mul_unit(start_value@.z, (SCALE - t) as int);
                lemma_fx_mul_unit(end_value@.x, t as int);
                lemma_fx_mul_unit(end_value@.y, t as int);
                lemma_fx_mul_unit(end_value@.z, t as int);
            }
            start_value.scale(SCALE - t).add(end_value.scale(t))
        },
    }
}

} // verus!
