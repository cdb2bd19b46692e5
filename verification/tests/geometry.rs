use ray_tracer::fixed::SCALE;
use ray_tracer::ray::Ray;
use ray_tracer::scene::World;
use ray_tracer::shapes::{Hitable, Material, Sphere, T_MAX};
use ray_tracer::vector3::Vec3;

fn v(x: i64, y: i64, z: i64) -> Vec3 {
    Vec3 { x, y, z }
}

fn white_lambertian() -> Material {
    Material::Lambertian { albedo: v(SCALE, SCALE, SCALE) }
}

#[test]
fn ray_point_at_parameter() {
    let r = Ray { a: v(SCALE, 0, 0), b: v(0, 0, -SCALE) };
    assert_eq!(r.origin(), v(SCALE, 0, 0));
    assert_eq!(r.direction(), v(0, 0, -SCALE));
    assert_eq!(r.point_at_parameter(2 * SCALE), v(SCALE, 0, -2 * SCALE));
}

#[test]
fn head_on_hit_t_is_distance_minus_radius() {
    // Ray aimed at the center from two units away, radius one half:
    // t == 2 - 0.5 == 1.5, and the normal is parallel to the direction.
    let s = Sphere { center: v(0, 0, -2 * SCALE), radius: SCALE / 2, material: white_lambertian() };
    let r = Ray { a: v(0, 0, 0), b: v(0, 0, -SCALE) };
    let h = s.hit(&r, 66, T_MAX).expect("head-on ray must hit");
    assert_eq!(h.t, 3 * SCALE / 2);
    assert_eq!(h.normal, v(0, 0, SCALE));
    assert_eq!(h.p, v(0, 0, -3 * SCALE / 2));
}

#[test]
fn unit_sphere_first_hit() {
    // One sphere at (0,0,-1) of radius 0.5, ray from the origin toward it:
    // the first hit is at t == 0.5 with normal (0,0,1).
    let s = Sphere { center: v(0, 0, -SCALE), radius: SCALE / 2, material: white_lambertian() };
    let r = Ray { a: v(0, 0, 0), b: v(0, 0, -SCALE) };
    let h = s.hit(&r, 66, T_MAX).expect("must hit");
    assert_eq!(h.t, SCALE / 2);
    assert_eq!(h.normal, v(0, 0, SCALE));
}

#[test]
fn hit_point_lies_on_the_sphere() {
    let s = Sphere { center: v(0, 0, -SCALE), radius: SCALE / 2, material: white_lambertian() };
    let r = Ray { a: v(0, 0, 0), b: v(0, 0, -SCALE) };
    let h = s.hit(&r, 66, T_MAX).expect("must hit");
    let d = h.p.sub(s.center);
    assert_eq!(d.length(), SCALE / 2);
}

#[test]
fn negative_radius_flips_the_normal() {
    // Same geometry with radius -0.5: same hit parameter, inward normal,
    // and the hit point still at radius distance from the center.
    let s = Sphere { center: v(0, 0, -SCALE), radius: -(SCALE / 2), material: white_lambertian() };
    let r = Ray { a: v(0, 0, 0), b: v(0, 0, -SCALE) };
    let h = s.hit(&r, 66, T_MAX).expect("must hit");
    assert_eq!(h.t, SCALE / 2);
    assert_eq!(h.normal, v(0, 0, -SCALE));
    let d = h.p.sub(s.center);
    assert_eq!(d.length(), SCALE / 2);
}

#[test]
fn tangent_ray_misses() {
    // The ray grazes the sphere exactly: the discriminant is zero, which
    // counts as a miss by design.
    let s = Sphere { center: v(0, 0, -SCALE), radius: SCALE / 2, material: white_lambertian() };
    let r = Ray { a: v(SCALE / 2, 0, 0), b: v(0, 0, -SCALE) };
    assert!(s.hit(&r, 66, T_MAX).is_none());
}

#[test]
fn hit_respects_the_open_interval() {
    let s = Sphere { center: v(0, 0, -SCALE), radius: SCALE / 2, material: white_lambertian() };
    let r = Ray { a: v(0, 0, 0), b: v(0, 0, -SCALE) };
    // t == 0.5 is not strictly below tmax == 0.5, so no hit is reported.
    assert!(s.hit(&r, 66, SCALE / 2).is_none());
    // With tmin above the near root, the far root at t == 1.5 is used.
    let h = s.hit(&r, SCALE, T_MAX).expect("far root");
    assert_eq!(h.t, 3 * SCALE / 2);
    assert_eq!(h.normal, v(0, 0, -SCALE));
}

#[test]
fn world_reports_the_nearest_hit() {
    let near = Sphere { center: v(0, 0, -SCALE), radius: SCALE / 2, material: white_lambertian() };
    let far = Sphere {
        center: v(0, 0, -3 * SCALE),
        radius: SCALE / 2,
        material: Material::Metal { albedo: v(SCALE, 0, 0), fuzz: 0 },
    };
    let r = Ray { a: v(0, 0, 0), b: v(0, 0, -SCALE) };
    for world in [
        World { hitables: vec![near, far] },
        World { hitables: vec![far, near] },
    ] {
        let h = world.hit_anything(66, T_MAX, &r).expect("must hit");
        assert_eq!(h.t, SCALE / 2);
        assert!(matches!(h.material, Material::Lambertian { .. }));
    }
}

#[test]
fn world_tie_keeps_the_earlier_object() {
    let a = Sphere { center: v(0, 0, -SCALE), radius: SCALE / 2, material: white_lambertian() };
    let b = Sphere {
        center: v(0, 0, -SCALE),
        radius: SCALE / 2,
        material: Material::Metal { albedo: v(SCALE, 0, 0), fuzz: 0 },
    };
    let r = Ray { a: v(0, 0, 0), b: v(0, 0, -SCALE) };
    let world = World { hitables: vec![a, b] };
    let h = world.hit_anything(66, T_MAX, &r).expect("must hit");
    assert!(matches!(h.material, Material::Lambertian { .. }));
}

#[test]
fn world_miss_returns_nothing() {
    let s = Sphere { center: v(0, 0, -SCALE), radius: SCALE / 2, material: white_lambertian() };
    let world = World { hitables: vec![s] };
    let up = Ray { a: v(0, 0, 0), b: v(0, SCALE, 0) };
    assert!(world.hit_anything(66, T_MAX, &up).is_none());
}
