use ray_tracer::color;
use ray_tracer::fixed::SCALE;
use ray_tracer::ray::Ray;
use ray_tracer::scene::{Camera, World};
use ray_tracer::shapes::{Material, Sphere};
use ray_tracer::vector3::Vec3;

fn v(x: i64, y: i64, z: i64) -> Vec3 {
    Vec3 { x, y, z }
}

fn axis_camera(aperture: i64) -> Camera {
    // Eye at the origin looking down -z, 90 degree vertical field of view
    // (tangent of half the angle is 1), aspect 2, focus distance 1.
    Camera::new(
        v(0, 0, 0),
        v(0, 0, -SCALE),
        v(0, SCALE, 0),
        SCALE,
        2 * SCALE,
        aperture,
        SCALE,
    )
}

#[test]
fn camera_builds_the_axis_frame() {
    let c = axis_camera(0);
    assert_eq!(c.origin, v(0, 0, 0));
    assert_eq!(c.u, v(SCALE, 0, 0));
    assert_eq!(c.v, v(0, SCALE, 0));
    assert_eq!(c.lower_left_corner, v(-2 * SCALE, -SCALE, -SCALE));
    assert_eq!(c.horizontal, v(4 * SCALE, 0, 0));
    assert_eq!(c.vertical, v(0, 2 * SCALE, 0));
    assert_eq!(c.lens_radius, 0);
}

#[test]
fn center_ray_runs_down_the_axis() {
    let c = axis_camera(0);
    let r = c.get_ray(SCALE / 2, SCALE / 2);
    assert_eq!(r.a, v(0, 0, 0));
    assert_eq!(r.b, v(0, 0, -SCALE));
}

#[test]
fn zero_aperture_rays_are_identical() {
    // With no lens the sampling degenerates to a point: repeated calls
    // for the same image coordinates give exactly the same ray.
    let c = axis_camera(0);
    let first = c.get_ray(SCALE / 4, 3 * SCALE / 4);
    for _ in 0..16 {
        assert_eq!(c.get_ray(SCALE / 4, 3 * SCALE / 4), first);
    }
}

#[test]
fn open_aperture_offsets_stay_on_the_lens() {
    let c = axis_camera(SCALE / 2);
    assert_eq!(c.lens_radius, SCALE / 4);
    for _ in 0..16 {
        let r = c.get_ray(SCALE / 2, SCALE / 2);
        // the jittered origin stays within the lens radius per axis
        assert!(r.a.x.abs() <= SCALE / 4 && r.a.y.abs() <= SCALE / 4);
        assert_eq!(r.a.z, 0);
    }
}

fn one_sphere_world() -> World {
    World {
        hitables: vec![Sphere {
            center: v(0, 0, -SCALE),
            radius: SCALE / 2,
            material: Material::Lambertian { albedo: v(SCALE, SCALE, SCALE) },
        }],
    }
}

#[test]
fn straight_up_miss_is_the_zenith_color() {
    // unit_direction.y == 1 blends fully to the zenith (0.5, 0.7, 1.0).
    let w = one_sphere_world();
    let r = Ray { a: v(0, 0, 0), b: v(0, SCALE, 0) };
    let c = color(r, &w, 1);
    assert_eq!(c, v(32768, 45875, SCALE));
}

#[test]
fn horizontal_miss_is_the_mid_gradient() {
    let w = one_sphere_world();
    let r = Ray { a: v(0, 0, 0), b: v(SCALE, 0, 0) };
    let c = color(r, &w, 1);
    // t == 0.5: the average of white and the zenith color
    assert_eq!(c, v(49152, 55705, SCALE));
}

#[test]
fn traced_radiance_stays_in_range() {
    let w = one_sphere_world();
    for _ in 0..64 {
        let r = Ray { a: v(0, 0, 0), b: v(0, 0, -SCALE) };
        let c = color(r, &w, 1);
        assert!(0 <= c.x && c.x <= SCALE);
        assert!(0 <= c.y && c.y <= SCALE);
        assert!(0 <= c.z && c.z <= SCALE);
    }
}

#[test]
fn depth_cap_returns_black_on_a_hit() {
    let w = one_sphere_world();
    let r = Ray { a: v(0, 0, 0), b: v(0, 0, -SCALE) };
    assert_eq!(color(r, &w, 50), v(0, 0, 0));
}
