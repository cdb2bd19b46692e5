use ray_tracer::fixed::SCALE;
use ray_tracer::ray::Ray;
use ray_tracer::shapes::{reflect, refract, schlick, Material, HitRecord};
use ray_tracer::vector3::Vec3;

fn v(x: i64, y: i64, z: i64) -> Vec3 {
    Vec3 { x, y, z }
}

fn record(material: Material) -> HitRecord {
    HitRecord { t: SCALE / 2, p: v(0, 0, -SCALE / 2), normal: v(0, 0, SCALE), material }
}

#[test]
fn reflect_flips_the_normal_component() {
    // reflect(v, n) . n == -(v . n) for a unit normal, here exactly.
    let n = v(0, 0, SCALE);
    let d = v(46341, 0, -46341);
    let r = reflect(d, n);
    assert_eq!(r, v(46341, 0, 46341));
    assert_eq!(r.dot(&n), -(d.dot(&n)));
}

#[test]
fn reflect_of_grazing_vector_points_inward() {
    let n = v(0, 0, SCALE);
    let d = v(0, 0, SCALE);
    assert_eq!(reflect(d, n), v(0, 0, -SCALE));
}

#[test]
fn refract_head_on_goes_straight_through() {
    // Entering glass head on: the refracted ray continues along the axis.
    let w = refract(v(0, 0, -SCALE), v(0, 0, SCALE), 43690).expect("no reflection head-on");
    assert_eq!(w, v(0, 0, -SCALE));
}

#[test]
fn refract_reports_total_internal_reflection() {
    // Perpendicular incidence from the dense side with ratio 1.5: the
    // refraction discriminant is negative.
    assert!(refract(v(SCALE, 0, 0), v(0, 0, SCALE), 3 * SCALE / 2).is_none());
}

#[test]
fn schlick_at_full_alignment_equals_r0() {
    // cosine == 1 leaves exactly the base reflectance of glass (n = 1.5).
    assert_eq!(schlick(SCALE, 3 * SCALE / 2), 2621);
}

#[test]
fn schlick_grows_toward_grazing() {
    let ri = 3 * SCALE / 2;
    let head_on = schlick(SCALE, ri);
    let oblique = schlick(SCALE / 2, ri);
    let grazing = schlick(0, ri);
    assert_eq!(oblique, 4587);
    assert_eq!(grazing, SCALE);
    assert!(head_on <= oblique && oblique <= grazing);
}

#[test]
fn lambertian_always_scatters() {
    let albedo = v(SCALE / 2, SCALE / 4, SCALE / 8);
    let m = Material::Lambertian { albedo };
    let r = Ray { a: v(0, 0, 0), b: v(0, 0, -SCALE) };
    for _ in 0..32 {
        let (att, sc) = m.scatter(&r, &record(m)).expect("diffuse never absorbs");
        assert_eq!(att, albedo);
        assert_eq!(sc.a, v(0, 0, -SCALE / 2));
        // direction is normal plus a unit-ball sample
        let off = sc.b.sub(v(0, 0, SCALE));
        assert!(off.length_squared() <= SCALE);
    }
}

#[test]
fn metal_scatters_outward() {
    let albedo = v(SCALE, SCALE / 2, SCALE / 4);
    let m = Material::Metal { albedo, fuzz: 0 };
    let r = Ray { a: v(0, 0, 0), b: v(46341, 0, -46341) };
    let (att, sc) = m.scatter(&r, &record(m)).expect("mirror reflection leaves the surface");
    assert_eq!(att, albedo);
    assert_eq!(sc.b, v(46341, 0, 46341));
    assert!(sc.b.dot(&v(0, 0, SCALE)) > 0);
}

#[test]
fn metal_absorbs_a_reflection_into_the_surface() {
    // A ray leaving along the outward normal reflects to point into the
    // surface; with zero fuzz the scatter is deterministically absorbed.
    let m = Material::Metal { albedo: v(SCALE, SCALE, SCALE), fuzz: 0 };
    let r = Ray { a: v(0, 0, -SCALE), b: v(0, 0, SCALE) };
    assert!(m.scatter(&r, &record(m)).is_none());
}

#[test]
fn dielectric_always_scatters_clear() {
    let m = Material::Dielectric { ref_idx: 3 * SCALE / 2 };
    let r = Ray { a: v(0, 0, 0), b: v(0, 0, -SCALE) };
    for _ in 0..32 {
        let (att, sc) = m.scatter(&r, &record(m)).expect("glass never absorbs");
        assert_eq!(att, v(SCALE, SCALE, SCALE));
        assert_eq!(sc.a, v(0, 0, -SCALE / 2));
        // head-on: both the reflected and the refracted ray run along the axis
        assert_eq!(sc.b.x, 0);
        assert_eq!(sc.b.y, 0);
        assert!(sc.b.z == SCALE || sc.b.z == -SCALE);
    }
}
