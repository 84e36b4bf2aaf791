//! Cameras, shapes and scenes.
use spectral::camera::half_field_of_view;
use spectral::camera::Camera;
use spectral::geom::ConvexSolid;
use spectral::geom::Hit;
use spectral::geom::Ray;
use spectral::geom::Sphere;
use spectral::material::Material;
use spectral::scalar::Scalar;
use spectral::scene::Scene;
use spectral::vector::Vector;

fn s(x: f32) -> Scalar {
    Scalar::from_bits(x.to_bits())
}

fn f(x: Scalar) -> f32 {
    f32::from_bits(x.to_bits())
}

fn v(x: f32, y: f32, z: f32) -> Vector {
    Vector::new(s(x), s(y), s(z))
}

fn half_tan(vfov_deg: f32) -> Scalar {
    s((vfov_deg.to_radians() / 2.0).tan())
}

fn look_at(origin: Vector, target: Vector, vfov_deg: f32, aspect: f32) -> Camera {
    Camera::look_at(origin, target, v(0.0, 1.0, 0.0), half_tan(vfov_deg), s(aspect))
}

fn close(a: f32, b: f32, eps: f32) -> bool {
    (a - b).abs() <= eps
}

fn near(a: Vector, b: Vector, eps: f32) -> bool {
    close(f(a.x), f(b.x), eps) && close(f(a.y), f(b.y), eps) && close(f(a.z), f(b.z), eps)
}

fn prism(size: f32, depth: f32) -> ConvexSolid {
    let side = |k: u32| {
        let ang = std::f32::consts::FRAC_PI_2 + k as f32 * 2.0 * std::f32::consts::PI / 3.0;
        v(ang.cos(), ang.sin(), 0.0)
    };
    ConvexSolid::triangular_prism([side(0), side(1), side(2)], s(size), s(depth))
}

fn cube() -> ConvexSolid {
    ConvexSolid::axis_box(v(-1.0, -1.0, -1.0), v(1.0, 1.0, 1.0))
}

fn hit_solid(solid: &ConvexSolid, origin: Vector, dir: Vector) -> Option<Hit> {
    solid.intersect(&Ray { origin, dir }, s(1e-4), s(f32::INFINITY))
}

fn hit_sphere(sphere: &Sphere, origin: Vector, dir: Vector) -> Option<Hit> {
    sphere.intersect(&Ray { origin, dir }, s(1e-4), s(f32::INFINITY))
}

#[test]
fn center_pixel_looks_at_target() {
    let cam = look_at(v(0.0, 0.0, 0.0), v(0.0, 0.0, -1.0), 60.0, 1.0);
    let r = cam.primary_ray(s(0.5), s(0.5));
    assert!(f(r.dir.dot(v(0.0, 0.0, -1.0))) > 0.99, "center ray should look toward -Z");
}

#[test]
fn rays_are_unit_length() {
    let cam = look_at(v(0.0, 0.0, 0.0), v(0.0, 0.0, -1.0), 60.0, 1.5);
    for (a, b) in [(0.0, 0.0), (1.0, 1.0), (0.3, 0.7)] {
        assert!((f(cam.primary_ray(s(a), s(b)).dir.length()) - 1.0).abs() < 1e-5);
    }
}

#[test]
fn corner_rays_differ_from_center() {
    let cam = look_at(v(0.0, 0.0, 0.0), v(0.0, 0.0, -1.0), 60.0, 1.0);
    let center = cam.primary_ray(s(0.5), s(0.5)).dir;
    let corner = cam.primary_ray(s(0.0), s(0.0)).dir;
    assert!(f(center.minus(corner).length()) > 1e-2, "corner ray must differ from center");
}

#[test]
fn project_inverts_primary_ray() {
    let cam = look_at(v(0.0, 1.0, 5.0), v(0.0, 0.0, 0.0), 50.0, 1.5);
    for (a, b) in [(0.5, 0.5), (0.2, 0.7), (0.8, 0.35)] {
        let ray = cam.primary_ray(s(a), s(b));
        let p = ray.origin.plus(ray.dir.times(s(4.0)));
        let (ps, pt, depth) = cam.project(p).expect("point should be in frame");
        assert!((f(ps) - a).abs() < 1e-3, "s: {} vs {a}", f(ps));
        assert!((f(pt) - b).abs() < 1e-3, "t: {} vs {b}", f(pt));
        assert!(f(depth) > 0.0, "depth must be positive in front of camera");
    }
}

#[test]
fn points_behind_the_camera_are_not_projected() {
    let cam = look_at(v(0.0, 0.0, 0.0), v(0.0, 0.0, -1.0), 60.0, 1.0);
    assert!(cam.project(v(0.0, 0.0, 2.0)).is_none());
    assert!(cam.project(v(50.0, 0.0, -1.0)).is_none());
    let (a, b, depth) = cam.project(v(0.0, 0.0, -3.0)).expect("on the axis");
    assert_eq!((f(a), f(b), f(depth)), (0.5, 0.5, 3.0));
}

#[test]
fn ray_hits_sphere_front() {
    let sphere = Sphere { center: v(0.0, 0.0, -5.0), radius: s(1.0) };
    let h = hit_sphere(&sphere, v(0.0, 0.0, 0.0), v(0.0, 0.0, -1.0)).expect("hit");
    assert!(close(f(h.t), 4.0, 1e-4));
    assert!(near(h.normal, v(0.0, 0.0, 1.0), 1e-4));
}

#[test]
fn ray_misses_sphere() {
    let sphere = Sphere { center: v(5.0, 0.0, -5.0), radius: s(1.0) };
    assert!(hit_sphere(&sphere, v(0.0, 0.0, 0.0), v(0.0, 0.0, -1.0)).is_none());
}

/// A ray inside a sphere leaves through it: the normal is turned toward the
/// ray, and the front face says so.
#[test]
fn inside_a_sphere_the_far_side_is_hit() {
    let sphere = Sphere { center: v(0.0, 0.0, 0.0), radius: s(2.0) };
    let h = hit_sphere(&sphere, v(0.0, 0.0, 0.0), v(1.0, 0.0, 0.0)).expect("exit");
    assert_eq!(f(h.t), 2.0);
    assert_eq!(f(h.normal.x), -1.0);
    assert!(!h.front_face);
    let h = hit_sphere(&sphere, v(-5.0, 0.0, 0.0), v(1.0, 0.0, 0.0)).expect("entry");
    assert_eq!(f(h.t), 3.0);
    assert!(h.front_face);
}

#[test]
fn convex_box_intersection_interval() {
    let h = hit_solid(&cube(), v(0.0, 0.0, 5.0), v(0.0, 0.0, -1.0)).expect("hit");
    assert!(close(f(h.t), 4.0, 1e-4));
    assert!(near(h.normal, v(0.0, 0.0, 1.0), 1e-4));
}

#[test]
fn prism_is_five_halfspaces() {
    assert_eq!(prism(2.0, 2.0).planes.len(), 5);
}

#[test]
fn convex_box_miss_lateral() {
    assert!(hit_solid(&cube(), v(2.0, 0.0, -5.0), v(0.0, 0.0, 1.0)).is_none());
}

#[test]
fn convex_box_miss_parallel_outside() {
    assert!(hit_solid(&cube(), v(-5.0, 2.0, 0.0), v(1.0, 0.0, 0.0)).is_none());
}

#[test]
fn convex_box_side_entry_normal() {
    let h = hit_solid(&cube(), v(5.0, 0.0, 0.0), v(-1.0, 0.0, 0.0)).expect("hit");
    assert!(close(f(h.t), 4.0, 1e-4));
    assert!(near(h.normal, v(1.0, 0.0, 0.0), 1e-4));
}

#[test]
fn convex_box_origin_inside_returns_exit_face() {
    let h = hit_solid(&cube(), v(0.0, 0.0, 0.0), v(0.0, 0.0, 1.0))
        .expect("interior ray must hit exit");
    assert!(close(f(h.t), 1.0, 1e-4));
    assert!(near(h.normal, v(0.0, 0.0, -1.0), 1e-4));
    assert!(f(h.normal.length()) > 0.9, "exit normal must be non-zero");
}

#[test]
fn prism_intersects_axial_ray() {
    let h = hit_solid(&prism(1.0, 2.0), v(0.0, 5.0, 0.0), v(0.0, -1.0, 0.0)).expect("hit");
    assert!(close(f(h.t), 4.0, 1e-3));
    assert!(near(h.normal, v(0.0, 1.0, 0.0), 1e-3));
}

#[test]
fn prism_misses_ray_outside_triangle() {
    assert!(hit_solid(&prism(1.0, 2.0), v(5.0, 5.0, 0.0), v(0.0, -1.0, 0.0)).is_none());
}

/// A hit past the farthest admitted distance is none, of a sphere as of a
/// solid.
#[test]
fn hits_past_the_limit_are_not_taken() {
    let ray = Ray { origin: v(0.0, 0.0, 5.0), dir: v(0.0, 0.0, -1.0) };
    assert!(cube().intersect(&ray, s(1e-4), s(3.0)).is_none());
    let sphere = Sphere { center: v(0.0, 0.0, 0.0), radius: s(1.0) };
    assert!(sphere.intersect(&ray, s(1e-4), s(3.0)).is_none());
    assert!(sphere.intersect(&ray, s(1e-4), s(4.5)).is_some());
}

#[test]
fn intersect_picks_nearest() {
    let mut scene = Scene::new();
    let matte = Material::Lambertian { reflectance: s(0.5) };
    scene.add_sphere(v(0.0, 0.0, -3.0), s(1.0), matte);
    scene.add_sphere(v(0.0, 0.0, -6.0), s(1.0), matte);
    let r = Ray { origin: v(0.0, 0.0, 0.0), dir: v(0.0, 0.0, -1.0) };
    let (hit, _mat) = scene.intersect(&r).expect("hit");
    assert!((f(hit.t) - 2.0).abs() < 1e-3, "nearest sphere at t=2, got {}", f(hit.t));
}

/// The order in which primitives are added does not matter.
#[test]
fn nearest_is_found_in_any_order() {
    let mut scene = Scene::new();
    scene.add_sphere(v(0.0, 0.0, -6.0), s(1.0), Material::Lambertian { reflectance: s(0.25) });
    scene.add_solid(
        ConvexSolid::axis_box(v(-1.0, -1.0, -4.0), v(1.0, 1.0, -3.0)),
        Material::Lambertian { reflectance: s(0.75) },
    );
    let r = Ray { origin: v(0.0, 0.0, 0.0), dir: v(0.0, 0.0, -1.0) };
    let (hit, mat) = scene.intersect(&r).expect("hit");
    assert_eq!(f(hit.t), 3.0);
    assert_eq!(mat, Material::Lambertian { reflectance: s(0.75) });
}

#[test]
fn intersect_returns_none_on_miss() {
    let mut scene = Scene::new();
    scene.add_sphere(v(0.0, 0.0, -3.0), s(1.0), Material::Lambertian { reflectance: s(0.5) });
    let r = Ray { origin: v(0.0, 0.0, 0.0), dir: v(0.0, 0.0, 1.0) };
    assert!(scene.intersect(&r).is_none());
}

#[test]
fn empty_scene_intersects_nothing() {
    let scene = Scene::new();
    let r = Ray { origin: v(0.0, 0.0, 0.0), dir: v(0.0, 0.0, -1.0) };
    assert!(scene.intersect(&r).is_none());
}

#[test]
fn background_radiance_uniform_then_horizon() {
    let mut scene = Scene::new();
    let (up, down) = (v(0.0, 1.0, 0.0), v(0.0, -1.0, 0.0));
    scene.background = s(0.5);
    assert_eq!(f(scene.background_radiance(up)), 0.5);
    assert_eq!(f(scene.background_radiance(down)), 0.5);
    scene.horizon = Some(s(2.0));
    assert_eq!(f(scene.background_radiance(up)), 2.5);
    assert_eq!(f(scene.background_radiance(down)), 0.5);
}

/// A field of view is halved in radians, to the bit.
#[test]
fn the_field_of_view_is_halved_in_radians() {
    for deg in [1.0f32, 21.0, 42.0, 45.0, 60.0, 90.0, 179.0] {
        assert_eq!(f(half_field_of_view(s(deg))), deg.to_radians() / 2.0);
        let tan = |x: Scalar| s(f(x).tan());
        let up = v(0.0, 1.0, 0.0);
        let (o, p) = (v(0.0, 0.5, 6.0), v(0.0, 0.0, 0.0));
        let a = Camera::with_field_of_view(o, p, up, s(deg), s(1.5), &tan).view_basis();
        let b = Camera::look_at(o, p, up, half_tan(deg), s(1.5)).view_basis();
        assert!(a == b);
    }
}

/// The sides of an equilateral prism are a third of a turn apart, the first up.
#[test]
fn an_equilateral_prism_has_one_side_up() {
    let turn = |x: Scalar| (s(f(x).cos()), s(f(x).sin()));
    let a = ConvexSolid::equilateral_prism(s(0.5), s(2.0), &turn);
    let b = prism(0.5, 2.0);
    assert_eq!(a.planes.len(), b.planes.len());
    for (p, q) in a.planes.iter().zip(&b.planes) {
        assert!(p.normal == q.normal && p.d == q.d);
    }
}

/// Points on rays through every part of the image are projected back, near and
/// far.
#[test]
fn projection_gives_back_the_place_of_a_ray() {
    let cam = look_at(v(3.0, -4.0, 7.0), v(-1.0, 2.0, 0.5), 60.0, 1.8);
    for i in 1..20 {
        for j in 1..20 {
            let (a, b) = (i as f32 / 20.0, j as f32 / 20.0);
            let ray = cam.primary_ray(s(a), s(b));
            for k in [0.1f32, 1.0, 90.0] {
                let p = ray.origin.plus(ray.dir.times(s(k)));
                let (x, y, depth) = cam.project(p).expect("in the frame");
                assert!((f(x) - a).abs() < 1e-3 && (f(y) - b).abs() < 1e-3);
                assert!(f(depth) > 0.0);
            }
        }
    }
}
