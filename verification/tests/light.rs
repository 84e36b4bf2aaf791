//! Glasses, refraction, reflection and scattering.
use spectral::geom::Hit;
use spectral::geom::Ray;
use spectral::geom::Sphere;
use spectral::material::Material;
use spectral::optics::fresnel_reflectance;
use spectral::optics::reflect;
use spectral::optics::refract;
use spectral::rng::PathRng;
use spectral::scalar::Scalar;
use spectral::sellmeier::Glass;
use spectral::vector::Vector;

fn s(x: f32) -> Scalar {
    Scalar::from_bits(x.to_bits())
}

fn f(x: Scalar) -> f32 {
    f32::from_bits(x.to_bits())
}

fn v(x: f32, y: f32, z: f32) -> Vector {
    Vector::new(s(x), s(y), s(z))
}

fn up() -> Vector {
    v(0.0, 1.0, 0.0)
}

/// A direction down onto the surface at an angle from the normal.
fn incident(theta: f32) -> Vector {
    v(theta.sin(), -theta.cos(), 0.0).normalize()
}

fn near(a: Vector, b: Vector, eps: f32) -> bool {
    (f(a.x) - f(b.x)).abs() <= eps && (f(a.y) - f(b.y)).abs() <= eps && (f(a.z) - f(b.z)).abs() <= eps
}

fn turn(angle: Scalar) -> (Scalar, Scalar) {
    let a = f(angle);
    (s(a.cos()), s(a.sin()))
}

fn index(glass: Glass, lambda: f32) -> f32 {
    f(glass.n(s(lambda)))
}

fn fresnel(cos_i: f32, n1: f32, n2: f32) -> f32 {
    f(fresnel_reflectance(s(cos_i), s(n1), s(n2)))
}

fn hit_up(front_face: bool) -> Hit {
    Hit { t: s(1.0), point: v(0.0, 0.0, 0.0), normal: up(), front_face }
}

#[test]
fn bk7_matches_published_lines() {
    assert!((index(Glass::Bk7, 486.1) - 1.52238).abs() <= 5e-4);
    assert!((index(Glass::Bk7, 587.6) - 1.51680).abs() <= 5e-4);
    assert!((index(Glass::Bk7, 656.3) - 1.51432).abs() <= 5e-4);
}

#[test]
fn dispersion_is_normal() {
    assert!(index(Glass::Bk7, 450.0) > index(Glass::Bk7, 650.0));
    assert!(index(Glass::Sf11, 450.0) > index(Glass::Sf11, 650.0));
}

#[test]
fn sf11_disperses_more_than_bk7() {
    let spread = |g: Glass| index(g, 450.0) - index(g, 650.0);
    assert!(spread(Glass::Sf11) > spread(Glass::Bk7));
}

/// The Sellmeier sum in double precision on the machine.
fn n_f64(glass: Glass, lambda_nm: f32) -> f32 {
    let l_um = (lambda_nm as f64) / 1000.0;
    let l2 = l_um * l_um;
    let (b, c): ([f64; 3], [f64; 3]) = match glass {
        Glass::Bk7 => (
            [1.03961212, 0.231792344, 1.01046945],
            [0.00600069867, 0.0200179144, 103.560653],
        ),
        Glass::Sf11 => (
            [1.73759695, 0.313747346, 1.89878101],
            [0.013188707, 0.0623068142, 155.23629],
        ),
        Glass::Water => return (1.3238 + 0.00314 / l2) as f32,
    };
    let n2 = 1.0 + b.iter().zip(c.iter()).map(|(bk, ck)| bk * l2 / (l2 - ck)).sum::<f64>();
    n2.sqrt() as f32
}

#[test]
fn the_index_agrees_with_the_machine() {
    for glass in [Glass::Bk7, Glass::Sf11, Glass::Water] {
        for step in 0..1000 {
            let nm = 380.0 + step as f32 * 0.35;
            assert_eq!(index(glass, nm).to_bits(), n_f64(glass, nm).to_bits(), "{glass:?} at {nm}");
        }
    }
}

/// The same sum in single precision.
fn n_f32(glass: Glass, lambda_nm: f32) -> f32 {
    let l_um = lambda_nm / 1000.0;
    let l2 = l_um * l_um;
    let (b, c): ([f32; 3], [f32; 3]) = match glass {
        Glass::Bk7 => (
            [1.039_612_2, 0.231_792_35, 1.010_469_4],
            [0.006_000_698_5, 0.020_017_914, 103.560_65],
        ),
        Glass::Sf11 => (
            [1.737_597, 0.313_747_35, 1.898_781_1],
            [0.013188707, 0.062_306_814, 155.236_3],
        ),
        Glass::Water => return 1.3238 + 0.00314 / l2,
    };
    let mut n2 = 1.0f32;
    for k in 0..3 {
        n2 += b[k] * l2 / (l2 - c[k]);
    }
    n2.sqrt()
}

#[test]
fn f32_sellmeier_error_is_bounded() {
    let mut max_abs = 0.0f32;
    for glass in [Glass::Bk7, Glass::Sf11, Glass::Water] {
        let mut nm = 380.0;
        while nm <= 730.0 {
            let d = (n_f32(glass, nm) - index(glass, nm)).abs();
            max_abs = max_abs.max(d);
            nm += 5.0;
        }
    }
    assert!(max_abs < 1e-4, "f32 Sellmeier error {max_abs} larger than expected");
}

#[test]
fn glass_codes_round_trip() {
    for glass in [Glass::Bk7, Glass::Sf11, Glass::Water] {
        assert_eq!(Glass::from_code(glass.code()), Some(glass));
    }
    assert_eq!(Glass::Sf11.code(), 1);
    assert_eq!(Glass::from_code(3), None);
}

#[test]
fn refract_matches_snell_angle() {
    let (n1, n2) = (1.0_f32, 1.5_f32);
    for deg in [5.0_f32, 15.0, 30.0, 45.0, 60.0] {
        let theta_i = deg.to_radians();
        let t = refract(incident(theta_i), up(), s(n1), s(n2)).expect("should transmit");
        let theta_t = f(t.dot(up().neg())).clamp(-1.0, 1.0).acos();
        let expected = (n1 / n2 * theta_i.sin()).asin();
        assert!((theta_t - expected).abs() <= 1e-5, "{theta_t} vs {expected}");
        assert!(f(t.z).abs() < 1e-6, "left plane of incidence: z={}", f(t.z));
    }
}

#[test]
fn transmitted_ray_propagates_forward_not_backward() {
    let d = incident(40.0_f32.to_radians());
    let t = refract(d, up(), s(1.0), s(1.5)).unwrap();
    assert!(f(t.dot(d)) > 0.0, "refracted ray reversed direction");
    assert!(f(t.dot(up())) < 0.0, "refracted ray did not cross into medium 2");
    let bogus = t.neg();
    assert!(
        f(bogus.dot(d)) < 0.0 && f(bogus.dot(up())) > 0.0,
        "the rejected solution is the backward one"
    );
}

#[test]
fn tangential_component_obeys_snell_and_keeps_sense() {
    let (n1, n2) = (1.0_f32, 1.5_f32);
    let d = incident(50.0_f32.to_radians());
    let t = refract(d, up(), s(n1), s(n2)).unwrap();
    let dt = d.minus(up().times(d.dot(up())));
    let tt = t.minus(up().times(t.dot(up())));
    assert!(f(dt.dot(tt)) > 0.0, "tangential sense flipped");
    assert!((n1 * f(dt.length()) - n2 * f(tt.length())).abs() <= 1e-5);
}

#[test]
fn refraction_is_reversible() {
    let (n1, n2) = (s(1.0), s(1.5));
    let d = incident(35.0_f32.to_radians());
    let t = refract(d, up(), n1, n2).unwrap();
    let back = refract(t, up(), n2, n1).expect("should transmit back");
    assert!(near(back, d, 1e-5));
}

#[test]
fn total_internal_reflection_past_critical_angle() {
    let (n1, n2) = (1.5_f32, 1.0_f32);
    let theta_c = (n2 / n1).asin();
    let past = incident(theta_c + 0.05);
    assert!(refract(past, up(), s(n1), s(n2)).is_none(), "must be TIR past critical angle");
    let inside = incident(theta_c - 0.05);
    assert!(refract(inside, up(), s(n1), s(n2)).is_some(), "must transmit below critical angle");
}

#[test]
fn fresnel_normal_incidence() {
    let r = fresnel(1.0, 1.0, 1.5);
    assert!((r - ((1.0_f32 - 1.5) / (1.0 + 1.5)).powi(2)).abs() <= 1e-6);
}

#[test]
fn fresnel_grazing_approaches_one() {
    let r = fresnel(1e-5, 1.0, 1.5);
    assert!(r > 0.999, "near-grazing R should approach 1, got {r}");
}

#[test]
fn fresnel_monotonic_and_bounded() {
    let mut prev = fresnel(1.0, 1.0, 1.5);
    for step in 1..=20 {
        let cos_i = 1.0 - step as f32 / 20.0 * 0.999;
        let r = fresnel(cos_i, 1.0, 1.5);
        assert!((0.0..=1.0).contains(&r), "R out of [0,1]: {r}");
        assert!(r >= prev - 1e-6, "R must not decrease toward grazing: {r} < {prev}");
        prev = r;
    }
}

#[test]
fn tir_predicates_agree() {
    let (n1, n2) = (1.5_f32, 1.0_f32);
    for deg in [10.0_f32, 30.0, 41.0, 42.0, 50.0, 70.0] {
        let d = incident(deg.to_radians());
        let cos_i = f(d.dot(up())).abs();
        let r = fresnel(cos_i, n1, n2);
        let transmits = refract(d, up(), s(n1), s(n2)).is_some();
        assert_eq!(
            transmits,
            r < 1.0,
            "TIR disagreement at {deg}deg: transmits={transmits}, R={r}"
        );
    }
}

/// A normal may point to either side of the surface.
#[test]
fn refraction_ignores_the_side_of_the_normal() {
    let n = v(0.2, 0.9, -0.1).normalize();
    for d in [v(0.3, -0.8, 0.5), v(-0.6, -0.2, 0.1), v(0.1, 0.7, 0.7)] {
        let d = d.normalize();
        for (n1, n2) in [(1.0, 1.5), (1.5, 1.0), (1.33, 1.78)] {
            assert_eq!(refract(d, n, s(n1), s(n2)), refract(d, n.neg(), s(n1), s(n2)));
        }
    }
}

/// Light in the world plane stays in it, for every wavelength.
#[test]
fn the_fan_opens_in_the_plane_of_incidence() {
    for deg in [5.0_f32, 30.0, 60.0] {
        for lambda in [400.0, 550.0, 700.0] {
            let n2 = Glass::Sf11.n(s(lambda));
            let t = refract(incident(deg.to_radians()), up(), s(1.0), n2).expect("transmits");
            assert_eq!(f(t.z), 0.0);
        }
    }
}

/// Total internal reflection has a reflectance of exactly one.
#[test]
fn total_reflection_is_whole() {
    for deg in [42.0_f32, 50.0, 70.0, 89.0] {
        let d = incident(deg.to_radians());
        assert!(refract(d, up(), s(1.5), s(1.0)).is_none());
        assert_eq!(fresnel(-f(d.dot(up())), 1.5, 1.0), 1.0);
    }
}

#[test]
fn reflect_is_mirror() {
    let d = v(1.0, -1.0, 0.0).normalize();
    let r = reflect(d, up());
    assert!(near(r, Vector::new(d.x, d.y.neg(), s(0.0)).normalize(), 1e-6));
    assert!(f(r.y) > 0.0 && f(d.y) < 0.0, "reflection must flip the normal component");
    let d3 = v(0.4, -0.7, 0.3).normalize();
    let r3 = reflect(d3, up());
    assert!(near(r3, Vector::new(d3.x, d3.y.neg(), d3.z), 1e-6));
}

#[test]
fn lambertian_scatters_into_hemisphere() {
    let m = Material::Lambertian { reflectance: s(0.8) };
    let h = hit_up(true);
    let wo = v(0.0, -1.0, 0.0);
    for key in 0..200 {
        let mut rng = PathRng::new(key, 7);
        let sc = m.scatter(wo, &h, s(550.0), s(1.5), &mut rng, &turn).unwrap();
        assert!(f(sc.dir.dot(h.normal)) > 0.0, "sample {key} scattered below the surface");
        assert!((f(sc.dir.length()) - 1.0).abs() <= 1e-5);
        assert!((0.0..=1.0).contains(&f(sc.weight)));
    }
}

#[test]
fn dielectric_disperses_by_wavelength() {
    let d = v(0.6, -0.8, 0.0).normalize();
    let t_blue = refract(d, up(), s(1.0), Glass::Sf11.n(s(450.0))).unwrap();
    let t_red = refract(d, up(), s(1.0), Glass::Sf11.n(s(650.0))).unwrap();
    assert!(f(t_blue.minus(t_red).length()) > 1e-3, "no dispersion observed");
}

#[test]
fn dielectric_distinguishes_entering_from_exiting() {
    let m = Material::Dielectric { glass: Glass::Bk7 };
    let wo = incident(30.0_f32.to_radians());
    let nh = Glass::Bk7.n(s(550.0));
    let directions = |front_face: bool| -> Vec<Vector> {
        (0..32)
            .map(|key| {
                let mut rng = PathRng::new(key, 99);
                m.scatter(wo, &hit_up(front_face), s(550.0), nh, &mut rng, &turn).unwrap().dir
            })
            .collect()
    };
    assert!(directions(true) != directions(false), "scatter must depend on front_face");
}

#[test]
fn dielectric_tir_on_exit_always_reflects() {
    let m = Material::Dielectric { glass: Glass::Bk7 };
    let wo = incident(60.0_f32.to_radians());
    let expected = reflect(wo, up());
    for key in 0..8 {
        let mut rng = PathRng::new(key, 5);
        let sc = m
            .scatter(wo, &hit_up(false), s(550.0), Glass::Bk7.n(s(550.0)), &mut rng, &turn)
            .unwrap();
        assert!(near(sc.dir, expected, 1e-5));
    }
}

/// Total cumulative deviation in degrees of a +X ray at impact parameter `b`
/// through a water sphere, with `bounces` internal reflections.
fn deviation_deg(b: f32, lambda: f32, bounces: u32) -> Option<f32> {
    let n = Glass::Water.n(s(lambda));
    let air = s(1.0);
    let sphere = Sphere { center: v(0.0, 0.0, 0.0), radius: s(R) };
    let meet = |ray: &Ray| sphere.intersect(ray, s(1e-4), s(f32::INFINITY));
    let d0 = v(1.0, 0.0, 0.0);
    let mut ray = Ray { origin: v(-3.0, b, 0.0), dir: d0 };
    let mut dirs: Vec<Vector> = vec![d0];

    let h = meet(&ray)?;
    let dir = refract(ray.dir, h.normal, air, n)?;
    ray = Ray { origin: h.point, dir };
    dirs.push(dir);

    for _ in 0..bounces {
        let h = meet(&ray)?;
        let dir = reflect(ray.dir, h.normal);
        ray = Ray { origin: h.point, dir };
        dirs.push(dir);
    }

    let h = meet(&ray)?;
    dirs.push(refract(ray.dir, h.normal, n, air)?);

    let mut total_deg = 0.0_f32;
    for w in dirs.windows(2) {
        let (ax, ay, bx, by) = (f(w[0].x), f(w[0].y), f(w[1].x), f(w[1].y));
        let cross_z = ax * by - ay * bx;
        let dot = ax * bx + ay * by;
        total_deg += cross_z.atan2(dot).to_degrees().abs();
    }
    Some(total_deg)
}

const R: f32 = 1.0;

fn min_deviation(lambda: f32, bounces: u32) -> f32 {
    let mut best = f32::INFINITY;
    for i in 1..1000 {
        let b = i as f32 / 1000.0 * 0.999 * R;
        if let Some(dev) = deviation_deg(b, lambda, bounces) {
            if dev < best {
                best = dev;
            }
        }
    }
    best
}

#[test]
fn primary_rainbow_is_42_degrees() {
    let green_dev = min_deviation(550.0, 1);
    let green = 180.0 - green_dev;
    println!("primary min_deviation(550nm, 1 bounce) = {green_dev:.4} -> rainbow angle = {green:.4}");
    assert!((green - 42.0).abs() < 2.0, "primary rainbow angle {green:.4}, expected ~42");
}

#[test]
fn primary_red_is_outside_violet() {
    let red = 180.0 - min_deviation(650.0, 1);
    let violet = 180.0 - min_deviation(450.0, 1);
    println!("primary: red={red:.4}  violet={violet:.4}");
    assert!(red > violet, "primary: red {red:.4} should be outside violet {violet:.4}");
}

#[test]
fn secondary_rainbow_is_51_degrees_and_reversed() {
    let green = min_deviation(550.0, 2) - 180.0;
    let red = min_deviation(650.0, 2) - 180.0;
    let violet = min_deviation(450.0, 2) - 180.0;
    println!("secondary rainbow angles:  red={red:.4}  green={green:.4}  violet={violet:.4}");
    assert!((green - 51.0).abs() < 3.0, "secondary rainbow angle {green:.4}, expected ~51");
    assert!(violet > red, "secondary must be color-reversed: violet {violet:.4} outside red {red:.4}");
}

/// Deviation through a single flat interface entering BK7.
fn deviation(d: Vector, normal: Vector, lambda: f32) -> f32 {
    let t = refract(d, normal, s(1.0), Glass::Bk7.n(s(lambda))).unwrap();
    f(d.dot(t).over(d.length().times(t.length()))).clamp(-1.0, 1.0).acos()
}

#[test]
fn chromatic_ordering_blue_deviates_more_than_red() {
    let d = v(0.5, -0.8660254, 0.0).normalize();
    let dev_blue = deviation(d, up(), 450.0);
    let dev_red = deviation(d, up(), 650.0);
    assert!(dev_blue > dev_red, "blue must deviate more than red: {dev_blue} vs {dev_red}");
}

#[test]
fn angular_spread_matches_analytic() {
    let theta_i = 30.0_f32.to_radians();
    let d = incident(theta_i);
    for lambda in [440.0_f32, 520.0, 600.0, 680.0] {
        let n = index(Glass::Bk7, lambda);
        let theta_t = (theta_i.sin() / n).asin();
        let analytic_dev = theta_i - theta_t;
        let measured = deviation(d, up(), lambda);
        let err = (measured - analytic_dev).abs() / analytic_dev;
        assert!(err < 0.03, "lambda={lambda}: relative error {err} exceeds 3%");
    }
}

/// Two reflections give the direction back, and the side of the normal does not
/// matter.
#[test]
fn reflecting_twice_gives_the_direction_back() {
    let n = v(0.36, 0.48, 0.8);
    for k in 0..40 {
        let a = k as f32 * 0.37;
        let d = v(a.cos(), a.sin(), (1.7 * a).sin()).normalize();
        let r = reflect(d, n);
        assert!(near(reflect(r, n), d, 1e-5));
        assert!((f(r.length()) - 1.0).abs() < 1e-5);
        assert!((f(r.dot(n)) + f(d.dot(n))).abs() < 1e-5);
        let other = reflect(d, n.neg());
        assert_eq!((other.x.bits, other.y.bits, other.z.bits), (r.x.bits, r.y.bits, r.z.bits));
    }
}

/// From nanometre to nanometre the index falls, and that of flint falls more.
#[test]
fn the_index_falls_over_the_visible_range() {
    for nm in 380..730 {
        let (a, b) = (nm as f32, nm as f32 + 1.0);
        let fall = |g: Glass| index(g, a) - index(g, b);
        assert!(fall(Glass::Bk7) > 0.0 && index(Glass::Bk7, b) > 1.0, "{nm}");
        assert!(fall(Glass::Sf11) > fall(Glass::Bk7), "{nm}");
    }
}

/// What is transmitted keeps to the law of sines on either side of a surface
/// that stands askew.
#[test]
fn transmitted_light_obeys_the_law_of_sines() {
    let n = v(0.36, 0.48, 0.8);
    for k in 0..40 {
        let a = k as f32 * 0.37;
        let d = v(a.cos(), a.sin(), (1.7 * a).sin()).normalize();
        let t = match refract(d, n, s(1.0), s(1.5)) {
            Some(t) => t,
            None => unreachable!("no total reflection into the denser medium"),
        };
        let along = |x: Vector| x.minus(n.times(x.dot(n)));
        assert!(near(along(t), along(d).times(s(1.0 / 1.5)), 1e-5));
        assert!((f(t.length()) - 1.0).abs() < 1e-5);
        assert!(f(t.dot(n)) * f(d.dot(n)) >= 0.0);
    }
}

/// Into the rarer medium too, some light is transmitted up to the critical
/// angle.
#[test]
fn some_light_passes_below_the_critical_angle() {
    let sin_c = 1.0f32 / 1.5;
    for k in 0..200 {
        let sin_i = sin_c * (0.9999 * k as f32 / 199.0);
        let cos_i = (1.0 - sin_i * sin_i).sqrt();
        let r = fresnel(cos_i, 1.5, 1.0);
        assert!((0.0..1.0).contains(&r), "{sin_i}: {r}");
    }
    assert_eq!(fresnel((1.0 - 0.67f32 * 0.67).sqrt(), 1.5, 1.0), 1.0);
}

/// Vectors of any length are reflected in proportion.
#[test]
fn long_and_short_vectors_are_mirrored() {
    let n = v(0.36, 0.48, 0.8);
    for scale in [1e-6f32, 3.0, 4.5e9] {
        let d = v(0.3 * scale, -1.2 * scale, 0.7 * scale);
        let r = reflect(d, n);
        assert!(near(reflect(r, n), d, 1e-5 * 1.5 * scale));
        assert!((f(r.length()) - f(d.length())).abs() <= 1e-5 * 1.5 * scale);
        assert!((f(r.dot(n)) + f(d.dot(n))).abs() <= 1e-5 * 1.5 * scale);
    }
}

/// Between media far apart the law of sines holds too, and the way back leads
/// to where it came from.
#[test]
fn strong_refraction_is_reversible() {
    let n = v(0.36, 0.48, 0.8);
    for k in 0..40 {
        let a = k as f32 * 0.37;
        let d = v(a.cos(), a.sin(), (1.7 * a).sin()).normalize();
        if f(d.dot(n)).abs() < 0.3 {
            continue;
        }
        let t = refract(d, n, s(1.0), s(9.0)).expect("into the denser medium");
        let along = |x: Vector| x.minus(n.times(x.dot(n)));
        assert!(near(along(t), along(d).times(s(1.0 / 9.0)), 1e-5));
        let back = refract(t, n, s(9.0), s(1.0)).expect("short of the critical angle");
        assert!(near(back, d, 1e-3));
    }
}

/// The reflectance at normal incidence, near grazing, and at every thousandth
/// between.
#[test]
fn reflectance_grows_toward_grazing() {
    let r = |c: f32| fresnel(c, 1.0, 1.5);
    assert!((r(1.0) - 0.04).abs() <= 1e-6);
    assert!(r(1e-5) > 0.999);
    for k in 1..1000 {
        let (near_grazing, upright) = (k as f32 / 1000.0, (k + 1) as f32 / 1000.0);
        assert!(r(near_grazing) >= r(upright) - 1e-6, "{k}");
    }
}

/// Media far apart: the reflectance is one exactly where nothing is transmitted.
#[test]
fn reflectance_and_refraction_agree_in_dense_media() {
    for n1 in [1.5f32, 7.0, 120.0, 4000.0] {
        for k in 0..2000 {
            let sin2 = (0.5 + k as f64 / 2000.0) / (n1 as f64 * n1 as f64);
            let c = (1.0 - sin2).sqrt() as f32;
            let exact = (n1 as f64 * n1 as f64) * (1.0 - c as f64 * c as f64);
            if (exact - 1.0).abs() < 1e-4 {
                continue;
            }
            let d = v((1.0 - c * c).sqrt(), -c, 0.0);
            let none = refract(d, up(), s(n1), s(1.0)).is_none();
            assert_eq!(none, exact > 1.0);
            let r = fresnel(c, n1, 1.0);
            assert_eq!(none, r == 1.0, "{n1} {c} {r}");
            assert!(none || r < 1.0);
        }
    }
}
