//! The way of a path: it goes from surface to surface until it escapes, and may
//! meet seven surfaces before; one that meets eight is lost.
use crate::albedo::dimmed;
use crate::albedo::is_diffuse;
use crate::camera::ViewBasis;
use crate::exact::number;
use crate::exposure::is_moderate;
use crate::relative::is_about;
use crate::relative::lemma_about_itself;
use crate::relative::lemma_about_product;
use crate::relative::lemma_about_wider;
use crate::scalar::Scalar;
use crate::tracer::beginning;
use crate::tracer::developed;
use crate::tracer::lemma_hit_material;
use crate::tracer::PathState;
use crate::tracer::World;
use vstd::prelude::*;

verus! {

/// The path meets `n` surfaces at least.
pub open spec fn meets<F: Fn(Scalar) -> (Scalar, Scalar)>(
    world: World<F>,
    lambda: Seq<Scalar>,
    path: PathState,
    n: nat,
) -> bool
    decreases n,
{
    n == 0 || match world.scene.hit(path.ray) {
        None => false,
        Some((hit, material)) => meets(
            world,
            lambda,
            world.bounced(lambda, path, hit, material),
            (n - 1) as nat,
        ),
    }
}

/// The path once it has been scattered by `n` surfaces.
pub open spec fn onward<F: Fn(Scalar) -> (Scalar, Scalar)>(
    world: World<F>,
    lambda: Seq<Scalar>,
    path: PathState,
    n: nat,
) -> PathState
    decreases n,
{
    if n == 0 {
        path
    } else {
        match world.scene.hit(path.ray) {
            None => path,
            Some((hit, material)) => onward(
                world,
                lambda,
                world.bounced(lambda, path, hit, material),
                (n - 1) as nat,
            ),
        }
    }
}

/// A path that meets `n` surfaces and then none gathers what it escapes to, if it
/// is followed for more than `n` steps.
pub proof fn lemma_walk_escapes<F: Fn(Scalar) -> (Scalar, Scalar)>(
    world: World<F>,
    lambda: Seq<Scalar>,
    path: PathState,
    n: nat,
    bounces: nat,
)
    requires
        meets(world, lambda, path, n),
        n < bounces,
        world.scene.hit(onward(world, lambda, path, n).ray) is None,
    ensures
        world.walked(lambda, path, bounces) == world.escaped(
            lambda,
            onward(world, lambda, path, n),
        ),
    decreases n,
{
    if n > 0 {
        let (hit, material) = world.scene.hit(path.ray)->0;
        lemma_walk_escapes(
            world,
            lambda,
            world.bounced(lambda, path, hit, material),
            (n - 1) as nat,
            (bounces - 1) as nat,
        );
    }
}

/// A path that meets a surface at every step has gathered nothing at its end.
pub proof fn lemma_walk_lost<F: Fn(Scalar) -> (Scalar, Scalar)>(
    world: World<F>,
    lambda: Seq<Scalar>,
    path: PathState,
    bounces: nat,
)
    requires
        meets(world, lambda, path, bounces),
    ensures
        world.walked(lambda, path, bounces) == onward(world, lambda, path, bounces),
        world.walked(lambda, path, bounces).radiance == path.radiance,
    decreases bounces,
{
    if bounces > 0 {
        let (hit, material) = world.scene.hit(path.ray)->0;
        lemma_walk_lost(
            world,
            lambda,
            world.bounced(lambda, path, hit, material),
            (bounces - 1) as nat,
        );
    }
}

/// A sample shows what its path escapes to after seven surfaces at most; a path
/// that meets eight shows what gathering nothing does.
pub proof fn lemma_sample_shows<F: Fn(Scalar) -> (Scalar, Scalar)>(
    world: World<F>,
    view: ViewBasis,
    width: int,
    height: int,
    px: int,
    py: int,
    sample: u32,
    seed: u32,
    n: nat,
)
    ensures
        ({
            let (lambda, path) = beginning(view, width, height, px, py, sample, seed);
            let shown = world.sample(view, width, height, px, py, sample, seed);
            let last = onward(world, lambda, path, n);
            let end = world.escaped(lambda, last);
            &&& n <= 7 && meets(world, lambda, path, n) && world.scene.hit(last.ray) is None
                ==> shown == developed(world.sensor, lambda, end.radiance, end.lanes, 4)
            &&& meets(world, lambda, path, 8) ==> shown == developed(
                world.sensor,
                lambda,
                Seq::new(4, |j: int| Scalar { bits: 0 }),
                onward(world, lambda, path, 8).lanes,
                4,
            )
        }),
{
    let (lambda, path) = beginning(view, width, height, px, py, sample, seed);
    let last = onward(world, lambda, path, n);
    if n <= 7 && meets(world, lambda, path, n) && world.scene.hit(last.ray) is None {
        lemma_walk_escapes(world, lambda, path, n, 8);
    }
    if meets(world, lambda, path, 8) {
        lemma_walk_lost(world, lambda, path, 8);
    }
}

/// A number times itself `n` times.
pub open spec fn raised(x: real, n: nat) -> real
    decreases n,
{
    if n == 0 {
        1real
    } else {
        x * raised(x, (n - 1) as nat)
    }
}

proof fn lemma_raised_part(x: real, n: nat)
    requires
        0real < x <= 1real,
    ensures
        0real < raised(x, n) <= 1real,
    decreases n,
{
    if n > 0 {
        lemma_raised_part(x, (n - 1) as nat);
        let y = raised(x, (n - 1) as nat);
        assert(0real < x * y <= 1real) by (nonlinear_arith)
            requires
                0real < x <= 1real,
                0real < y <= 1real,
        ;
    }
}

/// What `n` surfaces of one reflectance leave of a power is the power times the
/// reflectance raised to `n`: each adds one rounding.
pub proof fn lemma_dimmed_raised(p: Scalar, rho: Scalar, n: nat, r: real, t: real)
    requires
        is_about(p, r, t),
        0real <= t,
        t + n as real / 1000000real <= 1real / 10000real,
        r <= 1000000real,
        rho.finite(),
        0real < number(rho) <= 1real,
        r * raised(number(rho), n) >= 1real / 1000000000000000000000000real,
    ensures
        is_about(dimmed(p, rho, n), r * raised(number(rho), n), t + n as real / 1000000real),
    decreases n,
{
    let x = number(rho);
    if n > 0 {
        let m = (n - 1) as nat;
        let y = raised(x, m);
        lemma_raised_part(x, m);
        lemma_about_itself(rho);
        let rx = r * x;
        assert(r * (x * y) == rx * y) by (nonlinear_arith)
            requires
                rx == r * x,
        ;
        assert(rx * y <= rx && rx <= r && rx > 0real) by (nonlinear_arith)
            requires
                rx == r * x,
                r > 0real,
                0real < x <= 1real,
                0real < y <= 1real,
        ;
        lemma_about_product(p, rho, r, x, t, 0real);
        let u = t + 0real + 1real / 1000000real;
        lemma_dimmed_raised(p.product(rho), rho, m, rx, u);
        assert(u + m as real / 1000000real == t + n as real / 1000000real);
    } else {
        assert(r * 1real == r) by (nonlinear_arith);
    }
}

/// Among diffuse surfaces of one reflectance a path carries, after `n` of them,
/// what it set out with, dimmed `n` times, in every wavelength.
pub proof fn lemma_diffuse_onward<F: Fn(Scalar) -> (Scalar, Scalar)>(
    world: World<F>,
    lambda: Seq<Scalar>,
    path: PathState,
    rho: Scalar,
    n: nat,
)
    requires
        path.throughput.len() == 4,
        meets(world, lambda, path, n),
        forall|i: int|
            0 <= i < world.scene.primitives@.len() ==> is_diffuse(
                (#[trigger] world.scene.primitives@[i]).material,
                rho,
            ),
    ensures
        ({
            let last = onward(world, lambda, path, n);
            &&& last.throughput.len() == 4
            &&& forall|k: int|
                0 <= k < 4 ==> #[trigger] last.throughput[k] == dimmed(path.throughput[k], rho, n)
            &&& last.radiance == path.radiance
            &&& last.lanes == path.lanes
        }),
    decreases n,
{
    if n > 0 {
        let (hit, material) = world.scene.hit(path.ray)->0;
        lemma_hit_material(world.scene.primitives@, path.ray, world.scene.primitives@.len());
        let next = world.bounced(lambda, path, hit, material);
        lemma_diffuse_onward(world, lambda, next, rho, (n - 1) as nat);
        let last = onward(world, lambda, path, n);
        assert forall|k: int| 0 <= k < 4 implies #[trigger] last.throughput[k] == dimmed(
            path.throughput[k],
            rho,
            n,
        ) by {
            assert(next.throughput[k] == path.throughput[k].product(rho));
        }
    }
}

/// Among diffuse surfaces of reflectance `rho`, a path that meets `n` of them and
/// then the background gathers, in each wavelength, the background with the
/// illuminant's power there, times `rho` raised to `n`.
pub proof fn lemma_diffuse_gathers<F: Fn(Scalar) -> (Scalar, Scalar)>(
    world: World<F>,
    lambda: Seq<Scalar>,
    path: PathState,
    rho: Scalar,
    n: nat,
    bounces: nat,
    k: int,
) -> (e: Scalar)
    requires
        path.throughput.len() == 4,
        meets(world, lambda, path, n),
        n < bounces,
        n <= 7,
        world.scene.hit(onward(world, lambda, path, n).ray) is None,
        forall|i: int|
            0 <= i < world.scene.primitives@.len() ==> is_diffuse(
                (#[trigger] world.scene.primitives@[i]).material,
                rho,
            ),
        0 <= k < 4,
        number(path.throughput[k]) == 1real,
        path.throughput[k].finite(),
        rho.finite(),
        1real / 10real <= number(rho) <= 1real,
        is_moderate(world.scene.background_spec(onward(world, lambda, path, n).ray.dir)),
        is_moderate(world.sensor.power(world.illuminant, lambda[k])),
    ensures
        ({
            let bg = world.scene.background_spec(onward(world, lambda, path, n).ray.dir);
            let power = world.sensor.power(world.illuminant, lambda[k]);
            &&& world.walked(lambda, path, bounces).radiance[k] == path.radiance[k].sum(e)
            &&& is_about(
                e,
                (raised(number(rho), n) * number(bg)) * number(power),
                1real / 10000real,
            )
        }),
{
    let last = onward(world, lambda, path, n);
    lemma_walk_escapes(world, lambda, path, n, bounces);
    lemma_diffuse_onward(world, lambda, path, rho, n);
    let p = path.throughput[k];
    lemma_about_itself(p);
    let x = number(rho);
    lemma_raised_above(x, n);
    let y = raised(x, n);
    assert(1real * y == y) by (nonlinear_arith);
    lemma_dimmed_raised(p, rho, n, 1real, 0real);
    let t = last.throughput[k];
    let (bg, power) = (
        world.scene.background_spec(last.ray.dir),
        world.sensor.power(world.illuminant, lambda[k]),
    );
    lemma_about_itself(bg);
    lemma_about_itself(power);
    let m = 1real / 1000000real;
    let d = 0real + n as real / 1000000real;
    let (b, z) = (number(bg), number(power));
    let yb = y * b;
    assert(1real / 10000000000000000real <= yb <= 1000000000real) by (nonlinear_arith)
        requires
            yb == y * b,
            1real / 10000000real <= y <= 1real,
            1real / 1000000000real <= b <= 1000000000real,
    ;
    let ybz = yb * z;
    assert(1real / 10000000000000000000000000real <= ybz <= 1000000000000000000real)
        by (nonlinear_arith)
        requires
            ybz == yb * z,
            1real / 10000000000000000real <= yb <= 1000000000real,
            1real / 1000000000real <= z <= 1000000000real,
    ;
    lemma_about_product(t, bg, y, b, d, 0real);
    lemma_about_product(t.product(bg), power, yb, z, d + 0real + m, 0real);
    let e = t.product(bg).product(power);
    lemma_about_wider(e, ybz, d + 0real + m + 0real + m, 1real / 10000real);
    e
}

proof fn lemma_raised_above(x: real, n: nat)
    requires
        1real / 10real <= x <= 1real,
        n <= 7,
    ensures
        1real / 10000000real <= raised(x, n) <= 1real,
{
    lemma_raised_part(x, n);
    lemma_tenths(x, n);
    assert(raised(1real / 10real, 0) == 1real);
    assert(raised(1real / 10real, 1) == 1real / 10real);
    assert(raised(1real / 10real, 2) == 1real / 100real);
    assert(raised(1real / 10real, 3) == 1real / 1000real);
    assert(raised(1real / 10real, 4) == 1real / 10000real);
    assert(raised(1real / 10real, 5) == 1real / 100000real);
    assert(raised(1real / 10real, 6) == 1real / 1000000real);
    assert(raised(1real / 10real, 7) == 1real / 10000000real);
}

proof fn lemma_tenths(x: real, n: nat)
    requires
        1real / 10real <= x,
    ensures
        0real < raised(1real / 10real, n) <= raised(x, n),
    decreases n,
{
    if n > 0 {
        lemma_tenths(x, (n - 1) as nat);
        let (a, b) = (raised(1real / 10real, (n - 1) as nat), raised(x, (n - 1) as nat));
        assert(0real < (1real / 10real) * a <= x * b) by (nonlinear_arith)
            requires
                0real < a <= b,
                1real / 10real <= x,
        ;
    }
}

} // verus!
