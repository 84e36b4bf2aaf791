//! A scene packed into the flat arrays that the shaders read, and the words of
//! their records.
use crate::geom::Plane;
use crate::vector::Vector;
use crate::material::Material;
use crate::scalar::Scalar;
use crate::scene::Primitive;
use crate::scene::Scene;
use crate::scene::Shape;
use crate::sellmeier::Glass;
use vstd::prelude::*;

verus! {

/// Kind of a sphere among the packed primitives.
pub const KIND_SPHERE: u32 = 0;

/// Kind of a convex solid.
pub const KIND_SOLID: u32 = 1;

/// Kind of the filler that stands in an empty array: no shader intersects it.
pub const KIND_INERT: u32 = 99;

/// A primitive. A sphere has its centre and radius, a solid the range of its
/// planes; `material` is an index into the materials.
#[derive(Clone, Copy, Debug, PartialEq, Eq, Structural)]
pub struct GpuPrimitive {
    pub center: Vector,
    pub radius: Scalar,
    pub plane_start: u32,
    pub plane_count: u32,
    pub kind: u32,
    pub material: u32,
}

/// A material: kind 0 is Lambertian with its albedo, kind 1 dielectric with
/// the code of its glass.
#[derive(Clone, Copy, Debug, PartialEq, Eq, Structural)]
pub struct GpuMaterial {
    pub reflectance: Scalar,
    pub glass: u32,
    pub kind: u32,
    pub pad: u32,
}

#[derive(Clone, Copy, Debug, PartialEq, Eq, Structural)]
pub struct GpuPlane {
    pub normal: Vector,
    pub d: Scalar,
}

impl GpuPrimitive {
    pub open spec fn words(self) -> Seq<u32> {
        seq![
            self.center.x.bits,
            self.center.y.bits,
            self.center.z.bits,
            self.radius.bits,
            self.plane_start,
            self.plane_count,
            self.kind,
            self.material,
        ]
    }
}

impl GpuMaterial {
    pub open spec fn words(self) -> Seq<u32> {
        seq![self.reflectance.bits, self.glass, self.kind, self.pad]
    }
}

impl GpuPlane {
    pub open spec fn words(self) -> Seq<u32> {
        seq![self.normal.x.bits, self.normal.y.bits, self.normal.z.bits, self.d.bits]
    }
}

/// The packed form of a material.
pub open spec fn packed_material(m: Material) -> GpuMaterial {
    match m {
        Material::Lambertian { reflectance } => GpuMaterial {
            reflectance,
            glass: 0,
            kind: 0,
            pad: 0,
        },
        Material::Dielectric { glass } => GpuMaterial {
            reflectance: Scalar { bits: 0 },
            glass: glass.code_spec(),
            kind: 1,
            pad: 0,
        },
    }
}

/// The planes of one primitive: none for a sphere.
pub open spec fn planes_of(p: Primitive) -> Seq<Plane> {
    match p.shape {
        Shape::Sphere(_) => Seq::empty(),
        Shape::Solid(solid) => solid.planes@,
    }
}

/// The planes of the first `n` primitives, one after the other.
pub open spec fn planes_before(primitives: Seq<Primitive>, n: nat) -> Seq<Plane>
    decreases n,
{
    if n == 0 {
        Seq::empty()
    } else {
        planes_before(primitives, (n - 1) as nat) + planes_of(primitives[n - 1])
    }
}

pub open spec fn packed_plane(p: Plane) -> GpuPlane {
    GpuPlane { normal: p.normal, d: p.d }
}

/// The packed form of primitive `i`, whose material has the same index.
pub open spec fn packed_primitive(primitives: Seq<Primitive>, i: int) -> GpuPrimitive {
    match primitives[i].shape {
        Shape::Sphere(s) => GpuPrimitive {
            center: s.center,
            radius: s.radius,
            plane_start: 0,
            plane_count: 0,
            kind: KIND_SPHERE,
            material: i as u32,
        },
        Shape::Solid(solid) => GpuPrimitive {
            center: Vector::zeros(),
            radius: Scalar { bits: 0 },
            plane_start: planes_before(primitives, i as nat).len() as u32,
            plane_count: solid.planes@.len() as u32,
            kind: KIND_SOLID,
            material: i as u32,
        },
    }
}

/// The sequence itself, or the one filler where it is empty: a device buffer
/// cannot have size zero.
pub open spec fn filled<T>(s: Seq<T>, filler: T) -> Seq<T> {
    if s.len() == 0 {
        seq![filler]
    } else {
        s
    }
}

pub open spec fn filler_primitive() -> GpuPrimitive {
    GpuPrimitive {
        center: Vector::zeros(),
        radius: Scalar { bits: 0 },
        plane_start: 0,
        plane_count: 0,
        kind: KIND_INERT,
        material: 0,
    }
}

pub open spec fn filler_plane() -> GpuPlane {
    GpuPlane { normal: Vector::unit_y(), d: Scalar { bits: 0 } }
}

pub open spec fn filler_material() -> GpuMaterial {
    GpuMaterial { reflectance: Scalar { bits: 0 }, glass: 0, kind: 0, pad: 0 }
}

pub open spec fn packed_primitives(primitives: Seq<Primitive>) -> Seq<GpuPrimitive> {
    Seq::new(primitives.len(), |i: int| packed_primitive(primitives, i))
}

pub open spec fn packed_planes(primitives: Seq<Primitive>, n: nat) -> Seq<GpuPlane> {
    planes_before(primitives, n).map_values(|p: Plane| packed_plane(p))
}

pub open spec fn packed_materials(primitives: Seq<Primitive>) -> Seq<GpuMaterial> {
    Seq::new(primitives.len(), |i: int| packed_material(primitives[i].material))
}

fn pack_material(m: Material) -> (r: GpuMaterial)
    ensures
        r == packed_material(m),
{
    match m {
        Material::Lambertian { reflectance } => GpuMaterial {
            reflectance,
            glass: 0,
            kind: 0,
            pad: 0,
        },
        Material::Dielectric { glass } => GpuMaterial {
            reflectance: Scalar { bits: 0 },
            glass: glass.code(),
            kind: 1,
            pad: 0,
        },
    }
}

/// Packs a scene into primitives, planes and materials, each array with at
/// least one element.
pub fn flatten_scene(scene: &Scene) -> (r: (Vec<GpuPrimitive>, Vec<GpuPlane>, Vec<GpuMaterial>))
    ensures
        r.0@ == filled(packed_primitives(scene.primitives@), filler_primitive()),
        r.1@ == filled(
            packed_planes(scene.primitives@, scene.primitives@.len()),
            filler_plane(),
        ),
        r.2@ == filled(packed_materials(scene.primitives@), filler_material()),
{
    let ghost ps = scene.primitives@;
    let mut prims: Vec<GpuPrimitive> = Vec::new();
    let mut planes: Vec<GpuPlane> = Vec::new();
    let mut mats: Vec<GpuMaterial> = Vec::new();
    let mut k: usize = 0;
    while k < scene.primitives.len()
        invariant
            ps == scene.primitives@,
            k <= ps.len(),
            prims@ == packed_primitives(ps).take(k as int),
            planes@ == packed_planes(ps, k as nat),
            mats@ == packed_materials(ps).take(k as int),
        decreases ps.len() - k,
    {
        let p: &Primitive = &scene.primitives[k];
        let material: u32 = mats.len() as u32;
        mats.push(pack_material(p.material));
        let ghost before = planes@;
        match &p.shape {
            Shape::Sphere(s) => {
                prims.push(
                    GpuPrimitive {
                        center: s.center,
                        radius: s.radius,
                        plane_start: 0,
                        plane_count: 0,
                        kind: KIND_SPHERE,
                        material,
                    },
                );
                assert(planes_before(ps, k as nat) + planes_of(ps[k as int]) =~= planes_before(
                    ps,
                    k as nat,
                ));
            },
            Shape::Solid(solid) => {
                let start: u32 = planes.len() as u32;
                let ghost added = solid.planes@.map_values(|q: Plane| packed_plane(q));
                let mut j: usize = 0;
                while j < solid.planes.len()
                    invariant
                        j <= solid.planes@.len(),
                        added == solid.planes@.map_values(|q: Plane| packed_plane(q)),
                        planes@ == before + added.take(j as int),
                    decreases solid.planes@.len() - j,
                {
                    let pl: Plane = solid.planes[j];
                    planes.push(GpuPlane { normal: pl.normal, d: pl.d });
                    j = j + 1;
                    assert(planes@ =~= before + added.take(j as int));
                }
                prims.push(
                    GpuPrimitive {
                        center: Vector::zero(),
                        radius: Scalar { bits: 0 },
                        plane_start: start,
                        plane_count: solid.planes.len() as u32,
                        kind: KIND_SOLID,
                        material,
                    },
                );
                assert(planes@ =~= packed_planes(ps, (k + 1) as nat));
            },
        }
        assert(prims@ =~= packed_primitives(ps).take(k + 1));
        assert(mats@ =~= packed_materials(ps).take(k + 1));
        k = k + 1;
    }
    assert(packed_primitives(ps).take(k as int) =~= packed_primitives(ps));
    assert(packed_materials(ps).take(k as int) =~= packed_materials(ps));
    if planes.len() == 0 {
        planes.push(GpuPlane { normal: Vector::y_axis(), d: Scalar { bits: 0 } });
        assert(planes@ =~= seq![filler_plane()]);
    }
    if mats.len() == 0 {
        mats.push(GpuMaterial { reflectance: Scalar { bits: 0 }, glass: 0, kind: 0, pad: 0 });
        assert(mats@ =~= seq![filler_material()]);
    }
    if prims.len() == 0 {
        prims.push(
            GpuPrimitive {
                center: Vector::zero(),
                radius: Scalar { bits: 0 },
                plane_start: 0,
                plane_count: 0,
                kind: KIND_INERT,
                material: 0,
            },
        );
        assert(prims@ =~= seq![filler_primitive()]);
    }
    (prims, planes, mats)
}

/// The words of the primitives' buffer, eight for each.
pub fn primitive_words(prims: &Vec<GpuPrimitive>) -> (r: Vec<u32>)
    ensures
        r@.len() == 8 * prims@.len(),
        forall|i: int, j: int|
            #![trigger prims@[i].words()[j]]
            0 <= i < prims@.len() && 0 <= j < 8 ==> r@[8 * i + j] == prims@[i].words()[j],
{
    let mut out: Vec<u32> = Vec::new();
    let mut k: usize = 0;
    while k < prims.len()
        invariant
            k <= prims@.len(),
            out@.len() == 8 * k,
            forall|i: int, j: int|
                #![trigger prims@[i].words()[j]]
                0 <= i < k && 0 <= j < 8 ==> out@[8 * i + j] == prims@[i].words()[j],
        decreases prims@.len() - k,
    {
        let p: GpuPrimitive = prims[k];
        out.push(p.center.x.bits);
        out.push(p.center.y.bits);
        out.push(p.center.z.bits);
        out.push(p.radius.bits);
        out.push(p.plane_start);
        out.push(p.plane_count);
        out.push(p.kind);
        out.push(p.material);
        k = k + 1;
    }
    out
}

/// The words of the planes' buffer, four for each.
pub fn plane_words(planes: &Vec<GpuPlane>) -> (r: Vec<u32>)
    ensures
        r@.len() == 4 * planes@.len(),
        forall|i: int, j: int|
            #![trigger planes@[i].words()[j]]
            0 <= i < planes@.len() && 0 <= j < 4 ==> r@[4 * i + j] == planes@[i].words()[j],
{
    let mut out: Vec<u32> = Vec::new();
    let mut k: usize = 0;
    while k < planes.len()
        invariant
            k <= planes@.len(),
            out@.len() == 4 * k,
            forall|i: int, j: int|
                #![trigger planes@[i].words()[j]]
                0 <= i < k && 0 <= j < 4 ==> out@[4 * i + j] == planes@[i].words()[j],
        decreases planes@.len() - k,
    {
        let p: GpuPlane = planes[k];
        out.push(p.normal.x.bits);
        out.push(p.normal.y.bits);
        out.push(p.normal.z.bits);
        out.push(p.d.bits);
        k = k + 1;
    }
    out
}

/// The words of the materials' buffer, four for each.
pub fn material_words(mats: &Vec<GpuMaterial>) -> (r: Vec<u32>)
    ensures
        r@.len() == 4 * mats@.len(),
        forall|i: int, j: int|
            #![trigger mats@[i].words()[j]]
            0 <= i < mats@.len() && 0 <= j < 4 ==> r@[4 * i + j] == mats@[i].words()[j],
{
    let mut out: Vec<u32> = Vec::new();
    let mut k: usize = 0;
    while k < mats.len()
        invariant
            k <= mats@.len(),
            out@.len() == 4 * k,
            forall|i: int, j: int|
                #![trigger mats@[i].words()[j]]
                0 <= i < k && 0 <= j < 4 ==> out@[4 * i + j] == mats@[i].words()[j],
        decreases mats@.len() - k,
    {
        let m: GpuMaterial = mats[k];
        out.push(m.reflectance.bits);
        out.push(m.glass);
        out.push(m.kind);
        out.push(m.pad);
        k = k + 1;
    }
    out
}

/// The material that a packed one stands for.
pub open spec fn unpacked_material(m: GpuMaterial) -> Option<Material> {
    if m.kind == 0 {
        Some(Material::Lambertian { reflectance: m.reflectance })
    } else if m.kind == 1 && m.glass == 0 {
        Some(Material::Dielectric { glass: Glass::Bk7 })
    } else if m.kind == 1 && m.glass == 1 {
        Some(Material::Dielectric { glass: Glass::Sf11 })
    } else if m.kind == 1 && m.glass == 2 {
        Some(Material::Dielectric { glass: Glass::Water })
    } else {
        None
    }
}

/// A packed material is read back as it was.
pub proof fn lemma_material_round_trip(m: Material)
    ensures
        unpacked_material(packed_material(m)) == Some(m),
{
}

/// Packing more primitives leaves the planes packed so far in their places.
proof fn lemma_planes_prefix(primitives: Seq<Primitive>, i: nat, n: nat)
    requires
        i <= n <= primitives.len(),
    ensures
        planes_before(primitives, i).len() <= planes_before(primitives, n).len(),
        planes_before(primitives, n).take(planes_before(primitives, i).len() as int)
            == planes_before(primitives, i),
    decreases n - i,
{
    let head = planes_before(primitives, i);
    if i < n {
        lemma_planes_prefix(primitives, i, (n - 1) as nat);
        let shorter = planes_before(primitives, (n - 1) as nat);
        let longer = planes_before(primitives, n);
        assert(longer.take(head.len() as int) =~= shorter.take(head.len() as int));
    } else {
        assert(head.take(head.len() as int) =~= head);
    }
}

/// What a shader reads of primitive `i` is the primitive of the scene: its
/// material under its own index, a sphere's centre and radius, and a solid's
/// planes in the range that the packed primitive names.
pub proof fn lemma_scene_round_trip(primitives: Seq<Primitive>, i: int)
    requires
        0 <= i < primitives.len(),
        primitives.len() < 0x1_0000_0000,
        planes_before(primitives, primitives.len()).len() < 0x1_0000_0000,
    ensures
        ({
            let p = filled(packed_primitives(primitives), filler_primitive())[i];
            let planes = filled(packed_planes(primitives, primitives.len()), filler_plane());
            let mats = filled(packed_materials(primitives), filler_material());
            &&& p.material < mats.len()
            &&& unpacked_material(mats[p.material as int]) == Some(primitives[i].material)
            &&& match primitives[i].shape {
                Shape::Sphere(s) => p.kind == KIND_SPHERE && p.center == s.center && p.radius
                    == s.radius,
                Shape::Solid(solid) => p.kind == KIND_SOLID && p.plane_count
                    == solid.planes@.len() && p.plane_start + p.plane_count <= planes.len()
                    && forall|j: int|
                    0 <= j < solid.planes@.len() ==> planes[p.plane_start + j] == packed_plane(
                        #[trigger] solid.planes@[j],
                    ),
            }
        }),
{
    let n = primitives.len();
    let all = planes_before(primitives, n);
    let head = planes_before(primitives, i as nat);
    let next = planes_before(primitives, (i + 1) as nat);
    lemma_planes_prefix(primitives, i as nat, n);
    lemma_planes_prefix(primitives, (i + 1) as nat, n);
    lemma_material_round_trip(primitives[i].material);
    assert(next == head + planes_of(primitives[i]));
    match primitives[i].shape {
        Shape::Sphere(_) => {},
        Shape::Solid(solid) => {
            let planes = filled(packed_planes(primitives, n), filler_plane());
            assert forall|j: int| 0 <= j < solid.planes@.len() implies planes[head.len() + j]
                == packed_plane(#[trigger] solid.planes@[j]) by {
                assert(next[head.len() + j] == solid.planes@[j]);
                assert(all.take(next.len() as int)[head.len() + j] == solid.planes@[j]);
            }
        },
    }
}

} // verus!
