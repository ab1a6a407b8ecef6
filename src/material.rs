use vstd::prelude::*;
use crate::color::Color;
use crate::hittable::{HitRecord, coordinate_before};
use crate::ray::{Ray, Vec3, point_at};

verus! {

/// How a material sends light on: the ray it scatters into, the color it keeps of what comes
/// back (`attenuation`, thousandths per channel) and the importance weight of the sample
/// (`weight`: the cosine term over the sampling density, in thousandths).
#[derive(Clone, Copy, Debug, PartialEq, Eq, Structural)]
pub struct ScatterRecord {
    pub attenuation: Color,
    pub scattered_ray: Ray,
    pub weight: u16,
}

/// What a surface does with light.
pub trait Material {
    /// The light the surface gives off at the hit.
    spec fn emission(&self, rec: HitRecord) -> Color;

    /// What `scatter` gives.
    spec fn scatter_spec(&self, ray_in: Ray, rec: HitRecord) -> Option<ScatterRecord>;

    /// The ray the surface scatters the incoming ray into, if any.
    fn scatter(&self, ray_in: Ray, rec: &HitRecord) -> (r: Option<ScatterRecord>)
        ensures
            r == self.scatter_spec(ray_in, *rec),
    ;

    fn emitted(&self, rec: &HitRecord) -> (r: Color)
        ensures
            r == self.emission(*rec),
    ;
}

/// A surface that neither gives off nor sends on any light.
#[derive(Clone, Copy, Debug, PartialEq, Eq, Structural)]
pub struct EmptyMaterial {}

impl EmptyMaterial {
    pub fn new() -> (r: EmptyMaterial)
        ensures
            r == (EmptyMaterial {}),
    {
        EmptyMaterial {}
    }
}

impl Material for EmptyMaterial {
    open spec fn emission(&self, rec: HitRecord) -> Color {
        Color { r: 0, g: 0, b: 0 }
    }

    open spec fn scatter_spec(&self, ray_in: Ray, rec: HitRecord) -> Option<ScatterRecord> {
        None
    }

    fn scatter(&self, ray_in: Ray, rec: &HitRecord) -> (r: Option<ScatterRecord>) {
        None
    }

    fn emitted(&self, rec: &HitRecord) -> (r: Color) {
        Color { r: 0, g: 0, b: 0 }
    }
}

/// A diffuse surface that carries no scattering model of its own: it absorbs all light.
#[allow(non_camel_case_types)]
#[derive(Clone, Copy, Debug, PartialEq, Eq, Structural)]
pub struct Diffuse_BSDF {}

impl Material for Diffuse_BSDF {
    open spec fn emission(&self, rec: HitRecord) -> Color {
        Color { r: 0, g: 0, b: 0 }
    }

    open spec fn scatter_spec(&self, ray_in: Ray, rec: HitRecord) -> Option<ScatterRecord> {
        None
    }

    fn scatter(&self, ray_in: Ray, rec: &HitRecord) -> (r: Option<ScatterRecord>) {
        None
    }

    fn emitted(&self, rec: &HitRecord) -> (r: Color) {
        Color { r: 0, g: 0, b: 0 }
    }
}

/// A light source: it gives off `color` and scatters nothing.
#[derive(Clone, Copy, Debug, PartialEq, Eq, Structural)]
pub struct DiffuseLight {
    pub color: Color,
}

impl DiffuseLight {
    pub fn from_color(color: Color) -> (r: DiffuseLight)
        ensures
            r.color == color,
    {
        DiffuseLight { color }
    }
}

impl Material for DiffuseLight {
    open spec fn emission(&self, rec: HitRecord) -> Color {
        self.color
    }

    open spec fn scatter_spec(&self, ray_in: Ray, rec: HitRecord) -> Option<ScatterRecord> {
        None
    }

    fn scatter(&self, ray_in: Ray, rec: &HitRecord) -> (r: Option<ScatterRecord>) {
        None
    }

    fn emitted(&self, rec: &HitRecord) -> (r: Color) {
        self.color
    }
}

/// The cosine-weighted distribution of directions over a hemisphere.
#[derive(Clone, Copy, Debug, PartialEq, Eq, Structural)]
pub struct CosineWeightedPDF {}

/// `n` is a unit vector along one axis.
pub open spec fn is_axis_unit(n: Vec3) -> bool {
    ||| (n.x == 1 || n.x == -1) && n.y == 0 && n.z == 0
    ||| n.x == 0 && (n.y == 1 || n.y == -1) && n.z == 0
    ||| n.x == 0 && n.y == 0 && (n.z == 1 || n.z == -1)
}

/// `d` reflected in a plane whose normal is the axis unit vector `n`: its component along
/// that axis changes sign.
pub open spec fn reflect_spec(d: Vec3, n: Vec3) -> Vec3 {
    if n.x != 0 {
        Vec3 { x: (-d.x) as i32, ..d }
    } else if n.y != 0 {
        Vec3 { y: (-d.y) as i32, ..d }
    } else {
        Vec3 { z: (-d.z) as i32, ..d }
    }
}

pub open spec fn fits_i32(v: int) -> bool {
    i32::MIN <= v <= i32::MAX
}

fn fits_lattice(v: i128) -> (b: bool)
    ensures
        b == fits_i32(v as int),
{
    i32::MIN as i128 <= v && v <= i32::MAX as i128
}

/// A perfect mirror on axis-aligned faces: it keeps `albedo` of the light that the reflected
/// ray brings back.
#[derive(Clone, Copy, Debug, PartialEq, Eq, Structural)]
pub struct Mirror {
    pub albedo: Color,
}

impl Mirror {
    pub fn new(albedo: Color) -> (r: Mirror)
        ensures
            r.albedo == albedo,
    {
        Mirror { albedo }
    }

    /// The reflected ray leaves from the point one step before the hit, outside the face it
    /// hit, so that it cannot meet that face again. There is none when the normal is not an
    /// axis unit vector or the ray does not fit the lattice.
    pub open spec fn reflection(self, ray_in: Ray, rec: HitRecord) -> Option<ScatterRecord> {
        let ox = point_at(ray_in, rec.t - 1, 0);
        let oy = point_at(ray_in, rec.t - 1, 1);
        let oz = point_at(ray_in, rec.t - 1, 2);
        let d = ray_in.direction;
        let n = rec.normal;
        if is_axis_unit(n) && fits_i32(ox) && fits_i32(oy) && fits_i32(oz) && d.x > i32::MIN && d.y > i32::MIN
            && d.z > i32::MIN {
            Some(
                ScatterRecord {
                    attenuation: self.albedo,
                    scattered_ray: Ray {
                        origin: Vec3 { x: ox as i32, y: oy as i32, z: oz as i32 },
                        direction: reflect_spec(d, n),
                        time: ray_in.time,
                    },
                    weight: 1000,
                },
            )
        } else {
            None
        }
    }
}

impl Material for Mirror {
    open spec fn emission(&self, rec: HitRecord) -> Color {
        Color { r: 0, g: 0, b: 0 }
    }

    open spec fn scatter_spec(&self, ray_in: Ray, rec: HitRecord) -> Option<ScatterRecord> {
        self.reflection(ray_in, rec)
    }

    fn scatter(&self, ray_in: Ray, rec: &HitRecord) -> (r: Option<ScatterRecord>) {
        let n = rec.normal;
        let axis_unit = ((n.x == 1 || n.x == -1) && n.y == 0 && n.z == 0) || (n.x == 0 && (n.y == 1 || n.y == -1)
            && n.z == 0) || (n.x == 0 && n.y == 0 && (n.z == 1 || n.z == -1));
        let d = ray_in.direction;
        let ox = coordinate_before(ray_in.origin.x, d.x, rec.t);
        let oy = coordinate_before(ray_in.origin.y, d.y, rec.t);
        let oz = coordinate_before(ray_in.origin.z, d.z, rec.t);
        if !(axis_unit && fits_lattice(ox) && fits_lattice(oy) && fits_lattice(oz) && d.x > i32::MIN && d.y > i32::MIN && d.z > i32::MIN) {
            return None;
        }
        let direction = if n.x != 0 {
            Vec3 { x: -d.x, y: d.y, z: d.z }
        } else if n.y != 0 {
            Vec3 { x: d.x, y: -d.y, z: d.z }
        } else {
            Vec3 { x: d.x, y: d.y, z: -d.z }
        };
        Some(
            ScatterRecord {
                attenuation: self.albedo,
                scattered_ray: Ray { origin: Vec3 { x: ox as i32, y: oy as i32, z: oz as i32 }, direction, time: ray_in.time },
                weight: 1000,
            },
        )
    }

    fn emitted(&self, rec: &HitRecord) -> (r: Color) {
        Color { r: 0, g: 0, b: 0 }
    }
}

/// The materials a scene is built from, one variant per kind.
#[derive(Clone, Copy, Debug, PartialEq, Eq, Structural)]
pub enum SceneMaterial {
    Empty(EmptyMaterial),
    Light(DiffuseLight),
    Mirror(Mirror),
}

impl Material for SceneMaterial {
    open spec fn emission(&self, rec: HitRecord) -> Color {
        match self {
            SceneMaterial::Empty(m) => m.emission(rec),
            SceneMaterial::Light(m) => m.emission(rec),
            SceneMaterial::Mirror(m) => m.emission(rec),
        }
    }

    open spec fn scatter_spec(&self, ray_in: Ray, rec: HitRecord) -> Option<ScatterRecord> {
        match self {
            SceneMaterial::Empty(m) => m.scatter_spec(ray_in, rec),
            SceneMaterial::Light(m) => m.scatter_spec(ray_in, rec),
            SceneMaterial::Mirror(m) => m.scatter_spec(ray_in, rec),
        }
    }

    fn scatter(&self, ray_in: Ray, rec: &HitRecord) -> (r: Option<ScatterRecord>) {
        match self {
            SceneMaterial::Empty(m) => m.scatter(ray_in, rec),
            SceneMaterial::Light(m) => m.scatter(ray_in, rec),
            SceneMaterial::Mirror(m) => m.scatter(ray_in, rec),
        }
    }

    fn emitted(&self, rec: &HitRecord) -> (r: Color) {
        match self {
            SceneMaterial::Empty(m) => m.emitted(rec),
            SceneMaterial::Light(m) => m.emitted(rec),
            SceneMaterial::Mirror(m) => m.emitted(rec),
        }
    }
}

} // verus!
