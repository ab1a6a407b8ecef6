use vstd::prelude::*;
use crate::color::Color;
use crate::hittable::Hittable;
use crate::interval::Interval;
use crate::material::{Material, ScatterRecord};
use crate::ray::{Ray, Vec3};

verus! {

/// Nearest ray parameter at which a bounce may hit again, so that a scattered ray does not
/// find the surface it leaves.
pub const T_MIN: i64 = 1;

/// The light that reaches a ray that leaves the scene.
pub trait Background {
    spec fn color_of(&self, direction: Vec3) -> Color;

    fn sample(&self, direction: Vec3) -> (r: Color)
        ensures
            r == self.color_of(direction),
    ;
}

/// The same color in every direction.
#[derive(Clone, Copy, Debug, PartialEq, Eq, Structural)]
pub struct SolidColorBackground {
    pub color: Color,
}

impl SolidColorBackground {
    pub fn new(color: Color) -> (r: SolidColorBackground)
        ensures
            r.color == color,
    {
        SolidColorBackground { color }
    }
}

impl Background for SolidColorBackground {
    open spec fn color_of(&self, direction: Vec3) -> Color {
        self.color
    }

    fn sample(&self, direction: Vec3) -> (r: Color) {
        self.color
    }
}

/// One channel of `shade`: `e + s * a * w / UNIT^2`, held to the channel's range.
pub open spec fn shade_channel(e: int, s: int, a: int, w: int) -> int {
    let v = e + s * a * w / 1_000_000;
    if v > 0xffff {
        0xffff
    } else {
        v
    }
}

/// What `shade` gives.
pub open spec fn shade_spec(emission: Color, scattered: Option<(ScatterRecord, Color)>) -> Color {
    match scattered {
        None => emission,
        Some(sc) => Color {
            r: shade_channel(emission.r as int, sc.1.r as int, sc.0.attenuation.r as int, sc.0.weight as int) as u16,
            g: shade_channel(emission.g as int, sc.1.g as int, sc.0.attenuation.g as int, sc.0.weight as int) as u16,
            b: shade_channel(emission.b as int, sc.1.b as int, sc.0.attenuation.b as int, sc.0.weight as int) as u16,
        },
    }
}

/// The light carried back along `ray` with at most `depth` bounces left, as `ray_color`
/// computes it.
pub open spec fn radiance<H: Hittable, M: Material, B: Background>(
    ray: Ray,
    depth: nat,
    world: H,
    materials: Seq<M>,
    background: B,
) -> Color
    decreases depth,
{
    if depth == 0 {
        Color { r: 0, g: 0, b: 0 }
    } else {
        match world.hit_spec(ray, Interval { min: T_MIN, max: i64::MAX }) {
            None => background.color_of(ray.direction),
            Some(rec) => {
                if rec.material >= materials.len() {
                    Color { r: 0, g: 0, b: 0 }
                } else {
                    let m = materials[rec.material as int];
                    let emission = m.emission(rec);
                    match m.scatter_spec(ray, rec) {
                        None => emission,
                        Some(srec) => shade_spec(
                            emission,
                            Some((srec, radiance(srec.scattered_ray, (depth - 1) as nat, world, materials, background))),
                        ),
                    }
                }
            },
        }
    }
}

fn shade_channel_exec(e: u16, s: u16, a: u16, w: u16) -> (r: u16)
    ensures
        r == shade_channel(e as int, s as int, a as int, w as int),
{
    proof {
        assert(0 <= (s as int) * (a as int) <= 0xffff_ffff) by (nonlinear_arith)
            requires
                0 <= s <= 0xffff,
                0 <= a <= 0xffff,
        ;
    }
    let sa = (s as u64) * (a as u64);
    proof {
        assert(0 <= sa * (w as int) <= 0xffff_ffff_ffff) by (nonlinear_arith)
            requires
                sa == (s as int) * (a as int),
                0 <= s <= 0xffff,
                0 <= a <= 0xffff,
                0 <= w <= 0xffff,
        ;
    }
    let v = e as u64 + sa * (w as u64) / 1_000_000;
    if v > 0xffff {
        0xffff
    } else {
        v as u16
    }
}

/// The light that leaves a hit: what the surface gives off, plus, where it scatters, the light
/// `incoming` that the scattered ray brings back, times the attenuation and the importance
/// weight. Each channel is held to its range.
pub fn shade(emission: Color, scattered: Option<(ScatterRecord, Color)>) -> (r: Color)
    ensures
        r == shade_spec(emission, scattered),
        match scattered {
            None => r == emission,
            Some(sc) => {
                &&& r.r == shade_channel(emission.r as int, sc.1.r as int, sc.0.attenuation.r as int, sc.0.weight as int)
                &&& r.g == shade_channel(emission.g as int, sc.1.g as int, sc.0.attenuation.g as int, sc.0.weight as int)
                &&& r.b == shade_channel(emission.b as int, sc.1.b as int, sc.0.attenuation.b as int, sc.0.weight as int)
            },
        },
{
    match scattered {
        None => emission,
        Some((rec, incoming)) => Color {
            r: shade_channel_exec(emission.r, incoming.r, rec.attenuation.r, rec.weight),
            g: shade_channel_exec(emission.g, incoming.g, rec.attenuation.g, rec.weight),
            b: shade_channel_exec(emission.b, incoming.b, rec.attenuation.b, rec.weight),
        },
    }
}

/// The light carried back along `ray` with at most `depth` bounces left, exactly `radiance`: no
/// bounces left gives black; a ray that hits nothing at a parameter of `[T_MIN, i64::MAX]`
/// gives the background; a hit gives `shade` of the hit material's emission and of the light
/// that its scattered ray brings back with one bounce fewer. A hit whose material index is
/// out of range is black.
pub fn ray_color<H: Hittable, M: Material, B: Background>(
    ray: Ray,
    depth: u32,
    world: &H,
    materials: &Vec<M>,
    background: &B,
) -> (r: Color)
    requires
        world.valid(),
    ensures
        r == radiance(ray, depth as nat, *world, materials@, *background),
        depth == 0 ==> r == Color::black_spec(),
        depth > 0 && (forall|t: int| T_MIN <= t <= i64::MAX ==> !#[trigger] world.hit_at(ray, t))
            ==> r == background.color_of(ray.direction),
    decreases depth,
{
    if depth == 0 {
        return Color::black();
    }
    let ray_t = Interval::new(T_MIN, i64::MAX);
    match world.hit(ray, ray_t) {
        None => background.sample(ray.direction),
        Some(rec) => {
            proof {
                assert(ray_t.contains_spec(rec.t as int));
            }
            if rec.material >= materials.len() {
                return Color::black();
            }
            let material = &materials[rec.material];
            let emission = material.emitted(&rec);
            match material.scatter(ray, &rec) {
                None => shade(emission, None),
                Some(srec) => {
                    let incoming = ray_color(srec.scattered_ray, depth - 1, world, materials, background);
                    shade(emission, Some((srec, incoming)))
                },
            }
        },
    }
}

} // verus!
