use vstd::prelude::*;
use crate::interval::Interval;
use crate::ray::{Ray, Vec3, point_at};

verus! {

/// The thickness that `from_corners` gives an axis on which both corners agree: half of it
/// on each side, so that the slab test never works on a slab of no width.
pub const MIN_THICKNESS: i64 = 2;

/// An axis-aligned bounding box: one closed interval per axis.
#[derive(Clone, Copy, Debug, PartialEq, Eq, Structural)]
pub struct AABB {
    pub x: Interval,
    pub y: Interval,
    pub z: Interval,
}

/// `a <= b` for fractions `(numerator, denominator)` with positive denominators.
pub open spec fn frac_le(a: (int, int), b: (int, int)) -> bool {
    a.0 * b.1 <= b.0 * a.1
}

/// `a < b` for fractions with positive denominators.
pub open spec fn frac_lt(a: (int, int), b: (int, int)) -> bool {
    a.0 * b.1 < b.0 * a.1
}

/// The parameter at which a ray with origin `o` and direction `d != 0` enters the slab `iv`.
pub open spec fn entry_of(iv: Interval, o: int, d: int) -> (int, int) {
    if d > 0 {
        (iv.min - o, d)
    } else {
        (o - iv.max, -d)
    }
}

/// The parameter at which a ray with origin `o` and direction `d != 0` leaves the slab `iv`.
pub open spec fn exit_of(iv: Interval, o: int, d: int) -> (int, int) {
    if d > 0 {
        (iv.max - o, d)
    } else {
        (o - iv.min, -d)
    }
}

/// Narrows the parameter range `s` to the parameters at which the ray lies in slab `iv`;
/// `None` once the range is empty, that is once its upper end is no longer above its lower
/// end.
pub open spec fn clip_spec(s: Option<((int, int), (int, int))>, iv: Interval, o: int, d: int) -> Option<
    ((int, int), (int, int)),
> {
    match s {
        None => None,
        Some(lu) => {
            let l = lu.0;
            let u = lu.1;
            if d == 0 {
                if iv.contains_spec(o) && frac_lt(l, u) {
                    s
                } else {
                    None
                }
            } else {
                let e = entry_of(iv, o, d);
                let x = exit_of(iv, o, d);
                let l2 = if frac_lt(l, e) {
                    e
                } else {
                    l
                };
                let u2 = if frac_lt(x, u) {
                    x
                } else {
                    u
                };
                if !frac_lt(l2, u2) {
                    None
                } else {
                    Some((l2, u2))
                }
            }
        },
    }
}

/// Parameter `t` lies in the range `s`.
pub open spec fn in_span(s: Option<((int, int), (int, int))>, t: int) -> bool {
    match s {
        None => false,
        Some(lu) => frac_le(lu.0, (t, 1)) && frac_le((t, 1), lu.1),
    }
}

pub open spec fn span_dens_positive(s: Option<((int, int), (int, int))>) -> bool {
    match s {
        None => true,
        Some(lu) => lu.0.1 > 0 && lu.1.1 > 0,
    }
}

/// The parameter range within `ray_t` over which the ray lies in the box, as the slab test
/// computes it: narrowed axis by axis, x, then y, then z.
pub open spec fn slab_spec(b: AABB, ray: Ray, ray_t: Interval) -> Option<((int, int), (int, int))> {
    let s0 = Some(((ray_t.min as int, 1int), (ray_t.max as int, 1int)));
    let s1 = clip_spec(s0, b.x, ray.origin.x as int, ray.direction.x as int);
    let s2 = clip_spec(s1, b.y, ray.origin.y as int, ray.direction.y as int);
    clip_spec(s2, b.z, ray.origin.z as int, ray.direction.z as int)
}

/// The axis of largest extent; a tie between x and y goes to y, and any tie with the winner
/// of those two goes to z.
pub open spec fn longest_axis_spec(b: AABB) -> int {
    if b.x.max - b.x.min > b.y.max - b.y.min {
        if b.x.max - b.x.min > b.z.max - b.z.min {
            0
        } else {
            2
        }
    } else {
        if b.y.max - b.y.min > b.z.max - b.z.min {
            1
        } else {
            2
        }
    }
}

/// Per-axis padding that `from_corners` applies to an extent of `a` to `b`.
pub open spec fn pad_of(a: int, b: int) -> int {
    let size = if a <= b {
        b - a
    } else {
        a - b
    };
    if size == 0 {
        MIN_THICKNESS / 2
    } else {
        0
    }
}

pub open spec fn corner_interval(a: int, b: int) -> Interval {
    Interval {
        min: ((if a <= b {
            a
        } else {
            b
        }) - pad_of(a, b)) as i64,
        max: ((if a <= b {
            b
        } else {
            a
        }) + pad_of(a, b)) as i64,
    }
}

proof fn lemma_frac_trans(a: (int, int), b: (int, int), c: (int, int))
    requires
        a.1 > 0,
        b.1 > 0,
        c.1 > 0,
        frac_le(a, b),
        frac_le(b, c),
    ensures
        frac_le(a, c),
{
    assert(a.0 * c.1 <= c.0 * a.1) by (nonlinear_arith)
        requires
            a.1 > 0,
            b.1 > 0,
            c.1 > 0,
            a.0 * b.1 <= b.0 * a.1,
            b.0 * c.1 <= c.0 * b.1,
    ;
}

/// The ray is strictly inside slab `iv` at parameter `t` when it moves across the slab, and
/// between its planes (or on one) when it runs parallel to them.
pub open spec fn axis_interior(iv: Interval, o: int, d: int, t: int) -> bool {
    if d == 0 {
        iv.contains_spec(o)
    } else {
        iv.min < o + t * d < iv.max
    }
}

proof fn lemma_frac_lt_le(a: (int, int), b: (int, int), c: (int, int))
    requires
        a.1 > 0,
        b.1 > 0,
        c.1 > 0,
        frac_lt(a, b),
        frac_le(b, c),
    ensures
        frac_lt(a, c),
{
    assert(a.0 * c.1 < c.0 * a.1) by (nonlinear_arith)
        requires
            a.1 > 0,
            b.1 > 0,
            c.1 > 0,
            a.0 * b.1 < b.0 * a.1,
            b.0 * c.1 <= c.0 * b.1,
    ;
}

proof fn lemma_frac_le_lt(a: (int, int), b: (int, int), c: (int, int))
    requires
        a.1 > 0,
        b.1 > 0,
        c.1 > 0,
        frac_le(a, b),
        frac_lt(b, c),
    ensures
        frac_lt(a, c),
{
    assert(a.0 * c.1 < c.0 * a.1) by (nonlinear_arith)
        requires
            a.1 > 0,
            b.1 > 0,
            c.1 > 0,
            a.0 * b.1 <= b.0 * a.1,
            b.0 * c.1 < c.0 * b.1,
    ;
}

/// On a slab with `d != 0`, `t` lies strictly between entry and exit exactly when the ray is
/// strictly inside the slab at `t`.
proof fn lemma_slab_axis(iv: Interval, o: int, d: int, t: int)
    requires
        d != 0,
    ensures
        (frac_lt(entry_of(iv, o, d), (t, 1)) && frac_lt((t, 1), exit_of(iv, o, d))) <==> axis_interior(iv, o, d, t),
{
    assert(t * (-d) == -(t * d)) by (nonlinear_arith);
}

/// Clipping keeps a parameter `t` at which the ray is strictly inside the slab, and the range
/// stays non-empty.
proof fn lemma_clip(s: Option<((int, int), (int, int))>, iv: Interval, o: int, d: int, t: int)
    requires
        s is Some,
        span_dens_positive(s),
        in_span(s, t),
        frac_lt(s->Some_0.0, s->Some_0.1),
        axis_interior(iv, o, d, t),
    ensures
        clip_spec(s, iv, o, d) is Some,
        span_dens_positive(clip_spec(s, iv, o, d)),
        in_span(clip_spec(s, iv, o, d), t),
        frac_lt(clip_spec(s, iv, o, d)->Some_0.0, clip_spec(s, iv, o, d)->Some_0.1),
{
    let l = s->Some_0.0;
    let u = s->Some_0.1;
    let tt = (t, 1int);
    if d != 0 {
        let e = entry_of(iv, o, d);
        let x = exit_of(iv, o, d);
        lemma_slab_axis(iv, o, d, t);
        let l2 = if frac_lt(l, e) {
            e
        } else {
            l
        };
        let u2 = if frac_lt(x, u) {
            x
        } else {
            u
        };
        assert(frac_le(l2, tt));
        assert(frac_le(tt, u2));
        if frac_lt(l, e) {
            lemma_frac_lt_le(e, tt, u2);
        } else if frac_lt(x, u) {
            lemma_frac_le_lt(l2, tt, x);
        }
    }
}

/// At the rational parameter `q = (numerator, denominator)`, `denominator > 0`, the ray is
/// strictly inside slab `iv` when it moves across it, and between its planes when it runs
/// parallel to them.
pub open spec fn axis_interior_at(iv: Interval, o: int, d: int, q: (int, int)) -> bool {
    if d == 0 {
        iv.contains_spec(o)
    } else {
        iv.min * q.1 < o * q.1 + q.0 * d < iv.max * q.1
    }
}

/// At the rational parameter `q` the ray is inside the box in the sense of `axis_interior_at`
/// on every axis.
pub open spec fn interior_at(b: AABB, ray: Ray, q: (int, int)) -> bool {
    &&& axis_interior_at(b.x, ray.origin.x as int, ray.direction.x as int, q)
    &&& axis_interior_at(b.y, ray.origin.y as int, ray.direction.y as int, q)
    &&& axis_interior_at(b.z, ray.origin.z as int, ray.direction.z as int, q)
}

/// On a slab with `d != 0`, the rational `q` lies strictly between entry and exit exactly
/// when the ray is strictly inside the slab at `q`.
proof fn lemma_slab_axis_at(iv: Interval, o: int, d: int, q: (int, int))
    requires
        d != 0,
        q.1 > 0,
    ensures
        (frac_lt(entry_of(iv, o, d), q) && frac_lt(q, exit_of(iv, o, d))) <==> axis_interior_at(iv, o, d, q),
{
    assert((iv.min - o) * q.1 == iv.min * q.1 - o * q.1) by (nonlinear_arith);
    assert((iv.max - o) * q.1 == iv.max * q.1 - o * q.1) by (nonlinear_arith);
    assert((o - iv.max) * q.1 == o * q.1 - iv.max * q.1) by (nonlinear_arith);
    assert((o - iv.min) * q.1 == o * q.1 - iv.min * q.1) by (nonlinear_arith);
    assert(q.0 * (-d) == -(q.0 * d)) by (nonlinear_arith);
}

/// Clipping keeps a rational parameter strictly inside the range at which the ray is inside
/// the slab.
proof fn lemma_clip_at(s: Option<((int, int), (int, int))>, iv: Interval, o: int, d: int, q: (int, int))
    requires
        s is Some,
        span_dens_positive(s),
        q.1 > 0,
        frac_lt(s->Some_0.0, q),
        frac_lt(q, s->Some_0.1),
        axis_interior_at(iv, o, d, q),
    ensures
        clip_spec(s, iv, o, d) is Some,
        span_dens_positive(clip_spec(s, iv, o, d)),
        frac_lt(clip_spec(s, iv, o, d)->Some_0.0, q),
        frac_lt(q, clip_spec(s, iv, o, d)->Some_0.1),
{
    let l = s->Some_0.0;
    let u = s->Some_0.1;
    if d == 0 {
        lemma_frac_lt_le(l, q, u);
    } else {
        lemma_slab_axis_at(iv, o, d, q);
        let e = entry_of(iv, o, d);
        let x = exit_of(iv, o, d);
        let l2 = if frac_lt(l, e) {
            e
        } else {
            l
        };
        let u2 = if frac_lt(x, u) {
            x
        } else {
            u
        };
        assert(frac_le(q, u2));
        lemma_frac_lt_le(l2, q, u2);
    }
}

/// What clipping keeps: a narrower range, above the slab's entry and below its exit, and for
/// a parallel ray, one whose origin lies between the planes.
proof fn lemma_clip_bounds(s: Option<((int, int), (int, int))>, iv: Interval, o: int, d: int)
    requires
        s is Some,
        span_dens_positive(s),
        clip_spec(s, iv, o, d) is Some,
    ensures
        frac_le(s->Some_0.0, clip_spec(s, iv, o, d)->Some_0.0),
        frac_le(clip_spec(s, iv, o, d)->Some_0.1, s->Some_0.1),
        frac_lt(clip_spec(s, iv, o, d)->Some_0.0, clip_spec(s, iv, o, d)->Some_0.1),
        d != 0 ==> frac_le(entry_of(iv, o, d), clip_spec(s, iv, o, d)->Some_0.0),
        d != 0 ==> frac_le(clip_spec(s, iv, o, d)->Some_0.1, exit_of(iv, o, d)),
        d == 0 ==> iv.contains_spec(o),
{
    let l = s->Some_0.0;
    let u = s->Some_0.1;
    assert(frac_le(l, l));
    assert(frac_le(u, u));
    if d != 0 {
        let e = entry_of(iv, o, d);
        let x = exit_of(iv, o, d);
        assert(frac_le(e, e));
        assert(frac_le(x, x));
    }
}

/// The midpoint of two fractions lies strictly between them.
proof fn lemma_frac_midpoint(a: (int, int), b: (int, int))
    requires
        a.1 > 0,
        b.1 > 0,
        frac_lt(a, b),
    ensures
        ((a.0 * b.1 + b.0 * a.1, 2 * a.1 * b.1)).1 > 0,
        frac_lt(a, (a.0 * b.1 + b.0 * a.1, 2 * a.1 * b.1)),
        frac_lt((a.0 * b.1 + b.0 * a.1, 2 * a.1 * b.1), b),
{
    let m = (a.0 * b.1 + b.0 * a.1, 2 * a.1 * b.1);
    assert(m.1 > 0) by (nonlinear_arith)
        requires
            a.1 > 0,
            b.1 > 0,
            m.1 == 2 * a.1 * b.1,
    ;
    assert(a.0 * m.1 < m.0 * a.1) by (nonlinear_arith)
        requires
            a.1 > 0,
            b.1 > 0,
            a.0 * b.1 < b.0 * a.1,
            m == (a.0 * b.1 + b.0 * a.1, 2 * a.1 * b.1),
    ;
    assert(m.0 * b.1 < b.0 * m.1) by (nonlinear_arith)
        requires
            a.1 > 0,
            b.1 > 0,
            a.0 * b.1 < b.0 * a.1,
            m == (a.0 * b.1 + b.0 * a.1, 2 * a.1 * b.1),
    ;
}

/// The slab test, stated directly: it passes exactly when some rational parameter strictly
/// between the ends of `ray_t` puts the ray strictly inside every slab that it crosses, with
/// its origin between the planes of every slab that it runs parallel to.
pub proof fn lemma_slab_meaning(b: AABB, ray: Ray, ray_t: Interval)
    ensures
        b.hit_spec(ray, ray_t) <==> exists|q: (int, int)|
            q.1 > 0 && frac_lt((ray_t.min as int, 1int), q) && frac_lt(q, (ray_t.max as int, 1int))
                && #[trigger] interior_at(b, ray, q),
{
    let ox = ray.origin.x as int;
    let oy = ray.origin.y as int;
    let oz = ray.origin.z as int;
    let dx = ray.direction.x as int;
    let dy = ray.direction.y as int;
    let dz = ray.direction.z as int;
    let s0 = Some(((ray_t.min as int, 1int), (ray_t.max as int, 1int)));
    let s1 = clip_spec(s0, b.x, ox, dx);
    let s2 = clip_spec(s1, b.y, oy, dy);
    let s3 = clip_spec(s2, b.z, oz, dz);
    if exists|q: (int, int)|
        q.1 > 0 && frac_lt((ray_t.min as int, 1int), q) && frac_lt(q, (ray_t.max as int, 1int)) && #[trigger] interior_at(
            b,
            ray,
            q,
        ) {
        let q = choose|q: (int, int)|
            q.1 > 0 && frac_lt((ray_t.min as int, 1int), q) && frac_lt(q, (ray_t.max as int, 1int)) && #[trigger] interior_at(
                b,
                ray,
                q,
            );
        lemma_clip_at(s0, b.x, ox, dx, q);
        lemma_clip_at(s1, b.y, oy, dy, q);
        lemma_clip_at(s2, b.z, oz, dz, q);
    }
    if s3 is Some {
        lemma_clip_bounds(s0, b.x, ox, dx);
        lemma_clip_bounds(s1, b.y, oy, dy);
        lemma_clip_bounds(s2, b.z, oz, dz);
        let l = s3->Some_0.0;
        let u = s3->Some_0.1;
        lemma_frac_midpoint(l, u);
        let q = (l.0 * u.1 + u.0 * l.1, 2 * l.1 * u.1);
        let l1 = s1->Some_0.0;
        let u1 = s1->Some_0.1;
        let l2 = s2->Some_0.0;
        let u2 = s2->Some_0.1;
        lemma_frac_trans(l1, l2, l);
        lemma_frac_trans(u, u2, u1);
        lemma_frac_le_lt(l1, l, q);
        lemma_frac_lt_le(q, u, u1);
        lemma_frac_le_lt(l2, l, q);
        lemma_frac_lt_le(q, u, u2);
        lemma_frac_le_lt((ray_t.min as int, 1int), l1, q);
        lemma_frac_lt_le(q, u1, (ray_t.max as int, 1int));
        if dx != 0 {
            lemma_frac_le_lt(entry_of(b.x, ox, dx), l1, q);
            lemma_frac_lt_le(q, u1, exit_of(b.x, ox, dx));
            lemma_slab_axis_at(b.x, ox, dx, q);
        }
        if dy != 0 {
            lemma_frac_le_lt(entry_of(b.y, oy, dy), l2, q);
            lemma_frac_lt_le(q, u2, exit_of(b.y, oy, dy));
            lemma_slab_axis_at(b.y, oy, dy, q);
        }
        if dz != 0 {
            lemma_frac_le_lt(entry_of(b.z, oz, dz), l, q);
            lemma_frac_lt_le(q, u, exit_of(b.z, oz, dz));
            lemma_slab_axis_at(b.z, oz, dz, q);
        }
        assert(interior_at(b, ray, q));
    }
}

/// The slab test passes whenever, at some parameter of a range `ray_t` of more than one
/// value, the ray is strictly inside the box on every axis it moves along.
pub proof fn lemma_slab_passes(b: AABB, ray: Ray, ray_t: Interval, t: int)
    requires
        ray_t.min < ray_t.max,
        ray_t.contains_spec(t),
        b.contains_interior(ray, t),
    ensures
        b.hit_spec(ray, ray_t),
{
    let s0 = Some(((ray_t.min as int, 1int), (ray_t.max as int, 1int)));
    let s1 = clip_spec(s0, b.x, ray.origin.x as int, ray.direction.x as int);
    let s2 = clip_spec(s1, b.y, ray.origin.y as int, ray.direction.y as int);
    lemma_clip(s0, b.x, ray.origin.x as int, ray.direction.x as int, t);
    lemma_clip(s1, b.y, ray.origin.y as int, ray.direction.y as int, t);
    lemma_clip(s2, b.z, ray.origin.z as int, ray.direction.z as int, t);
}

pub open spec fn frac_bounded(a: (i128, i128)) -> bool {
    -0x1_0000_0000_0000_0000 <= a.0 <= 0x1_0000_0000_0000_0000 && 1 <= a.1 <= 0x8000_0000
}

pub open spec fn frac_view(a: (i128, i128)) -> (int, int) {
    (a.0 as int, a.1 as int)
}

fn frac_less(a: (i128, i128), b: (i128, i128)) -> (r: bool)
    requires
        frac_bounded(a),
        frac_bounded(b),
    ensures
        r == frac_lt(frac_view(a), frac_view(b)),
{
    proof {
        assert(-0x80_0000_0000_0000_0000_0000_0000 <= a.0 * b.1 <= 0x80_0000_0000_0000_0000_0000_0000)
            by (nonlinear_arith)
            requires
                frac_bounded(a),
                frac_bounded(b),
        ;
        assert(-0x80_0000_0000_0000_0000_0000_0000 <= b.0 * a.1 <= 0x80_0000_0000_0000_0000_0000_0000)
            by (nonlinear_arith)
            requires
                frac_bounded(a),
                frac_bounded(b),
        ;
    }
    a.0 * b.1 < b.0 * a.1
}

/// One axis of the slab test: narrows `[l, u]` to the parameters at which the ray with origin
/// `o` and direction `d` lies in `iv`.
fn clip_axis(l: (i128, i128), u: (i128, i128), iv: Interval, o: i32, d: i32) -> (r: Option<
    ((i128, i128), (i128, i128)),
>)
    requires
        frac_bounded(l),
        frac_bounded(u),
    ensures
        match r {
            None => clip_spec(Some((frac_view(l), frac_view(u))), iv, o as int, d as int) is None,
            Some(lu) => {
                &&& frac_bounded(lu.0)
                &&& frac_bounded(lu.1)
                &&& clip_spec(Some((frac_view(l), frac_view(u))), iv, o as int, d as int) == Some(
                    (frac_view(lu.0), frac_view(lu.1)),
                )
            },
        },
{
    if d == 0 {
        if iv.contains(o as i64) && frac_less(l, u) {
            Some((l, u))
        } else {
            None
        }
    } else {
        let (e, x) = if d > 0 {
            (
                (iv.min as i128 - o as i128, d as i128),
                (iv.max as i128 - o as i128, d as i128),
            )
        } else {
            (
                (o as i128 - iv.max as i128, -(d as i128)),
                (o as i128 - iv.min as i128, -(d as i128)),
            )
        };
        let l2 = if frac_less(l, e) {
            e
        } else {
            l
        };
        let u2 = if frac_less(x, u) {
            x
        } else {
            u
        };
        if !frac_less(l2, u2) {
            None
        } else {
            Some((l2, u2))
        }
    }
}

/// The result of the slab test: the parameter range `[l, u]` of fractions, or `None`.
fn slab(b: &AABB, ray: Ray, ray_t: Interval) -> (r: Option<((i128, i128), (i128, i128))>)
    ensures
        match r {
            None => slab_spec(*b, ray, ray_t) is None,
            Some(lu) => {
                &&& frac_bounded(lu.0)
                &&& frac_bounded(lu.1)
                &&& slab_spec(*b, ray, ray_t) == Some((frac_view(lu.0), frac_view(lu.1)))
            },
        },
{
    let l: (i128, i128) = (ray_t.min as i128, 1);
    let u: (i128, i128) = (ray_t.max as i128, 1);
    let s1 = clip_axis(l, u, b.x, ray.origin.x, ray.direction.x);
    match s1 {
        None => None,
        Some((l1, u1)) => {
            let s2 = clip_axis(l1, u1, b.y, ray.origin.y, ray.direction.y);
            match s2 {
                None => None,
                Some((l2, u2)) => clip_axis(l2, u2, b.z, ray.origin.z, ray.direction.z),
            }
        },
    }
}

/// The least integer not below the fraction `a`.
fn frac_ceil(a: (i128, i128)) -> (r: i128)
    requires
        frac_bounded(a),
    ensures
        forall|t: int| t >= r <==> frac_le(frac_view(a), (t, 1)),
        -0x1_0000_0000_0000_0000 <= r <= 0x1_0000_0000_0000_0000,
{
    proof {
        let n = a.0 as int;
        let d = a.1 as int;
        vstd::arithmetic::div_mod::lemma_fundamental_div_mod(-n, d);
        assert(-0x1_0000_0000_0000_0000 <= (-n) / d <= 0x1_0000_0000_0000_0000) by (nonlinear_arith)
            requires
                d >= 1,
                -n == d * ((-n) / d) + (-n) % d,
                0 <= (-n) % d < d,
                -0x1_0000_0000_0000_0000 <= n <= 0x1_0000_0000_0000_0000,
        ;
    }
    let q = (-a.0).checked_div_euclid(a.1).unwrap();
    proof {
        let n = a.0 as int;
        let d = a.1 as int;
        let fq = (-n) / d;
        vstd::arithmetic::div_mod::lemma_fundamental_div_mod(-n, d);
        assert(0 <= (-n) % d < d);
        assert forall|t: int| t >= -fq <==> frac_le(frac_view(a), (t, 1)) by {
            assert(t >= -fq ==> n <= t * d) by (nonlinear_arith)
                requires
                    d > 0,
                    -n == d * fq + (-n) % d,
                    0 <= (-n) % d < d,
            ;
            assert(n <= t * d ==> t >= -fq) by (nonlinear_arith)
                requires
                    d > 0,
                    -n == d * fq + (-n) % d,
                    0 <= (-n) % d < d,
            ;
        }
        assert(-0x1_0000_0000_0000_0000 <= -fq <= 0x1_0000_0000_0000_0000) by (nonlinear_arith)
            requires
                d >= 1,
                -n == d * fq + (-n) % d,
                0 <= (-n) % d < d,
                -0x1_0000_0000_0000_0000 <= n <= 0x1_0000_0000_0000_0000,
        ;
    }
    -q
}

/// The greatest integer not above the fraction `a`.
fn frac_floor(a: (i128, i128)) -> (r: i128)
    requires
        frac_bounded(a),
    ensures
        forall|t: int| t <= r <==> frac_le((t, 1), frac_view(a)),
        -0x1_0000_0000_0000_0000 <= r <= 0x1_0000_0000_0000_0000,
{
    proof {
        let n = a.0 as int;
        let d = a.1 as int;
        vstd::arithmetic::div_mod::lemma_fundamental_div_mod(n, d);
        assert(-0x1_0000_0000_0000_0000 <= n / d <= 0x1_0000_0000_0000_0000) by (nonlinear_arith)
            requires
                d >= 1,
                n == d * (n / d) + n % d,
                0 <= n % d < d,
                -0x1_0000_0000_0000_0000 <= n <= 0x1_0000_0000_0000_0000,
        ;
    }
    let q = a.0.checked_div_euclid(a.1).unwrap();
    proof {
        let n = a.0 as int;
        let d = a.1 as int;
        let fq = n / d;
        vstd::arithmetic::div_mod::lemma_fundamental_div_mod(n, d);
        assert(0 <= n % d < d);
        assert forall|t: int| t <= fq <==> frac_le((t, 1), frac_view(a)) by {
            assert(t <= fq ==> t * d <= n) by (nonlinear_arith)
                requires
                    d > 0,
                    n == d * fq + n % d,
                    0 <= n % d < d,
            ;
            assert(t * d <= n ==> t <= fq) by (nonlinear_arith)
                requires
                    d > 0,
                    n == d * fq + n % d,
                    0 <= n % d < d,
            ;
        }
        assert(-0x1_0000_0000_0000_0000 <= fq <= 0x1_0000_0000_0000_0000) by (nonlinear_arith)
            requires
                d >= 1,
                n == d * fq + n % d,
                0 <= n % d < d,
                -0x1_0000_0000_0000_0000 <= n <= 0x1_0000_0000_0000_0000,
        ;
    }
    q
}

impl AABB {
    /// Interval `n` of the box (0 is x, 1 is y, 2 is z).
    pub open spec fn axis_spec(self, n: int) -> Interval {
        if n == 0 {
            self.x
        } else if n == 1 {
            self.y
        } else {
            self.z
        }
    }

    /// The box holds the point that `ray` reaches at parameter `t`.
    pub open spec fn contains_point(self, ray: Ray, t: int) -> bool {
        &&& self.x.contains_spec(point_at(ray, t, 0))
        &&& self.y.contains_spec(point_at(ray, t, 1))
        &&& self.z.contains_spec(point_at(ray, t, 2))
    }

    /// At parameter `t` the ray is strictly inside the box on every axis that it moves along,
    /// and between the planes of every axis that it runs parallel to.
    pub open spec fn contains_interior(self, ray: Ray, t: int) -> bool {
        &&& axis_interior(self.x, ray.origin.x as int, ray.direction.x as int, t)
        &&& axis_interior(self.y, ray.origin.y as int, ray.direction.y as int, t)
        &&& axis_interior(self.z, ray.origin.z as int, ray.direction.z as int, t)
    }

    /// Every non-empty axis of `other` lies within the same axis of `self`.
    pub open spec fn encloses(self, other: AABB) -> bool {
        &&& self.x.encloses(other.x)
        &&& self.y.encloses(other.y)
        &&& self.z.encloses(other.z)
    }

    /// Each axis of `other` lies within the same axis of `self`, bound by bound.
    pub open spec fn covers(self, other: AABB) -> bool {
        &&& self.x.min <= other.x.min && other.x.max <= self.x.max
        &&& self.y.min <= other.y.min && other.y.max <= self.y.max
        &&& self.z.min <= other.z.min && other.z.max <= self.z.max
    }

    pub open spec fn union_spec(a: AABB, b: AABB) -> AABB {
        AABB {
            x: Interval::hull_spec(a.x, b.x),
            y: Interval::hull_spec(a.y, b.y),
            z: Interval::hull_spec(a.z, b.z),
        }
    }

    /// The slab test's answer; `lemma_slab_meaning` states it without the clipping steps.
    pub open spec fn hit_spec(self, ray: Ray, ray_t: Interval) -> bool {
        slab_spec(self, ray, ray_t) is Some
    }

    pub fn new(x: Interval, y: Interval, z: Interval) -> (r: AABB)
        ensures
            r.x == x,
            r.y == y,
            r.z == z,
    {
        AABB { x, y, z }
    }

    pub open spec fn empty_spec() -> AABB {
        let e = Interval { min: i64::MAX, max: i64::MIN };
        AABB { x: e, y: e, z: e }
    }

    /// The box that holds nothing: the identity of `from_AABB_pair`.
    pub fn empty() -> (r: AABB)
        ensures
            r == AABB::empty_spec(),
            r.x.min == i64::MAX && r.x.max == i64::MIN,
            r.y.min == i64::MAX && r.y.max == i64::MIN,
            r.z.min == i64::MAX && r.z.max == i64::MIN,
            forall|ray: Ray, t: int| !r.contains_point(ray, t),
    {
        AABB { x: Interval::empty(), y: Interval::empty(), z: Interval::empty() }
    }

    /// The box with corners `a` and `b`, each axis ordered, and widened to `MIN_THICKNESS`
    /// where both corners agree on it.
    pub fn from_corners(a: Vec3, b: Vec3) -> (r: AABB)
        ensures
            r.x == corner_interval(a.x as int, b.x as int),
            r.y == corner_interval(a.y as int, b.y as int),
            r.z == corner_interval(a.z as int, b.z as int),
    {
        let x = if a.x <= b.x {
            Interval::new(a.x as i64, b.x as i64)
        } else {
            Interval::new(b.x as i64, a.x as i64)
        };
        let y = if a.y <= b.y {
            Interval::new(a.y as i64, b.y as i64)
        } else {
            Interval::new(b.y as i64, a.y as i64)
        };
        let z = if a.z <= b.z {
            Interval::new(a.z as i64, b.z as i64)
        } else {
            Interval::new(b.z as i64, a.z as i64)
        };
        let mut aabb = AABB { x, y, z };
        aabb.pad_to_minimums();
        aabb
    }

    /// Widens each axis of no width by half of `MIN_THICKNESS` on each side.
    fn pad_to_minimums(&mut self)
        requires
            i32::MIN <= old(self).x.min <= old(self).x.max <= i32::MAX,
            i32::MIN <= old(self).y.min <= old(self).y.max <= i32::MAX,
            i32::MIN <= old(self).z.min <= old(self).z.max <= i32::MAX,
        ensures
            final(self).x == corner_interval(old(self).x.min as int, old(self).x.max as int),
            final(self).y == corner_interval(old(self).y.min as int, old(self).y.max as int),
            final(self).z == corner_interval(old(self).z.min as int, old(self).z.max as int),
    {
        if self.x.size() == 0 {
            self.x = self.x.expand(MIN_THICKNESS);
        }
        if self.y.size() == 0 {
            self.y = self.y.expand(MIN_THICKNESS);
        }
        if self.z.size() == 0 {
            self.z = self.z.expand(MIN_THICKNESS);
        }
    }

    /// The smallest box that holds both `a` and `b`, axis by axis.
    #[allow(non_snake_case)]
    pub fn from_AABB_pair(a: AABB, b: AABB) -> (r: AABB)
        ensures
            r == AABB::union_spec(a, b),
            r.encloses(a),
            r.encloses(b),
    {
        AABB {
            x: Interval::from_interval_pair(a.x, b.x),
            y: Interval::from_interval_pair(a.y, b.y),
            z: Interval::from_interval_pair(a.z, b.z),
        }
    }

    /// Interval `n` of the box.
    pub fn axis(&self, n: usize) -> (r: Interval)
        requires
            n < 3,
        ensures
            r == self.axis_spec(n as int),
    {
        if n == 0 {
            self.x
        } else if n == 1 {
            self.y
        } else {
            self.z
        }
    }

    /// The axis of largest extent; a tie between x and y goes to y, and any tie with the
    /// winner of those two goes to z.
    pub fn longest_axis(&self) -> (r: usize)
        ensures
            r < 3,
            r == longest_axis_spec(*self),
    {
        if self.x.size() > self.y.size() {
            if self.x.size() > self.z.size() {
                0
            } else {
                2
            }
        } else {
            if self.y.size() > self.z.size() {
                1
            } else {
                2
            }
        }
    }

    /// The slab test: does the ray pass through the box at some parameter of `ray_t`?
    /// Each axis narrows the running parameter range to where the ray lies between that
    /// axis's two planes, and the test fails as soon as the upper end of the range is no
    /// longer above its lower end. A ray parallel to an axis passes that axis when its origin
    /// lies between the planes.
    pub fn hit(&self, ray: Ray, ray_t: Interval) -> (r: bool)
        ensures
            r == self.hit_spec(ray, ray_t),
            forall|t: int|
                ray_t.min < ray_t.max && ray_t.contains_spec(t) && self.contains_interior(ray, t) ==> r,
    {
        let s = self.slab(ray, ray_t);
        proof {
            assert forall|t: int|
                ray_t.min < ray_t.max && ray_t.contains_spec(t) && self.contains_interior(ray, t) implies s is Some by {
                lemma_slab_passes(*self, ray, ray_t, t);
            }
        }
        s.is_some()
    }

    fn slab(&self, ray: Ray, ray_t: Interval) -> (r: Option<((i128, i128), (i128, i128))>)
        ensures
            match r {
                None => slab_spec(*self, ray, ray_t) is None,
                Some(lu) => {
                    &&& frac_bounded(lu.0)
                    &&& frac_bounded(lu.1)
                    &&& slab_spec(*self, ray, ray_t) == Some((frac_view(lu.0), frac_view(lu.1)))
                },
            },
    {
        slab(self, ray, ray_t)
    }

    /// The integer parameters of `ray_t` at which the ray is strictly inside the box on every
    /// axis it moves along (and between the planes of the others), as one interval. `None`
    /// when there is no such parameter.
    pub fn interior_range(&self, ray: Ray, ray_t: Interval) -> (r: Option<Interval>)
        ensures
            match r {
                None => forall|t: int| !(ray_t.contains_spec(t) && #[trigger] self.contains_interior(ray, t)),
                Some(iv) => {
                    &&& iv.min <= iv.max
                    &&& forall|t: int| iv.contains_spec(t) <==> (ray_t.contains_spec(t) && #[trigger] self.contains_interior(ray, t))
                },
            },
    {
        let r1 = interior_axis(ray_t.min as i128, ray_t.max as i128, self.x, ray.origin.x, ray.direction.x);
        let (l1, u1) = match r1 {
            None => {
                return None;
            },
            Some(b) => b,
        };
        let r2 = interior_axis(l1, u1, self.y, ray.origin.y, ray.direction.y);
        let (l2, u2) = match r2 {
            None => {
                return None;
            },
            Some(b) => b,
        };
        let r3 = interior_axis(l2, u2, self.z, ray.origin.z, ray.direction.z);
        match r3 {
            None => None,
            Some((l3, u3)) => {
                if l3 > u3 {
                    None
                } else {
                    proof {
                        assert(ray_t.contains_spec(l3 as int) && ray_t.contains_spec(u3 as int));
                    }
                    Some(Interval { min: l3 as i64, max: u3 as i64 })
                }
            },
        }
    }
}

/// Narrows the integer range `[lo, hi]` to the parameters at which the ray with origin `o` and
/// direction `d` is strictly inside slab `iv` (between its planes when `d == 0`).
fn interior_axis(lo: i128, hi: i128, iv: Interval, o: i32, d: i32) -> (r: Option<(i128, i128)>)
    requires
        -0x2_0000_0000_0000_0000 <= lo <= 0x2_0000_0000_0000_0000,
        -0x2_0000_0000_0000_0000 <= hi <= 0x2_0000_0000_0000_0000,
    ensures
        match r {
            None => forall|t: int| !(lo <= t <= hi && #[trigger] axis_interior(iv, o as int, d as int, t)),
            Some(b) => {
                &&& lo <= b.0 && b.1 <= hi
                &&& -0x2_0000_0000_0000_0000 <= b.0 <= 0x2_0000_0000_0000_0000
                &&& -0x2_0000_0000_0000_0000 <= b.1 <= 0x2_0000_0000_0000_0000
                &&& forall|t: int| (b.0 <= t <= b.1) <==> (lo <= t <= hi && #[trigger] axis_interior(iv, o as int, d as int, t))
            },
        },
{
    if d == 0 {
        if iv.contains(o as i64) {
            Some((lo, hi))
        } else {
            None
        }
    } else {
        let (e, x) = if d > 0 {
            ((iv.min as i128 - o as i128, d as i128), (iv.max as i128 - o as i128, d as i128))
        } else {
            ((o as i128 - iv.max as i128, -(d as i128)), (o as i128 - iv.min as i128, -(d as i128)))
        };
        let first = frac_floor(e) + 1;
        let last = frac_ceil(x) - 1;
        proof {
            assert(frac_view(e) == entry_of(iv, o as int, d as int));
            assert(frac_view(x) == exit_of(iv, o as int, d as int));
            assert forall|t: int| (first <= t <= last) <==> #[trigger] axis_interior(iv, o as int, d as int, t) by {
                lemma_slab_axis(iv, o as int, d as int, t);
                assert(t <= first - 1 <==> frac_le((t, 1), frac_view(e)));
                assert(t >= last + 1 <==> frac_le(frac_view(x), (t, 1)));
            }
        }
        let a = if first > lo {
            first
        } else {
            lo
        };
        let b = if last < hi {
            last
        } else {
            hi
        };
        Some((a, b))
    }
}

/// Box union is commutative.
pub proof fn lemma_union_commutative(a: AABB, b: AABB)
    ensures
        AABB::union_spec(a, b) == AABB::union_spec(b, a),
{
}

/// Box union is associative.
pub proof fn lemma_union_associative(a: AABB, b: AABB, c: AABB)
    ensures
        AABB::union_spec(AABB::union_spec(a, b), c) == AABB::union_spec(a, AABB::union_spec(b, c)),
{
}

/// The union of two boxes contains both of them, and so every point of either.
pub proof fn lemma_union_contains_both(a: AABB, b: AABB, ray: Ray, t: int)
    ensures
        AABB::union_spec(a, b).encloses(a),
        AABB::union_spec(a, b).encloses(b),
        a.contains_point(ray, t) ==> AABB::union_spec(a, b).contains_point(ray, t),
        b.contains_point(ray, t) ==> AABB::union_spec(a, b).contains_point(ray, t),
{
}

/// A box holds every point of a box that it encloses.
pub proof fn lemma_encloses_point(a: AABB, b: AABB, ray: Ray, t: int)
    requires
        a.encloses(b),
        b.contains_point(ray, t),
    ensures
        a.contains_point(ray, t),
{
}

/// A box holds the interior points of a box that it encloses.
pub proof fn lemma_encloses_interior(a: AABB, b: AABB, ray: Ray, t: int)
    requires
        a.encloses(b),
        b.contains_interior(ray, t),
    ensures
        a.contains_interior(ray, t),
{
}

/// Enclosing is transitive.
pub proof fn lemma_encloses_trans(a: AABB, b: AABB, c: AABB)
    requires
        a.encloses(b),
        b.encloses(c),
    ensures
        a.encloses(c),
{
}

} // verus!
