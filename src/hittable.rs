use vstd::prelude::*;
use crate::aabb::AABB;
use crate::interval::Interval;
use crate::ray::{Ray, Vec3, point_at};

verus! {

/// What an intersection reports: the ray parameter of the hit, the surface normal turned to
/// face the incoming ray, whether the ray met the outer side of the surface, and the material
/// hit, as an index into the scene's table of materials.
#[derive(Clone, Copy, Debug, PartialEq, Eq, Structural)]
pub struct HitRecord {
    pub t: i64,
    pub normal: Vec3,
    pub is_front_face: bool,
    pub material: usize,
}

pub open spec fn dot_spec(a: Vec3, b: Vec3) -> int {
    a.x * b.x + a.y * b.y + a.z * b.z
}

pub open spec fn neg_spec(a: Vec3) -> Vec3 {
    Vec3 { x: (-a.x) as i32, y: (-a.y) as i32, z: (-a.z) as i32 }
}

/// The record of a hit at `t` on a surface whose outward normal is `outward`.
pub open spec fn record_spec(ray: Ray, t: i64, outward: Vec3, material: usize) -> HitRecord {
    let front = dot_spec(ray.direction, outward) < 0;
    HitRecord {
        t,
        normal: if front {
            outward
        } else {
            neg_spec(outward)
        },
        is_front_face: front,
        material,
    }
}

/// The dot product of two vectors.
pub fn dot(a: Vec3, b: Vec3) -> (r: i128)
    ensures
        r == dot_spec(a, b),
{
    proof {
        assert(-0x4000_0000_0000_0000 <= a.x * b.x <= 0x4000_0000_0000_0000) by (nonlinear_arith)
            requires
                i32::MIN <= a.x <= i32::MAX,
                i32::MIN <= b.x <= i32::MAX,
        ;
        assert(-0x4000_0000_0000_0000 <= a.y * b.y <= 0x4000_0000_0000_0000) by (nonlinear_arith)
            requires
                i32::MIN <= a.y <= i32::MAX,
                i32::MIN <= b.y <= i32::MAX,
        ;
        assert(-0x4000_0000_0000_0000 <= a.z * b.z <= 0x4000_0000_0000_0000) by (nonlinear_arith)
            requires
                i32::MIN <= a.z <= i32::MAX,
                i32::MIN <= b.z <= i32::MAX,
        ;
    }
    a.x as i128 * b.x as i128 + a.y as i128 * b.y as i128 + a.z as i128 * b.z as i128
}

impl HitRecord {
    /// The record of a hit at `t` on a surface whose outward normal is `outward`: the normal
    /// is turned against the ray, and the ray met the front face when it runs against the
    /// outward normal.
    pub fn new(ray: Ray, t: i64, outward: Vec3, material: usize) -> (r: HitRecord)
        requires
            outward.x > i32::MIN && outward.y > i32::MIN && outward.z > i32::MIN,
        ensures
            r == record_spec(ray, t, outward, material),
    {
        let is_front_face = dot(ray.direction, outward) < 0;
        let normal = if is_front_face {
            outward
        } else {
            Vec3 { x: -outward.x, y: -outward.y, z: -outward.z }
        };
        HitRecord { t, normal, is_front_face, material }
    }
}

/// `r` is the nearest hit of `h` within `ray_t`, as `Hittable::hit` reports it: a hit at the
/// least parameter of `ray_t` at which the ray meets `h`, or `None`, which over a range of more
/// than one parameter means that the ray meets `h` nowhere in it. (Over a single parameter the
/// strict slab test of a bounding box may miss.)
pub open spec fn is_nearest_hit<H: Hittable>(h: H, ray: Ray, ray_t: Interval, r: Option<HitRecord>) -> bool {
    match r {
        None => ray_t.min < ray_t.max ==> forall|t: int| ray_t.contains_spec(t) ==> !#[trigger] h.hit_at(ray, t),
        Some(rec) => {
            &&& ray_t.contains_spec(rec.t as int)
            &&& h.hit_at(ray, rec.t as int)
            &&& forall|t: int| ray_t.min <= t < rec.t ==> !#[trigger] h.hit_at(ray, t)
        },
    }
}

/// An object that rays can intersect.
pub trait Hittable {
    /// The object is well formed; its operations ask for this.
    spec fn valid(&self) -> bool;

    /// The ray meets the object at parameter `t`.
    spec fn hit_at(&self, ray: Ray, t: int) -> bool;

    /// The object's bounding box.
    spec fn box_spec(&self) -> AABB;

    /// The record that `hit` reports.
    spec fn hit_spec(&self, ray: Ray, ray_t: Interval) -> Option<HitRecord>;

    /// The nearest intersection with the ray at a parameter of `ray_t`; a miss is certain only
    /// over a range of more than one parameter.
    fn hit(&self, ray: Ray, ray_t: Interval) -> (r: Option<HitRecord>)
        requires
            self.valid(),
        ensures
            r == self.hit_spec(ray, ray_t),
            match r {
                None => ray_t.min < ray_t.max ==> forall|t: int| ray_t.contains_spec(t) ==> !#[trigger] self.hit_at(ray, t),
                Some(h) => {
                    &&& ray_t.contains_spec(h.t as int)
                    &&& self.hit_at(ray, h.t as int)
                    &&& forall|t: int| ray_t.min <= t < h.t ==> !#[trigger] self.hit_at(ray, t)
                },
            },
    ;

    fn bounding_box(&self) -> (r: AABB)
        requires
            self.valid(),
        ensures
            r == self.box_spec(),
    ;

    /// Wherever a ray meets the object, it is inside the object's bounding box, strictly on
    /// every axis it moves along.
    proof fn lemma_hit_in_box(&self, ray: Ray, t: int)
        requires
            self.valid(),
            self.hit_at(ray, t),
        ensures
            self.box_spec().contains_interior(ray, t),
    ;
}

/// A solid axis-aligned block of one material: the ray meets it wherever it is strictly inside
/// on every axis it moves along (and between the planes of the others).
#[derive(Clone, Copy, Debug, PartialEq, Eq, Structural)]
pub struct Block {
    pub bbox: AABB,
    pub material: usize,
}

/// The outward normal of the face of `b` through which the ray came in to be inside at `t`:
/// the first axis, in the order x, y, z, on which the point at `t - 1` lies on or beyond the
/// face that the ray moves toward. The zero vector when there is none.
pub open spec fn entry_normal_spec(b: AABB, ray: Ray, t: int) -> Vec3 {
    if ray.direction.x > 0 && point_at(ray, t - 1, 0) <= b.x.min {
        Vec3 { x: -1i32, y: 0, z: 0 }
    } else if ray.direction.x < 0 && point_at(ray, t - 1, 0) >= b.x.max {
        Vec3 { x: 1, y: 0, z: 0 }
    } else if ray.direction.y > 0 && point_at(ray, t - 1, 1) <= b.y.min {
        Vec3 { x: 0, y: -1i32, z: 0 }
    } else if ray.direction.y < 0 && point_at(ray, t - 1, 1) >= b.y.max {
        Vec3 { x: 0, y: 1, z: 0 }
    } else if ray.direction.z > 0 && point_at(ray, t - 1, 2) <= b.z.min {
        Vec3 { x: 0, y: 0, z: -1i32 }
    } else if ray.direction.z < 0 && point_at(ray, t - 1, 2) >= b.z.max {
        Vec3 { x: 0, y: 0, z: 1 }
    } else {
        Vec3 { x: 0, y: 0, z: 0 }
    }
}

/// A coordinate of the point at parameter `t - 1`, from that coordinate of the origin and of
/// the direction.
pub(crate) fn coordinate_before(o: i32, d: i32, t: i64) -> (r: i128)
    ensures
        r == o + (t - 1) * d,
{
    proof {
        assert(-0x1_0000_0000_0000_0000_0000_0000 <= (t - 1) * d <= 0x1_0000_0000_0000_0000_0000_0000)
            by (nonlinear_arith)
            requires
                -0x8000_0000_0000_0001 <= t - 1 <= 0x8000_0000_0000_0000,
                -0x8000_0000 <= d <= 0x8000_0000,
        ;
    }
    o as i128 + (t as i128 - 1) * d as i128
}

impl Block {
    /// The outward normal of the face through which the ray entered, as `entry_normal_spec`.
    pub fn entry_normal(&self, ray: Ray, t: i64) -> (r: Vec3)
        ensures
            r == entry_normal_spec(self.bbox, ray, t as int),
    {
        let b = self.bbox;
        let px = coordinate_before(ray.origin.x, ray.direction.x, t);
        let py = coordinate_before(ray.origin.y, ray.direction.y, t);
        let pz = coordinate_before(ray.origin.z, ray.direction.z, t);
        if ray.direction.x > 0 && px <= b.x.min as i128 {
            Vec3 { x: -1, y: 0, z: 0 }
        } else if ray.direction.x < 0 && px >= b.x.max as i128 {
            Vec3 { x: 1, y: 0, z: 0 }
        } else if ray.direction.y > 0 && py <= b.y.min as i128 {
            Vec3 { x: 0, y: -1, z: 0 }
        } else if ray.direction.y < 0 && py >= b.y.max as i128 {
            Vec3 { x: 0, y: 1, z: 0 }
        } else if ray.direction.z > 0 && pz <= b.z.min as i128 {
            Vec3 { x: 0, y: 0, z: -1 }
        } else if ray.direction.z < 0 && pz >= b.z.max as i128 {
            Vec3 { x: 0, y: 0, z: 1 }
        } else {
            Vec3 { x: 0, y: 0, z: 0 }
        }
    }

    pub fn new(bbox: AABB, material: usize) -> (r: Block)
        ensures
            r.bbox == bbox,
            r.material == material,
    {
        Block { bbox, material }
    }
}

impl Hittable for Block {
    open spec fn valid(&self) -> bool {
        true
    }

    open spec fn hit_at(&self, ray: Ray, t: int) -> bool {
        self.bbox.contains_interior(ray, t)
    }

    open spec fn box_spec(&self) -> AABB {
        self.bbox
    }

    /// A hit at the least parameter of `ray_t` at which the ray is inside the block.
    open spec fn hit_spec(&self, ray: Ray, ray_t: Interval) -> Option<HitRecord> {
        if exists|t: int| ray_t.contains_spec(t) && #[trigger] self.bbox.contains_interior(ray, t) {
            let t = choose|t: int|
                ray_t.contains_spec(t) && #[trigger] self.bbox.contains_interior(ray, t) && forall|u: int|
                    ray_t.min <= u < t ==> !#[trigger] self.bbox.contains_interior(ray, u);
            Some(record_spec(ray, t as i64, entry_normal_spec(self.bbox, ray, t), self.material))
        } else {
            None
        }
    }

    /// The first parameter of `ray_t` at which the ray is inside the block, with the normal of
    /// the face it came in through.
    fn hit(&self, ray: Ray, ray_t: Interval) -> (r: Option<HitRecord>)
        ensures
            r is Some ==> r->Some_0 == record_spec(
                ray,
                r->Some_0.t,
                entry_normal_spec(self.bbox, ray, r->Some_0.t as int),
                self.material,
            ),
    {
        match self.bbox.interior_range(ray, ray_t) {
            None => {
                proof {
                    assert forall|t: int| ray_t.contains_spec(t) implies !#[trigger] self.hit_at(ray, t) by {
                        assert(!(ray_t.contains_spec(t) && self.bbox.contains_interior(ray, t)));
                    }
                    assert(!exists|t: int| ray_t.contains_spec(t) && #[trigger] self.bbox.contains_interior(ray, t));
                }
                None
            },
            Some(range) => {
                proof {
                    assert(range.contains_spec(range.min as int));
                    assert(self.bbox.contains_interior(ray, range.min as int));
                    assert(ray_t.contains_spec(range.min as int));
                    assert forall|t: int| ray_t.min <= t < range.min implies !#[trigger] self.hit_at(ray, t) by {
                        assert(!range.contains_spec(t));
                        assert(range.contains_spec(range.min as int));
                        assert(ray_t.contains_spec(t));
                        assert(!self.bbox.contains_interior(ray, t));
                    }
                    let m = range.min as int;
                    assert(ray_t.contains_spec(m) && self.bbox.contains_interior(ray, m) && forall|u: int|
                        ray_t.min <= u < m ==> !#[trigger] self.bbox.contains_interior(ray, u));
                    let c = choose|t: int|
                        ray_t.contains_spec(t) && #[trigger] self.bbox.contains_interior(ray, t) && forall|u: int|
                            ray_t.min <= u < t ==> !#[trigger] self.bbox.contains_interior(ray, u);
                    if c < m {
                        assert(range.contains_spec(c));
                    } else if c > m {
                        assert(!self.bbox.contains_interior(ray, m));
                    }
                }
                let outward = self.entry_normal(ray, range.min);
                Some(HitRecord::new(ray, range.min, outward, self.material))
            },
        }
    }

    fn bounding_box(&self) -> (r: AABB) {
        self.bbox
    }

    proof fn lemma_hit_in_box(&self, ray: Ray, t: int) {
    }
}

/// A group of objects, searched one after another.
pub struct HittableList<P> {
    pub objects: Vec<P>,
    pub bbox: AABB,
}

impl<P: Hittable> HittableList<P> {
    /// Every object is valid and lies in the group's box.
    pub open spec fn members_valid(objects: Seq<P>, bbox: AABB) -> bool {
        forall|i: int| 0 <= i < objects.len() ==> {
            &&& (#[trigger] objects[i]).valid()
            &&& bbox.encloses(objects[i].box_spec())
        }
    }

    pub fn new() -> (r: HittableList<P>)
        ensures
            r.objects@.len() == 0,
            r.valid(),
    {
        HittableList { objects: Vec::new(), bbox: AABB::empty() }
    }

    /// Removes every object.
    pub fn clear(&mut self)
        ensures
            final(self).objects@.len() == 0,
            final(self).valid(),
    {
        self.objects.clear();
        self.bbox = AABB::empty();
    }

    /// Appends `object` and grows the group's box to hold it.
    pub fn add(&mut self, object: P)
        requires
            old(self).valid(),
            object.valid(),
        ensures
            final(self).objects@ == old(self).objects@.push(object),
            final(self).bbox == AABB::union_spec(old(self).bbox, object.box_spec()),
            final(self).valid(),
    {
        let b = object.bounding_box();
        let new_box = AABB::from_AABB_pair(self.bbox, b);
        proof {
            assert forall|i: int| 0 <= i < self.objects@.len() implies new_box.encloses(
                #[trigger] self.objects@[i].box_spec(),
            ) by {
                crate::aabb::lemma_encloses_trans(new_box, self.bbox, self.objects@[i].box_spec());
            }
        }
        self.bbox = new_box;
        self.objects.push(object);
    }

    /// Hands out the objects.
    pub fn take_objects(self) -> (r: Vec<P>)
        ensures
            r@ == self.objects@,
    {
        self.objects
    }
}

/// The state of the scan of the first `i` objects of `objects`: the record kept so far and the
/// far end of the range the next object is asked over.
pub open spec fn scan_spec<P: Hittable>(objects: Seq<P>, i: int, ray: Ray, ray_t: Interval) -> (Option<HitRecord>, i64)
    decreases i,
{
    if i <= 0 {
        (None, ray_t.max)
    } else {
        let prev = scan_spec(objects, i - 1, ray, ray_t);
        match objects[i - 1].hit_spec(ray, Interval { min: ray_t.min, max: prev.1 }) {
            Some(h) => (Some(h), h.t),
            None => prev,
        }
    }
}

impl<P: Hittable> Hittable for HittableList<P> {
    open spec fn hit_spec(&self, ray: Ray, ray_t: Interval) -> Option<HitRecord> {
        scan_spec(self.objects@, self.objects@.len() as int, ray, ray_t).0
    }

    open spec fn valid(&self) -> bool {
        HittableList::<P>::members_valid(self.objects@, self.bbox)
    }

    open spec fn hit_at(&self, ray: Ray, t: int) -> bool {
        exists|i: int| 0 <= i < self.objects@.len() && (#[trigger] self.objects@[i]).hit_at(ray, t)
    }

    open spec fn box_spec(&self) -> AABB {
        self.bbox
    }

    /// Asks each object in turn, each time only for hits nearer than the nearest so far.
    fn hit(&self, ray: Ray, ray_t: Interval) -> (r: Option<HitRecord>) {
        let mut closest = ray_t.max;
        let mut record: Option<HitRecord> = None;
        let n = self.objects.len();
        for i in 0..n
            invariant
                n == self.objects@.len(),
                self.valid(),
                (record, closest) == scan_spec(self.objects@, i as int, ray, ray_t),
                match record {
                    None => {
                        &&& closest == ray_t.max
                        &&& ray_t.min < ray_t.max ==> forall|j: int, t: int|
                            0 <= j < i && ray_t.contains_spec(t) ==> !#[trigger] self.objects@[j].hit_at(ray, t)
                    },
                    Some(h) => {
                        &&& closest == h.t
                        &&& ray_t.contains_spec(h.t as int)
                        &&& exists|j: int| 0 <= j < i && (#[trigger] self.objects@[j]).hit_at(ray, h.t as int)
                        &&& forall|j: int, t: int|
                            0 <= j < i && ray_t.min <= t < h.t ==> !#[trigger] self.objects@[j].hit_at(ray, t)
                    },
                },
        {
            let narrowed = Interval::new(ray_t.min, closest);
            let found = self.objects[i].hit(ray, narrowed);
            proof {
                assert(self.objects@[i as int].valid());
            }
            if let Some(h) = found {
                proof {
                    assert(self.objects@[i as int].hit_at(ray, h.t as int));
                    assert forall|j: int, t: int|
                        0 <= j < i + 1 && ray_t.min <= t < h.t implies !#[trigger] self.objects@[j].hit_at(ray, t) by {
                        if j == i {
                            assert(narrowed.min <= t < h.t);
                        }
                    }
                }
                closest = h.t;
                record = Some(h);
            } else {
                proof {
                    if record is Some {
                        assert forall|j: int, t: int|
                            0 <= j < i + 1 && ray_t.min <= t < closest implies !#[trigger] self.objects@[j].hit_at(ray, t) by {
                            if j == i {
                                assert(narrowed.min < narrowed.max);
                                assert(narrowed.contains_spec(t));
                            }
                        }
                    }
                    if record is None && ray_t.min < ray_t.max {
                        assert forall|j: int, t: int|
                            0 <= j < i + 1 && ray_t.contains_spec(t) implies !#[trigger] self.objects@[j].hit_at(ray, t) by {
                            if j == i {
                                assert(narrowed.contains_spec(t));
                            }
                        }
                    }
                }
            }
        }
        record
    }

    fn bounding_box(&self) -> (r: AABB) {
        self.bbox
    }

    proof fn lemma_hit_in_box(&self, ray: Ray, t: int) {
        let i = choose|i: int| 0 <= i < self.objects@.len() && (#[trigger] self.objects@[i]).hit_at(ray, t);
        assert(self.objects@[i].valid());
        self.objects@[i].lemma_hit_in_box(ray, t);
        crate::aabb::lemma_encloses_interior(self.bbox, self.objects@[i].box_spec(), ray, t);
    }
}

} // verus!
