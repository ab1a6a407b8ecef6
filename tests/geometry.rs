use pathtrace::aabb::AABB;
use pathtrace::hittable::{Block, HitRecord, Hittable, HittableList};
use pathtrace::interval::Interval;
use pathtrace::ray::{Ray, Vec3};

fn cube(lo: i32, hi: i32) -> AABB {
    AABB::from_corners(Vec3::new(lo, lo, lo), Vec3::new(hi, hi, hi))
}

#[test]
fn interval_basics() {
    let iv = Interval::new(2, 7);
    assert_eq!(iv.size(), 5);
    assert!(iv.contains(2));
    assert!(iv.contains(7));
    assert!(!iv.contains(8));
    assert!(iv.surrounds(3));
    assert!(!iv.surrounds(2));
    assert_eq!(iv.clamp(-4), 2);
    assert_eq!(iv.clamp(9), 7);
    assert_eq!(iv.clamp(5), 5);
    assert_eq!(iv.expand(4), Interval::new(0, 9));
    assert!(!Interval::empty().contains(0));
    assert!(Interval::universe().contains(i64::MIN));
}

#[test]
fn interval_union_is_hull() {
    let u = Interval::from_interval_pair(Interval::new(3, 5), Interval::new(-2, 4));
    assert_eq!(u, Interval::new(-2, 5));
    let e = Interval::from_interval_pair(Interval::empty(), Interval::new(1, 2));
    assert_eq!(e, Interval::new(1, 2));
}

#[test]
fn from_corners_orders_and_pads() {
    let b = AABB::from_corners(Vec3::new(4, 0, 3), Vec3::new(1, 0, 9));
    assert_eq!(b.x, Interval::new(1, 4));
    assert_eq!(b.y, Interval::new(-1, 1));
    assert_eq!(b.z, Interval::new(3, 9));
    let thin = AABB::from_corners(Vec3::new(0, 0, 0), Vec3::new(1, 5, 5));
    assert_eq!(thin.x, Interval::new(0, 1));
    let unpadded = AABB::from_corners(Vec3::new(1, 2, 3), Vec3::new(0, 0, 0));
    assert_eq!((unpadded.x, unpadded.y, unpadded.z), (Interval::new(0, 1), Interval::new(0, 2), Interval::new(0, 3)));
}

#[test]
fn box_union_laws_on_values() {
    let a = cube(0, 4);
    let b = AABB::from_corners(Vec3::new(-3, 2, 7), Vec3::new(1, 9, 8));
    let c = AABB::from_corners(Vec3::new(10, -5, 0), Vec3::new(12, 0, 2));
    let ab = AABB::from_AABB_pair(a, b);
    assert_eq!(ab, AABB::from_AABB_pair(b, a));
    assert_eq!(
        AABB::from_AABB_pair(ab, c),
        AABB::from_AABB_pair(a, AABB::from_AABB_pair(b, c))
    );
    for n in 0..3 {
        assert!(ab.axis(n).min <= a.axis(n).min && a.axis(n).max <= ab.axis(n).max);
        assert!(ab.axis(n).min <= b.axis(n).min && b.axis(n).max <= ab.axis(n).max);
    }
}

#[test]
fn longest_axis_tie_breaks() {
    let b = AABB::new(Interval::new(0, 2), Interval::new(0, 2), Interval::new(0, 1));
    assert_eq!(b.longest_axis(), 1);
    let b = AABB::new(Interval::new(0, 3), Interval::new(0, 1), Interval::new(0, 3));
    assert_eq!(b.longest_axis(), 2);
    let b = AABB::new(Interval::new(0, 5), Interval::new(0, 1), Interval::new(0, 3));
    assert_eq!(b.longest_axis(), 0);
    let b = AABB::new(Interval::new(0, 1), Interval::new(0, 1), Interval::new(0, 1));
    assert_eq!(b.longest_axis(), 2);
}

#[test]
fn slab_test_enters_at_four_leaves_at_six() {
    let b = cube(-1, 1);
    let ray = Ray::new(Vec3::new(0, 0, -5), Vec3::new(0, 0, 1), 0);
    assert!(b.hit(ray, Interval::new(0, i64::MAX)));
    // The ray is in the box from t = 4 to t = 6: a range that only touches either end misses.
    assert!(!b.hit(ray, Interval::new(0, 4)));
    assert!(b.hit(ray, Interval::new(0, 5)));
    assert!(!b.hit(ray, Interval::new(6, i64::MAX)));
    assert!(b.hit(ray, Interval::new(5, i64::MAX)));
    assert!(!b.hit(ray, Interval::new(5, 5)));
    assert_eq!(b.interior_range(ray, Interval::new(0, i64::MAX)), Some(Interval::new(5, 5)));
}

#[test]
fn slab_test_strict_on_every_axis() {
    let b = cube(-1, 1);
    let ray = Ray::new(Vec3::new(-5, -5, -5), Vec3::new(1, 1, 1), 0);
    assert!(!b.hit(ray, Interval::new(0, 4)));
    assert!(b.hit(ray, Interval::new(0, 5)));
}

#[test]
fn slab_test_misses() {
    let b = cube(-1, 1);
    let away = Ray::new(Vec3::new(0, 0, -5), Vec3::new(0, 0, -1), 0);
    assert!(!b.hit(away, Interval::new(0, i64::MAX)));
    let beside = Ray::new(Vec3::new(3, 0, -5), Vec3::new(0, 0, 1), 0);
    assert!(!b.hit(beside, Interval::new(0, i64::MAX)));
    let short = Ray::new(Vec3::new(0, 0, -5), Vec3::new(0, 0, 1), 0);
    assert!(!b.hit(short, Interval::new(0, 3)));
    assert_eq!(b.interior_range(short, Interval::new(0, 3)), None);
    assert!(!AABB::empty().hit(short, Interval::universe()));
}

#[test]
fn slab_test_diagonal_ray_with_fractional_entry() {
    let b = AABB::from_corners(Vec3::new(1, 1, 1), Vec3::new(4, 4, 4));
    let ray = Ray::new(Vec3::new(0, 0, 0), Vec3::new(3, 2, 2), 0);
    // x is inside for t in (1/3, 4/3), y and z for t in (1/2, 2): only t = 1 is an integer.
    assert!(b.hit(ray, Interval::new(0, 10)));
    assert_eq!(b.interior_range(ray, Interval::new(0, 10)), Some(Interval::new(1, 1)));
}

#[test]
fn ray_at() {
    let ray = Ray::new(Vec3::new(1, 2, 3), Vec3::new(-1, 0, 2), 0);
    assert_eq!(ray.at(5), (-4, 2, 13));
}

#[test]
fn block_reports_first_parameter_inside() {
    let block = Block::new(cube(-1, 1), 3);
    let ray = Ray::new(Vec3::new(0, 0, -5), Vec3::new(0, 0, 1), 0);
    let hit = block.hit(ray, Interval::new(0, i64::MAX)).unwrap();
    assert_eq!(hit.t, 5);
    assert_eq!(hit.material, 3);
    assert_eq!(block.hit(ray, Interval::new(5, 100)).unwrap().t, 5);
    assert!(block.hit(ray, Interval::new(6, 100)).is_none());
    assert!(block.hit(ray, Interval::new(0, 4)).is_none());
}

#[test]
fn list_keeps_nearest_hit_and_grows_box() {
    let mut list = HittableList::new();
    list.add(Block::new(cube(10, 12), 0));
    list.add(Block::new(cube(-1, 1), 1));
    list.add(Block::new(cube(4, 6), 2));
    assert_eq!(list.bounding_box(), AABB::from_corners(Vec3::new(-1, -1, -1), Vec3::new(12, 12, 12)));
    let ray = Ray::new(Vec3::new(0, 0, -20), Vec3::new(0, 0, 1), 0);
    let hit = list.hit(ray, Interval::new(0, i64::MAX)).unwrap();
    assert_eq!(hit.t, 20);
    assert_eq!(hit.material, 1);
    list.clear();
    assert!(list.hit(ray, Interval::new(0, i64::MAX)).is_none());
    assert_eq!(list.take_objects().len(), 0);
}

#[test]
fn block_hit_reports_the_entry_face() {
    let block = Block::new(cube(-1, 1), 0);
    let ray = Ray::new(Vec3::new(0, 0, -5), Vec3::new(0, 0, 1), 0);
    let hit = block.hit(ray, Interval::new(0, i64::MAX)).unwrap();
    assert_eq!((hit.normal, hit.is_front_face), (Vec3::new(0, 0, -1), true));
    let from_above = Ray::new(Vec3::new(0, 8, 0), Vec3::new(0, -2, 0), 0);
    let hit = block.hit(from_above, Interval::new(0, i64::MAX)).unwrap();
    assert_eq!(hit.t, 4);
    assert_eq!((hit.normal, hit.is_front_face), (Vec3::new(0, 1, 0), true));
    let inside = Ray::new(Vec3::new(0, 0, 0), Vec3::new(0, 0, 1), 0);
    let hit = block.hit(inside, Interval::new(0, i64::MAX)).unwrap();
    assert_eq!((hit.t, hit.normal, hit.is_front_face), (0, Vec3::new(0, 0, -1), true));
    let grazing = Ray::new(Vec3::new(1, 1, 0), Vec3::new(0, 0, 0), 0);
    let hit = block.hit(grazing, Interval::new(0, 9)).unwrap();
    assert_eq!((hit.t, hit.normal, hit.is_front_face), (0, Vec3::new(0, 0, 0), false));
}

#[test]
fn hit_record_turns_the_normal_against_the_ray() {
    let ray = Ray::new(Vec3::new(0, 0, 0), Vec3::new(1, 0, 0), 0);
    let front = HitRecord::new(ray, 3, Vec3::new(-1, 0, 0), 2);
    assert_eq!((front.normal, front.is_front_face, front.t, front.material), (Vec3::new(-1, 0, 0), true, 3, 2));
    let back = HitRecord::new(ray, 3, Vec3::new(1, 0, 0), 2);
    assert_eq!((back.normal, back.is_front_face), (Vec3::new(-1, 0, 0), false));
}
