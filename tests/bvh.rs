use pathtrace::aabb::AABB;
use pathtrace::bvh::{hit_flattened, BuildError, BVHNodeGPU, BVH};
use pathtrace::hittable::{Block, Hittable, HittableList};
use pathtrace::interval::Interval;
use pathtrace::ray::{Ray, Vec3};

struct Lcg(u64);

impl Lcg {
    fn next(&mut self) -> u64 {
        self.0 = self.0.wrapping_mul(6364136223846793005).wrapping_add(1442695040888963407);
        self.0 >> 33
    }

    fn range(&mut self, lo: i32, hi: i32) -> i32 {
        lo + (self.next() % ((hi - lo + 1) as u64)) as i32
    }
}

fn random_blocks(rng: &mut Lcg, n: usize) -> Vec<Block> {
    (0..n)
        .map(|i| {
            let a = Vec3::new(rng.range(-100, 100), rng.range(-100, 100), rng.range(-100, 100));
            let b = Vec3::new(a.x + rng.range(0, 12), a.y + rng.range(0, 12), a.z + rng.range(0, 12));
            Block::new(AABB::from_corners(a, b), i)
        })
        .collect()
}

#[test]
fn empty_scene_is_a_construction_error() {
    let r = BVH::<Block>::new(Vec::new());
    assert!(matches!(r, Err(BuildError::EmptyPrimitiveList)));
    assert_eq!(BuildError::EmptyPrimitiveList.message(), "BVH cannot be built from empty list");
}

#[test]
fn single_primitive_tree() {
    let block = Block::new(AABB::from_corners(Vec3::new(-1, -1, -1), Vec3::new(1, 1, 1)), 7);
    let bvh = BVH::new(vec![block]).unwrap();
    assert_eq!(bvh.bounding_box(), block.bbox);
    let ray = Ray::new(Vec3::new(0, 0, -5), Vec3::new(0, 0, 1), 0);
    let hit = bvh.hit(ray, Interval::new(0, i64::MAX)).unwrap();
    assert_eq!(hit.t, 5);
    assert_eq!(hit.material, 7);
}

#[test]
fn tree_matches_linear_scan_on_random_scenes() {
    let mut rng = Lcg(42);
    for _scene in 0..4 {
        let blocks = random_blocks(&mut rng, 50);
        let mut list = HittableList::new();
        for b in blocks.iter() {
            list.add(*b);
        }
        let bvh = BVH::new(blocks).unwrap();
        assert_eq!(bvh.bounding_box(), list.bounding_box());
        let mut hits = 0;
        for _ in 0..400 {
            let aim = list.objects[rng.range(0, 49) as usize].bbox;
            let target = Vec3::new(aim.x.min as i32 + 1, aim.y.min as i32 + 1, aim.z.min as i32 + 1);
            let dir = Vec3::new(rng.range(-3, 3), rng.range(-3, 3), rng.range(-3, 3));
            let k = rng.range(1, 60);
            let origin = Vec3::new(target.x - k * dir.x, target.y - k * dir.y, target.z - k * dir.z);
            let ray = Ray::new(origin, dir, 0);
            let lo = rng.range(0, 2) as i64;
            let hi = if rng.range(0, 3) > 0 { i64::MAX } else { rng.range(3, 200) as i64 };
            let ray_t = Interval::new(lo, hi);
            let a = bvh.hit(ray, ray_t).map(|h| h.t);
            let b = list.hit(ray, ray_t).map(|h| h.t);
            assert_eq!(a, b);
            if a.is_some() {
                hits += 1;
            }
        }
        assert!(hits > 40);
    }
}

#[test]
fn tree_finds_nearest_of_a_row() {
    let blocks: Vec<Block> = (0..9)
        .map(|k| Block::new(AABB::from_corners(Vec3::new(-1, -1, 10 * k), Vec3::new(1, 1, 10 * k + 2)), k as usize))
        .rev()
        .collect();
    let bvh = BVH::new(blocks).unwrap();
    let ray = Ray::new(Vec3::new(0, 0, -10), Vec3::new(0, 0, 1), 0);
    let hit = bvh.hit(ray, Interval::new(0, i64::MAX)).unwrap();
    assert_eq!((hit.t, hit.material), (11, 0));
    let later = bvh.hit(ray, Interval::new(13, i64::MAX)).unwrap();
    assert_eq!((later.t, later.material), (21, 1));
    let inside = bvh.hit(ray, Interval::new(31, 40)).unwrap();
    assert_eq!((inside.t, inside.material), (31, 2));
    assert!(bvh.hit(ray, Interval::new(13, 19)).is_none());
}

#[test]
fn flattened_single_leaf() {
    let block = Block::new(AABB::from_corners(Vec3::new(0, 0, 0), Vec3::new(3, 3, 3)), 0);
    let nodes = BVH::new(vec![block]).unwrap().to_gpu();
    assert_eq!(nodes.len(), 1);
    assert_eq!(nodes[0], BVHNodeGPU { bbox: block.bbox, left: u32::MAX, right: u32::MAX, triangle_id: 0 });
}

#[test]
fn flattened_tree_lists_children_before_parents() {
    let blocks: Vec<Block> = (0..3)
        .map(|k| Block::new(AABB::from_corners(Vec3::new(10 * k, 0, 0), Vec3::new(10 * k + 4, 4, 4)), k as usize))
        .collect();
    let nodes = BVH::new(blocks).unwrap().to_gpu();
    assert_eq!(nodes.len(), 5);
    let root = nodes[4];
    assert_eq!(root.triangle_id, u32::MAX);
    assert_eq!(root.bbox, AABB::from_corners(Vec3::new(0, 0, 0), Vec3::new(24, 4, 4)));
    let mut leaf_ids: Vec<u32> = Vec::new();
    for (i, n) in nodes.iter().enumerate() {
        if n.triangle_id == u32::MAX {
            assert!((n.left as usize) < i && (n.right as usize) < i);
        } else {
            assert_eq!((n.left, n.right), (u32::MAX, u32::MAX));
            leaf_ids.push(n.triangle_id);
        }
    }
    assert_eq!(leaf_ids, vec![0, 1, 2]);
    // Sorted along x and split at the middle: the left leaf is the first block.
    assert_eq!(nodes[0].bbox, AABB::from_corners(Vec3::new(0, 0, 0), Vec3::new(4, 4, 4)));
}

#[test]
fn flattened_tree_finds_the_same_nearest_hits() {
    let mut rng = Lcg(7);
    let blocks = random_blocks(&mut rng, 50);
    let bvh = BVH::new(blocks.clone()).unwrap();
    let nodes = bvh.to_gpu();
    assert_eq!(nodes.len(), 99);
    let tree = BVH::new(blocks.clone()).unwrap();
    let prims = bvh.into_primitives();
    assert_eq!(prims.len(), 50);
    let root = (nodes.len() - 1) as u32;
    let mut hits = 0;
    for _ in 0..400 {
        let aim = blocks[rng.range(0, 49) as usize].bbox;
        let target = Vec3::new(aim.x.min as i32 + 1, aim.y.min as i32 + 1, aim.z.min as i32 + 1);
        let dir = Vec3::new(rng.range(-3, 3), rng.range(-3, 3), rng.range(-3, 3));
        let k = rng.range(1, 60);
        let origin = Vec3::new(target.x - k * dir.x, target.y - k * dir.y, target.z - k * dir.z);
        let ray = Ray::new(origin, dir, 0);
        let ray_t = Interval::new(rng.range(0, 2) as i64, i64::MAX);
        let flat = hit_flattened(&nodes, &prims, root, ray, ray_t);
        let direct = tree.hit(ray, ray_t);
        assert_eq!(flat.map(|h| h.t), direct.map(|h| h.t));
        if let Some(h) = flat {
            hits += 1;
            let inside = blocks[h.material].bbox.interior_range(ray, Interval::new(h.t, h.t));
            assert_eq!(inside, Some(Interval::new(h.t, h.t)));
        }
    }
    assert!(hits > 40);
}

#[test]
fn primitives_come_out_in_leaf_order() {
    let blocks: Vec<Block> = (0..4)
        .map(|k| Block::new(AABB::from_corners(Vec3::new(10 * (3 - k), 0, 0), Vec3::new(10 * (3 - k) + 4, 4, 4)), k as usize))
        .collect();
    let prims = BVH::new(blocks).unwrap().into_primitives();
    let order: Vec<usize> = prims.iter().map(|b| b.material).collect();
    assert_eq!(order, vec![3, 2, 1, 0]);
}
