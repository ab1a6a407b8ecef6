use pathtrace::aabb::AABB;
use pathtrace::bvh::BVH;
use pathtrace::color::Color;
use pathtrace::hittable::{Block, HitRecord};
use pathtrace::integrator::{ray_color, shade, SolidColorBackground};
use pathtrace::material::{Diffuse_BSDF, DiffuseLight, EmptyMaterial, Material, Mirror, ScatterRecord, SceneMaterial};
use pathtrace::ray::{Ray, Vec3};

fn scene() -> (BVH<Block>, Vec<DiffuseLight>) {
    let left = Block::new(AABB::from_corners(Vec3::new(-10, -2, -2), Vec3::new(-6, 2, 2)), 0);
    let right = Block::new(AABB::from_corners(Vec3::new(6, -2, -2), Vec3::new(10, 2, 2)), 1);
    let materials = vec![
        DiffuseLight::from_color(Color::new(4000, 4000, 4000)),
        DiffuseLight::from_color(Color::new(100, 200, 300)),
    ];
    (BVH::new(vec![left, right]).unwrap(), materials)
}

#[test]
fn zero_depth_is_black_for_rays_that_hit() {
    let (world, materials) = scene();
    let background = SolidColorBackground::new(Color::new(700, 800, 900));
    let toward_left = Ray::new(Vec3::new(0, 0, 0), Vec3::new(-1, 0, 0), 0);
    let toward_right = Ray::new(Vec3::new(0, 0, 0), Vec3::new(1, 0, 0), 0);
    assert_eq!(ray_color(toward_left, 0, &world, &materials, &background), Color::black());
    assert_eq!(ray_color(toward_right, 0, &world, &materials, &background), Color::black());
}

#[test]
fn miss_gives_background() {
    let (world, materials) = scene();
    let background = SolidColorBackground::new(Color::new(700, 800, 900));
    let up = Ray::new(Vec3::new(0, 0, 0), Vec3::new(0, 1, 0), 0);
    assert_eq!(ray_color(up, 5, &world, &materials, &background), Color::new(700, 800, 900));
}

#[test]
fn hit_on_light_gives_its_emission() {
    let (world, materials) = scene();
    let background = SolidColorBackground::new(Color::black());
    let toward_right = Ray::new(Vec3::new(0, 0, 0), Vec3::new(1, 0, 0), 0);
    assert_eq!(ray_color(toward_right, 3, &world, &materials, &background), Color::new(100, 200, 300));
}

#[test]
fn unknown_material_is_black() {
    let block = Block::new(AABB::from_corners(Vec3::new(-1, -1, 3), Vec3::new(1, 1, 5)), 9);
    let world = BVH::new(vec![block]).unwrap();
    let materials = vec![DiffuseLight::from_color(Color::new(1, 1, 1))];
    let background = SolidColorBackground::new(Color::new(5, 5, 5));
    let ray = Ray::new(Vec3::new(0, 0, 0), Vec3::new(0, 0, 1), 0);
    assert_eq!(ray_color(ray, 2, &world, &materials, &background), Color::black());
}

#[test]
fn shade_combines_emission_and_scattered_light() {
    let rec = ScatterRecord {
        attenuation: Color::new(500, 500, 500),
        scattered_ray: Ray::new(Vec3::new(0, 0, 0), Vec3::new(0, 0, 1), 0),
        weight: 1000,
    };
    let out = shade(Color::new(10, 20, 30), Some((rec, Color::new(1000, 500, 0))));
    assert_eq!(out, Color::new(510, 270, 30));
    let doubled = ScatterRecord { weight: 2000, ..rec };
    assert_eq!(shade(Color::black(), Some((doubled, Color::new(1000, 1000, 1000)))), Color::new(1000, 1000, 1000));
    let bright = ScatterRecord { weight: 65535, attenuation: Color::new(65535, 65535, 65535), ..rec };
    assert_eq!(shade(Color::black(), Some((bright, Color::new(65535, 1, 0)))), Color::new(65535, 4294, 0));
    assert_eq!(shade(Color::new(1, 2, 3), None), Color::new(1, 2, 3));
}

#[test]
fn materials_without_scattering() {
    let ray = Ray::new(Vec3::new(0, 0, 0), Vec3::new(0, 0, 1), 0);
    let rec = HitRecord::new(ray, 4, Vec3::new(0, 0, -1), 0);
    assert!(EmptyMaterial::new().scatter(ray, &rec).is_none());
    assert_eq!(EmptyMaterial::new().emitted(&rec), Color::black());
    assert!(Diffuse_BSDF {}.scatter(ray, &rec).is_none());
    assert_eq!(Diffuse_BSDF {}.emitted(&rec), Color::black());
    let light = DiffuseLight::from_color(Color::new(3, 4, 5));
    assert!(light.scatter(ray, &rec).is_none());
    assert_eq!(light.emitted(&rec), Color::new(3, 4, 5));
}

fn slab(a: (i32, i32, i32), b: (i32, i32, i32), material: usize) -> Block {
    Block::new(AABB::from_corners(Vec3::new(a.0, a.1, a.2), Vec3::new(b.0, b.1, b.2)), material)
}

#[test]
fn mirror_floor_reflects_the_light_above() {
    let world = BVH::new(vec![
        slab((-100, -10, -100), (100, 0, 100), 0),
        slab((-100, 50, -100), (100, 60, 100), 1),
    ])
    .unwrap();
    let materials = vec![
        SceneMaterial::Mirror(Mirror::new(Color::new(800, 800, 800))),
        SceneMaterial::Light(DiffuseLight::from_color(Color::new(1000, 500, 200))),
    ];
    let background = SolidColorBackground::new(Color::black());
    let ray = Ray::new(Vec3::new(0, 20, -50), Vec3::new(0, -1, 1), 0);
    assert_eq!(ray_color(ray, 2, &world, &materials, &background), Color::new(800, 400, 160));
    assert_eq!(ray_color(ray, 1, &world, &materials, &background), Color::black());
}

#[test]
fn facing_mirrors_carry_no_light_at_any_depth() {
    let world = BVH::new(vec![slab((-5, -5, 10), (5, 5, 20), 0), slab((-5, -5, -20), (5, 5, -10), 0)]).unwrap();
    let materials = vec![SceneMaterial::Mirror(Mirror::new(Color::new(1000, 1000, 1000)))];
    let background = SolidColorBackground::new(Color::new(700, 800, 900));
    for dir in [Vec3::new(0, 0, 1), Vec3::new(0, 0, -1)] {
        let ray = Ray::new(Vec3::new(0, 0, 0), dir, 0);
        for depth in [0, 1, 2, 5, 20] {
            assert_eq!(ray_color(ray, depth, &world, &materials, &background), Color::black());
        }
    }
}

#[test]
fn mirror_reflection_leaves_from_outside_the_face() {
    let ray = Ray::new(Vec3::new(0, 20, -50), Vec3::new(0, -1, 1), 3);
    let rec = HitRecord::new(ray, 20, Vec3::new(0, 1, 0), 0);
    let s = Mirror::new(Color::new(1, 2, 3)).scatter(ray, &rec).unwrap();
    assert_eq!(s.scattered_ray, Ray::new(Vec3::new(0, 1, -31), Vec3::new(0, 1, 1), 3));
    assert_eq!((s.attenuation, s.weight), (Color::new(1, 2, 3), 1000));
    let flat = HitRecord::new(ray, 20, Vec3::new(0, 0, 0), 0);
    assert!(Mirror::new(Color::new(1, 2, 3)).scatter(ray, &flat).is_none());
}
