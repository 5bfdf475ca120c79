use graphics_engine::aabb::{slab_test, Corner, AABB};
use graphics_engine::bvh::BVH;
use graphics_engine::hit::nearest_of_all;
use graphics_engine::key::{bits_from_key, key_from_bits};

fn key(v: f32) -> i32 {
    key_from_bits(if v == 0.0 { 0.0f32 } else { v }.to_bits())
}

fn value(k: i32) -> f32 {
    f32::from_bits(bits_from_key(k))
}

fn extent(a: i32, b: i32) -> i32 {
    key(value(b) - value(a))
}

fn midpoint(a: i32, b: i32) -> i32 {
    key(value(a) + (value(b) - value(a)) / 2.0)
}

struct Rng(u64);

impl Rng {
    fn next(&mut self) -> f32 {
        self.0 = self.0.wrapping_mul(6364136223846793005).wrapping_add(1442695040888963407);
        ((self.0 >> 40) as f32) / ((1u64 << 24) as f32)
    }

    fn range(&mut self, lo: f32, hi: f32) -> f32 {
        lo + (hi - lo) * self.next()
    }
}

#[derive(Clone, Copy)]
struct Ball {
    c: [f32; 3],
    r: f32,
}

#[derive(Clone, Copy)]
struct Ray {
    o: [f32; 3],
    d: [f32; 3],
}

fn dot(a: [f32; 3], b: [f32; 3]) -> f32 {
    a[0] * b[0] + a[1] * b[1] + a[2] * b[2]
}

fn ball_hit(b: &Ball, ray: &Ray) -> Option<f32> {
    let oc = [ray.o[0] - b.c[0], ray.o[1] - b.c[1], ray.o[2] - b.c[2]];
    let a = dot(ray.d, ray.d);
    let half_b = dot(oc, ray.d);
    let c = dot(oc, oc) - b.r * b.r;
    let disc = half_b * half_b - a * c;
    if disc <= 0.0 {
        return None;
    }
    let root = disc.sqrt();
    let t = (-half_b - root) / a;
    if t > 0.0 {
        return Some(t);
    }
    let t = (-half_b + root) / a;
    if t > 0.0 {
        Some(t)
    } else {
        None
    }
}

fn ball_box(b: &Ball) -> AABB {
    AABB::with_bounds(
        Corner::new(key(b.c[0] - b.r), key(b.c[1] - b.r), key(b.c[2] - b.r)),
        Corner::new(key(b.c[0] + b.r), key(b.c[1] + b.r), key(b.c[2] + b.r)),
    )
}

fn crosses(ray: &Ray, b: AABB) -> bool {
    let axis = |lo: i32, hi: i32, a: usize| (key((value(lo) - ray.o[a]) / ray.d[a]), key((value(hi) - ray.o[a]) / ray.d[a]));
    slab_test(axis(b.min.x, b.max.x, 0), axis(b.min.y, b.max.y, 1), axis(b.min.z, b.max.z, 2))
}

fn random_scene(rng: &mut Rng, n: usize) -> Vec<Ball> {
    (0..n)
        .map(|_| Ball {
            c: [rng.range(-10.0, 10.0), rng.range(-10.0, 10.0), rng.range(-10.0, 10.0)],
            r: rng.range(0.2, 1.5),
        })
        .collect()
}

fn random_ray(rng: &mut Rng) -> Ray {
    let o = [rng.range(-15.0, 15.0), rng.range(-15.0, 15.0), rng.range(-15.0, 15.0)];
    let target = [rng.range(-8.0, 8.0), rng.range(-8.0, 8.0), rng.range(-8.0, 8.0)];
    let d = [target[0] - o[0], target[1] - o[1], target[2] - o[2]];
    let len = dot(d, d).sqrt();
    Ray { o, d: [d[0] / len, d[1] / len, d[2] / len] }
}

#[test]
fn bvh_agrees_with_linear_scan_on_random_scenes() {
    let mut rng = Rng(7);
    let mut hits_seen = 0;
    for _scene in 0..20 {
        let balls = random_scene(&mut rng, 40);
        let boxes: Vec<AABB> = balls.iter().map(ball_box).collect();
        let bvh = BVH::with_leaf_size(&boxes, 0, 8, 2, &extent, &midpoint);
        for _ray in 0..100 {
            let ray = random_ray(&mut rng);
            let hit = |i: usize| ball_hit(&balls[i], &ray).map(key);
            let cross = |b: AABB| crosses(&ray, b);
            let linear = nearest_of_all(balls.len(), &hit);
            let fast = bvh.intersect(&hit, &cross);
            assert_eq!(linear, fast);
            if linear.is_some() {
                hits_seen += 1;
            }
        }
    }
    assert!(hits_seen > 100);
}

#[test]
fn bvh_with_default_leaf_size_is_one_leaf() {
    let mut rng = Rng(11);
    let balls = random_scene(&mut rng, 30);
    let boxes: Vec<AABB> = balls.iter().map(ball_box).collect();
    let bvh = BVH::new(&boxes, 0, 10, &extent, &midpoint);
    for _ in 0..50 {
        let ray = random_ray(&mut rng);
        let hit = |i: usize| ball_hit(&balls[i], &ray).map(key);
        let never = |_b: AABB| false;
        assert_eq!(bvh.intersect(&hit, &never), nearest_of_all(balls.len(), &hit));
    }
}

#[test]
fn bvh_keeps_unbounded_primitives_on_both_sides() {
    // two small boxes far apart on x and one unbounded primitive
    let boxes = vec![
        AABB::with_bounds(Corner::new(key(-10.0), key(0.0), key(0.0)), Corner::new(key(-9.0), key(1.0), key(1.0))),
        AABB::with_bounds(Corner::new(key(9.0), key(0.0), key(0.0)), Corner::new(key(10.0), key(1.0), key(1.0))),
        AABB::full(),
    ];
    let bvh = BVH::with_leaf_size(&boxes, 0, 1, 1, &extent, &midpoint);
    // every box is met: the unbounded primitive answers from either side
    let only_plane = |i: usize| if i == 2 { Some(key(4.0)) } else { None };
    let always = |_b: AABB| true;
    assert_eq!(bvh.intersect(&only_plane, &always), nearest_of_all(3, &only_plane));
    assert_eq!(bvh.intersect(&only_plane, &always).map(|h| h.object), Some(2));
    // a nearer bounded primitive wins over the unbounded one
    let both = |i: usize| match i {
        0 => Some(key(1.0)),
        2 => Some(key(4.0)),
        _ => None,
    };
    assert_eq!(bvh.intersect(&both, &always).map(|h| h.object), Some(0));
}

#[test]
fn bvh_prunes_missed_branches() {
    let boxes = vec![
        AABB::with_bounds(Corner::new(key(0.0), key(0.0), key(0.0)), Corner::new(key(1.0), key(1.0), key(1.0))),
        AABB::with_bounds(Corner::new(key(5.0), key(0.0), key(0.0)), Corner::new(key(6.0), key(1.0), key(1.0))),
    ];
    let bvh = BVH::with_leaf_size(&boxes, 0, 4, 1, &extent, &midpoint);
    let hit = |_i: usize| Some(key(1.0));
    let never = |_b: AABB| false;
    assert_eq!(bvh.intersect(&hit, &never), None);
}

#[test]
fn bvh_branch_box_leaves_out_unbounded_primitives() {
    // two small boxes far apart on x, and a ground plane; a ray straight down
    // at x = 0 meets only the plane, outside the branch's box
    let boxes = vec![
        AABB::with_bounds(Corner::new(key(-10.0), key(0.0), key(0.0)), Corner::new(key(-9.0), key(1.0), key(1.0))),
        AABB::with_bounds(Corner::new(key(9.0), key(0.0), key(0.0)), Corner::new(key(10.0), key(1.0), key(1.0))),
        AABB::full(),
    ];
    let bvh = BVH::with_leaf_size(&boxes, 0, 4, 1, &extent, &midpoint);
    let ray = Ray { o: [0.0, 5.0, 0.5], d: [0.0, -1.0, 0.0] };
    let hit = |i: usize| if i == 2 { Some(key(5.0)) } else { None };
    let cross = |b: AABB| crosses(&ray, b);
    assert_eq!(nearest_of_all(3, &hit).map(|h| h.object), Some(2));
    assert_eq!(bvh.intersect(&hit, &cross), None);
}
