use raytracer::octree::{low_yield, Octree, AABB, MAX_SHAPES_PER_OCTREE};
use raytracer::util::{Hit, Intersect, Ray, Shape};
use raytracer::vector::Point;

#[test]
fn real_points() {
    let aabb = AABB::new(Point::new(0.0, 0.0, 0.0), Point::new(1.0, 1.0, 1.0));
    assert_eq!(aabb.is_inside(&Point::new(0.5, 0.5, 0.5)), true);
    assert_eq!(aabb.is_inside(&Point::new(0.0, 0.0, 0.0)), true);
    assert_eq!(aabb.is_inside(&Point::new(1.0, 1.0, 1.0)), true);
    assert_eq!(aabb.is_inside(&Point::new(0.0, 0.0, 1.0)), true);

    assert_eq!(aabb.is_inside(&Point::new(0.0, 0.0, 1.1)), false);
    assert_eq!(aabb.is_inside(&Point::new(0.0, 0.0, -0.1)), false);
}

#[test]
fn infinity() {
    let aabb = AABB::new(Point::homogeneous(-f32::INFINITY), Point::homogeneous(f32::INFINITY));
    assert_eq!(aabb.is_inside(&Point::new(0.0, 0.0, 0.0)), true);
    assert_eq!(aabb.is_inside(&Point::homogeneous(f32::MAX)), true);
    assert_eq!(aabb.is_inside(&Point::homogeneous(f32::MIN)), true);
    assert_eq!(aabb.is_inside(&Point::homogeneous(f32::INFINITY)), true);
    assert_eq!(aabb.is_inside(&Point::homogeneous(-f32::INFINITY)), true);
}

/// A small square that faces the viewer, at depth `z`.
struct Plate {
    x: f32,
    y: f32,
    z: f32,
    half: f32,
    tag: u8,
}

impl Intersect<f32> for Plate {
    fn spec_hit(&self, _ray: Ray<f32>) -> Option<Hit<f32>> {
        unreachable!()
    }

    fn hit(&self, ray: &Ray<f32>) -> Option<Hit<f32>> {
        if ray.dir.z == 0.0 {
            return None;
        }
        let t = (self.z - ray.origin.z) / ray.dir.z;
        if t <= 0.0 {
            return None;
        }
        let px = ray.origin.x + ray.dir.x * t;
        let py = ray.origin.y + ray.dir.y * t;
        if (px - self.x).abs() > self.half || (py - self.y).abs() > self.half {
            return None;
        }
        Some(Hit::new(
            t,
            ray.origin,
            Point::new(px, py, self.z),
            Point::new(0.0, 0.0, -1.0),
            Point::new(self.tag, 0, 0),
        ))
    }
}

impl Shape<f32> for Plate {
    fn inside(&self, _aabb: AABB<f32>) -> bool {
        unreachable!()
    }

    fn is_inside_aabb(&self, aabb: &AABB<f32>) -> bool {
        let own = self.aabb();
        aabb.is_inside_all(&[own.min, own.max])
    }

    fn bounds(&self) -> AABB<f32> {
        unreachable!()
    }

    fn aabb(&self) -> AABB<f32> {
        AABB::new(
            Point::new(self.x - self.half, self.y - self.half, self.z),
            Point::new(self.x + self.half, self.y + self.half, self.z),
        )
    }
}

fn plates() -> Vec<Plate> {
    let mut plates = Vec::new();
    let mut tag: u8 = 0;
    for i in 0..8 {
        for j in 0..8 {
            for k in 0..3 {
                plates.push(Plate {
                    x: i as f32 * 2.0,
                    y: j as f32 * 2.0,
                    z: 5.0 + k as f32 * 3.0 + ((i + j) % 2) as f32,
                    half: 0.75,
                    tag,
                });
                tag = tag.wrapping_add(1);
            }
        }
    }
    plates
}

fn brute_force(plates: &Vec<Plate>, ray: &Ray<f32>) -> Option<Hit<f32>> {
    let mut closest: Option<Hit<f32>> = None;
    for plate in plates {
        if let Some(hit) = plate.hit(ray) {
            closest = match closest {
                None => Some(hit),
                Some(mut so_far) => {
                    so_far.replace_if_closer(hit);
                    Some(so_far)
                }
            };
        }
    }
    closest
}

fn space() -> AABB<f32> {
    AABB::new(Point::homogeneous(f32::MIN), Point::homogeneous(f32::MAX))
}

#[test]
fn octree_keeps_every_shape() {
    let octree = Octree::new(plates(), space());
    assert_eq!(octree.shapes_count(), 8 * 8 * 3);
    assert_eq!(octree.children.len(), 8);
    assert_eq!(octree.shapes.len(), MAX_SHAPES_PER_OCTREE);
}

fn plate(x: f32, y: f32, z: f32, tag: u8) -> Plate {
    Plate { x, y, z, half: 0.25, tag }
}

#[test]
fn a_node_keeps_the_first_shapes_and_hands_the_later_ones_down() {
    // ten plates fill the root; the box of the tree reaches from -0.25 to
    // 8.25 on x and y, and from 0 to 9 on z
    let mut plates: Vec<Plate> = (0..10).map(|i| plate(i as f32 * 8.0 / 9.0, 4.0, 4.5, i)).collect();
    // one for the first octant, one for the seventh, one across the middle
    plates.push(plate(1.0, 1.0, 1.0, 10));
    plates.push(plate(7.0, 7.0, 8.0, 11));
    plates.push(plate(4.0, 4.0, 0.0, 12));
    plates[0].y = 0.0;
    plates[0].z = 0.0;
    plates[9].y = 8.0;
    plates[9].z = 9.0;
    let octree = Octree::new(plates, space());
    assert_eq!(octree.aabb.min, Point::new(-0.25, -0.25, 0.0));
    assert_eq!(octree.aabb.max, Point::new(8.25, 8.25, 9.0));
    let tags = |node: &Octree<f32, Plate>| node.shapes.iter().map(|p| p.tag).collect::<Vec<u8>>();
    assert_eq!(tags(&octree), vec![0, 1, 2, 3, 4, 5, 6, 7, 8, 9, 12]);
    assert_eq!(tags(&octree.children[0]), vec![10]);
    assert_eq!(tags(&octree.children[6]), vec![11]);
    for (i, child) in octree.children.iter().enumerate() {
        assert_eq!(child.children.len(), 0);
        if i != 0 && i != 6 {
            assert!(child.shapes.is_empty());
        }
    }
    assert_eq!(octree.shapes_count(), 13);
}

#[test]
fn shapes_at_one_place_are_kept_level_by_level() {
    // every node on the way down keeps as many as it holds, so that the
    // tree is built however many shapes share a place
    let mut plates = vec![plate(0.0, 0.0, 0.0, 100), plate(8.0, 8.0, 8.0, 101)];
    for i in 0..35 {
        plates.push(Plate { x: 1.0, y: 1.0, z: 1.0, half: 0.01, tag: i });
    }
    let octree = Octree::new(plates, space());
    assert_eq!(octree.shapes_count(), 37);
    let mut node = &octree;
    let mut kept = vec![];
    loop {
        kept.push(node.shapes.len());
        match node.children.iter().find(|child| child.shapes_count() > 0) {
            Some(child) => node = child,
            None => break,
        }
    }
    assert_eq!(kept, vec![10, 10, 10, 7]);
}

#[test]
fn a_shape_without_a_place_is_left_out() {
    let mut plates = vec![plate(f32::NAN, 0.0, 1.0, 9)];
    plates.extend((0..4).map(|i| plate(i as f32, 0.0, 1.0, i)));
    let octree = Octree::new(plates, space());
    assert_eq!(octree.aabb.min, Point::new(-0.25, -0.25, 1.0));
    assert_eq!(octree.aabb.max, Point::new(3.25, 0.25, 1.0));
    assert_eq!(octree.shapes_count(), 4);
    assert!(octree.shapes.iter().all(|p| p.tag != 9));
}

#[test]
fn a_last_shape_without_a_place_leaves_the_tree_without_a_box() {
    let mut plates: Vec<Plate> = (0..4).map(|i| plate(i as f32, 0.0, 1.0, i)).collect();
    plates.push(plate(f32::NAN, 0.0, 1.0, 9));
    let octree = Octree::new(plates, space());
    assert!(octree.aabb.min.x.is_nan());
    assert_eq!(octree.shapes_count(), 0);
    assert!(low_yield(octree.shapes_count(), 5));
}

#[test]
fn low_yield_is_less_than_nine_in_ten() {
    assert!(low_yield(4, 5));
    assert!(!low_yield(9, 10));
    assert!(low_yield(89, 100));
    assert!(!low_yield(90, 100));
    assert!(!low_yield(0, 0));
    assert!(!low_yield(usize::MAX, usize::MAX));
    assert!(low_yield(0, usize::MAX));
    assert!(low_yield(0, 1));
}

#[test]
fn from_points_is_the_smallest_box_around_the_points() {
    let points = [Point::new(1.0f32, 5.0, -2.0), Point::new(-3.0, 6.0, 0.0), Point::new(2.0, 4.0, -1.0)];
    let aabb = AABB::from_points(&points, f32::NEG_INFINITY, f32::INFINITY);
    assert_eq!(aabb.min, Point::new(-3.0, 4.0, -2.0));
    assert_eq!(aabb.max, Point::new(2.0, 6.0, 0.0));
    let none = AABB::from_points(&[], f32::NEG_INFINITY, f32::INFINITY);
    assert_eq!(none.min, Point::homogeneous(f32::INFINITY));
    assert_eq!(none.max, Point::homogeneous(f32::NEG_INFINITY));
    let whole = AABB::from_points(&[Point::new(3, 1, 2), Point::new(0, 5, 2)], i32::MIN, i32::MAX);
    assert_eq!(whole.min, Point::new(0, 1, 2));
    assert_eq!(whole.max, Point::new(3, 5, 2));
    assert!(whole.is_inside_all(&[Point::new(3, 1, 2), Point::new(0, 5, 2), Point::new(1, 3, 2)]));
    assert!(!whole.is_inside_all(&[Point::new(3, 1, 2), Point::new(0, 6, 2)]));
    assert!(whole.is_inside_all(&[]));
}

#[test]
fn octree_of_nothing_hits_nothing() {
    let octree: Octree<f32, Plate> = Octree::new(Vec::new(), space());
    assert_eq!(octree.shapes_count(), 0);
    assert_eq!(octree.children.len(), 0);
    let ray = Ray::new(Point::new(0.0, 0.0, 0.0), Point::new(0.0, 0.0, 1.0));
    assert!(octree.hit(&ray).is_none());
}

#[test]
fn octree_box_is_drawn_in_to_the_shapes() {
    let octree = Octree::new(plates(), space());
    assert_eq!(octree.aabb.min, Point::new(-0.75, -0.75, 5.0));
    assert_eq!(octree.aabb.max, Point::new(14.75, 14.75, 12.0));
}

#[test]
fn octree_agrees_with_a_scan_of_all_shapes() {
    let octree = Octree::new(plates(), space());
    let all = plates();
    let mut hits = 0;
    let mut misses = 0;
    for a in 0..40 {
        for b in 0..40 {
            let origin = Point::new(7.0, 7.0, -20.0);
            let target = Point::new(a as f32 * 0.5 - 2.0, b as f32 * 0.5 - 2.0, 5.0);
            let ray = Ray::new(origin, target - origin);
            let found = octree.hit(&ray);
            let expected = brute_force(&all, &ray);
            match (found, expected) {
                (None, None) => misses += 1,
                (Some(found), Some(expected)) => {
                    hits += 1;
                    assert!((found.dist - expected.dist).abs() < 1e-5);
                    assert_eq!(found.color, expected.color);
                }
                _ => panic!("the tree and the scan disagree for {} {}", a, b),
            }
        }
    }
    assert!(hits > 100);
    assert!(misses > 100);
}

#[test]
fn ray_that_points_away_misses_the_box() {
    let aabb = AABB::new(Point::new(0.0f32, 0.0, 0.0), Point::new(1.0, 1.0, 1.0));
    let toward = Ray::new(Point::new(0.5, 0.5, -1.0), Point::new(0.0, 0.0, 1.0));
    let away = Ray::new(Point::new(0.5, 0.5, -1.0), Point::new(0.0, 0.0, -1.0));
    let beside = Ray::new(Point::new(2.5, 0.5, -1.0), Point::new(0.0, 0.0, 1.0));
    assert!(aabb.hit(&toward));
    assert!(!aabb.hit(&away));
    assert!(!aabb.hit(&beside));
}

#[test]
fn subdivide_gives_the_eight_octants() {
    let aabb = AABB::new(Point::new(0.0f32, 0.0, 0.0), Point::new(2.0, 4.0, 6.0));
    let children = aabb.subdivide();
    assert_eq!(children.len(), 8);
    assert_eq!(children[0].min, Point::new(0.0, 0.0, 0.0));
    assert_eq!(children[0].max, Point::new(1.0, 2.0, 3.0));
    assert_eq!(children[1].min, Point::new(1.0, 0.0, 0.0));
    assert_eq!(children[1].max, Point::new(2.0, 2.0, 3.0));
    assert_eq!(children[6].min, Point::new(1.0, 2.0, 3.0));
    assert_eq!(children[6].max, Point::new(2.0, 4.0, 6.0));
    assert_eq!(children[7].min, Point::new(0.0, 2.0, 3.0));
    assert_eq!(children[7].max, Point::new(1.0, 4.0, 6.0));
}
