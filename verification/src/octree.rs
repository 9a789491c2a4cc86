//! Boxes whose sides lie along the axes, and a tree of such boxes that finds
//! the shape that a ray hits first.
//!
//! The coordinate type `T` is left open. What the functions compute is
//! stated over the operators of `T` as `vstd` names them (`add_spec`,
//! `div_spec`, the comparison of two values), so that it holds of every
//! coordinate type whose operators are specified.

use crate::num::{max, min, order_specified, spec_max, spec_min};
use crate::util::{Hit, Intersect, Ray, Shape};
use crate::vector::{greater_partial, lesser_partial, Point};
use std::ops::{Add, Div, Mul, Sub};
use vstd::multiset::Multiset;
use vstd::prelude::*;
use vstd::std_specs::cmp::{PartialOrdIs, PartialOrdSpec};
use vstd::std_specs::convert::FromSpec;
use vstd::std_specs::ops::{AddSpec, DivSpec, MulSpec, SubSpec};

verus! {

/// The comparison operators of `T` are specified, and so are `+`, `-`, `*`,
/// `/` and the conversion from `u8`; the four operators accept every pair of
/// values.
pub open spec fn unfailing<T>() -> bool where
    T: PartialOrd + Add<Output = T> + Sub<Output = T> + Mul<Output = T> + Div<Output = T> + From<
        u8,
    >,
 {
    &&& order_specified::<T>()
    &&& T::obeys_add_spec()
    &&& T::obeys_sub_spec()
    &&& T::obeys_mul_spec()
    &&& T::obeys_div_spec()
    &&& T::obeys_from_spec()
    &&& forall|a: T, b: T| #[trigger] a.add_req(b)
    &&& forall|a: T, b: T| #[trigger] a.sub_req(b)
    &&& forall|a: T, b: T| #[trigger] a.mul_req(b)
    &&& forall|a: T, b: T| #[trigger] a.div_req(b)
}

/// A box whose sides lie along the axes, given by its least and its
/// greatest corner.
#[derive(Debug, Clone, Copy)]
pub struct AABB<T> {
    pub min: Point<T>,
    pub max: Point<T>,
}

impl<T: Copy> AABB<T> {
    pub fn new(min: Point<T>, max: Point<T>) -> (r: Self)
        ensures
            r == (AABB { min, max }),
    {
        Self { min, max }
    }
}

/// Whether `low <= value <= high`.
pub open spec fn between<T: PartialOrd>(low: T, value: T, high: T) -> bool {
    value.is_ge(&low) && value.is_le(&high)
}

impl<T: Copy + PartialOrd> AABB<T> {
    /// Whether the point lies in the box, its faces included: on each axis
    /// the coordinate is at least that of the least corner and at most that
    /// of the greatest.
    pub open spec fn contains(&self, point: Point<T>) -> bool {
        &&& between(self.min.x, point.x, self.max.x)
        &&& between(self.min.y, point.y, self.max.y)
        &&& between(self.min.z, point.z, self.max.z)
    }

    /// Whether the point lies in the box, its faces included.
    pub fn is_inside(&self, point: &Point<T>) -> (r: bool)
        ensures
            order_specified::<T>() ==> r == self.contains(*point),
    {
        return point.x >= self.min.x && point.x <= self.max.x && point.y >= self.min.y && point.y
            <= self.max.y && point.z >= self.min.z && point.z <= self.max.z;
    }

    /// Whether all the points lie in the box.
    pub fn is_inside_all(&self, points: &[Point<T>]) -> (r: bool)
        ensures
            order_specified::<T>() ==> r == forall|i: int|
                0 <= i < points.len() ==> self.contains(#[trigger] points[i]),
    {
        let mut i: usize = 0;
        while i < points.len()
            invariant
                i <= points.len(),
                order_specified::<T>() ==> forall|j: int|
                    0 <= j < i ==> self.contains(#[trigger] points[j]),
            decreases points.len() - i,
        {
            if !self.is_inside(&points[i]) {
                return false;
            }
            i += 1;
        }
        true
    }

    /// The least corner of the smallest box that holds the first `count`
    /// points, found by walking them from `start`.
    pub open spec fn least_corner(points: Seq<Point<T>>, start: Point<T>) -> Point<T>
        decreases points.len(),
    {
        if points.len() == 0 {
            start
        } else {
            let before = Self::least_corner(points.drop_last(), start);
            Point {
                x: crate::vector::lesser_partial(before.x, points.last().x),
                y: crate::vector::lesser_partial(before.y, points.last().y),
                z: crate::vector::lesser_partial(before.z, points.last().z),
            }
        }
    }

    /// The greatest corner, found as `least_corner` finds the least.
    pub open spec fn greatest_corner(points: Seq<Point<T>>, start: Point<T>) -> Point<T>
        decreases points.len(),
    {
        if points.len() == 0 {
            start
        } else {
            let before = Self::greatest_corner(points.drop_last(), start);
            Point {
                x: crate::vector::greater_partial(before.x, points.last().x),
                y: crate::vector::greater_partial(before.y, points.last().y),
                z: crate::vector::greater_partial(before.z, points.last().z),
            }
        }
    }

    /// The smallest box that holds the points. The search for the least
    /// corner starts at the point whose coordinates are `highest`, that for
    /// the greatest at the one whose coordinates are `lowest`: a caller gives
    /// the two ends of the coordinate type. Of no points that is the box.
    pub fn from_points(points: &[Point<T>], lowest: T, highest: T) -> (r: Self)
        ensures
            order_specified::<T>() ==> {
                &&& r.min == Self::least_corner(
                    points@,
                    Point { x: highest, y: highest, z: highest },
                )
                &&& r.max == Self::greatest_corner(
                    points@,
                    Point { x: lowest, y: lowest, z: lowest },
                )
            },
    {
        let mut min = Point::homogeneous(highest);
        let mut max = Point::homogeneous(lowest);
        let mut i: usize = 0;
        while i < points.len()
            invariant
                i <= points.len(),
                order_specified::<T>() ==> {
                    &&& min == Self::least_corner(
                        points@.take(i as int),
                        Point { x: highest, y: highest, z: highest },
                    )
                    &&& max == Self::greatest_corner(
                        points@.take(i as int),
                        Point { x: lowest, y: lowest, z: lowest },
                    )
                },
            decreases points.len() - i,
        {
            proof {
                assert(points@.take(i + 1).drop_last() =~= points@.take(i as int));
            }
            min = min.min_unsafe(points[i]);
            max = max.max_unsafe(points[i]);
            i += 1;
        }
        proof {
            assert(points@.take(points.len() as int) =~= points@);
        }
        return Self::new(min, max);
    }
}

/// Where a ray enters and leaves the slab between two parallel faces of a
/// box, as multiples of its direction: the two multiples at which it
/// crosses the faces, the lesser first.
pub open spec fn slab<T>(low: T, high: T, origin: T, dir: T) -> (T, T) where
    T: PartialOrd + Sub<Output = T> + Mul<Output = T> + Div<Output = T> + From<u8>,
 {
    let dirfrac = T::from_spec(1u8).div_spec(dir);
    let a = low.sub_spec(origin).mul_spec(dirfrac);
    let b = high.sub_spec(origin).mul_spec(dirfrac);
    (spec_min(a, b), spec_max(a, b))
}

impl<T> AABB<T> where
    T: Copy + PartialOrd + Add<Output = T> + Sub<Output = T> + Mul<Output = T> + Div<Output = T>
        + From<u8>,
 {
    /// Whether the ray meets the box: the ray is in all three slabs of the
    /// box at once, at a multiple of its direction that is not negative.
    pub open spec fn ray_hits(&self, ray: Ray<T>) -> bool {
        let x = slab(self.min.x, self.max.x, ray.origin.x, ray.dir.x);
        let y = slab(self.min.y, self.max.y, ray.origin.y, ray.dir.y);
        let z = slab(self.min.z, self.max.z, ray.origin.z, ray.dir.z);
        let tmin = spec_max(spec_max(x.0, y.0), z.0);
        let tmax = spec_min(spec_min(x.1, y.1), z.1);
        !tmax.is_lt(&T::from_spec(0u8)) && !tmin.is_gt(&tmax)
    }

    // https://gamedev.stackexchange.com/questions/18436
    pub fn hit(&self, r: &Ray<T>) -> (b: bool)
        requires
            unfailing::<T>(),
        ensures
            b == self.ray_hits(*r),
    {
        let one = T::from(1u8);
        let zero = T::from(0u8);
        let dirfrac = Point::new(one / r.dir.x, one / r.dir.y, one / r.dir.z);
        let t1 = (self.min.x - r.origin.x) * dirfrac.x;
        let t2 = (self.max.x - r.origin.x) * dirfrac.x;
        let t3 = (self.min.y - r.origin.y) * dirfrac.y;

        let t4 = (self.max.y - r.origin.y) * dirfrac.y;
        let t5 = (self.min.z - r.origin.z) * dirfrac.z;
        let t6 = (self.max.z - r.origin.z) * dirfrac.z;

        let tmin = max(max(min(t1, t2), min(t3, t4)), min(t5, t6));
        let tmax = min(min(max(t1, t2), max(t3, t4)), max(t5, t6));

        // the box lies behind the ray
        if tmax < zero {
            return false;
        }
        // the ray passes the box

        if tmin > tmax {
            return false;
        }
        return true;
    }

    /// The point in the middle of the box.
    pub open spec fn center(&self) -> Point<T> {
        let two = T::from_spec(2u8);
        Point {
            x: self.min.x.add_spec(self.max.x).div_spec(two),
            y: self.min.y.add_spec(self.max.y).div_spec(two),
            z: self.min.z.add_spec(self.max.z).div_spec(two),
        }
    }

    /// The eight boxes into which the three planes through the middle of the
    /// box, each along two axes, cut it.
    pub open spec fn octants(&self) -> Seq<AABB<T>> {
        let low = self.min;
        let high = self.max;
        let mid = self.center();
        seq![
            AABB { min: low, max: mid },
            AABB {
                min: Point { x: mid.x, y: low.y, z: low.z },
                max: Point { x: high.x, y: mid.y, z: mid.z },
            },
            AABB {
                min: Point { x: mid.x, y: low.y, z: mid.z },
                max: Point { x: high.x, y: mid.y, z: high.z },
            },
            AABB {
                min: Point { x: low.x, y: low.y, z: mid.z },
                max: Point { x: mid.x, y: mid.y, z: high.z },
            },
            AABB {
                min: Point { x: low.x, y: mid.y, z: low.z },
                max: Point { x: mid.x, y: high.y, z: mid.z },
            },
            AABB {
                min: Point { x: mid.x, y: mid.y, z: low.z },
                max: Point { x: high.x, y: high.y, z: mid.z },
            },
            AABB { min: mid, max: high },
            AABB {
                min: Point { x: low.x, y: mid.y, z: mid.z },
                max: Point { x: mid.x, y: high.y, z: high.z },
            },
        ]
    }

    /// subdivide space into  8 children
    pub fn subdivide(&self) -> (children: Vec<AABB<T>>)
        requires
            unfailing::<T>(),
        ensures
            children@ == self.octants(),
            children.len() == 8,
    {
        let center = (self.min + self.max) / T::from(2u8);
        let mut children = Vec::with_capacity(8);
        children.push(AABB::new(self.min, center));
        children.push(
            AABB::new(
                Point::new(center.x, self.min.y, self.min.z),
                Point::new(self.max.x, center.y, center.z),
            ),
        );
        children.push(
            AABB::new(
                Point::new(center.x, self.min.y, center.z),
                Point::new(self.max.x, center.y, self.max.z),
            ),
        );
        children.push(
            AABB::new(
                Point::new(self.min.x, self.min.y, center.z),
                Point::new(center.x, center.y, self.max.z),
            ),
        );
        children.push(
            AABB::new(
                Point::new(self.min.x, center.y, self.min.z),
                Point::new(center.x, self.max.y, center.z),
            ),
        );
        children.push(
            AABB::new(
                Point::new(center.x, center.y, self.min.z),
                Point::new(self.max.x, self.max.y, center.z),
            ),
        );
        children.push(AABB::new(center, self.max));
        children.push(
            AABB::new(
                Point::new(self.min.x, center.y, center.z),
                Point::new(center.x, self.max.y, self.max.z),
            ),
        );
        assert(children@ =~= self.octants());
        return children;
    }
}

/// The number of shapes that a node keeps before it hands shapes down to
/// its children.
pub const MAX_SHAPES_PER_OCTREE: usize = 10;

/// The closest hit so far after one more shape has been tried: the hit of
/// that shape where it is the first or the closer, else the one so far.
pub open spec fn merged<T: Copy + PartialOrd>(closest: Option<Hit<T>>, hit: Option<Hit<T>>) -> Option<
    Hit<T>,
> {
    match hit {
        None => closest,
        Some(found) => match closest {
            None => hit,
            Some(so_far) => Some(so_far.closer(found)),
        },
    }
}

/// The closest hit of the ray among the shapes, tried in their order after
/// a closest hit so far.
pub open spec fn closest_of<T: Copy + PartialOrd, S: Intersect<T>>(
    shapes: Seq<S>,
    ray: Ray<T>,
    so_far: Option<Hit<T>>,
) -> Option<Hit<T>>
    decreases shapes.len(),
{
    if shapes.len() == 0 {
        so_far
    } else {
        merged(closest_of(shapes.drop_last(), ray, so_far), shapes.last().spec_hit(ray))
    }
}

/// The greatest coordinates among `start` and the corners of the boxes of
/// the shapes, found by walking the shapes with a greatest so far, which a
/// coordinate replaces where the one so far is less than or equal to it.
pub open spec fn highest_corner<T: Copy + PartialOrd, S: Shape<T>>(
    start: Point<T>,
    shapes: Seq<S>,
) -> Point<T>
    decreases shapes.len(),
{
    if shapes.len() == 0 {
        start
    } else {
        let before = highest_corner(start, shapes.drop_last());
        let bounds = shapes.last().bounds();
        Point {
            x: greater_partial(greater_partial(before.x, bounds.min.x), bounds.max.x),
            y: greater_partial(greater_partial(before.y, bounds.min.y), bounds.max.y),
            z: greater_partial(greater_partial(before.z, bounds.min.z), bounds.max.z),
        }
    }
}

/// The least coordinates among `start` and the corners of the boxes of the
/// shapes, found as `highest_corner` finds the greatest.
pub open spec fn lowest_corner<T: Copy + PartialOrd, S: Shape<T>>(
    start: Point<T>,
    shapes: Seq<S>,
) -> Point<T>
    decreases shapes.len(),
{
    if shapes.len() == 0 {
        start
    } else {
        let before = lowest_corner(start, shapes.drop_last());
        let bounds = shapes.last().bounds();
        Point {
            x: lesser_partial(lesser_partial(before.x, bounds.min.x), bounds.max.x),
            y: lesser_partial(lesser_partial(before.y, bounds.min.y), bounds.max.y),
            z: lesser_partial(lesser_partial(before.z, bounds.min.z), bounds.max.z),
        }
    }
}

/// The box `space`, drawn in to the shapes: from the least coordinates
/// among the greatest corner of `space` and the corners of the boxes of the
/// shapes, to the greatest among the least corner of `space` and those.
pub open spec fn fitted<T: Copy + PartialOrd, S: Shape<T>>(space: AABB<T>, shapes: Seq<S>) -> AABB<
    T,
> {
    AABB { min: lowest_corner(space.max, shapes), max: highest_corner(space.min, shapes) }
}

/// Whether fewer than nine in ten of the shapes that were handed to a tree
/// are in it: the sign of a tree that was built from shapes without a
/// place.
pub fn low_yield(inserted: usize, total: usize) -> (r: bool)
    ensures
        r == (inserted * 10 < total * 9),
{
    inserted as u128 * 10 < total as u128 * 9
}

/// A filter that every item passes leaves the sequence as it is.
proof fn lemma_filter_of_all<A>(s: Seq<A>, pred: spec_fn(A) -> bool)
    requires
        forall|i: int| 0 <= i < s.len() ==> pred(#[trigger] s[i]),
    ensures
        s.filter(pred) == s,
    decreases s.len(),
{
    reveal(Seq::filter);
    if s.len() > 0 {
        assert forall|i: int| 0 <= i < s.drop_last().len() implies pred(
            #[trigger] s.drop_last()[i],
        ) by {
            assert(s.drop_last()[i] == s[i]);
        }
        lemma_filter_of_all(s.drop_last(), pred);
        assert(s.drop_last().push(s.last()) =~= s);
    }
}

/// A tree as a value: the box of a node, its children, each a tree, and the
/// shapes that it keeps.
pub struct Node<T, S> {
    pub aabb: AABB<T>,
    pub children: Seq<Node<T, S>>,
    pub shapes: Seq<S>,
}

/// The first of the boxes that the shape lies in, if it lies in any.
pub open spec fn first_fit<T, S: Shape<T>>(boxes: Seq<AABB<T>>, shape: S) -> Option<int>
    decreases boxes.len(),
{
    if boxes.len() == 0 {
        None
    } else {
        match first_fit(boxes.drop_last(), shape) {
            Some(i) => Some(i),
            None => if shape.inside(boxes.last()) {
                Some(boxes.len() - 1)
            } else {
                None
            },
        }
    }
}

/// The boxes of the nodes.
pub open spec fn boxes_of<T, S>(nodes: Seq<Node<T, S>>) -> Seq<AABB<T>> {
    Seq::new(nodes.len(), |i: int| nodes[i].aabb)
}

/// A node of each box, without shapes and without children.
pub open spec fn leaves<T, S>(boxes: Seq<AABB<T>>) -> Seq<Node<T, S>> {
    Seq::new(
        boxes.len(),
        |i: int| Node { aabb: boxes[i], children: Seq::empty(), shapes: Seq::empty() },
    )
}

impl<T, S> Node<T, S> where
    T: Copy + PartialOrd + Add<Output = T> + Sub<Output = T> + Mul<Output = T> + Div<Output = T>
        + From<u8>,
    S: Shape<T> + Intersect<T>,
 {
    /// The tree after it has taken a shape that lies in its box.
    ///
    /// A node keeps the shape while it keeps fewer than
    /// `MAX_SHAPES_PER_OCTREE`. A node that keeps as many hands the shape to
    /// the first of its children whose box the shape lies in, and keeps a
    /// shape that lies in none; a node without children gets its eight
    /// children first, one for each octant of its box.
    pub open spec fn inserted(self, shape: S) -> Node<T, S>
        decreases self,
    {
        if self.shapes.len() < MAX_SHAPES_PER_OCTREE {
            Node { aabb: self.aabb, children: self.children, shapes: self.shapes.push(shape) }
        } else if self.children.len() == 0 {
            let children = leaves::<T, S>(self.aabb.octants());
            match first_fit(self.aabb.octants(), shape) {
                Some(i) => Node {
                    aabb: self.aabb,
                    children: children.update(
                        i,
                        Node { aabb: children[i].aabb, children: Seq::empty(), shapes: seq![shape] },
                    ),
                    shapes: self.shapes,
                },
                None => Node { aabb: self.aabb, children, shapes: self.shapes.push(shape) },
            }
        } else {
            match first_fit(boxes_of(self.children), shape) {
                Some(i) => if 0 <= i < self.children.len() {
                    Node {
                        aabb: self.aabb,
                        children: self.children.update(i, self.children[i].inserted(shape)),
                        shapes: self.shapes,
                    }
                } else {
                    self
                },
                None => Node {
                    aabb: self.aabb,
                    children: self.children,
                    shapes: self.shapes.push(shape),
                },
            }
        }
    }

    /// The tree after it has taken the shapes, one after the other, each
    /// that lies in its box.
    pub open spec fn all_inserted(self, shapes: Seq<S>) -> Node<T, S>
        decreases shapes.len(),
    {
        if shapes.len() == 0 {
            self
        } else {
            let before = self.all_inserted(shapes.drop_last());
            if shapes.last().inside(self.aabb) {
                before.inserted(shapes.last())
            } else {
                before
            }
        }
    }

    /// The tree that is built from the shapes in `space`: of no shapes a
    /// node of that box alone; else a node of the box drawn in to the
    /// shapes, with its eight children, that has taken the shapes.
    pub open spec fn built(shapes: Seq<S>, space: AABB<T>) -> Node<T, S> {
        if shapes.len() == 0 {
            Node { aabb: space, children: Seq::empty(), shapes: Seq::empty() }
        } else {
            let aabb = fitted(space, shapes);
            (Node { aabb, children: leaves(aabb.octants()), shapes: Seq::empty() }).all_inserted(
                shapes,
            )
        }
    }

    /// A node without shapes keeps the shapes that it takes, while they are
    /// no more than it has room for.
    proof fn lemma_all_inserted_few(self, shapes: Seq<S>)
        requires
            self.shapes.len() == 0,
            shapes.len() <= MAX_SHAPES_PER_OCTREE,
            forall|i: int| 0 <= i < shapes.len() ==> (#[trigger] shapes[i]).inside(self.aabb),
        ensures
            self.all_inserted(shapes) == (Node {
                aabb: self.aabb,
                children: self.children,
                shapes,
            }),
        decreases shapes.len(),
    {
        if shapes.len() > 0 {
            let front = shapes.drop_last();
            assert forall|i: int| 0 <= i < front.len() implies (#[trigger] front[i]).inside(
                self.aabb,
            ) by {
                assert(front[i] == shapes[i]);
            }
            self.lemma_all_inserted_few(front);
            assert(shapes.last() == shapes[shapes.len() - 1]);
            assert(front.push(shapes.last()) =~= shapes);
        } else {
            assert(shapes =~= self.shapes);
        }
    }
}

/// The first box behind boxes that the shape does not lie in is the first
/// that it lies in.
proof fn lemma_first_fit_found<T, S: Shape<T>>(boxes: Seq<AABB<T>>, shape: S, at: int)
    requires
        0 <= at < boxes.len(),
        shape.inside(boxes[at]),
        forall|j: int| 0 <= j < at ==> !shape.inside(#[trigger] boxes[j]),
    ensures
        first_fit(boxes, shape) == Some(at),
    decreases boxes.len(),
{
    if at < boxes.len() - 1 {
        lemma_first_fit_found(boxes.drop_last(), shape, at);
    } else {
        lemma_first_fit_none(boxes.drop_last(), shape);
    }
}

/// Where the shape lies in none of the boxes, none is the first.
proof fn lemma_first_fit_none<T, S: Shape<T>>(boxes: Seq<AABB<T>>, shape: S)
    requires
        forall|j: int| 0 <= j < boxes.len() ==> !shape.inside(#[trigger] boxes[j]),
    ensures
        first_fit(boxes, shape) is None,
    decreases boxes.len(),
{
    if boxes.len() > 0 {
        assert forall|j: int| 0 <= j < boxes.drop_last().len() implies !shape.inside(
            #[trigger] boxes.drop_last()[j],
        ) by {
            assert(boxes.drop_last()[j] == boxes[j]);
        }
        lemma_first_fit_none(boxes.drop_last(), shape);
        assert(boxes.last() == boxes[boxes.len() - 1]);
    }
}

/// A node of the tree: a box, the shapes that are kept at the node, and
/// either no children or eight, one for each octant of the box.
#[derive(Debug)]
pub struct Octree<T, S> {
    pub aabb: AABB<T>,
    pub children: Vec<Octree<T, S>>,
    pub shapes: Vec<S>,
}

impl<T, S> Octree<T, S> where
    T: Copy + PartialOrd + Add<Output = T> + Sub<Output = T> + Mul<Output = T> + Div<Output = T>
        + From<u8>,
    S: Shape<T> + Intersect<T>,
 {
    /// The tree as a value.
    pub open spec fn view(&self) -> Node<T, S>
        decreases self,
    {
        Node {
            aabb: self.aabb,
            children: Seq::new(
                self.children.len() as nat,
                |i: int|
                    if 0 <= i < self.children.len() {
                        self.children[i].view()
                    } else {
                        arbitrary()
                    },
            ),
            shapes: self.shapes@,
        }
    }

    /// The shapes of the node and of the first `upto` of its children, with
    /// all that is below those.
    pub open spec fn bag_upto(&self, upto: nat) -> Multiset<S>
        decreases self, upto,
    {
        if upto == 0 || upto > self.children.len() {
            self.shapes@.to_multiset()
        } else {
            self.bag_upto((upto - 1) as nat).add(self.children[upto - 1].bag())
        }
    }

    /// The shapes of the tree: each shape as often as the tree holds it.
    pub open spec fn bag(&self) -> Multiset<S>
        decreases self, self.children.len() + 1,
    {
        self.bag_upto(self.children.len() as nat)
    }

    /// The number of shapes of the tree.
    pub open spec fn spec_shapes_count(&self) -> nat {
        self.bag().len()
    }

    /// The tree is built as the insertion of shapes builds it: a node has
    /// eight children or none, the children have the octants of its box, in
    /// order, every shape at or below a node lies in the box of the node,
    /// and a node without children keeps no more shapes than
    /// `MAX_SHAPES_PER_OCTREE`.
    pub open spec fn wf(&self) -> bool
        decreases self,
    {
        &&& self.children.len() == 0 || self.children.len() == 8
        &&& self.children.len() == 0 ==> self.shapes.len() <= MAX_SHAPES_PER_OCTREE
        &&& forall|shape: S| self.bag().count(shape) > 0 ==> #[trigger] shape.inside(self.aabb)
        &&& forall|i: int|
            0 <= i < self.children.len() ==> {
                &&& (#[trigger] self.children[i]).aabb == self.aabb.octants()[i]
                &&& self.children[i].wf()
            }
    }

    /// The closest hit of the ray among the shapes of the node and of the
    /// first `upto` of its children.
    pub open spec fn closest_upto(&self, ray: Ray<T>, upto: nat) -> Option<Hit<T>>
        decreases self, upto,
    {
        if upto == 0 || upto > self.children.len() {
            closest_of(self.shapes@, ray, None)
        } else {
            merged(
                self.closest_upto(ray, (upto - 1) as nat),
                self.children[upto - 1].closest(ray),
            )
        }
    }

    /// The closest hit of the ray in the tree: none where the ray misses the
    /// box of the node; else the closest among the shapes of the node, in
    /// their order, and then among the children, in theirs.
    pub open spec fn closest(&self, ray: Ray<T>) -> Option<Hit<T>>
        decreases self, self.children.len() + 1,
    {
        if !self.aabb.ray_hits(ray) {
            None
        } else {
            self.closest_upto(ray, self.children.len() as nat)
        }
    }

    /// The shape that the ray hits first, if it hits any.
    pub fn hit(&self, ray: &Ray<T>) -> (r: Option<Hit<T>>)
        requires
            unfailing::<T>(),
        ensures
            r == self.closest(*ray),
        decreases self,
    {
        if !self.aabb.hit(ray) {
            return None;
        }
        let mut closest: Option<Hit<T>> = None;

        let mut i: usize = 0;
        while i < self.shapes.len()
            invariant
                unfailing::<T>(),
                i <= self.shapes.len(),
                closest == closest_of(self.shapes@.take(i as int), *ray, None),
            decreases self.shapes.len() - i,
        {
            proof {
                assert(self.shapes@.take(i + 1).drop_last() =~= self.shapes@.take(i as int));
            }
            let hit = self.shapes[i].hit(ray);
            closest = Self::merge(closest, hit);
            i += 1;
        }
        proof {
            assert(self.shapes@.take(self.shapes.len() as int) =~= self.shapes@);
        }

        let mut j: usize = 0;
        while j < self.children.len()
            invariant
                unfailing::<T>(),
                j <= self.children.len(),
                closest == self.closest_upto(*ray, j as nat),
            decreases self.children.len() - j,
        {
            let hit = self.children[j].hit(ray);
            closest = Self::merge(closest, hit);
            j += 1;
        }

        return closest;
    }

    /// The closest hit so far after one more shape has been tried.
    fn merge(closest: Option<Hit<T>>, hit: Option<Hit<T>>) -> (r: Option<Hit<T>>)
        requires
            unfailing::<T>(),
        ensures
            r == merged(closest, hit),
    {
        if hit.is_none() {
            return closest;
        }
        match closest {
            None => hit,
            Some(mut closest) => {
                closest.replace_if_closer(hit.unwrap());
                Some(closest)
            },
        }
    }

    /// The number of shapes of the tree.
    #[allow(dead_code)]
    pub fn shapes_count(&self) -> (r: usize)
        requires
            self.spec_shapes_count() <= usize::MAX,
        ensures
            r == self.spec_shapes_count(),
        decreases self,
    {
        let mut count = self.shapes.len();
        proof {
            self.shapes@.to_multiset_ensures();
            self.lemma_bag_grows(self.children.len() as nat);
        }
        let mut j: usize = 0;
        while j < self.children.len()
            invariant
                j <= self.children.len(),
                count == self.bag_upto(j as nat).len(),
                self.bag().len() <= usize::MAX,
            decreases self.children.len() - j,
        {
            proof {
                self.lemma_bag_grows(j as nat + 1);
                self.lemma_bag_grows(self.children.len() as nat);
            }
            count += self.children[j].shapes_count();
            j += 1;
        }
        return count;
    }

    /// The tree that is built from the shapes.
    ///
    /// The box of the tree is `space`, drawn in to the corners of the boxes
    /// of the shapes. The shapes are handed to the root in their order. A
    /// node keeps the shapes that reach it while it has fewer than
    /// `MAX_SHAPES_PER_OCTREE`; later it hands a shape to the first of its
    /// eight children whose box the shape lies in, and keeps a shape that
    /// lies in none. A shape that does not lie in the box of the tree is
    /// left out.
    pub fn new(shapes: Vec<S>, space: AABB<T>) -> (this: Self)
        requires
            unfailing::<T>(),
        ensures
            this@ == Node::<T, S>::built(shapes@, space),
            this.wf(),
            this.aabb == if shapes.len() == 0 {
                space
            } else {
                fitted(space, shapes@)
            },
            this.bag() == shapes@.filter(|shape: S| shape.inside(this.aabb)).to_multiset(),
            this.spec_shapes_count() <= shapes.len(),
            linear_order::<T>() && boxes_hold_bounded::<T, S>() ==> {
                &&& this.bag() == shapes@.to_multiset()
                &&& this.spec_shapes_count() == shapes.len()
            },
    {
        let ghost all = shapes@;
        let mut this = Self { aabb: space, children: Vec::new(), shapes };
        if this.shapes.len() != 0 {
            this.shrink_to_fit();
            this.subdivide();
        } else {
            assert(this@.children =~= Seq::<Node<T, S>>::empty());
            assert(this@.shapes =~= Seq::<S>::empty());
            proof {
                assert(all.filter(|shape: S| shape.inside(this.aabb)) =~= all) by {
                    reveal(Seq::filter);
                }
            }
        }
        proof {
            all.filter(|shape: S| shape.inside(this.aabb)).to_multiset_ensures();
            all.lemma_filter_len(|shape: S| shape.inside(this.aabb));
            if linear_order::<T>() && boxes_hold_bounded::<T, S>() {
                this.lemma_holds_all_shapes(all, space);
            }
        }
        return this;
    }

    /// A node of that box, without shapes and without children.
    fn new_sized(aabb: AABB<T>) -> (r: Self)
        ensures
            r.aabb == aabb,
            r.children.len() == 0,
            r.shapes.len() == 0,
            r@ == (Node::<T, S> { aabb, children: Seq::empty(), shapes: Seq::empty() }),
            r.wf(),
            r.bag() == Multiset::<S>::empty(),
    {
        let r = Self { aabb, children: Vec::new(), shapes: Vec::new() };
        proof {
            assert(r@.children =~= Seq::<Node<T, S>>::empty());
            assert(r.shapes@ =~= Seq::<S>::empty());
            r.shapes@.to_multiset_ensures();
            assert(r.bag() =~= Multiset::<S>::empty());
        }
        r
    }

    /// Draws the box of the node in to the boxes of the shapes that it
    /// keeps.
    fn shrink_to_fit(&mut self)
        requires
            unfailing::<T>(),
        ensures
            final(self).aabb == fitted(old(self).aabb, old(self).shapes@),
            final(self).children == old(self).children,
            final(self).shapes == old(self).shapes,
    {
        let mut min = self.aabb.min;
        let mut max = self.aabb.max;

        let mut i: usize = 0;
        while i < self.shapes.len()
            invariant
                unfailing::<T>(),
                i <= self.shapes.len(),
                self.shapes == old(self).shapes,
                self.children == old(self).children,
                min == highest_corner(old(self).aabb.min, self.shapes@.take(i as int)),
                max == lowest_corner(old(self).aabb.max, self.shapes@.take(i as int)),
            decreases self.shapes.len() - i,
        {
            proof {
                assert(self.shapes@.take(i + 1).drop_last() =~= self.shapes@.take(i as int));
            }
            let shape_aabb = self.shapes[i].aabb();
            min = min.max_unsafe(shape_aabb.min).max_unsafe(shape_aabb.max);
            max = max.min_unsafe(shape_aabb.min).min_unsafe(shape_aabb.max);
            i += 1;
        }
        proof {
            assert(self.shapes@.take(self.shapes.len() as int) =~= self.shapes@);
        }

        self.aabb = AABB::new(max, min);
    }

    /// Gives a node without children its eight children, and hands the
    /// shapes that it keeps to the node anew, each that lies in its box.
    fn subdivide(&mut self)
        requires
            unfailing::<T>(),
            old(self).children.len() == 0,
        ensures
            final(self)@ == (Node::<T, S> {
                aabb: old(self).aabb,
                children: leaves(old(self).aabb.octants()),
                shapes: Seq::empty(),
            }).all_inserted(old(self).shapes@),
            final(self).wf(),
            final(self).aabb == old(self).aabb,
            final(self).children.len() == 8,
            final(self).bag() == old(self).shapes@.filter(
                |shape: S| shape.inside(old(self).aabb),
            ).to_multiset(),
            old(self).shapes@.filter(|shape: S| shape.inside(old(self).aabb)).len() > 0
                ==> final(self).shapes.len() > 0,
        decreases old(self).shapes.len(), 0nat,
    {
        if self.children.len() == 0 {
            let boxes = self.aabb.subdivide();
            let mut k: usize = 0;
            while k < 8
                invariant
                    k <= 8,
                    boxes@ == self.aabb.octants(),
                    boxes.len() == 8,
                    self.aabb == old(self).aabb,
                    self.shapes == old(self).shapes,
                    self.children.len() == k,
                    forall|i: int|
                        0 <= i < k ==> {
                            &&& (#[trigger] self.children[i]).aabb == boxes[i]
                            &&& self.children[i]@ == (Node::<T, S> {
                                aabb: boxes[i],
                                children: Seq::empty(),
                                shapes: Seq::empty(),
                            })
                            &&& self.children[i].wf()
                            &&& self.children[i].bag() == Multiset::<S>::empty()
                        },
                decreases 8 - k,
            {
                self.children.push(Octree::new_sized(boxes[k]));
                k += 1;
            }
        }
        let mut shapes = Vec::with_capacity(MAX_SHAPES_PER_OCTREE);
        std::mem::swap(&mut self.shapes, &mut shapes);
        let ghost all = shapes@;
        let ghost aabb = self.aabb;
        let ghost fits = |shape: S| shape.inside(aabb);
        let ghost start = Node::<T, S> {
            aabb,
            children: leaves(aabb.octants()),
            shapes: Seq::empty(),
        };
        proof {
            assert(self@.children =~= start.children);
            assert(self@.shapes =~= start.shapes);
            assert(self.shapes@ =~= Seq::<S>::empty());
            self.shapes@.to_multiset_ensures();
            self.lemma_bag_of_empty_children(8);
            assert(all.take(0).filter(fits) =~= Seq::<S>::empty()) by {
                reveal(Seq::filter);
            }
            all.take(0).filter(fits).to_multiset_ensures();
            assert(self.bag() =~= all.take(0).filter(fits).to_multiset());
        }

        for shape in it: shapes
            invariant
                unfailing::<T>(),
                it.seq() == all,
                all.len() == old(self).shapes.len(),
                aabb == old(self).aabb,
                fits == |shape: S| shape.inside(aabb),
                self.wf(),
                self.aabb == aabb,
                start.aabb == aabb,
                self@ == start.all_inserted(all.take(it.index() as int)),
                self.children.len() == 8,
                self.bag() == all.take(it.index() as int).filter(fits).to_multiset(),
                all.take(it.index() as int).filter(fits).len() > 0 ==> self.shapes.len() > 0,
        {
            let ghost done = it.index() as int;
            proof {
                assert(all.take(done + 1).drop_last() =~= all.take(done));
                assert(all.take(done + 1).last() == shape);
                reveal(Seq::filter);
                all.take(done).filter(fits).to_multiset_ensures();
                all.take(done).lemma_filter_len(fits);
            }
            if self.can_insert(&shape) {
                self.insert_unsafe(shape);
            }
        }
        proof {
            assert(all.take(all.len() as int) =~= all);
        }
    }

    /// Whether the shape lies in the box of the node.
    fn can_insert(&self, shape: &S) -> (r: bool)
        ensures
            r == shape.inside(self.aabb),
    {
        return shape.is_inside_aabb(&self.aabb);
    }

    /// Takes a shape that lies in the box of the node.
    fn insert_unsafe(&mut self, shape: S)
        requires
            unfailing::<T>(),
            old(self).wf(),
            shape.inside(old(self).aabb),
        ensures
            final(self)@ == old(self)@.inserted(shape),
            final(self).wf(),
            final(self).aabb == old(self).aabb,
            final(self).children.len() >= old(self).children.len(),
            final(self).shapes.len() > 0,
            final(self).bag() == old(self).bag().insert(shape),
        decreases old(self).spec_shapes_count(), 1nat,
    {
        if self.shapes.len() < MAX_SHAPES_PER_OCTREE {
            proof {
                self.lemma_bag_after_push(shape);
            }
            let ghost children = self@.children;
            self.shapes.push(shape);
            assert(self@.children =~= children);
            return ;
        }
        let ghost before = *self;
        proof {
            self.lemma_bag_of_leaf();
            self.shapes@.to_multiset_ensures();
        }
        if self.children.len() == 0 {
            self.subdivide();
            proof {
                assert(before.shapes@.filter(|s: S| s.inside(before.aabb)) =~= before.shapes@) by {
                    lemma_filter_of_all(before.shapes@, |s: S| s.inside(before.aabb));
                }
                let start = Node::<T, S> {
                    aabb: before.aabb,
                    children: leaves(before.aabb.octants()),
                    shapes: Seq::empty(),
                };
                start.lemma_all_inserted_few(before.shapes@);
            }
        }
        let ghost full = *self;
        let ghost boxes = boxes_of(self@.children);
        let ghost was_leaf = before.children.len() == 0;
        proof {
            if was_leaf {
                assert(boxes =~= before.aabb.octants());
            } else {
                assert(self@ == before@);
            }
        }
        let mut i: usize = 0;
        while i < self.children.len()
            invariant
                unfailing::<T>(),
                *self == full,
                before == *old(self),
                was_leaf == (before.children.len() == 0),
                before.shapes.len() >= MAX_SHAPES_PER_OCTREE,
                full@.aabb == before.aabb,
                full@.shapes == before.shapes@,
                full@.children == if was_leaf {
                    leaves::<T, S>(before.aabb.octants())
                } else {
                    before@.children
                },
                self.wf(),
                self.aabb == old(self).aabb,
                self.children.len() >= old(self).children.len(),
                self.shapes.len() > 0,
                self.bag() == old(self).bag(),
                shape.inside(self.aabb),
                i <= self.children.len(),
                boxes == boxes_of(full@.children),
                was_leaf ==> boxes == before.aabb.octants(),
                forall|j: int| 0 <= j < i ==> !shape.inside(#[trigger] boxes[j]),
            decreases self.children.len() - i,
        {
            proof {
                assert(self@.children[i as int] == self.children[i as int]@);
                assert(self.children[i as int]@.aabb == self.children[i as int].aabb);
                assert(boxes[i as int] == self.children[i as int].aabb);
            }
            if self.children[i].can_insert(&shape) {
                proof {
                    self.lemma_bag_splits(i as nat);
                    self.shapes@.to_multiset_ensures();
                    full.shapes@.to_multiset_ensures();
                    before.shapes@.to_multiset_ensures();
                    lemma_first_fit_found(boxes, shape, i as int);
                }
                self.children[i].insert_unsafe(shape);
                proof {
                    full.lemma_bag_after_child_insert(*self, i as nat, shape, self.children.len() as nat);
                    let child = full@.children[i as int];
                    assert(self@.children =~= full@.children.update(i as int, child.inserted(shape)));
                    if was_leaf {
                        assert(child.inserted(shape) == (Node::<T, S> {
                            aabb: child.aabb,
                            children: Seq::empty(),
                            shapes: seq![shape],
                        })) by {
                            assert(Seq::<S>::empty().push(shape) =~= seq![shape]);
                        }
                    }
                }
                return ;
            }
            i += 1;
        }
        proof {
            self.lemma_bag_after_push(shape);
            lemma_first_fit_none(boxes, shape);
        }
        let ghost children = self@.children;
        self.shapes.push(shape);
        assert(self@.children =~= children);
    }

    /// A node without children holds the shapes that it keeps, and no
    /// others.
    proof fn lemma_bag_of_leaf(&self)
        ensures
            self.children.len() == 0 ==> self.bag() == self.shapes@.to_multiset(),
    {
    }

    /// Children that hold nothing add nothing.
    proof fn lemma_bag_of_empty_children(&self, upto: nat)
        requires
            upto <= self.children.len(),
            forall|i: int|
                0 <= i < self.children.len() ==> (#[trigger] self.children[i]).bag() == Multiset::<
                    S,
                >::empty(),
        ensures
            self.bag_upto(upto) == self.shapes@.to_multiset(),
        decreases upto,
    {
        if upto > 0 {
            self.lemma_bag_of_empty_children((upto - 1) as nat);
            assert(self.bag_upto(upto) =~= self.shapes@.to_multiset());
        }
    }

    /// One more shape at the node is one more shape in the tree.
    proof fn lemma_bag_after_push(&self, shape: S)
        ensures
            forall|after: Self|
                after.children == self.children && after.shapes@ == self.shapes@.push(shape)
                    ==> #[trigger] after.bag() == self.bag().insert(shape),
    {
        assert forall|after: Self|
            after.children == self.children && after.shapes@ == self.shapes@.push(
                shape,
            ) implies #[trigger] after.bag() == self.bag().insert(shape) by {
            self.lemma_bag_upto_after_push(after, shape, self.children.len() as nat);
        }
    }

    proof fn lemma_bag_upto_after_push(&self, after: Self, shape: S, upto: nat)
        requires
            after.children == self.children,
            after.shapes@ == self.shapes@.push(shape),
            upto <= self.children.len(),
        ensures
            after.bag_upto(upto) == self.bag_upto(upto).insert(shape),
        decreases upto,
    {
        if upto == 0 {
            self.shapes@.to_multiset_ensures();
        } else {
            self.lemma_bag_upto_after_push(after, shape, (upto - 1) as nat);
            assert(after.bag_upto(upto) =~= self.bag_upto(upto).insert(shape));
        }
    }

    /// A child holds fewer shapes than a node that keeps a shape itself.
    proof fn lemma_bag_splits(&self, child: nat)
        requires
            child < self.children.len(),
        ensures
            self.children[child as int].bag().len() + self.shapes.len() <= self.bag().len(),
    {
        self.lemma_bag_lower_bound(child, self.children.len() as nat);
    }

    proof fn lemma_bag_lower_bound(&self, child: nat, upto: nat)
        requires
            child < upto <= self.children.len(),
        ensures
            self.children[child as int].bag().len() + self.shapes.len() <= self.bag_upto(
                upto,
            ).len(),
        decreases upto,
    {
        self.shapes@.to_multiset_ensures();
        self.lemma_bag_grows((upto - 1) as nat);
        if child + 1 < upto {
            self.lemma_bag_lower_bound(child, (upto - 1) as nat);
        } else {
            assert(self.bag_upto(0).len() <= self.bag_upto((upto - 1) as nat).len());
        }
    }

    /// One more shape in a child is one more shape in the tree.
    proof fn lemma_bag_after_child_insert(&self, after: Self, child: nat, shape: S, upto: nat)
        requires
            child < self.children.len(),
            upto <= self.children.len(),
            after.shapes == self.shapes,
            after.children.len() == self.children.len(),
            forall|i: int|
                0 <= i < self.children.len() && i != child ==> after.children[i]
                    == self.children[i],
            after.children[child as int].bag() == self.children[child as int].bag().insert(shape),
        ensures
            after.bag_upto(upto) == if upto > child {
                self.bag_upto(upto).insert(shape)
            } else {
                self.bag_upto(upto)
            },
        decreases upto,
    {
        if upto > 0 {
            self.lemma_bag_after_child_insert(after, child, shape, (upto - 1) as nat);
            if upto > child {
                assert(after.bag_upto(upto) =~= self.bag_upto(upto).insert(shape));
            } else {
                assert(after.bag_upto(upto) =~= self.bag_upto(upto));
            }
        }
    }

    /// The shapes up to a child are among the shapes up to a later child.
    proof fn lemma_bag_grows(&self, upto: nat)
        requires
            upto <= self.children.len(),
        ensures
            forall|k: nat| k <= upto ==> #[trigger] self.bag_upto(k).len() <= self.bag_upto(upto).len(),
            forall|k: nat|
                0 < k <= upto ==> self.children[k - 1].bag().len() <= #[trigger] self.bag_upto(
                    k,
                ).len(),
        decreases upto,
    {
        if upto > 0 {
            self.lemma_bag_grows((upto - 1) as nat);
        }
    }
}

/// Whether `a` is less than `b`.
pub open spec fn less<T: PartialOrd>(a: T, b: T) -> bool {
    a.is_lt(&b)
}

/// `<` orders the values of `T` in ranks: nothing is less than itself, what
/// is less than something less is less, and what is less than a value is
/// less than any other or has that other below the value.
pub open spec fn strict_weak_order<T: PartialOrd>() -> bool {
    &&& forall|a: T| !#[trigger] less(a, a)
    &&& forall|a: T, b: T, c: T| #[trigger] less(a, b) && #[trigger] less(b, c) ==> less(a, c)
    &&& forall|a: T, b: T, c: T| #![trigger less(a, c), less(a, b)] less(a, c) ==> less(a, b) || less(b, c)
}

/// The boxes do not hide what the ray hits: a shape that lies in a box is
/// hit by the ray only where the box is hit too.
pub open spec fn boxes_keep_hits<T, S>(ray: Ray<T>) -> bool where
    T: Copy + PartialOrd + Add<Output = T> + Sub<Output = T> + Mul<Output = T> + Div<Output = T>
        + From<u8>,
    S: Shape<T> + Intersect<T>,
 {
    forall|shape: S, aabb: AABB<T>|
        #[trigger] shape.inside(aabb) && shape.spec_hit(ray) is Some ==> aabb.ray_hits(ray)
}

/// Whether `found` is what a search for the closest hit among the shapes
/// has to find: nothing where the ray hits none of them, and else the hit
/// of one of them, and no shape is hit at a lesser distance.
pub open spec fn closest_among<T: Copy + PartialOrd, S: Intersect<T>>(
    found: Option<Hit<T>>,
    shapes: Multiset<S>,
    ray: Ray<T>,
) -> bool {
    match found {
        None => forall|shape: S| shapes.count(shape) > 0 ==> (#[trigger] shape.spec_hit(ray)) is None,
        Some(hit) => {
            &&& exists|shape: S| shapes.count(shape) > 0 && #[trigger] shape.spec_hit(ray) == Some(hit)
            &&& forall|shape: S|
                shapes.count(shape) > 0 ==> (#[trigger] shape.spec_hit(ray) matches Some(other)
                    ==> !less(other.dist, hit.dist))
        },
    }
}

/// The closest of what two searches found is what a search among all the
/// shapes of both has to find.
proof fn lemma_merged_is_closest<T: Copy + PartialOrd, S: Intersect<T>>(
    first: Option<Hit<T>>,
    first_shapes: Multiset<S>,
    second: Option<Hit<T>>,
    second_shapes: Multiset<S>,
    ray: Ray<T>,
)
    requires
        strict_weak_order::<T>(),
        closest_among(first, first_shapes, ray),
        closest_among(second, second_shapes, ray),
    ensures
        closest_among(merged(first, second), first_shapes.add(second_shapes), ray),
{
    let all = first_shapes.add(second_shapes);
    let found = merged(first, second);
    match (first, second) {
        (Some(a), Some(b)) => {
            let witness_a = choose|shape: S|
                first_shapes.count(shape) > 0 && #[trigger] shape.spec_hit(ray) == Some(a);
            let witness_b = choose|shape: S|
                second_shapes.count(shape) > 0 && #[trigger] shape.spec_hit(ray) == Some(b);
            let hit = a.closer(b);
            assert(found == Some(hit));
            if less(b.dist, a.dist) {
                assert(all.count(witness_b) > 0 && witness_b.spec_hit(ray) == Some(hit));
                assert forall|shape: S| all.count(shape) > 0 implies (#[trigger] shape.spec_hit(
                    ray,
                ) matches Some(other) ==> !less(other.dist, hit.dist)) by {
                    if let Some(other) = shape.spec_hit(ray) {
                        if first_shapes.count(shape) > 0 {
                            assert(!less(other.dist, a.dist));
                            if less(other.dist, b.dist) {
                                assert(less(other.dist, a.dist));
                            }
                        }
                    }
                }
            } else {
                assert(all.count(witness_a) > 0 && witness_a.spec_hit(ray) == Some(hit));
                assert forall|shape: S| all.count(shape) > 0 implies (#[trigger] shape.spec_hit(
                    ray,
                ) matches Some(other) ==> !less(other.dist, hit.dist)) by {
                    if let Some(other) = shape.spec_hit(ray) {
                        if second_shapes.count(shape) > 0 {
                            assert(!less(other.dist, b.dist));
                            if less(other.dist, a.dist) {
                                assert(less(other.dist, b.dist) || less(b.dist, a.dist));
                            }
                        }
                    }
                }
            }
        },
        (Some(a), None) => {
            let witness_a = choose|shape: S|
                first_shapes.count(shape) > 0 && #[trigger] shape.spec_hit(ray) == Some(a);
            assert(all.count(witness_a) > 0 && witness_a.spec_hit(ray) == Some(a));
        },
        (None, Some(b)) => {
            let witness_b = choose|shape: S|
                second_shapes.count(shape) > 0 && #[trigger] shape.spec_hit(ray) == Some(b);
            assert(all.count(witness_b) > 0 && witness_b.spec_hit(ray) == Some(b));
        },
        (None, None) => {},
    }
}

/// Trying the shapes one after the other finds what a search among them
/// has to find.
pub proof fn lemma_closest_of_shapes<T: Copy + PartialOrd, S: Intersect<T>>(
    shapes: Seq<S>,
    ray: Ray<T>,
)
    requires
        strict_weak_order::<T>(),
    ensures
        closest_among(closest_of(shapes, ray, None), shapes.to_multiset(), ray),
    decreases shapes.len(),
{
    shapes.to_multiset_ensures();
    if shapes.len() > 0 {
        let front = shapes.drop_last();
        let last = shapes.last();
        lemma_closest_of_shapes(front, ray);
        front.to_multiset_ensures();
        let single = Multiset::<S>::singleton(last);
        assert(closest_among(last.spec_hit(ray), single, ray)) by {
            if last.spec_hit(ray) is Some {
                assert(single.count(last) > 0);
            }
        }
        lemma_merged_is_closest(
            closest_of(front, ray, None),
            front.to_multiset(),
            last.spec_hit(ray),
            single,
            ray,
        );
        assert(front.push(last) =~= shapes);
        assert(front.to_multiset().add(single) =~= shapes.to_multiset());
    }
}

impl<T, S> Octree<T, S> where
    T: Copy + PartialOrd + Add<Output = T> + Sub<Output = T> + Mul<Output = T> + Div<Output = T>
        + From<u8>,
    S: Shape<T> + Intersect<T>,
 {
    /// The tree finds what a scan of all its shapes finds.
    ///
    /// Where `<` orders the distances in ranks, and no box hides from the
    /// ray a shape that lies in it, the query of a tree gives no hit only
    /// where the ray hits none of its shapes, and else the hit of one of
    /// them than which no shape of the tree is hit closer.
    pub proof fn lemma_closest_is_least(&self, ray: Ray<T>)
        requires
            self.wf(),
            strict_weak_order::<T>(),
            boxes_keep_hits::<T, S>(ray),
        ensures
            closest_among(self.closest(ray), self.bag(), ray),
        decreases self, self.children.len() + 1,
    {
        if self.aabb.ray_hits(ray) {
            self.lemma_closest_upto_is_least(ray, self.children.len() as nat);
        } else {
            assert forall|shape: S| self.bag().count(shape) > 0 implies (#[trigger] shape.spec_hit(
                ray,
            )) is None by {
                assert(shape.inside(self.aabb));
            }
        }
    }

    /// The tree and a scan agree.
    ///
    /// Under the conditions of `lemma_closest_is_least`, the query of the
    /// tree and a scan of its shapes, in whatever order the scan takes them,
    /// both find nothing or both find a hit, and neither of the two hits is
    /// closer than the other.
    pub proof fn lemma_agrees_with_scan(&self, shapes: Seq<S>, ray: Ray<T>)
        requires
            self.wf(),
            strict_weak_order::<T>(),
            boxes_keep_hits::<T, S>(ray),
            shapes.to_multiset() == self.bag(),
        ensures
            match (self.closest(ray), closest_of(shapes, ray, None)) {
                (None, None) => true,
                (Some(found), Some(scanned)) => !less(found.dist, scanned.dist) && !less(
                    scanned.dist,
                    found.dist,
                ),
                _ => false,
            },
    {
        self.lemma_closest_is_least(ray);
        lemma_closest_of_shapes(shapes, ray);
        let bag = self.bag();
        if let Some(found) = self.closest(ray) {
            let of = choose|shape: S| bag.count(shape) > 0 && #[trigger] shape.spec_hit(ray) == Some(found);
            assert(of.spec_hit(ray) is Some);
        }
        if let Some(scanned) = closest_of(shapes, ray, None) {
            let of = choose|shape: S|
                bag.count(shape) > 0 && #[trigger] shape.spec_hit(ray) == Some(scanned);
            assert(of.spec_hit(ray) is Some);
        }
    }

    proof fn lemma_closest_upto_is_least(&self, ray: Ray<T>, upto: nat)
        requires
            self.wf(),
            strict_weak_order::<T>(),
            boxes_keep_hits::<T, S>(ray),
            upto <= self.children.len(),
        ensures
            closest_among(self.closest_upto(ray, upto), self.bag_upto(upto), ray),
        decreases self, upto,
    {
        if upto == 0 {
            lemma_closest_of_shapes(self.shapes@, ray);
        } else {
            self.lemma_closest_upto_is_least(ray, (upto - 1) as nat);
            self.children[upto - 1].lemma_closest_is_least(ray);
            lemma_merged_is_closest(
                self.closest_upto(ray, (upto - 1) as nat),
                self.bag_upto((upto - 1) as nat),
                self.children[upto - 1].closest(ray),
                self.children[upto - 1].bag(),
                ray,
            );
        }
    }
}

impl<T: Copy + PartialOrd> AABB<T> {
    /// A box from the least value of the coordinate type to the greatest
    /// holds every point.
    pub proof fn lemma_box_of_all_holds_all(&self, point: Point<T>)
        requires
            forall|value: T| #[trigger] between(self.min.x, value, self.max.x),
            forall|value: T| #[trigger] between(self.min.y, value, self.max.y),
            forall|value: T| #[trigger] between(self.min.z, value, self.max.z),
        ensures
            self.contains(point),
    {
    }
}

/// Whether `a` is less than or equal to `b`.
pub open spec fn at_most<T: PartialOrd>(a: T, b: T) -> bool {
    a.is_le(&b)
}

/// Whether `a` is greater than or equal to `b`.
pub open spec fn at_least<T: PartialOrd>(a: T, b: T) -> bool {
    a.is_ge(&b)
}

/// `<=` orders the values of `T` in a line, and `>=` is `<=` read from the
/// other side.
pub open spec fn linear_order<T: PartialOrd>() -> bool {
    &&& forall|a: T| #[trigger] at_most(a, a)
    &&& forall|a: T, b: T| #[trigger] at_most(a, b) || at_most(b, a)
    &&& forall|a: T, b: T, c: T| #[trigger] at_most(a, b) && #[trigger] at_most(b, c) ==> at_most(a, c)
    &&& forall|a: T, b: T| #[trigger] at_least(a, b) <==> at_most(b, a)
}

/// Whether the point is at most the other on each axis.
pub open spec fn below<T: PartialOrd>(p: Point<T>, q: Point<T>) -> bool {
    at_most(p.x, q.x) && at_most(p.y, q.y) && at_most(p.z, q.z)
}

/// The least corner that is found is at most its start and at most both
/// corners of the box of every shape.
proof fn lemma_lowest_corner<T: Copy + PartialOrd, S: Shape<T>>(
    start: Point<T>,
    shapes: Seq<S>,
    i: int,
)
    requires
        linear_order::<T>(),
        0 <= i < shapes.len(),
    ensures
        below(lowest_corner(start, shapes), start),
        below(lowest_corner(start, shapes), shapes[i].bounds().min),
        below(lowest_corner(start, shapes), shapes[i].bounds().max),
    decreases shapes.len(),
{
    let front = shapes.drop_last();
    let before = lowest_corner(start, front);
    let found = lowest_corner(start, shapes);
    let bounds = shapes.last().bounds();
    if front.len() > 0 {
        lemma_lowest_corner(start, front, 0);
        if i < front.len() {
            lemma_lowest_corner(start, front, i);
            assert(front[i] == shapes[i]);
        }
    }
    assert(below(before, start));
    lemma_lesser_of_three(before.x, bounds.min.x, bounds.max.x);
    lemma_lesser_of_three(before.y, bounds.min.y, bounds.max.y);
    lemma_lesser_of_three(before.z, bounds.min.z, bounds.max.z);
    assert(shapes.last() == shapes[shapes.len() - 1]);
}

/// The greatest corner that is found is at least its start and at least
/// both corners of the box of every shape.
proof fn lemma_highest_corner<T: Copy + PartialOrd, S: Shape<T>>(
    start: Point<T>,
    shapes: Seq<S>,
    i: int,
)
    requires
        linear_order::<T>(),
        0 <= i < shapes.len(),
    ensures
        below(start, highest_corner(start, shapes)),
        below(shapes[i].bounds().min, highest_corner(start, shapes)),
        below(shapes[i].bounds().max, highest_corner(start, shapes)),
    decreases shapes.len(),
{
    let front = shapes.drop_last();
    let before = highest_corner(start, front);
    let bounds = shapes.last().bounds();
    if front.len() > 0 {
        lemma_highest_corner(start, front, 0);
        if i < front.len() {
            lemma_highest_corner(start, front, i);
            assert(front[i] == shapes[i]);
        }
    }
    assert(below(start, before));
    lemma_greater_of_three(before.x, bounds.min.x, bounds.max.x);
    lemma_greater_of_three(before.y, bounds.min.y, bounds.max.y);
    lemma_greater_of_three(before.z, bounds.min.z, bounds.max.z);
    assert(shapes.last() == shapes[shapes.len() - 1]);
}

/// The lesser of three is at most each of them.
proof fn lemma_lesser_of_three<T: PartialOrd>(a: T, b: T, c: T)
    requires
        linear_order::<T>(),
    ensures
        at_most(lesser_partial(lesser_partial(a, b), c), a),
        at_most(lesser_partial(lesser_partial(a, b), c), b),
        at_most(lesser_partial(lesser_partial(a, b), c), c),
{
    let first = lesser_partial(a, b);
    assert(at_most(first, a) && at_most(first, b)) by {
        assert(at_most(a, b) || at_most(b, a));
        assert(at_most(a, a) && at_most(b, b));
    }
    let second = lesser_partial(first, c);
    assert(at_most(second, first) && at_most(second, c)) by {
        assert(at_most(first, c) || at_most(c, first));
        assert(at_most(first, first) && at_most(c, c));
    }
}

/// The greater of three is at least each of them.
proof fn lemma_greater_of_three<T: PartialOrd>(a: T, b: T, c: T)
    requires
        linear_order::<T>(),
    ensures
        at_most(a, greater_partial(greater_partial(a, b), c)),
        at_most(b, greater_partial(greater_partial(a, b), c)),
        at_most(c, greater_partial(greater_partial(a, b), c)),
{
    let first = greater_partial(a, b);
    assert(at_most(a, first) && at_most(b, first)) by {
        assert(at_most(a, b) || at_most(b, a));
        assert(at_most(a, a) && at_most(b, b));
    }
    let second = greater_partial(first, c);
    assert(at_most(first, second) && at_most(c, second)) by {
        assert(at_most(first, c) || at_most(c, first));
        assert(at_most(first, first) && at_most(c, c));
    }
}

/// The box of a tree bounds the shapes that it is built from.
///
/// Where `<=` orders the coordinates in a line, the box that is drawn in
/// to shapes holds both corners of the box of every one of them, and its
/// least corner is at most its greatest.
pub proof fn lemma_fitted_bounds_shapes<T: Copy + PartialOrd, S: Shape<T>>(
    space: AABB<T>,
    shapes: Seq<S>,
    i: int,
)
    requires
        linear_order::<T>(),
        0 <= i < shapes.len(),
    ensures
        fitted(space, shapes).contains(shapes[i].bounds().min),
        fitted(space, shapes).contains(shapes[i].bounds().max),
        below(fitted(space, shapes).min, fitted(space, shapes).max),
{
    lemma_lowest_corner(space.max, shapes, i);
    lemma_highest_corner(space.min, shapes, i);
    let aabb = fitted(space, shapes);
    let low = shapes[i].bounds().min;
    let high = shapes[i].bounds().max;
    assert(below(aabb.min, low) && below(low, aabb.max));
    assert(below(aabb.min, high) && below(high, aabb.max));
    assert(at_least(low.x, aabb.min.x) <==> at_most(aabb.min.x, low.x));
    assert(at_least(low.y, aabb.min.y) <==> at_most(aabb.min.y, low.y));
    assert(at_least(low.z, aabb.min.z) <==> at_most(aabb.min.z, low.z));
    assert(at_least(high.x, aabb.min.x) <==> at_most(aabb.min.x, high.x));
    assert(at_least(high.y, aabb.min.y) <==> at_most(aabb.min.y, high.y));
    assert(at_least(high.z, aabb.min.z) <==> at_most(aabb.min.z, high.z));
}

/// A shape lies in every box that holds both corners of the box of the
/// shape.
pub open spec fn boxes_hold_bounded<T: Copy + PartialOrd, S: Shape<T>>() -> bool {
    forall|shape: S, aabb: AABB<T>|
        aabb.contains(shape.bounds().min) && aabb.contains(shape.bounds().max)
            ==> #[trigger] shape.inside(aabb)
}

/// Every shape has a place in the box that is drawn in to the shapes.
///
/// Where `<=` orders the coordinates in a line and a shape lies in every
/// box that holds both corners of its own, each of the shapes lies in the
/// box that is drawn in to them: none is left out for want of a place.
pub proof fn lemma_fitted_places_shapes<T: Copy + PartialOrd, S: Shape<T>>(
    space: AABB<T>,
    shapes: Seq<S>,
)
    requires
        linear_order::<T>(),
        boxes_hold_bounded::<T, S>(),
    ensures
        forall|i: int| 0 <= i < shapes.len() ==> (#[trigger] shapes[i]).inside(fitted(space, shapes)),
        shapes.filter(|shape: S| shape.inside(fitted(space, shapes))) == shapes,
{
    let aabb = fitted(space, shapes);
    assert forall|i: int| 0 <= i < shapes.len() implies (#[trigger] shapes[i]).inside(aabb) by {
        lemma_fitted_bounds_shapes(space, shapes, i);
    }
    lemma_filter_of_all(shapes, |shape: S| shape.inside(aabb));
}

impl<T, S> Octree<T, S> where
    T: Copy + PartialOrd + Add<Output = T> + Sub<Output = T> + Mul<Output = T> + Div<Output = T>
        + From<u8>,
    S: Shape<T> + Intersect<T>,
 {
    /// A tree holds all the shapes that it is built from.
    ///
    /// Where `<=` orders the coordinates in a line and a shape lies in every
    /// box that holds both corners of its own, the tree that `new` builds
    /// from the shapes, whose box is drawn in to them and which holds those
    /// of them that lie in that box, holds each of the shapes, as often as
    /// it was handed in.
    pub proof fn lemma_holds_all_shapes(&self, shapes: Seq<S>, space: AABB<T>)
        requires
            linear_order::<T>(),
            boxes_hold_bounded::<T, S>(),
            self.aabb == if shapes.len() == 0 {
                space
            } else {
                fitted(space, shapes)
            },
            self.bag() == shapes.filter(|shape: S| shape.inside(self.aabb)).to_multiset(),
        ensures
            self.bag() == shapes.to_multiset(),
            self.spec_shapes_count() == shapes.len(),
    {
        if shapes.len() == 0 {
            lemma_filter_of_all(shapes, |shape: S| shape.inside(self.aabb));
        } else {
            lemma_fitted_places_shapes(space, shapes);
            assert(shapes.filter(|shape: S| shape.inside(self.aabb)) == shapes);
        }
        shapes.to_multiset_ensures();
    }
}

/// Whether `found` is nothing or the hit of one of the shapes.
pub open spec fn hit_among<T: Copy + PartialOrd, S: Intersect<T>>(
    found: Option<Hit<T>>,
    shapes: Multiset<S>,
    ray: Ray<T>,
) -> bool {
    found matches Some(hit) ==> exists|shape: S|
        shapes.count(shape) > 0 && #[trigger] shape.spec_hit(ray) == Some(hit)
}

/// The closest of what two searches found is the hit of a shape of one of
/// them, where each search found nothing or the hit of one of its shapes.
proof fn lemma_merged_is_a_hit<T: Copy + PartialOrd, S: Intersect<T>>(
    first: Option<Hit<T>>,
    first_shapes: Multiset<S>,
    second: Option<Hit<T>>,
    second_shapes: Multiset<S>,
    ray: Ray<T>,
)
    requires
        hit_among(first, first_shapes, ray),
        hit_among(second, second_shapes, ray),
    ensures
        hit_among(merged(first, second), first_shapes.add(second_shapes), ray),
{
    let all = first_shapes.add(second_shapes);
    if let Some(hit) = merged(first, second) {
        if first == Some(hit) {
            let of = choose|shape: S|
                first_shapes.count(shape) > 0 && #[trigger] shape.spec_hit(ray) == Some(hit);
            assert(all.count(of) > 0 && of.spec_hit(ray) == Some(hit));
        } else {
            assert(second == Some(hit));
            let of = choose|shape: S|
                second_shapes.count(shape) > 0 && #[trigger] shape.spec_hit(ray) == Some(hit);
            assert(all.count(of) > 0 && of.spec_hit(ray) == Some(hit));
        }
    }
}

/// What a scan of the shapes finds is the hit of one of them: a ray that
/// hits none of the shapes finds nothing.
pub proof fn lemma_scan_finds_a_hit<T: Copy + PartialOrd, S: Intersect<T>>(
    shapes: Seq<S>,
    ray: Ray<T>,
)
    ensures
        hit_among(closest_of(shapes, ray, None), shapes.to_multiset(), ray),
    decreases shapes.len(),
{
    shapes.to_multiset_ensures();
    if shapes.len() > 0 {
        let front = shapes.drop_last();
        let last = shapes.last();
        lemma_scan_finds_a_hit(front, ray);
        let single = Multiset::<S>::singleton(last);
        assert(hit_among(last.spec_hit(ray), single, ray)) by {
            if last.spec_hit(ray) is Some {
                assert(single.count(last) > 0);
            }
        }
        lemma_merged_is_a_hit(
            closest_of(front, ray, None),
            front.to_multiset(),
            last.spec_hit(ray),
            single,
            ray,
        );
        front.to_multiset_ensures();
        assert(front.push(last) =~= shapes);
        assert(front.to_multiset().add(single) =~= shapes.to_multiset());
    }
}

impl<T, S> Octree<T, S> where
    T: Copy + PartialOrd + Add<Output = T> + Sub<Output = T> + Mul<Output = T> + Div<Output = T>
        + From<u8>,
    S: Shape<T> + Intersect<T>,
 {
    /// What the tree finds is the hit of one of its shapes.
    ///
    /// This holds of every tree, every coordinate type and every kind of
    /// shape: the query makes up no hit, and a ray that hits none of the
    /// shapes of the tree finds nothing.
    pub proof fn lemma_finds_a_hit(&self, ray: Ray<T>)
        ensures
            hit_among(self.closest(ray), self.bag(), ray),
        decreases self, self.children.len() + 1,
    {
        if self.aabb.ray_hits(ray) {
            self.lemma_upto_finds_a_hit(ray, self.children.len() as nat);
        }
    }

    proof fn lemma_upto_finds_a_hit(&self, ray: Ray<T>, upto: nat)
        requires
            upto <= self.children.len(),
        ensures
            hit_among(self.closest_upto(ray, upto), self.bag_upto(upto), ray),
        decreases self, upto,
    {
        if upto == 0 {
            lemma_scan_finds_a_hit(self.shapes@, ray);
        } else {
            self.lemma_upto_finds_a_hit(ray, (upto - 1) as nat);
            self.children[upto - 1].lemma_finds_a_hit(ray);
            lemma_merged_is_a_hit(
                self.closest_upto(ray, (upto - 1) as nat),
                self.bag_upto((upto - 1) as nat),
                self.children[upto - 1].closest(ray),
                self.children[upto - 1].bag(),
                ray,
            );
        }
    }

    /// A ray that misses all the shapes finds nothing in the tree that
    /// `new` builds from them.
    ///
    /// The tree holds none but shapes that it was built from, so what it
    /// finds is the hit of one of those.
    pub proof fn lemma_miss_of_all_finds_nothing(&self, shapes: Seq<S>, ray: Ray<T>)
        requires
            self.bag() == shapes.filter(|shape: S| shape.inside(self.aabb)).to_multiset(),
            forall|i: int| 0 <= i < shapes.len() ==> (#[trigger] shapes[i]).spec_hit(ray) is None,
        ensures
            self.closest(ray) is None,
    {
        self.lemma_finds_a_hit(ray);
        if let Some(hit) = self.closest(ray) {
            let of = choose|shape: S|
                self.bag().count(shape) > 0 && #[trigger] shape.spec_hit(ray) == Some(hit);
            let kept = shapes.filter(|shape: S| shape.inside(self.aabb));
            kept.to_multiset_ensures();
            assert(kept.contains(of));
            shapes.lemma_filter_contains_rev(|shape: S| shape.inside(self.aabb), of);
            let i = choose|i: int| 0 <= i < shapes.len() && shapes[i] == of;
            assert(shapes[i].spec_hit(ray) is None);
        }
    }

    /// The tree that `new` builds from the shapes and a scan of the shapes
    /// agree.
    ///
    /// Where `<=` orders the coordinates in a line and `<` the distances in
    /// ranks, a shape lies in every box that holds both corners of its own,
    /// and no box hides from the ray a shape that lies in it, the query of
    /// the tree and a scan of the shapes that it was built from both find
    /// nothing or both find a hit, and neither of the two hits is closer
    /// than the other.
    pub proof fn lemma_agrees_with_scan_of_all(&self, shapes: Seq<S>, space: AABB<T>, ray: Ray<T>)
        requires
            self.wf(),
            self.aabb == if shapes.len() == 0 {
                space
            } else {
                fitted(space, shapes)
            },
            self.bag() == shapes.filter(|shape: S| shape.inside(self.aabb)).to_multiset(),
            linear_order::<T>(),
            strict_weak_order::<T>(),
            boxes_hold_bounded::<T, S>(),
            boxes_keep_hits::<T, S>(ray),
        ensures
            match (self.closest(ray), closest_of(shapes, ray, None)) {
                (None, None) => true,
                (Some(found), Some(scanned)) => !less(found.dist, scanned.dist) && !less(
                    scanned.dist,
                    found.dist,
                ),
                _ => false,
            },
    {
        self.lemma_holds_all_shapes(shapes, space);
        self.lemma_agrees_with_scan(shapes, ray);
    }
}

} // verus!
