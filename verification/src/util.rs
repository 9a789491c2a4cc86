//! Rays, hits and shapes; pixel requests and results, and the fixed-size
//! batches they travel in.

use crate::helpers::{fraction_nanos, whole_seconds};
use crate::num::order_specified;
use crate::octree::AABB;
use crate::vector::Point;
use std::ops::{Add, Mul};
use vstd::prelude::*;
use vstd::std_specs::cmp::PartialOrdIs;
use vstd::std_specs::convert::FromSpec;
use vstd::std_specs::ops::{AddSpec, MulSpec};

verus! {

/// A ray: the point it leaves from and its direction, which need not be of
/// length one.
#[derive(Debug, Clone, Copy)]
pub struct Ray<T> {
    pub origin: Point<T>,
    pub dir: Point<T>,
}

impl<T> Ray<T> {
    pub fn new(origin: Point<T>, dir: Point<T>) -> (r: Self)
        ensures
            r.origin == origin,
            r.dir == dir,
    {
        Self { origin, dir }
    }
}

/// Where a ray meets a shape.
#[derive(Debug, Clone, Copy)]
pub struct Hit<T> {
    /// How far along the ray the shape is met.
    pub dist: T,
    pub origin: Point<T>,
    pub point: Point<T>,
    pub normal: Point<T>,
    pub color: Point<u8>,
}

impl<T: Copy> Hit<T> {
    pub fn new(
        dist: T,
        origin: Point<T>,
        point: Point<T>,
        normal: Point<T>,
        color: Point<u8>,
    ) -> (r: Self)
        ensures
            r == (Hit { dist, origin, point, normal, color }),
    {
        Self { dist, origin, point, normal, color }
    }

    /// The closer of two hits: `other` where its distance is less, else
    /// `self`, so that of two hits at one distance the first stays.
    pub open spec fn closer(self, other: Hit<T>) -> Hit<T> where T: PartialOrd {
        if other.dist.is_lt(&self.dist) {
            other
        } else {
            self
        }
    }

    /// Takes the place of `self` with `other` where that is closer.
    pub fn replace_if_closer(&mut self, other: Hit<T>) where T: PartialOrd
        ensures
            order_specified::<T>() ==> *final(self) == old(self).closer(other),
    {
        if other.dist < self.dist {
            self.dist = other.dist;
            self.origin = other.origin;
            self.point = other.point;
            self.normal = other.normal;
            self.color = other.color;
        }
    }
}

/// The normal scaled by `-1`.
pub open spec fn reversed<T: Copy + Mul<Output = T> + From<i8>>(normal: Point<T>) -> Point<T> {
    Point {
        x: normal.x.mul_spec(T::from_spec(-1i8)),
        y: normal.y.mul_spec(T::from_spec(-1i8)),
        z: normal.z.mul_spec(T::from_spec(-1i8)),
    }
}

/// Of a normal and its reverse the one that looks more along `dir`: the
/// reverse where its dot product with `dir` is the greater, else the normal.
pub fn correct_normal<T>(normal: Point<T>, dir: &Point<T>) -> (r: Point<T>) where
    T: Copy + PartialOrd + Mul<Output = T> + Add<Output = T> + From<i8>,

    requires
        order_specified::<T>(),
        T::obeys_mul_spec(),
        T::obeys_add_spec(),
        T::obeys_from_spec(),
        forall|a: T, b: T| #[trigger] a.mul_req(b),
        forall|a: T, b: T| #[trigger] a.add_req(b),
    ensures
        r == if normal.spec_dot(*dir).is_lt(&reversed(normal).spec_dot(*dir)) {
            reversed(normal)
        } else {
            normal
        },
{
    let inverse = normal * T::from(-1i8);
    return if normal.dot(&dir) < inverse.dot(&dir) {
        inverse
    } else {
        normal
    };
}

/// The time that one frame may take at `fps` frames in a second, in whole
/// microseconds.
#[allow(dead_code)]
pub fn fps_to_duration(fps: u32) -> (r: std::time::Duration)
    requires
        fps > 0,
    ensures
        whole_seconds(r) == (1_000_000int / fps as int) / 1_000_000,
        fraction_nanos(r) == ((1_000_000int / fps as int) % 1_000_000) * 1_000,
{
    std::time::Duration::from_micros(1_000_000 / fps as u64)
}

/// What can be met by a ray.
pub trait Intersect<T> {
    /// Where the ray meets the shape, if it does.
    spec fn spec_hit(&self, ray: Ray<T>) -> Option<Hit<T>>;

    /// Where the ray meets the shape, if it does: one answer for one ray.
    fn hit(&self, ray: &Ray<T>) -> (r: Option<Hit<T>>)
        ensures
            r == self.spec_hit(*ray),
    ;
}

/// What has a place in space.
pub trait Shape<T> {
    /// Whether the shape lies in the box, all of it.
    spec fn inside(&self, aabb: AABB<T>) -> bool;

    /// Whether the shape lies in the box, all of it: one answer for one box.
    fn is_inside_aabb(&self, aabb: &AABB<T>) -> (r: bool)
        ensures
            r == self.inside(*aabb),
    ;

    /// A box that the shape lies in.
    spec fn bounds(&self) -> AABB<T>;

    /// A box that the shape lies in: always the same one.
    fn aabb(&self) -> (r: AABB<T>)
        ensures
            r == self.bounds(),
    ;
}

/// The number of slots in a batch.
pub const PIXEL_BUFFER_SIZE: usize = 200;

/// A pixel that is to be rendered.
#[derive(Clone, Copy, Debug, PartialEq, Eq, Structural)]
pub struct PixelReq {
    pub x: usize,
    pub y: usize,
}

impl PixelReq {
    pub fn new(x: usize, y: usize) -> (r: Self)
        ensures
            r == (PixelReq { x, y }),
    {
        Self { x, y }
    }
}

/// A pixel that has been rendered, with its colour.
#[derive(Clone, Copy, Debug)]
pub struct PixelRes {
    pub x: usize,
    pub y: usize,
    pub color: Point<u8>,
}

impl PixelRes {
    pub fn new(x: usize, y: usize, color: Point<u8>) -> (r: Self)
        ensures
            r == (PixelRes { x, y, color }),
    {
        Self { x, y, color }
    }
}

/// A batch of requests. A slot that holds `None` is empty.
pub type PixelReqBuffer = [Option<PixelReq>; PIXEL_BUFFER_SIZE];

/// A batch of results. A slot that holds `None` is empty.
pub type PixelResBuffer = [Option<PixelRes>; PIXEL_BUFFER_SIZE];

/// Whether no slot of the batch holds a request: the sign that no work is
/// left.
pub fn is_empty_batch(batch: &PixelReqBuffer) -> (r: bool)
    ensures
        r == forall|k: int| 0 <= k < batch@.len() ==> batch[k] is None,
{
    for k in 0..PIXEL_BUFFER_SIZE
        invariant
            forall|j: int| 0 <= j < k ==> batch[j] is None,
    {
        if batch[k].is_some() {
            return false;
        }
    }
    true
}

/// The number of slots that every part but the last takes from a batch
/// that is split into `n` parts.
pub open spec fn chunk_size(n: nat) -> nat {
    PIXEL_BUFFER_SIZE as nat / n
}

/// The slot of the batch at which part `i` of `n` begins.
pub open spec fn part_start(n: nat, i: nat) -> nat {
    i * chunk_size(n)
}

/// The number of slots that part `i` of `n` takes from the batch: the last
/// part takes all that is left.
pub open spec fn part_len(n: nat, i: nat) -> nat {
    if i + 1 == n {
        (PIXEL_BUFFER_SIZE - part_start(n, i)) as nat
    } else {
        chunk_size(n)
    }
}

/// Part `i` of the `n` parts of `buf`: its slots of the batch, moved to the
/// front, and empty slots behind them.
pub open spec fn part(buf: Seq<Option<PixelReq>>, n: nat, i: nat) -> Seq<Option<PixelReq>> {
    Seq::new(
        PIXEL_BUFFER_SIZE as nat,
        |j: int|
            if j < part_len(n, i) {
                buf[part_start(n, i) + j]
            } else {
                None
            },
    )
}

/// The `n` parts of `buf`, in order.
pub open spec fn parts(buf: Seq<Option<PixelReq>>, n: nat) -> Seq<Seq<Option<PixelReq>>> {
    Seq::new(n, |i: int| part(buf, n, i as nat))
}

/// No part begins behind the end of the batch, and the parts that are not
/// the last end where the next begins.
pub proof fn lemma_part_bounds(n: nat, i: nat)
    requires
        i < n,
    ensures
        part_start(n, i) + part_len(n, i) <= PIXEL_BUFFER_SIZE,
        i + 1 < n ==> part_start(n, i) + part_len(n, i) == part_start(n, i + 1),
        i + 1 == n ==> part_start(n, i) + part_len(n, i) == PIXEL_BUFFER_SIZE,
{
    let c = chunk_size(n);
    assert(c * n <= 200) by (nonlinear_arith)
        requires
            c == 200nat / n,
            n > 0,
    ;
    assert(i * c <= (n - 1) * c) by (nonlinear_arith)
        requires
            i < n,
            c >= 0,
    ;
    assert((n - 1) * c == c * n - c) by (nonlinear_arith);
    assert((i + 1) * c == i * c + c) by (nonlinear_arith);
    if i + 1 < n {
        assert((i + 1) * c <= (n - 1) * c) by (nonlinear_arith)
            requires
                i + 1 < n,
                c >= 0,
        ;
    }
}

/// Splits a batch into `n` batches. Each but the last takes `200 / n` slots,
/// in order; the last takes the rest. What a part takes stands at its front.
pub fn split(buf: &PixelReqBuffer, n: usize) -> (r: Vec<PixelReqBuffer>)
    requires
        n > 0,
    ensures
        r.len() == n,
        forall|i: int| 0 <= i < n ==> (#[trigger] r[i])@ == part(buf@, n as nat, i as nat),
{
    let capacity = if n < PIXEL_BUFFER_SIZE { n } else { PIXEL_BUFFER_SIZE };
    let mut result: Vec<PixelReqBuffer> = Vec::with_capacity(capacity);
    let chunk = PIXEL_BUFFER_SIZE / n;

    for i in 0..n
        invariant
            n > 0,
            chunk == chunk_size(n as nat),
            result.len() == i,
            forall|k: int| 0 <= k < i ==> (#[trigger] result[k])@ == part(buf@, n as nat, k as nat),
    {
        proof {
            lemma_part_bounds(n as nat, i as nat);
        }
        let start = i * chunk;
        let end = if i == n - 1 { PIXEL_BUFFER_SIZE } else { start + chunk };
        let mut part_buf: PixelReqBuffer = [None; PIXEL_BUFFER_SIZE];
        for j in start..end
            invariant
                start == part_start(n as nat, i as nat),
                end == start + part_len(n as nat, i as nat),
                end <= PIXEL_BUFFER_SIZE,
                forall|k: int| 0 <= k < j - start ==> part_buf[k] == buf[start + k],
                forall|k: int| j - start <= k < PIXEL_BUFFER_SIZE ==> part_buf[k] is None,
        {
            part_buf[j - start] = buf[j];
        }
        assert(part_buf@ =~= part(buf@, n as nat, i as nat));
        result.push(part_buf);
    }
    result
}

/// The requests that a batch holds, in the order of their slots.
pub open spec fn filled(batch: Seq<Option<PixelReq>>) -> Seq<PixelReq>
    decreases batch.len(),
{
    if batch.len() == 0 {
        Seq::empty()
    } else {
        match batch.last() {
            Some(req) => filled(batch.drop_last()).push(req),
            None => filled(batch.drop_last()),
        }
    }
}

/// The requests that a row of batches holds: those of the first batch, then
/// those of the second, and so on.
pub open spec fn recombine(batches: Seq<Seq<Option<PixelReq>>>) -> Seq<PixelReq>
    decreases batches.len(),
{
    if batches.len() == 0 {
        Seq::empty()
    } else {
        recombine(batches.drop_last()) + filled(batches.last())
    }
}

proof fn lemma_filled_concat(a: Seq<Option<PixelReq>>, b: Seq<Option<PixelReq>>)
    ensures
        filled(a + b) == filled(a) + filled(b),
    decreases b.len(),
{
    if b.len() == 0 {
        assert(a + b =~= a);
        assert(filled(a) + filled(b) =~= filled(a));
    } else {
        assert((a + b).drop_last() =~= a + b.drop_last());
        assert((a + b).last() == b.last());
        lemma_filled_concat(a, b.drop_last());
        match b.last() {
            Some(req) => {
                assert((filled(a) + filled(b.drop_last())).push(req) =~= filled(a) + filled(
                    b.drop_last(),
                ).push(req));
            },
            None => {},
        }
    }
}

proof fn lemma_filled_of_empty_slots(a: Seq<Option<PixelReq>>)
    requires
        forall|k: int| 0 <= k < a.len() ==> a[k] is None,
    ensures
        filled(a) == Seq::<PixelReq>::empty(),
    decreases a.len(),
{
    if a.len() > 0 {
        lemma_filled_of_empty_slots(a.drop_last());
    }
}

/// A part holds the requests of its slots of the batch, and no others.
proof fn lemma_filled_part(buf: Seq<Option<PixelReq>>, n: nat, i: nat)
    requires
        buf.len() == PIXEL_BUFFER_SIZE,
        i < n,
    ensures
        filled(part(buf, n, i)) == filled(
            buf.subrange(part_start(n, i) as int, (part_start(n, i) + part_len(n, i)) as int),
        ),
{
    lemma_part_bounds(n, i);
    let start = part_start(n, i) as int;
    let len = part_len(n, i) as int;
    let taken = buf.subrange(start, start + len);
    let rest = Seq::new((PIXEL_BUFFER_SIZE - len) as nat, |k: int| None::<PixelReq>);
    assert(part(buf, n, i) =~= taken + rest);
    lemma_filled_concat(taken, rest);
    lemma_filled_of_empty_slots(rest);
    assert(filled(taken) + Seq::<PixelReq>::empty() =~= filled(taken));
}

proof fn lemma_recombine_prefix(buf: Seq<Option<PixelReq>>, n: nat, k: nat)
    requires
        buf.len() == PIXEL_BUFFER_SIZE,
        0 < k <= n,
    ensures
        recombine(parts(buf, n).take(k as int)) == filled(
            buf.take((part_start(n, (k - 1) as nat) + part_len(n, (k - 1) as nat)) as int),
        ),
    decreases k,
{
    let all = parts(buf, n);
    let i = (k - 1) as nat;
    lemma_part_bounds(n, i);
    let start = part_start(n, i) as int;
    let len = part_len(n, i) as int;
    assert(all.take(k as int).drop_last() =~= all.take(i as int));
    assert(all.take(k as int).last() == part(buf, n, i));
    lemma_filled_part(buf, n, i);
    assert(recombine(all.take(k as int)) == recombine(all.take(i as int)) + filled(
        part(buf, n, i),
    ));
    if i == 0 {
        assert(all.take(0) =~= Seq::<Seq<Option<PixelReq>>>::empty());
        assert(start == 0) by (nonlinear_arith)
            requires
                start == 0 * chunk_size(n),
        ;
        assert(buf.subrange(0, len) =~= buf.take(len));
        assert(recombine(all.take(0)) == Seq::<PixelReq>::empty());
        assert(Seq::<PixelReq>::empty() + filled(buf.take(len)) =~= filled(buf.take(len)));
    } else {
        lemma_recombine_prefix(buf, n, i);
        lemma_part_bounds(n, (i - 1) as nat);
        assert(recombine(all.take(i as int)) == filled(buf.take(start)));
        assert(buf.take(start) + buf.subrange(start, start + len) =~= buf.take(start + len));
        lemma_filled_concat(buf.take(start), buf.subrange(start, start + len));
    }
}

/// Splitting a batch and reading the parts one after the other gives the
/// requests of the batch, each once and in their order: nothing is lost,
/// added or moved past another.
pub proof fn lemma_split_then_recombine(buf: Seq<Option<PixelReq>>, n: nat)
    requires
        buf.len() == PIXEL_BUFFER_SIZE,
        n > 0,
    ensures
        recombine(parts(buf, n)) == filled(buf),
        recombine(parts(buf, n)).to_multiset() == filled(buf).to_multiset(),
{
    lemma_recombine_prefix(buf, n, n);
    lemma_part_bounds(n, (n - 1) as nat);
    assert(parts(buf, n).take(n as int) =~= parts(buf, n));
    assert(buf.take(PIXEL_BUFFER_SIZE as int) =~= buf);
}

} // verus!
