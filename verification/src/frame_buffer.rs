//! The image that is being rendered, and the source of the pixels that are
//! still to be rendered.

use crate::random_iterator::{
    lemma_nth_index_in_range, lemma_nth_index_of_position, lemma_position_of_nth_index, nth_index,
    position_of, RandomIterator,
};
use crate::resolution::Resolution;
use crate::util::{PixelReq, PixelReqBuffer, PixelRes, PixelResBuffer, PIXEL_BUFFER_SIZE};
use crate::vector::Point;
use bitvec::order::Lsb0;
use bitvec::vec::BitVec;
use vstd::prelude::*;

verus! {

/// A colour as one number: red in bits 16 to 23, green in bits 8 to 15, blue
/// in bits 0 to 7.
pub open spec fn packed(color: Point<u8>) -> u32 {
    (color.x as u32 * 65536 + color.y as u32 * 256 + color.z as u32) as u32
}

/// The colour that the low 24 bits of a number hold.
pub open spec fn unpacked(color: u32) -> Point<u8> {
    Point {
        x: ((color / 65536) % 256) as u8,
        y: ((color / 256) % 256) as u8,
        z: (color % 256) as u8,
    }
}

/// The colour as one number.
pub fn to_u32(color: Point<u8>) -> (r: u32)
    ensures
        r == packed(color),
        unpacked(r) == color,
{
    let x = color.x;
    let y = color.y;
    let z = color.z;
    let r = (z as u32) | ((y as u32) << 8) | ((x as u32) << 16);
    assert(r == x as u32 * 65536 + y as u32 * 256 + z as u32 && (r / 65536) % 256 == x && (r / 256)
        % 256 == y && r % 256 == z) by (bit_vector)
        requires
            r == (z as u32) | ((y as u32) << 8) | ((x as u32) << 16),
    ;
    r
}

/// The colour that the low 24 bits of the number hold.
pub fn to_u8(color: u32) -> (r: Point<u8>)
    ensures
        r == unpacked(color),
{
    let x = ((color >> 16) & 0xFF) as u8;
    let y = ((color >> 8) & 0xFF) as u8;
    let z = (color & 0xFF) as u8;
    assert((color >> 16) & 0xFF == (color / 65536) % 256 && (color >> 8) & 0xFF == (color / 256)
        % 256 && color & 0xFF == color % 256) by (bit_vector);
    Point::new(x, y, z)
}

/// The request for the pixel that an image of `pixels` pixels in rows of
/// `width` has at position `n` of its enumeration.
pub open spec fn request_at(width: nat, pixels: nat, n: nat) -> PixelReq {
    let index = nth_index(pixels, n);
    PixelReq { x: (index % width) as usize, y: (index / width) as usize }
}

/// The batch that begins at position `start` of the enumeration: one request
/// for each position that is left, then empty slots.
pub open spec fn batch_from(width: nat, pixels: nat, start: nat) -> Seq<Option<PixelReq>> {
    Seq::new(
        PIXEL_BUFFER_SIZE as nat,
        |k: int|
            if start + k < pixels {
                Some(request_at(width, pixels, (start + k) as nat))
            } else {
                None
            },
    )
}

/// How many of `pixels` pixels have been handed out once `count` more were
/// asked for after `handed_out`.
pub open spec fn handed_out_after(handed_out: nat, pixels: nat, count: nat) -> nat {
    if handed_out + count <= pixels {
        handed_out + count
    } else {
        pixels
    }
}

/// Every request of a pass names a pixel of the image.
pub proof fn lemma_requests_stay_inside(width: nat, height: nat, n: nat)
    requires
        width > 0,
        width * height <= usize::MAX,
        n < width * height,
    ensures
        request_at(width, width * height, n).x < width,
        request_at(width, width * height, n).y < height,
{
    let pixels = width * height;
    lemma_nth_index_in_range(pixels, n);
    lemma_row_and_column(width, height, nth_index(pixels, n));
}

/// Over one pass, every pixel of an image is requested, at one position
/// only.
pub proof fn lemma_every_pixel_requested_once(width: nat, height: nat, x: nat, y: nat)
    requires
        width * height <= usize::MAX,
        x < width,
        y < height,
    ensures
        position_of(width * height, y * width + x) < width * height,
        request_at(width, width * height, position_of(width * height, y * width + x)) == (PixelReq {
            x: x as usize,
            y: y as usize,
        }),
        forall|n: nat|
            n < width * height && #[trigger] request_at(width, width * height, n) == (PixelReq {
                x: x as usize,
                y: y as usize,
            }) ==> n == position_of(width * height, y * width + x),
{
    let pixels = width * height;
    let index = y * width + x;
    assert(index < pixels && x < pixels && y < pixels) by (nonlinear_arith)
        requires
            x < width,
            y < height,
            index == y * width + x,
            pixels == width * height,
    ;
    lemma_nth_index_of_position(pixels, index);
    vstd::arithmetic::div_mod::lemma_fundamental_div_mod_converse(
        index as int,
        width as int,
        y as int,
        x as int,
    );
    assert forall|n: nat|
        n < pixels && #[trigger] request_at(width, pixels, n) == (PixelReq {
            x: x as usize,
            y: y as usize,
        }) implies n == position_of(pixels, index) by {
        lemma_nth_index_in_range(pixels, n);
        lemma_position_of_nth_index(pixels, n);
        let other = nth_index(pixels, n);
        lemma_row_and_column(width, height, other);
        vstd::arithmetic::div_mod::lemma_fundamental_div_mod(other as int, width as int);
        assert(other % width == x);
        assert(other / width == y);
        assert(width * (other / width) == (other / width) * width) by (nonlinear_arith);
    }
}

/// An index below `width * height` lies in a column below `width` and a row
/// below `height`.
proof fn lemma_row_and_column(width: nat, height: nat, index: nat)
    requires
        width > 0,
        index < width * height,
    ensures
        index % width < width,
        index / width < height,
{
    vstd::arithmetic::div_mod::lemma_fundamental_div_mod(index as int, width as int);
    let row = index / width;
    if row >= height {
        assert(width * row >= width * height) by (nonlinear_arith)
            requires
                row >= height,
                width > 0,
        ;
    }
}

/// Hands out the pixels of an image, each once, in the order of a
/// [`RandomIterator`] over the number of its pixels.
pub struct PixelProvider {
    pixel_index: RandomIterator,
    resolution: Resolution,
}

impl PixelProvider {
    /// The resolution of the image whose pixels are handed out.
    pub closed spec fn resolution(&self) -> Resolution {
        self.resolution
    }

    /// How many pixels have been handed out since the start or the last
    /// reset.
    pub closed spec fn handed_out(&self) -> nat {
        self.pixel_index.emitted()
    }

    #[verifier::type_invariant]
    spec fn well_formed(&self) -> bool {
        &&& self.pixel_index.limit() == self.resolution.spec_pixels()
        &&& self.pixel_index.emitted() <= self.pixel_index.limit()
    }

    /// A pass over an image of the resolution, of which no pixel has been
    /// handed out.
    pub fn new(resolution: &Resolution) -> (r: PixelProvider)
        ensures
            r.resolution() == *resolution,
            r.handed_out() == 0,
    {
        PixelProvider { pixel_index: RandomIterator::new(resolution.pixels()), resolution: *resolution }
    }

    /// Begins the pass over the image anew.
    pub fn reset(&mut self)
        ensures
            final(self).resolution() == old(self).resolution(),
            final(self).handed_out() == 0,
    {
        proof {
            use_type_invariant(&*self);
        }
        self.pixel_index.reset();
    }

    /// The next pixel of the pass, or `None` once all have been handed out.
    #[allow(dead_code)]
    pub fn get_coordinate(&mut self) -> (r: Option<PixelReq>)
        ensures
            final(self).resolution() == old(self).resolution(),
            old(self).handed_out() < old(self).resolution().spec_pixels() ==> {
                &&& r == Some(
                    request_at(
                        old(self).resolution().spec_width(),
                        old(self).resolution().spec_pixels(),
                        old(self).handed_out(),
                    ),
                )
                &&& final(self).handed_out() == old(self).handed_out() + 1
            },
            old(self).handed_out() >= old(self).resolution().spec_pixels() ==> {
                &&& r is None
                &&& final(self).handed_out() == old(self).handed_out()
            },
    {
        proof {
            use_type_invariant(&*self);
        }
        match self.pixel_index.next() {
            None => None,
            Some(i) => Some(self.i_to_coord(i)),
        }
    }

    /// The next batch of the pass: a request for each of the next pixels, as
    /// far as there are any, and empty slots behind them. Once all pixels
    /// have been handed out, every slot is empty.
    pub fn get_coordinates(&mut self) -> (r: PixelReqBuffer)
        ensures
            final(self).resolution() == old(self).resolution(),
            r@ == batch_from(
                old(self).resolution().spec_width(),
                old(self).resolution().spec_pixels(),
                old(self).handed_out(),
            ),
            final(self).handed_out() == handed_out_after(
                old(self).handed_out(),
                old(self).resolution().spec_pixels(),
                PIXEL_BUFFER_SIZE as nat,
            ),
            (forall|k: int| 0 <= k < PIXEL_BUFFER_SIZE ==> r[k] is None) <==> old(
                self,
            ).handed_out() == old(self).resolution().spec_pixels(),
    {
        proof {
            use_type_invariant(&*self);
        }
        let ghost start = self.handed_out();
        let ghost width = self.resolution.spec_width();
        let ghost pixels = self.resolution.spec_pixels();
        let mut result: PixelReqBuffer = [None; PIXEL_BUFFER_SIZE];
        for i in 0..PIXEL_BUFFER_SIZE
            invariant
                self.resolution() == old(self).resolution(),
                width == self.resolution().spec_width(),
                pixels == self.resolution().spec_pixels(),
                start <= pixels,
                self.handed_out() == handed_out_after(start, pixels, i as nat),
                forall|k: int| 0 <= k < i ==> result[k] == batch_from(width, pixels, start)[k],
        {
            let next = self.get_coordinate();
            result[i] = next;
        }
        assert(result@ =~= batch_from(width, pixels, start));
        proof {
            if start < pixels {
                assert(result[0] is Some);
            }
        }
        result
    }

    /// The next batch of the pass, as `get_coordinates` gives it. There is
    /// always one: an exhausted pass gives batches of empty slots.
    pub fn next(&mut self) -> (r: Option<PixelReqBuffer>)
        ensures
            final(self).resolution() == old(self).resolution(),
            r matches Some(batch) && batch@ == batch_from(
                old(self).resolution().spec_width(),
                old(self).resolution().spec_pixels(),
                old(self).handed_out(),
            ),
            final(self).handed_out() == handed_out_after(
                old(self).handed_out(),
                old(self).resolution().spec_pixels(),
                PIXEL_BUFFER_SIZE as nat,
            ),
    {
        Some(self.get_coordinates())
    }

    fn i_to_coord(&self, i: usize) -> (r: PixelReq)
        ensures
            r == (PixelReq {
                x: (i as nat % self.resolution().spec_width()) as usize,
                y: (i as nat / self.resolution().spec_width()) as usize,
            }),
    {
        PixelReq::new(i % self.resolution.width(), i / self.resolution.width())
    }
}

/// A vector of bits: a `bitvec::vec::BitVec` over `u32` words, the lowest bit
/// of a word first.
#[verifier::external_body]
pub struct Bits {
    bits: BitVec<u32, Lsb0>,
}

/// The bits that the vector holds, in order.
pub uninterp spec fn bits_of(v: Bits) -> Seq<bool>;

/// How many of the bits are set.
pub open spec fn set_count(bits: Seq<bool>) -> nat
    decreases bits.len(),
{
    if bits.len() == 0 {
        0
    } else if bits.last() {
        set_count(bits.drop_last()) + 1
    } else {
        set_count(bits.drop_last())
    }
}

/// Whether every bit is set.
pub open spec fn all_set(bits: Seq<bool>) -> bool {
    forall|i: int| 0 <= i < bits.len() ==> bits[i]
}

/// No more bits are set than there are, and as many exactly where all are.
pub proof fn lemma_set_count(bits: Seq<bool>)
    ensures
        set_count(bits) <= bits.len(),
        set_count(bits) == bits.len() <==> all_set(bits),
    decreases bits.len(),
{
    if bits.len() > 0 {
        let front = bits.drop_last();
        lemma_set_count(front);
        if all_set(bits) {
            assert forall|i: int| 0 <= i < front.len() implies front[i] by {
                assert(bits[i]);
            }
        }
        if set_count(bits) == bits.len() {
            assert forall|i: int| 0 <= i < bits.len() implies bits[i] by {
                if i < front.len() {
                    assert(front[i]);
                }
            }
        }
    }
}

/// `BitVec::repeat` with the bit `false`: a vector of `len` cleared bits.
/// The crate refuses a length above `usize::MAX >> 3`.
#[verifier::external_body]
fn cleared_bits(len: usize) -> (r: Bits)
    requires
        len <= usize::MAX / 8,
    ensures
        bits_of(r) == Seq::new(len as nat, |i: int| false),
{
    Bits { bits: BitVec::repeat(false, len) }
}

/// `BitSlice::set` with the bit `true`: the bit at `index` is set, the
/// others stay. The crate refuses an index that is not below the length.
#[verifier::external_body]
fn set_bit(v: &mut Bits, index: usize)
    requires
        index < bits_of(*old(v)).len(),
    ensures
        bits_of(*final(v)) == bits_of(*old(v)).update(index as int, true),
    no_unwind
{
    v.bits.set(index, true);
}

/// `BitSlice::fill` with the bit `false`: every bit is cleared, and the
/// length stays.
#[verifier::external_body]
fn clear_bits(v: &mut Bits)
    ensures
        bits_of(*final(v)) == Seq::new(bits_of(*old(v)).len(), |i: int| false),
    no_unwind
{
    v.bits.fill(false);
}

/// `BitSlice::all`: whether every bit is set, which holds of no bits at all.
#[verifier::external_body]
fn all_bits_set(v: &Bits) -> (r: bool)
    ensures
        r == all_set(bits_of(*v)),
{
    v.bits.all()
}

/// `BitSlice::count_ones`: the number of bits that are set.
#[verifier::external_body]
fn count_set_bits(v: &Bits) -> (r: usize)
    ensures
        r == set_count(bits_of(*v)),
{
    v.bits.count_ones()
}

/// Which way [`FrameBuffer::flip`] mirrors the image.
#[allow(dead_code)]
pub enum Flip {
    /// The first row changes places with the last, and so on.
    Horizontal,
    /// The first column changes places with the last, and so on.
    Vertical,
}

/// How far an image has been rendered.
#[derive(Clone, Copy, Debug)]
pub struct Progress {
    /// The number of pixels that have a colour.
    pub assigned: usize,
    /// The number of pixels of the image.
    pub total: usize,
}

/// The place of the pixel `(x, y)` in an image that is stored row by row, in
/// rows of `width` pixels.
pub open spec fn index_of(width: nat, x: nat, y: nat) -> nat {
    x + y * width
}

/// The colours of an image after the results of a batch have been written to
/// it, slot by slot: where two results name one pixel, the later one stays.
pub open spec fn painted_colors(
    colors: Seq<u32>,
    width: nat,
    batch: Seq<Option<PixelRes>>,
) -> Seq<u32>
    decreases batch.len(),
{
    if batch.len() == 0 {
        colors
    } else {
        let before = painted_colors(colors, width, batch.drop_last());
        match batch.last() {
            Some(pixel) => before.update(
                index_of(width, pixel.x as nat, pixel.y as nat) as int,
                packed(pixel.color),
            ),
            None => before,
        }
    }
}

/// The marks of an image after the results of a batch have been written to
/// it: the marks it had, and one for each pixel that a result names.
pub open spec fn painted_marks(
    marks: Seq<bool>,
    width: nat,
    batch: Seq<Option<PixelRes>>,
) -> Seq<bool>
    decreases batch.len(),
{
    if batch.len() == 0 {
        marks
    } else {
        let before = painted_marks(marks, width, batch.drop_last());
        match batch.last() {
            Some(pixel) => before.update(
                index_of(width, pixel.x as nat, pixel.y as nat) as int,
                true,
            ),
            None => before,
        }
    }
}

/// Every result of the batch names a place below `pixels`.
pub open spec fn batch_fits(width: nat, pixels: nat, batch: Seq<Option<PixelRes>>) -> bool {
    forall|k: int|
        0 <= k < batch.len() ==> (#[trigger] batch[k] matches Some(pixel) ==> index_of(
            width,
            pixel.x as nat,
            pixel.y as nat,
        ) < pixels)
}

/// Writing a batch takes no mark away, marks every pixel that a result of
/// the batch names, and keeps the number of pixels.
pub proof fn lemma_painted_marks(marks: Seq<bool>, width: nat, batch: Seq<Option<PixelRes>>)
    requires
        batch_fits(width, marks.len(), batch),
    ensures
        painted_marks(marks, width, batch).len() == marks.len(),
        forall|i: int| 0 <= i < marks.len() && marks[i] ==> painted_marks(marks, width, batch)[i],
        forall|k: int|
            0 <= k < batch.len() ==> (#[trigger] batch[k] matches Some(pixel) ==> painted_marks(
                marks,
                width,
                batch,
            )[index_of(width, pixel.x as nat, pixel.y as nat) as int]),
    decreases batch.len(),
{
    if batch.len() > 0 {
        let front = batch.drop_last();
        assert forall|k: int| 0 <= k < front.len() implies (#[trigger] front[k] matches Some(
            pixel,
        ) ==> index_of(width, pixel.x as nat, pixel.y as nat) < marks.len()) by {
            assert(front[k] == batch[k]);
        }
        lemma_painted_marks(marks, width, front);
        assert(batch.last() == batch[batch.len() - 1]);
        assert forall|k: int| 0 <= k < batch.len() implies (#[trigger] batch[k] matches Some(
            pixel,
        ) ==> painted_marks(marks, width, batch)[index_of(
            width,
            pixel.x as nat,
            pixel.y as nat,
        ) as int]) by {
            if k < front.len() {
                assert(front[k] == batch[k]);
            }
        }
    }
}

/// Whether no two results of the batch name one place.
pub open spec fn batch_distinct(width: nat, batch: Seq<Option<PixelRes>>) -> bool {
    forall|j: int, k: int|
        0 <= j < k < batch.len() ==> (#[trigger] batch[j] matches Some(first) ==> (
        #[trigger] batch[k] matches Some(second) ==> index_of(
            width,
            first.x as nat,
            first.y as nat,
        ) != index_of(width, second.x as nat, second.y as nat)))
}

/// Whether a result of the batch names the place.
pub open spec fn batch_names(width: nat, batch: Seq<Option<PixelRes>>, place: int) -> bool {
    exists|k: int|
        0 <= k < batch.len() && (#[trigger] batch[k] matches Some(pixel) && index_of(
            width,
            pixel.x as nat,
            pixel.y as nat,
        ) == place)
}

/// Writing a batch whose results name different places gives each of those
/// places the colour of its result and a mark, and leaves the other places
/// as they were.
pub proof fn lemma_painted_distinct(
    colors: Seq<u32>,
    marks: Seq<bool>,
    width: nat,
    batch: Seq<Option<PixelRes>>,
)
    requires
        colors.len() == marks.len(),
        batch_fits(width, marks.len(), batch),
        batch_distinct(width, batch),
    ensures
        painted_colors(colors, width, batch).len() == colors.len(),
        painted_marks(marks, width, batch).len() == marks.len(),
        forall|k: int|
            0 <= k < batch.len() ==> (#[trigger] batch[k] matches Some(pixel) ==> {
                let place = index_of(width, pixel.x as nat, pixel.y as nat) as int;
                &&& painted_colors(colors, width, batch)[place] == packed(pixel.color)
                &&& painted_marks(marks, width, batch)[place]
            }),
        forall|place: int|
            0 <= place < colors.len() && !batch_names(width, batch, place)
                ==> #[trigger] painted_colors(colors, width, batch)[place] == colors[place],
        forall|place: int|
            0 <= place < colors.len() && !batch_names(width, batch, place)
                ==> #[trigger] painted_marks(marks, width, batch)[place] == marks[place],
    decreases batch.len(),
{
    if batch.len() > 0 {
        let front = batch.drop_last();
        let last = batch.len() - 1;
        assert(batch.last() == batch[last]);
        assert forall|k: int| 0 <= k < front.len() implies (#[trigger] front[k] matches Some(
            pixel,
        ) ==> index_of(width, pixel.x as nat, pixel.y as nat) < marks.len()) by {
            assert(front[k] == batch[k]);
        }
        assert forall|j: int, k: int| 0 <= j < k < front.len() implies (#[trigger] front[j] matches Some(
            first,
        ) ==> (#[trigger] front[k] matches Some(second) ==> index_of(
            width,
            first.x as nat,
            first.y as nat,
        ) != index_of(width, second.x as nat, second.y as nat))) by {
            assert(front[j] == batch[j] && front[k] == batch[k]);
        }
        lemma_painted_distinct(colors, marks, width, front);
        assert forall|k: int| 0 <= k < batch.len() implies (#[trigger] batch[k] matches Some(
            pixel,
        ) ==> {
            let place = index_of(width, pixel.x as nat, pixel.y as nat) as int;
            &&& painted_colors(colors, width, batch)[place] == packed(pixel.color)
            &&& painted_marks(marks, width, batch)[place]
        }) by {
            if k < last {
                assert(front[k] == batch[k]);
            }
        }
        assert forall|place: int|
            0 <= place < colors.len() && !batch_names(width, batch, place) implies {
            &&& painted_colors(colors, width, front)[place] == colors[place]
            &&& painted_marks(marks, width, front)[place] == marks[place]
            &&& batch[last] matches Some(pixel) ==> index_of(width, pixel.x as nat, pixel.y as nat)
                != place
        } by {
            if batch_names(width, front, place) {
                let k = choose|k: int|
                    0 <= k < front.len() && (#[trigger] front[k] matches Some(pixel) && index_of(
                        width,
                        pixel.x as nat,
                        pixel.y as nat,
                    ) == place);
                assert(front[k] == batch[k]);
                assert(batch_names(width, batch, place));
            }
            if let Some(pixel) = batch[last] {
                if index_of(width, pixel.x as nat, pixel.y as nat) == place {
                    assert(batch_names(width, batch, place));
                }
            }
        }
        assert forall|place: int|
            0 <= place < colors.len() && !batch_names(
                width,
                batch,
                place,
            ) implies #[trigger] painted_colors(colors, width, batch)[place] == colors[place] by {
            assert(painted_colors(colors, width, front)[place] == colors[place]);
        }
        assert forall|place: int|
            0 <= place < colors.len() && !batch_names(
                width,
                batch,
                place,
            ) implies #[trigger] painted_marks(marks, width, batch)[place] == marks[place] by {
            assert(painted_marks(marks, width, front)[place] == marks[place]);
        }
    } else {
        assert(painted_colors(colors, width, batch) == colors);
        assert(painted_marks(marks, width, batch) == marks);
    }
}

/// An image is complete once every pixel that a pass requests has been
/// marked.
pub proof fn lemma_pass_completes(width: nat, height: nat, marks: Seq<bool>)
    requires
        width > 0,
        width * height <= usize::MAX,
        marks.len() == width * height,
        forall|n: nat|
            n < width * height ==> marks[index_of(
                width,
                (#[trigger] request_at(width, width * height, n)).x as nat,
                request_at(width, width * height, n).y as nat,
            ) as int],
    ensures
        all_set(marks),
{
    let pixels = width * height;
    assert forall|i: int| 0 <= i < marks.len() implies marks[i] by {
        let index = i as nat;
        lemma_nth_index_of_position(pixels, index);
        let n = position_of(pixels, index);
        let request = request_at(width, pixels, n);
        vstd::arithmetic::div_mod::lemma_fundamental_div_mod(i, width as int);
        assert(width * (i / width as int) == (i / width as int) * width) by (nonlinear_arith);
        assert(index_of(width, request.x as nat, request.y as nat) == index);
    }
}

/// The colours of an image, one packed colour for each pixel, row by row,
/// and for each pixel a mark that says whether it has been given a colour.
pub struct FrameBuffer {
    buffer: Vec<u32>,
    assigned_pixels: Bits,
    resolution: Resolution,
}

impl FrameBuffer {
    pub closed spec fn resolution(&self) -> Resolution {
        self.resolution
    }

    /// The packed colour of each pixel, row by row.
    pub closed spec fn colors(&self) -> Seq<u32> {
        self.buffer@
    }

    /// For each pixel, whether it has been given a colour.
    pub closed spec fn assigned(&self) -> Seq<bool> {
        bits_of(self.assigned_pixels)
    }

    /// The number of pixels of the image.
    pub open spec fn spec_pixel_count(&self) -> nat {
        self.resolution().spec_pixels()
    }

    /// The packed colour of the pixel `(x, y)`.
    pub open spec fn color_at(&self, x: nat, y: nat) -> u32 {
        self.colors()[index_of(self.resolution().spec_width(), x, y) as int]
    }

    #[verifier::type_invariant]
    spec fn well_formed(&self) -> bool {
        &&& self.buffer.len() == self.resolution.spec_pixels()
        &&& bits_of(self.assigned_pixels).len() == self.resolution.spec_pixels()
        &&& self.resolution.spec_pixels() == self.resolution.spec_width()
            * self.resolution.spec_height()
        &&& self.resolution.spec_width() > 0
        &&& self.resolution.spec_height() > 0
    }

    /// A black image of the resolution, no pixel of it marked. There is none
    /// where the image has more pixels than a bit vector can hold, which is
    /// `usize::MAX / 8`.
    pub fn new(resolution: &Resolution) -> (r: Result<FrameBuffer, &'static str>)
        ensures
            r is Ok <==> resolution.spec_pixels() <= usize::MAX / 8,
            r matches Ok(fb) ==> {
                &&& fb.resolution() == *resolution
                &&& fb.colors() == Seq::new(resolution.spec_pixels(), |i: int| 0u32)
                &&& fb.assigned() == Seq::new(resolution.spec_pixels(), |i: int| false)
            },
    {
        let pixels = resolution.pixels();
        if pixels > usize::MAX / 8 {
            return Err("the image has more pixels than can be marked");
        }
        // neither side of an image is zero
        let sides = (resolution.width(), resolution.height());
        assert(sides.0 > 0 && sides.1 > 0);
        let mut buffer = Vec::<u32>::new();
        buffer.resize(pixels, 0);
        assert(buffer@ =~= Seq::new(pixels as nat, |i: int| 0u32));
        return Ok(
            FrameBuffer { buffer, resolution: *resolution, assigned_pixels: cleared_bits(pixels) },
        );
    }

    /// The resolution of the image.
    pub fn dimensions(&self) -> (r: Resolution)
        ensures
            r == self.resolution(),
    {
        self.resolution
    }

    /// The number of pixels of the image.
    pub fn pixel_count(&self) -> (r: usize)
        ensures
            r == self.spec_pixel_count(),
            r == self.colors().len(),
            r == self.assigned().len(),
    {
        proof {
            use_type_invariant(self);
        }
        self.resolution.pixels()
    }

    /// How many pixels have been given a colour, and how many there are.
    pub fn progress(&self) -> (r: Progress)
        ensures
            r.assigned == set_count(self.assigned()),
            r.total == self.spec_pixel_count(),
            r.assigned <= r.total,
            r.total > 0,
            r.assigned == r.total <==> all_set(self.assigned()),
    {
        proof {
            use_type_invariant(self);
            lemma_set_count(self.assigned());
        }
        let assigned = count_set_bits(&self.assigned_pixels);
        Progress { assigned, total: self.resolution.pixels() }
    }

    /// Whether every pixel has been given a colour.
    pub fn is_complete(&self) -> (r: bool)
        ensures
            r == all_set(self.assigned()),
    {
        all_bits_set(&self.assigned_pixels)
    }

    /// Takes the mark from every pixel. The colours stay.
    pub fn reset_progress(&mut self)
        ensures
            final(self).resolution() == old(self).resolution(),
            final(self).colors() == old(self).colors(),
            final(self).assigned() == Seq::new(old(self).spec_pixel_count(), |i: int| false),
    {
        proof {
            use_type_invariant(&*self);
        }
        clear_bits(&mut self.assigned_pixels);
    }

    /// Whether `(x, y)` names a place of the image: `x + y * width` is below
    /// the number of pixels.
    pub fn in_bounds(&self, x: usize, y: usize) -> (r: bool)
        ensures
            r == (index_of(self.resolution().spec_width(), x as nat, y as nat)
                < self.spec_pixel_count()),
    {
        proof {
            use_type_invariant(self);
        }
        match y.checked_mul(self.resolution.width()) {
            None => false,
            Some(row) => match row.checked_add(x) {
                None => false,
                Some(i) => i < self.buffer.len(),
            },
        }
    }

    /// Whether every result of the batch names a place of the image.
    pub fn accepts(&self, buffer: &PixelResBuffer) -> (r: bool)
        ensures
            r == batch_fits(self.resolution().spec_width(), self.spec_pixel_count(), buffer@),
    {
        let ghost width = self.resolution().spec_width();
        let ghost pixels = self.spec_pixel_count();
        for k in 0..PIXEL_BUFFER_SIZE
            invariant
                width == self.resolution().spec_width(),
                pixels == self.spec_pixel_count(),
                forall|j: int|
                    0 <= j < k ==> (#[trigger] buffer[j] matches Some(pixel) ==> index_of(
                        width,
                        pixel.x as nat,
                        pixel.y as nat,
                    ) < pixels),
        {
            if let Some(pixel) = buffer[k] {
                if !self.in_bounds(pixel.x, pixel.y) {
                    assert(buffer@[k as int] == Some(pixel));
                    return false;
                }
            }
        }
        true
    }

    /// Gives the pixel `(x, y)` the colour, and marks it.
    pub fn set_pixel(&mut self, x: usize, y: usize, color: Point<u8>)
        requires
            index_of(old(self).resolution().spec_width(), x as nat, y as nat) < old(
                self,
            ).spec_pixel_count(),
        ensures
            final(self).resolution() == old(self).resolution(),
            final(self).colors() == old(self).colors().update(
                index_of(old(self).resolution().spec_width(), x as nat, y as nat) as int,
                packed(color),
            ),
            final(self).assigned() == old(self).assigned().update(
                index_of(old(self).resolution().spec_width(), x as nat, y as nat) as int,
                true,
            ),
    {
        proof {
            use_type_invariant(&*self);
        }
        let i = x + y * self.resolution.width();
        self.buffer[i] = to_u32(color);
        set_bit(&mut self.assigned_pixels, i);
    }

    /// Writes the results of a batch to the image, slot by slot.
    pub fn set_pixel_from_buffer(&mut self, buffer: &PixelResBuffer)
        requires
            batch_fits(
                old(self).resolution().spec_width(),
                old(self).spec_pixel_count(),
                buffer@,
            ),
        ensures
            final(self).resolution() == old(self).resolution(),
            final(self).colors() == painted_colors(
                old(self).colors(),
                old(self).resolution().spec_width(),
                buffer@,
            ),
            final(self).assigned() == painted_marks(
                old(self).assigned(),
                old(self).resolution().spec_width(),
                buffer@,
            ),
    {
        let ghost width = self.resolution().spec_width();
        let ghost pixels = self.spec_pixel_count();
        for k in 0..PIXEL_BUFFER_SIZE
            invariant
                self.resolution() == old(self).resolution(),
                width == self.resolution().spec_width(),
                pixels == self.spec_pixel_count(),
                batch_fits(width, pixels, buffer@),
                self.colors() == painted_colors(old(self).colors(), width, buffer@.take(k as int)),
                self.assigned() == painted_marks(
                    old(self).assigned(),
                    width,
                    buffer@.take(k as int),
                ),
        {
            proof {
                assert(buffer@.take(k + 1).drop_last() =~= buffer@.take(k as int));
                assert(buffer@.take(k + 1).last() == buffer@[k as int]);
            }
            if let Some(pixel) = buffer[k] {
                assert(buffer@[k as int] == Some(pixel));
                self.set_pixel(pixel.x, pixel.y, pixel.color);
            }
        }
        proof {
            assert(buffer@.take(PIXEL_BUFFER_SIZE as int) =~= buffer@);
        }
    }

    /// The colour of the pixel `(x, y)`, or `None` where `(x, y)` names no
    /// place of the image.
    pub fn get_pixel(&self, x: usize, y: usize) -> (r: Option<Point<u8>>)
        ensures
            r == if index_of(self.resolution().spec_width(), x as nat, y as nat)
                < self.spec_pixel_count() {
                Some(unpacked(self.color_at(x as nat, y as nat)))
            } else {
                None
            },
    {
        proof {
            use_type_invariant(self);
        }
        if !self.in_bounds(x, y) {
            return None;
        }
        let i = x + y * self.resolution.width();
        return Some(to_u8(self.buffer[i]));
    }

    /// Mirrors the colours of the image: `Horizontal` exchanges the rows,
    /// the first with the last and so on, `Vertical` the columns. The marks
    /// stay where they are.
    #[allow(dead_code)]
    pub fn flip(&mut self, direction: Flip)
        ensures
            final(self).resolution() == old(self).resolution(),
            final(self).assigned() == old(self).assigned(),
            final(self).colors().len() == old(self).colors().len(),
            forall|x: nat, y: nat|
                x < old(self).resolution().spec_width() && y < old(self).resolution().spec_height()
                    ==> #[trigger] final(self).color_at(x, y) == match direction {
                    Flip::Horizontal => old(self).color_at(
                        x,
                        (old(self).resolution().spec_height() - 1 - y) as nat,
                    ),
                    Flip::Vertical => old(self).color_at(
                        (old(self).resolution().spec_width() - 1 - x) as nat,
                        y,
                    ),
                },
    {
        proof {
            use_type_invariant(&*self);
        }
        let width = self.resolution.width();
        let height = self.resolution.height();
        let ghost before = self.colors();
        let ghost w = width as nat;
        let ghost h = height as nat;
        match direction {
            Flip::Horizontal => {
                let mut y: usize = 0;
                while y < height / 2
                    invariant
                        self.resolution() == old(self).resolution(),
                        self.assigned() == old(self).assigned(),
                        w == self.resolution().spec_width(),
                        h == self.resolution().spec_height(),
                        w == width,
                        h == height,
                        w > 0,
                        self.colors().len() == before.len(),
                        before.len() == w * h,
                        y <= height / 2,
                        forall|xx: nat, yy: nat|
                            xx < w && yy < h ==> #[trigger] self.color_at(xx, yy) == if yy < y || yy
                                + y >= h {
                                before[index_of(w, xx, (h - 1 - yy) as nat) as int]
                            } else {
                                before[index_of(w, xx, yy) as int]
                            },
                    decreases height / 2 - y,
                {
                    let mut x: usize = 0;
                    while x < width
                        invariant
                            self.resolution() == old(self).resolution(),
                            self.assigned() == old(self).assigned(),
                            w == self.resolution().spec_width(),
                            h == self.resolution().spec_height(),
                            w == width,
                            h == height,
                            w > 0,
                            self.colors().len() == before.len(),
                            before.len() == w * h,
                            y < height / 2,
                            x <= width,
                            forall|xx: nat, yy: nat|
                                xx < w && yy < h ==> #[trigger] self.color_at(xx, yy) == if yy < y
                                    || yy + y >= h || ((yy == y || yy + y + 1 == h) && xx < x) {
                                    before[index_of(w, xx, (h - 1 - yy) as nat) as int]
                                } else {
                                    before[index_of(w, xx, yy) as int]
                                },
                        decreases width - x,
                    {
                        let ghost other = (h - 1 - y) as nat;
                        proof {
                            use_type_invariant(&*self);
                            lemma_index_in_image(w, h, x as nat, y as nat);
                            lemma_index_in_image(w, h, x as nat, other);
                        }
                        let top = self.coord_to_i(x, y);
                        let bottom = self.coord_to_i(x, height - y - 1);
                        let ghost mid = *self;
                        assert(mid.colors()[top as int] == mid.color_at(x as nat, y as nat));
                        assert(mid.colors()[bottom as int] == mid.color_at(x as nat, other));
                        let upper = self.buffer[top];
                        let lower = self.buffer[bottom];
                        self.buffer[top] = lower;
                        self.buffer[bottom] = upper;
                        assert forall|xx: nat, yy: nat| xx < w && yy < h implies #[trigger] self.color_at(
                            xx,
                            yy,
                        ) == if yy < y || yy + y >= h || ((yy == y || yy + y + 1 == h) && xx < x
                            + 1) {
                            before[index_of(w, xx, (h - 1 - yy) as nat) as int]
                        } else {
                            before[index_of(w, xx, yy) as int]
                        } by {
                            lemma_index_in_image(w, h, xx, yy);
                            lemma_index_injective(w, xx, yy, x as nat, y as nat);
                            lemma_index_injective(w, xx, yy, x as nat, other);
                            assert(mid.colors()[index_of(w, xx, yy) as int] == mid.color_at(xx, yy));
                        }
                        x += 1;
                    }
                    y += 1;
                }
            },
            Flip::Vertical => {
                let mut x: usize = 0;
                while x < width / 2
                    invariant
                        self.resolution() == old(self).resolution(),
                        self.assigned() == old(self).assigned(),
                        w == self.resolution().spec_width(),
                        h == self.resolution().spec_height(),
                        w == width,
                        h == height,
                        w > 0,
                        self.colors().len() == before.len(),
                        before.len() == w * h,
                        x <= width / 2,
                        forall|xx: nat, yy: nat|
                            xx < w && yy < h ==> #[trigger] self.color_at(xx, yy) == if xx < x || xx
                                + x >= w {
                                before[index_of(w, (w - 1 - xx) as nat, yy) as int]
                            } else {
                                before[index_of(w, xx, yy) as int]
                            },
                    decreases width / 2 - x,
                {
                    let mut y: usize = 0;
                    while y < height
                        invariant
                            self.resolution() == old(self).resolution(),
                            self.assigned() == old(self).assigned(),
                            w == self.resolution().spec_width(),
                            h == self.resolution().spec_height(),
                            w == width,
                            h == height,
                            w > 0,
                            self.colors().len() == before.len(),
                            before.len() == w * h,
                            x < width / 2,
                            y <= height,
                            forall|xx: nat, yy: nat|
                                xx < w && yy < h ==> #[trigger] self.color_at(xx, yy) == if xx < x
                                    || xx + x >= w || ((xx == x || xx + x + 1 == w) && yy < y) {
                                    before[index_of(w, (w - 1 - xx) as nat, yy) as int]
                                } else {
                                    before[index_of(w, xx, yy) as int]
                                },
                        decreases height - y,
                    {
                        let ghost other = (w - 1 - x) as nat;
                        proof {
                            use_type_invariant(&*self);
                            lemma_index_in_image(w, h, x as nat, y as nat);
                            lemma_index_in_image(w, h, other, y as nat);
                        }
                        let left = self.coord_to_i(x, y);
                        let right = self.coord_to_i(width - x - 1, y);
                        let ghost mid = *self;
                        assert(mid.colors()[left as int] == mid.color_at(x as nat, y as nat));
                        assert(mid.colors()[right as int] == mid.color_at(other, y as nat));
                        let near = self.buffer[left];
                        let far = self.buffer[right];
                        self.buffer[left] = far;
                        self.buffer[right] = near;
                        assert forall|xx: nat, yy: nat| xx < w && yy < h implies #[trigger] self.color_at(
                            xx,
                            yy,
                        ) == if xx < x || xx + x >= w || ((xx == x || xx + x + 1 == w) && yy < y
                            + 1) {
                            before[index_of(w, (w - 1 - xx) as nat, yy) as int]
                        } else {
                            before[index_of(w, xx, yy) as int]
                        } by {
                            lemma_index_in_image(w, h, xx, yy);
                            lemma_index_injective(w, xx, yy, x as nat, y as nat);
                            lemma_index_injective(w, xx, yy, other, y as nat);
                            assert(mid.colors()[index_of(w, xx, yy) as int] == mid.color_at(xx, yy));
                        }
                        y += 1;
                    }
                    x += 1;
                }
            },
        }
    }

    fn coord_to_i(&self, x: usize, y: usize) -> (r: usize)
        requires
            index_of(self.resolution().spec_width(), x as nat, y as nat) < self.spec_pixel_count(),
        ensures
            r == index_of(self.resolution().spec_width(), x as nat, y as nat),
    {
        proof {
            use_type_invariant(self);
        }
        y * self.resolution.width() + x
    }
}

/// A pixel of the image has its place below the number of pixels.
pub proof fn lemma_index_in_image(width: nat, height: nat, x: nat, y: nat)
    requires
        x < width,
        y < height,
    ensures
        index_of(width, x, y) < width * height,
{
    assert(x + y * width < width * height) by (nonlinear_arith)
        requires
            x < width,
            y < height,
    ;
}

/// Two pixels of one place are one pixel.
pub proof fn lemma_index_injective(width: nat, x1: nat, y1: nat, x2: nat, y2: nat)
    requires
        x1 < width,
        x2 < width,
    ensures
        index_of(width, x1, y1) == index_of(width, x2, y2) <==> x1 == x2 && y1 == y2,
{
    if index_of(width, x1, y1) == index_of(width, x2, y2) {
        assert(x1 == x2 && y1 == y2) by (nonlinear_arith)
            requires
                x1 < width,
                x2 < width,
                x1 + y1 * width == x2 + y2 * width,
        ;
    }
}

} // verus!
