//! The part of rendering that does not depend on the scene: a batch of
//! pixels becomes a batch of colours, an image is rendered batch by batch,
//! and the samples of one pixel become one colour.

use crate::frame_buffer::{
    all_set, batch_distinct, batch_fits, batch_from, batch_names, handed_out_after, index_of,
    lemma_every_pixel_requested_once, lemma_index_injective, lemma_painted_distinct,
    lemma_pass_completes, lemma_requests_stay_inside, packed, request_at, FrameBuffer,
    PixelProvider,
};
use crate::random_iterator::position_of;
use crate::util::{PixelReq, PixelReqBuffer, PixelRes, PixelResBuffer, PIXEL_BUFFER_SIZE};
use crate::vector::Point;
use vstd::prelude::*;

verus! {

/// The sum of one channel of the colours: `channel` picks the channel.
pub open spec fn channel_sum(colors: Seq<Point<u8>>, channel: spec_fn(Point<u8>) -> u8) -> nat
    decreases colors.len(),
{
    if colors.len() == 0 {
        0
    } else {
        channel_sum(colors.drop_last(), channel) + channel(colors.last()) as nat
    }
}

/// The sum of a channel is at most 255 for each colour.
pub proof fn lemma_channel_sum_bound(colors: Seq<Point<u8>>, channel: spec_fn(Point<u8>) -> u8)
    ensures
        channel_sum(colors, channel) <= 255 * colors.len(),
    decreases colors.len(),
{
    if colors.len() > 0 {
        lemma_channel_sum_bound(colors.drop_last(), channel);
    }
}

/// The colour whose channels are the means of the channels of the colours,
/// each rounded down.
pub fn average_color(colors: &Vec<Point<u8>>) -> (r: Point<u8>)
    requires
        colors.len() > 0,
    ensures
        r.x == channel_sum(colors@, |c: Point<u8>| c.x) / colors.len() as nat,
        r.y == channel_sum(colors@, |c: Point<u8>| c.y) / colors.len() as nat,
        r.z == channel_sum(colors@, |c: Point<u8>| c.z) / colors.len() as nat,
{
    let mut final_color = Point::<u128>::homogeneous(0);
    let ghost red = |c: Point<u8>| c.x;
    let ghost green = |c: Point<u8>| c.y;
    let ghost blue = |c: Point<u8>| c.z;
    let mut i: usize = 0;
    while i < colors.len()
        invariant
            i <= colors.len(),
            red == |c: Point<u8>| c.x,
            green == |c: Point<u8>| c.y,
            blue == |c: Point<u8>| c.z,
            final_color.x == channel_sum(colors@.take(i as int), red),
            final_color.y == channel_sum(colors@.take(i as int), green),
            final_color.z == channel_sum(colors@.take(i as int), blue),
        decreases colors.len() - i,
    {
        proof {
            assert(colors@.take(i + 1).drop_last() =~= colors@.take(i as int));
            lemma_channel_sum_bound(colors@.take(i as int), red);
            lemma_channel_sum_bound(colors@.take(i as int), green);
            lemma_channel_sum_bound(colors@.take(i as int), blue);
        }
        let color = colors[i];
        final_color.x += color.x as u128;
        final_color.y += color.y as u128;
        final_color.z += color.z as u128;
        i += 1;
    }
    proof {
        assert(colors@.take(colors.len() as int) =~= colors@);
        lemma_channel_sum_bound(colors@, red);
        lemma_channel_sum_bound(colors@, green);
        lemma_channel_sum_bound(colors@, blue);
    }
    let count = colors.len() as u128;
    let x = final_color.x / count;
    let y = final_color.y / count;
    let z = final_color.z / count;
    proof {
        lemma_mean_is_a_byte(final_color.x as nat, count as nat);
        lemma_mean_is_a_byte(final_color.y as nat, count as nat);
        lemma_mean_is_a_byte(final_color.z as nat, count as nat);
    }
    let final_color = Point::new(x as u8, y as u8, z as u8);
    return final_color;
}

proof fn lemma_mean_is_a_byte(sum: nat, count: nat)
    by (nonlinear_arith)
    requires
        count > 0,
        sum <= 255 * count,
    ensures
        sum / count <= 255,
{
}

/// Renders the pixels of a batch: each request becomes a result for the
/// same pixel, in the same slot, with the colour that `render` gives for
/// the request. An empty slot stays empty.
pub fn render_batch<F: Fn(PixelReq) -> Point<u8>>(buffer: &PixelReqBuffer, render: &F) -> (colors:
    PixelResBuffer)
    requires
        forall|k: int|
            0 <= k < PIXEL_BUFFER_SIZE ==> (#[trigger] buffer[k] matches Some(pixel)
                ==> call_requires(render, (pixel,))),
    ensures
        forall|k: int|
            0 <= k < PIXEL_BUFFER_SIZE ==> match #[trigger] buffer[k] {
                None => colors[k] is None,
                Some(pixel) => {
                    &&& colors[k] matches Some(result)
                    &&& result.x == pixel.x
                    &&& result.y == pixel.y
                    &&& call_ensures(render, (pixel,), result.color)
                },
            },
{
    let mut colors: PixelResBuffer = [None; PIXEL_BUFFER_SIZE];
    for i in 0..PIXEL_BUFFER_SIZE
        invariant
            forall|k: int|
                0 <= k < PIXEL_BUFFER_SIZE ==> (#[trigger] buffer[k] matches Some(pixel)
                    ==> call_requires(render, (pixel,))),
            forall|k: int| i <= k < PIXEL_BUFFER_SIZE ==> colors[k] is None,
            forall|k: int|
                0 <= k < i ==> match #[trigger] buffer[k] {
                    None => colors[k] is None,
                    Some(pixel) => {
                        &&& colors[k] matches Some(result)
                        &&& result.x == pixel.x
                        &&& result.y == pixel.y
                        &&& call_ensures(render, (pixel,), result.color)
                    },
                },
    {
        if let Some(pixel) = buffer[i] {
            let color = render(pixel);
            colors[i] = Some(PixelRes::new(pixel.x, pixel.y, color));
        }
    }
    colors
}

/// Whether no slot of the batch holds a result: a worker that has rendered
/// such a batch has run out of work.
pub fn is_empty_results(colors: &PixelResBuffer) -> (r: bool)
    ensures
        r == forall|k: int| 0 <= k < colors@.len() ==> colors[k] is None,
{
    for k in 0..PIXEL_BUFFER_SIZE
        invariant
            forall|j: int| 0 <= j < k ==> colors[j] is None,
    {
        if colors[k].is_some() {
            return false;
        }
    }
    true
}

/// Whether the image holds, for the pixel that the pass requests at
/// position `n`, a mark and a colour that `render` gives for the pixel.
pub open spec fn rendered_at<F: Fn(PixelReq) -> Point<u8>>(
    image: FrameBuffer,
    render: F,
    n: nat,
) -> bool {
    let width = image.resolution().spec_width();
    let request = request_at(width, image.spec_pixel_count(), n);
    let place = index_of(width, request.x as nat, request.y as nat) as int;
    &&& image.assigned()[place]
    &&& exists|color: Point<u8>| #[trigger]
        call_ensures(render, (request,), color) && image.colors()[place] == packed(color)
}

/// Renders an image from the first pixel of a pass to the last, batch by
/// batch: what a dispatcher does that has one thread.
///
/// Every pixel of the image is rendered once. In the end the image is
/// complete, and holds for every pixel a colour that `render` gives for
/// it.
pub fn render_image<F: Fn(PixelReq) -> Point<u8>>(
    pixels: &mut PixelProvider,
    image: &mut FrameBuffer,
    render: F,
)
    requires
        old(pixels).resolution() == old(image).resolution(),
        old(pixels).handed_out() == 0,
        forall|pixel: PixelReq|
            pixel.x < old(image).resolution().spec_width() && pixel.y < old(
                image,
            ).resolution().spec_height() ==> #[trigger] call_requires(render, (pixel,)),
    ensures
        final(pixels).resolution() == old(pixels).resolution(),
        final(pixels).handed_out() == old(pixels).resolution().spec_pixels(),
        final(image).resolution() == old(image).resolution(),
        all_set(final(image).assigned()),
        forall|n: nat|
            n < old(image).spec_pixel_count() ==> #[trigger] rendered_at(*final(image), render, n),
{
    let resolution = image.dimensions();
    let ghost width = resolution.spec_width();
    let ghost height = resolution.spec_height();
    let total = image.pixel_count();
    // neither side of an image is zero, and its pixels can be counted
    let sides = (resolution.width(), resolution.height(), resolution.pixels());
    assert(sides.0 == width && sides.1 == height && sides.2 == total);
    loop
        invariant_except_break
            pixels.handed_out() <= total,
        invariant
            width == resolution.spec_width(),
            height == resolution.spec_height(),
            width > 0,
            total == width * height,
            total == resolution.spec_pixels(),
            pixels.resolution() == resolution,
            image.resolution() == resolution,
            image.colors().len() == total,
            image.assigned().len() == total,
            forall|pixel: PixelReq|
                pixel.x < width && pixel.y < height ==> #[trigger] call_requires(render, (pixel,)),
            forall|n: nat| n < pixels.handed_out() ==> #[trigger] rendered_at(*image, render, n),
        ensures
            pixels.handed_out() == total,
        decreases total - pixels.handed_out(),
    {
        let ghost start = pixels.handed_out();
        let ghost earlier = *image;
        let batch = pixels.get_coordinates();
        proof {
            assert forall|k: int| 0 <= k < PIXEL_BUFFER_SIZE implies (#[trigger] batch[k] matches Some(
                pixel,
            ) ==> call_requires(render, (pixel,))) by {
                if start + k < total {
                    lemma_requests_stay_inside(width, height, (start + k) as nat);
                    assert(batch[k] == batch_from(width, total as nat, start)[k]);
                }
            }
        }
        let colors = render_batch(&batch, &render);
        if is_empty_results(&colors) {
            proof {
                if start < total {
                    assert(batch[0] is Some);
                    assert(colors[0] is Some);
                }
            }
            break ;
        }
        proof {
            assert(start < total) by {
                if start >= total {
                    assert forall|k: int| 0 <= k < colors@.len() implies colors[k] is None by {
                        assert(batch[k] == batch_from(width, total as nat, start)[k]);
                    }
                }
            }
            lemma_batch_of_a_pass(width, height, start, batch@, colors@);
            lemma_painted_distinct(earlier.colors(), earlier.assigned(), width, colors@);
        }
        image.set_pixel_from_buffer(&colors);
        proof {
            let ended = pixels.handed_out();
            assert forall|n: nat| n < ended implies #[trigger] rendered_at(*image, render, n) by {
                let request = request_at(width, total as nat, n);
                let place = index_of(width, request.x as nat, request.y as nat) as int;
                lemma_requests_stay_inside(width, height, n);
                crate::frame_buffer::lemma_index_in_image(
                    width,
                    height,
                    request.x as nat,
                    request.y as nat,
                );
                if n < start {
                    assert(rendered_at(earlier, render, n));
                    assert(!batch_names(width, colors@, place)) by {
                        if batch_names(width, colors@, place) {
                            let k = choose|k: int|
                                0 <= k < colors@.len() && (#[trigger] colors@[k] matches Some(pixel)
                                    && index_of(width, pixel.x as nat, pixel.y as nat) == place);
                            assert(batch[k] == batch_from(width, total as nat, start)[k]);
                            lemma_same_place_same_position(width, height, n, (start + k) as nat);
                        }
                    }
                    assert(image.colors()[place] == earlier.colors()[place]);
                    assert(image.assigned()[place] == earlier.assigned()[place]);
                    let color = choose|color: Point<u8>| #[trigger]
                        call_ensures(render, (request,), color) && earlier.colors()[place]
                            == packed(color);
                    assert(image.assigned()[place]);
                    assert(call_ensures(render, (request,), color) && image.colors()[place]
                        == packed(color));
                } else {
                    let k = (n - start) as int;
                    assert(0 <= k < PIXEL_BUFFER_SIZE);
                    assert(batch[k] == batch_from(width, total as nat, start)[k]);
                    assert(batch[k] == Some(request));
                    let result = colors[k]->0;
                    assert(colors@[k] == Some(result));
                    assert(result.x == request.x && result.y == request.y);
                    assert(call_ensures(render, (request,), result.color));
                    assert(image.colors()[place] == packed(result.color));
                    assert(image.assigned()[place]);
                }
                assert(image.resolution().spec_width() == width);
                assert(image.spec_pixel_count() == total);
            }
        }
    }
    proof {
        assert forall|n: nat| n < width * height implies image.assigned()[index_of(
            width,
            (#[trigger] request_at(width, width * height, n)).x as nat,
            request_at(width, width * height, n).y as nat,
        ) as int] by {
            assert(rendered_at(*image, render, n));
        }
        lemma_pass_completes(width, height, image.assigned());
    }
}

/// Two positions of a pass whose requests have one place are one position.
proof fn lemma_same_place_same_position(width: nat, height: nat, a: nat, b: nat)
    requires
        width > 0,
        width * height <= usize::MAX,
        a < width * height,
        b < width * height,
        ({
            let first = request_at(width, width * height, a);
            let second = request_at(width, width * height, b);
            index_of(width, first.x as nat, first.y as nat) == index_of(
                width,
                second.x as nat,
                second.y as nat,
            )
        }),
    ensures
        a == b,
{
    let first = request_at(width, width * height, a);
    let second = request_at(width, width * height, b);
    lemma_requests_stay_inside(width, height, a);
    lemma_requests_stay_inside(width, height, b);
    lemma_index_injective(width, first.x as nat, first.y as nat, second.x as nat, second.y as nat);
    lemma_every_pixel_requested_once(width, height, first.x as nat, first.y as nat);
    assert(first == second);
}

/// The results of a batch of a pass name places of the image, no two of
/// them one place.
proof fn lemma_batch_of_a_pass(
    width: nat,
    height: nat,
    start: nat,
    batch: Seq<Option<PixelReq>>,
    colors: Seq<Option<PixelRes>>,
)
    requires
        width > 0,
        width * height <= usize::MAX,
        start <= width * height,
        batch == batch_from(width, width * height, start),
        colors.len() == PIXEL_BUFFER_SIZE,
        forall|k: int|
            0 <= k < PIXEL_BUFFER_SIZE ==> match #[trigger] batch[k] {
                None => colors[k] is None,
                Some(pixel) => {
                    &&& colors[k] matches Some(result)
                    &&& result.x == pixel.x
                    &&& result.y == pixel.y
                },
            },
    ensures
        batch_fits(width, width * height, colors),
        batch_distinct(width, colors),
{
    let total = width * height;
    assert forall|k: int| 0 <= k < colors.len() implies (#[trigger] colors[k] matches Some(pixel)
        ==> index_of(width, pixel.x as nat, pixel.y as nat) < total) by {
        if let Some(pixel) = colors[k] {
            assert(batch[k] is Some);
            lemma_requests_stay_inside(width, height, (start + k) as nat);
            crate::frame_buffer::lemma_index_in_image(
                width,
                height,
                pixel.x as nat,
                pixel.y as nat,
            );
        }
    }
    assert forall|j: int, k: int| 0 <= j < k < colors.len() implies (#[trigger] colors[j] matches Some(
        first,
    ) ==> (#[trigger] colors[k] matches Some(second) ==> index_of(
        width,
        first.x as nat,
        first.y as nat,
    ) != index_of(width, second.x as nat, second.y as nat))) by {
        if colors[j] is Some && colors[k] is Some {
            assert(batch[j] is Some && batch[k] is Some);
            let first = colors[j]->0;
            let second = colors[k]->0;
            if index_of(width, first.x as nat, first.y as nat) == index_of(
                width,
                second.x as nat,
                second.y as nat,
            ) {
                lemma_same_place_same_position(
                    width,
                    height,
                    (start + j) as nat,
                    (start + k) as nat,
                );
            }
        }
    }
}

} // verus!
