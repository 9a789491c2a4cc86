use raytracer::frame_buffer::{to_u32, to_u8, Flip, FrameBuffer, PixelProvider};
use raytracer::resolution::{AALevel, Resolution};
use raytracer::util::{PixelReq, PixelRes, PixelResBuffer, PIXEL_BUFFER_SIZE};
use raytracer::vector::Point;

fn resolution(width: usize, height: usize) -> Resolution {
    Resolution::new(width, height, AALevel::new(1).unwrap()).unwrap()
}

#[test]
fn colours_are_packed_red_first() {
    assert_eq!(to_u32(Point::new(1, 2, 3)), 0x010203);
    assert_eq!(to_u32(Point::new(255, 0, 0)), 0xFF0000);
    assert_eq!(to_u32(Point::new(0, 255, 0)), 0x00FF00);
    assert_eq!(to_u32(Point::new(0, 0, 255)), 0x0000FF);
    assert_eq!(to_u32(Point::new(255, 255, 255)), 0xFFFFFF);
    assert_eq!(to_u8(0x010203), Point::new(1, 2, 3));
    assert_eq!(to_u8(0xAB010203), Point::new(1, 2, 3));
}

#[test]
fn packing_and_unpacking_undo_each_other() {
    for r in [0u8, 1, 127, 128, 255] {
        for g in [0u8, 3, 200, 255] {
            for b in [0u8, 9, 254, 255] {
                let color = Point::new(r, g, b);
                assert_eq!(to_u8(to_u32(color)), color);
            }
        }
    }
}

#[test]
fn provider_hands_out_the_pixels_in_the_order_of_the_enumeration() {
    let mut provider = PixelProvider::new(&resolution(3, 2));
    let expected = [(0, 0), (0, 1), (1, 0), (1, 1), (2, 0), (2, 1)];
    for (x, y) in expected {
        assert_eq!(provider.get_coordinate(), Some(PixelReq::new(x, y)));
    }
    assert_eq!(provider.get_coordinate(), None);
    assert_eq!(provider.get_coordinate(), None);
}

#[test]
fn a_batch_holds_what_is_left_and_empty_slots_behind() {
    let mut provider = PixelProvider::new(&resolution(3, 2));
    let batch = provider.get_coordinates();
    let expected = [(0, 0), (0, 1), (1, 0), (1, 1), (2, 0), (2, 1)];
    for (k, (x, y)) in expected.iter().enumerate() {
        assert_eq!(batch[k], Some(PixelReq::new(*x, *y)));
    }
    for k in 6..PIXEL_BUFFER_SIZE {
        assert_eq!(batch[k], None);
    }
    let again = provider.get_coordinates();
    assert!(again.iter().all(|slot| slot.is_none()));
}

#[test]
fn batches_cover_every_pixel_once() {
    let (width, height) = (37, 23);
    let mut provider = PixelProvider::new(&resolution(width, height));
    let mut seen = vec![false; width * height];
    let mut batches = 0;
    loop {
        let batch = provider.next().unwrap();
        if batch.iter().all(|slot| slot.is_none()) {
            break;
        }
        batches += 1;
        let mut ended = false;
        for slot in batch.iter() {
            match slot {
                Some(req) => {
                    assert!(!ended);
                    assert!(req.x < width && req.y < height);
                    assert!(!seen[req.x + req.y * width]);
                    seen[req.x + req.y * width] = true;
                }
                None => ended = true,
            }
        }
    }
    assert_eq!(batches, (width * height + PIXEL_BUFFER_SIZE - 1) / PIXEL_BUFFER_SIZE);
    assert!(seen.iter().all(|s| *s));
}

#[test]
fn provider_reset_starts_the_pass_again() {
    let mut provider = PixelProvider::new(&resolution(20, 20));
    let first = provider.get_coordinates();
    provider.get_coordinates();
    provider.reset();
    assert_eq!(provider.get_coordinates(), first);
}

#[test]
fn new_frame_buffer_is_black_and_unmarked() {
    let fb = FrameBuffer::new(&resolution(4, 3)).unwrap();
    assert_eq!(fb.pixel_count(), 12);
    let progress = fb.progress();
    assert_eq!((progress.assigned, progress.total), (0, 12));
    assert!(!fb.is_complete());
    for y in 0..3 {
        for x in 0..4 {
            assert_eq!(fb.get_pixel(x, y), Some(Point::homogeneous(0)));
        }
    }
}

#[test]
fn frame_buffer_refuses_more_pixels_than_can_be_marked() {
    assert!(FrameBuffer::new(&resolution(usize::MAX / 8 + 1, 1)).is_err());
}

#[test]
fn set_pixel_colours_and_marks_one_pixel() {
    let mut fb = FrameBuffer::new(&resolution(4, 3)).unwrap();
    fb.set_pixel(2, 1, Point::new(10, 20, 30));
    assert_eq!(fb.get_pixel(2, 1), Some(Point::new(10, 20, 30)));
    assert_eq!(fb.get_pixel(1, 2), Some(Point::homogeneous(0)));
    assert_eq!(fb.progress().assigned, 1);
    fb.set_pixel(2, 1, Point::new(1, 1, 1));
    assert_eq!(fb.get_pixel(2, 1), Some(Point::new(1, 1, 1)));
    assert_eq!(fb.progress().assigned, 1);
    fb.set_pixel(0, 0, Point::new(2, 2, 2));
    assert_eq!(fb.progress().assigned, 2);
}

#[test]
fn places_are_counted_row_by_row() {
    let mut fb = FrameBuffer::new(&resolution(4, 3)).unwrap();
    // x may run over the end of a row, as long as the place is in the image
    assert!(fb.in_bounds(3, 2));
    assert!(fb.in_bounds(11, 0));
    assert!(fb.in_bounds(7, 1));
    assert!(!fb.in_bounds(12, 0));
    assert!(!fb.in_bounds(0, 3));
    assert!(!fb.in_bounds(usize::MAX, 0));
    assert!(!fb.in_bounds(0, usize::MAX));
    assert!(!fb.in_bounds(usize::MAX, usize::MAX));
    fb.set_pixel(5, 0, Point::new(9, 9, 9));
    assert_eq!(fb.get_pixel(1, 1), Some(Point::new(9, 9, 9)));
    assert_eq!(fb.get_pixel(12, 0), None);
    assert_eq!(fb.get_pixel(0, 3), None);
    assert_eq!(fb.get_pixel(usize::MAX, usize::MAX), None);
}

#[test]
fn frame_buffer_is_complete_once_every_pixel_is_marked() {
    let mut fb = FrameBuffer::new(&resolution(3, 2)).unwrap();
    for y in 0..2 {
        for x in 0..3 {
            assert!(!fb.is_complete());
            fb.set_pixel(x, y, Point::new(x as u8, y as u8, 0));
        }
    }
    assert!(fb.is_complete());
    let progress = fb.progress();
    assert_eq!((progress.assigned, progress.total), (6, 6));
    fb.reset_progress();
    assert!(!fb.is_complete());
    assert_eq!(fb.progress().assigned, 0);
    assert_eq!(fb.get_pixel(2, 1), Some(Point::new(2, 1, 0)));
}

#[test]
fn a_batch_of_results_is_written_slot_by_slot() {
    let mut fb = FrameBuffer::new(&resolution(4, 3)).unwrap();
    let mut batch: PixelResBuffer = [None; PIXEL_BUFFER_SIZE];
    batch[0] = Some(PixelRes::new(0, 0, Point::new(1, 1, 1)));
    batch[3] = Some(PixelRes::new(3, 2, Point::new(2, 2, 2)));
    batch[7] = Some(PixelRes::new(0, 0, Point::new(3, 3, 3)));
    assert!(fb.accepts(&batch));
    fb.set_pixel_from_buffer(&batch);
    assert_eq!(fb.get_pixel(0, 0), Some(Point::new(3, 3, 3)));
    assert_eq!(fb.get_pixel(3, 2), Some(Point::new(2, 2, 2)));
    assert_eq!(fb.progress().assigned, 2);
}

#[test]
fn a_batch_with_a_result_outside_the_image_is_not_accepted() {
    let fb = FrameBuffer::new(&resolution(4, 3)).unwrap();
    let mut batch: PixelResBuffer = [None; PIXEL_BUFFER_SIZE];
    assert!(fb.accepts(&batch));
    batch[0] = Some(PixelRes::new(0, 0, Point::new(1, 1, 1)));
    batch[199] = Some(PixelRes::new(0, 3, Point::new(1, 1, 1)));
    assert!(!fb.accepts(&batch));
}

fn painted(width: usize, height: usize) -> FrameBuffer {
    let mut fb = FrameBuffer::new(&resolution(width, height)).unwrap();
    for y in 0..height {
        for x in 0..width {
            fb.set_pixel(x, y, Point::new(x as u8, y as u8, 7));
        }
    }
    fb
}

#[test]
fn flip_horizontal_exchanges_the_rows() {
    for (width, height) in [(4, 3), (4, 4), (1, 1), (5, 2)] {
        let mut fb = painted(width, height);
        fb.flip(Flip::Horizontal);
        for y in 0..height {
            for x in 0..width {
                assert_eq!(
                    fb.get_pixel(x, y),
                    Some(Point::new(x as u8, (height - 1 - y) as u8, 7))
                );
            }
        }
    }
}

#[test]
fn flip_vertical_exchanges_the_columns() {
    for (width, height) in [(4, 3), (3, 3), (1, 1), (2, 5)] {
        let mut fb = painted(width, height);
        fb.flip(Flip::Vertical);
        for y in 0..height {
            for x in 0..width {
                assert_eq!(
                    fb.get_pixel(x, y),
                    Some(Point::new((width - 1 - x) as u8, y as u8, 7))
                );
            }
        }
    }
}

#[test]
fn flip_leaves_the_marks() {
    let mut fb = FrameBuffer::new(&resolution(2, 2)).unwrap();
    fb.set_pixel(0, 0, Point::new(5, 5, 5));
    fb.flip(Flip::Horizontal);
    assert_eq!(fb.progress().assigned, 1);
    assert_eq!(fb.get_pixel(0, 1), Some(Point::new(5, 5, 5)));
    assert_eq!(fb.get_pixel(0, 0), Some(Point::new(0, 0, 0)));
}
