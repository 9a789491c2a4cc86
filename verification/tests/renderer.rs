use raytracer::frame_buffer::{FrameBuffer, PixelProvider};
use raytracer::renderer::{average_color, is_empty_results, render_batch, render_image};
use raytracer::resolution::{AALevel, Resolution};
use raytracer::util::{PixelReq, PixelReqBuffer, PixelRes, PixelResBuffer, PIXEL_BUFFER_SIZE};
use raytracer::vector::Point;

#[test]
fn average_color_is_the_mean_of_each_channel_rounded_down() {
    let colors = vec![Point::new(10, 0, 255), Point::new(20, 1, 255), Point::new(31, 0, 254)];
    assert_eq!(average_color(&colors), Point::new(20, 0, 254));
    assert_eq!(average_color(&vec![Point::new(9, 8, 7)]), Point::new(9, 8, 7));
    assert_eq!(average_color(&vec![Point::homogeneous(255); 1000]), Point::homogeneous(255));
    assert_eq!(average_color(&vec![Point::new(0, 1, 2), Point::new(1, 2, 3)]), Point::new(0, 1, 2));
}

#[test]
fn render_batch_gives_each_request_its_colour() {
    let mut batch: PixelReqBuffer = [None; PIXEL_BUFFER_SIZE];
    batch[0] = Some(PixelReq::new(1, 2));
    batch[5] = Some(PixelReq::new(30, 40));
    batch[199] = Some(PixelReq::new(7, 7));
    let colors = render_batch(&batch, &|p: PixelReq| Point::new(p.x as u8, p.y as u8, 9));
    for (k, slot) in colors.iter().enumerate() {
        match (batch[k], slot) {
            (None, None) => {}
            (Some(req), Some(res)) => {
                assert_eq!((res.x, res.y), (req.x, req.y));
                assert_eq!(res.color, Point::new(req.x as u8, req.y as u8, 9));
            }
            _ => panic!("slot {} does not answer its request", k),
        }
    }
    assert!(colors[5].is_some());
    assert!(!is_empty_results(&colors));
}

#[test]
fn render_batch_of_nothing_renders_nothing() {
    let batch: PixelReqBuffer = [None; PIXEL_BUFFER_SIZE];
    let colors =
        render_batch(&batch, &|_p: PixelReq| -> Point<u8> { panic!("nothing to render") });
    assert!(is_empty_results(&colors));
}

#[test]
fn empty_results_are_told_from_others() {
    let mut colors: PixelResBuffer = [None; PIXEL_BUFFER_SIZE];
    assert!(is_empty_results(&colors));
    colors[100] = Some(PixelRes::new(0, 0, Point::homogeneous(0)));
    assert!(!is_empty_results(&colors));
}

#[test]
fn render_image_renders_every_pixel_once() {
    for (width, height) in [(1, 1), (7, 3), (20, 10), (33, 31)] {
        let resolution = Resolution::new(width, height, AALevel::new(1).unwrap()).unwrap();
        let mut pixels = PixelProvider::new(&resolution);
        let mut image = FrameBuffer::new(&resolution).unwrap();
        let calls = std::cell::Cell::new(0);
        render_image(&mut pixels, &mut image, |p: PixelReq| {
            calls.set(calls.get() + 1);
            Point::new(p.x as u8, p.y as u8, 200)
        });
        assert_eq!(calls.get(), width * height);
        assert!(image.is_complete());
        assert_eq!(image.progress().assigned, width * height);
        for y in 0..height {
            for x in 0..width {
                assert_eq!(image.get_pixel(x, y), Some(Point::new(x as u8, y as u8, 200)));
            }
        }
        assert_eq!(pixels.get_coordinate(), None);
    }
}
