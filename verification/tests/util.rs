use raytracer::util::{
    correct_normal, fps_to_duration, is_empty_batch, split, Hit, PixelReq, PixelReqBuffer,
    PixelRes, Ray, PIXEL_BUFFER_SIZE,
};
use raytracer::vector::Point;

#[test]
fn test_split() {
    const X: usize = PIXEL_BUFFER_SIZE;
    let mut buf = [None; X];

    for i in 0..X {
        buf[i] = Some(PixelReq::new(i, i));
    }

    for split_size in vec![1, 2, 3, 4, X - 2, X - 1, X, X + 1, X + 2] {
        let parts = split(&buf, split_size);

        for req in buf.iter() {
            if req.is_none() {
                continue;
            }
            let mut found = false;
            for part in parts.iter() {
                for part_req in part.iter() {
                    if req == part_req {
                        found = true;
                        break;
                    }
                }
                if found {
                    break;
                }
            }
            assert!(found);
        }
    }
}

fn full_batch() -> PixelReqBuffer {
    let mut buf = [None; PIXEL_BUFFER_SIZE];
    for i in 0..PIXEL_BUFFER_SIZE {
        buf[i] = Some(PixelReq::new(i, 2 * i));
    }
    buf
}

fn requests(parts: &Vec<PixelReqBuffer>) -> Vec<PixelReq> {
    let mut all = vec![];
    for part in parts {
        for slot in part.iter() {
            if let Some(req) = slot {
                all.push(*req);
            }
        }
    }
    all
}

#[test]
fn split_and_recombine_keeps_every_request_once_and_in_order() {
    let buf = full_batch();
    let expected: Vec<PixelReq> = buf.iter().map(|slot| slot.unwrap()).collect();
    for n in [1, 2, 3, 4, 7, 198, 199, 200, 201, 202, 1000] {
        let parts = split(&buf, n);
        assert_eq!(parts.len(), n);
        assert_eq!(requests(&parts), expected);
    }
}

#[test]
fn split_in_three_gives_66_66_68() {
    let parts = split(&full_batch(), 3);
    let counts: Vec<usize> =
        parts.iter().map(|p| p.iter().filter(|s| s.is_some()).count()).collect();
    assert_eq!(counts, vec![66, 66, 68]);
    assert_eq!(parts[0][0], Some(PixelReq::new(0, 0)));
    assert_eq!(parts[0][65], Some(PixelReq::new(65, 130)));
    assert_eq!(parts[0][66], None);
    assert_eq!(parts[1][0], Some(PixelReq::new(66, 132)));
    assert_eq!(parts[2][0], Some(PixelReq::new(132, 264)));
    assert_eq!(parts[2][67], Some(PixelReq::new(199, 398)));
    assert_eq!(parts[2][68], None);
}

#[test]
fn split_in_more_parts_than_slots_fills_the_last_part_only() {
    let parts = split(&full_batch(), 201);
    for part in &parts[..200] {
        assert!(is_empty_batch(part));
    }
    assert_eq!(parts[200], full_batch());
}

#[test]
fn split_keeps_empty_slots_where_they_are() {
    let mut buf = [None; PIXEL_BUFFER_SIZE];
    buf[0] = Some(PixelReq::new(1, 1));
    buf[150] = Some(PixelReq::new(2, 2));
    let parts = split(&buf, 2);
    assert_eq!(parts[0][0], Some(PixelReq::new(1, 1)));
    assert_eq!(parts[1][50], Some(PixelReq::new(2, 2)));
    assert_eq!(requests(&parts).len(), 2);
}

#[test]
fn empty_batch_is_told_from_one_with_a_request() {
    let mut buf: PixelReqBuffer = [None; PIXEL_BUFFER_SIZE];
    assert!(is_empty_batch(&buf));
    buf[199] = Some(PixelReq::new(0, 0));
    assert!(!is_empty_batch(&buf));
}

#[test]
fn pixel_constructors_keep_their_arguments() {
    let req = PixelReq::new(3, 4);
    assert_eq!((req.x, req.y), (3, 4));
    let res = PixelRes::new(5, 6, Point::new(7, 8, 9));
    assert_eq!((res.x, res.y), (5, 6));
    assert_eq!(res.color, Point::new(7, 8, 9));
}

#[test]
fn fps_to_duration_is_a_millionth_of_a_second_for_each_frame() {
    assert_eq!(fps_to_duration(60), std::time::Duration::from_micros(16666));
    assert_eq!(fps_to_duration(1), std::time::Duration::from_secs(1));
    assert_eq!(fps_to_duration(1_000_001), std::time::Duration::from_micros(0));
    assert_eq!(fps_to_duration(3).as_secs(), 0);
    assert_eq!(fps_to_duration(3).subsec_nanos(), 333_333_000);
}

fn hit_at(dist: f32, tag: u8) -> Hit<f32> {
    Hit::new(
        dist,
        Point::homogeneous(0.0),
        Point::homogeneous(dist),
        Point::new(0.0, 0.0, 1.0),
        Point::new(tag, tag, tag),
    )
}

#[test]
fn replace_if_closer_takes_the_lesser_distance() {
    let mut hit = hit_at(2.0, 1);
    hit.replace_if_closer(hit_at(3.0, 2));
    assert_eq!((hit.dist, hit.color.x), (2.0, 1));
    hit.replace_if_closer(hit_at(1.5, 3));
    assert_eq!((hit.dist, hit.color.x), (1.5, 3));
    assert_eq!(hit.point, Point::homogeneous(1.5));
}

#[test]
fn replace_if_closer_keeps_the_first_of_two_at_one_distance() {
    let mut hit = hit_at(2.0, 1);
    hit.replace_if_closer(hit_at(2.0, 2));
    assert_eq!(hit.color.x, 1);
}

#[test]
fn correct_normal_turns_a_normal_that_looks_away() {
    let dir = Point::new(0.0f32, 0.0, 1.0);
    let along = Point::new(0.0f32, 0.0, 1.0);
    let against = Point::new(0.0f32, 0.0, -1.0);
    assert_eq!(correct_normal(along, &dir), along);
    assert_eq!(correct_normal(against, &dir), along);
    let side = Point::new(1i32, 0, 0);
    assert_eq!(correct_normal(side, &Point::new(0, 1, 0)), side);
    assert_eq!(correct_normal(Point::new(2i32, 3, -4), &Point::new(-1, 0, 0)), Point::new(-2, -3, 4));
}

#[test]
fn ray_keeps_origin_and_direction() {
    let ray = Ray::new(Point::new(1, 2, 3), Point::new(4, 5, 6));
    assert_eq!(ray.origin, Point::new(1, 2, 3));
    assert_eq!(ray.dir, Point::new(4, 5, 6));
}
