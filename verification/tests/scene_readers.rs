use raytracer::camera::Direction;
use raytracer::scene_readers::rt::parse_rgb;
use raytracer::scene_readers::FileType;
use raytracer::vector::Point;

#[test]
fn a_colour_is_three_bytes_between_commas() {
    assert_eq!(parse_rgb("255,0,0"), Some(Point::new(255, 0, 0)));
    assert_eq!(parse_rgb("1,2,3"), Some(Point::new(1, 2, 3)));
    assert_eq!(parse_rgb("0,0,0"), Some(Point::new(0, 0, 0)));
    assert_eq!(parse_rgb("007,+8,09"), Some(Point::new(7, 8, 9)));
    assert_eq!(parse_rgb("255,255,255"), Some(Point::new(255, 255, 255)));
    assert_eq!(parse_rgb("0000000000000000000000012,0,0"), Some(Point::new(12, 0, 0)));
}

#[test]
fn what_is_no_colour_is_refused() {
    for text in [
        "", ",", ",,", "1,2", "1,2,3,4", "1,2,", ",2,3", "1,,3", "256,0,0", "0,0,256", "0,999999999999999999999,0",
        "-1,0,0", "1.0,2,3", "1, 2,3", " 1,2,3", "1,2,3 ", "a,b,c", "+,1,2", "++1,2,3", "1+,2,3",
        "1,2,3,", "\u{661},2,3",
    ] {
        assert_eq!(parse_rgb(text), None, "{:?}", text);
    }
}

#[test]
fn parse_rgb_reads_as_the_standard_library_does() {
    let fields = ["", "0", "7", "+7", "-7", "255", "256", "0255", "25a", "+", " 1", "\u{663}"];
    for r in fields {
        for g in fields {
            for b in ["1", "", "300", "+0"] {
                let text = format!("{},{},{}", r, g, b);
                let expected = match (r.parse::<u8>(), g.parse::<u8>(), b.parse::<u8>()) {
                    (Ok(r), Ok(g), Ok(b)) => Some(Point::new(r, g, b)),
                    _ => None,
                };
                assert_eq!(parse_rgb(&text), expected, "{:?}", text);
            }
        }
    }
}

#[test]
fn kinds_of_file_are_known_by_their_ending() {
    assert_eq!(FileType::from_extension("rt"), Some(FileType::Rt));
    assert_eq!(FileType::from_extension("obj"), Some(FileType::Obj));
    assert_eq!(FileType::from_extension("cbor"), Some(FileType::Cbor));
    assert_eq!(FileType::from_extension("RT"), None);
    assert_eq!(FileType::from_extension(""), None);
    assert_eq!(FileType::from_extension("blend"), None);
}

#[test]
fn the_camera_knows_ten_directions() {
    let all = [
        Direction::Up,
        Direction::Down,
        Direction::Left,
        Direction::Right,
        Direction::Forward,
        Direction::Backward,
        Direction::PitchUp,
        Direction::PitchDown,
        Direction::YawLeft,
        Direction::YawRight,
    ];
    assert_eq!(all.len(), 10);
}
