use raytracer::helpers::{
    contains_duplicates, decimal, format_elapsed, AsFormattedString, Precision,
};
use std::time::Duration;

#[test]
fn decimal_writes_the_digits() {
    assert_eq!(decimal(0), "0");
    assert_eq!(decimal(7), "7");
    assert_eq!(decimal(10), "10");
    assert_eq!(decimal(1234567890), "1234567890");
    assert_eq!(decimal(u64::MAX), "18446744073709551615");
}

#[test]
fn a_short_duration_leaves_hours_and_minutes_blank() {
    assert_eq!(format_elapsed(4, 668_668_668, Precision::Hours), "   ");
    assert_eq!(format_elapsed(4, 668_668_668, Precision::Minutes), "       ");
    assert_eq!(format_elapsed(4, 668_668_668, Precision::Seconds), "        04s");
    assert_eq!(format_elapsed(4, 668_668_668, Precision::Milliseconds), "        04.668s");
    assert_eq!(format_elapsed(4, 668_668_668, Precision::Microseconds), "        04.668 668s");
    assert_eq!(format_elapsed(4, 668_668_668, Precision::Nanoseconds), "        04.668 668 668s");
}

#[test]
fn hours_and_minutes_are_shown_where_there_are_any() {
    assert_eq!(format_elapsed(3723, 4_005_006, Precision::Milliseconds), " 1h  2m 03.004s");
    assert_eq!(format_elapsed(3723, 4_005_006, Precision::Hours), " 1h");
    assert_eq!(format_elapsed(3723, 4_005_006, Precision::Minutes), " 1h  2m");
    assert_eq!(format_elapsed(45 * 3600 + 59 * 60 + 59, 0, Precision::Seconds), "45h 59m 59s");
    assert_eq!(format_elapsed(123 * 3600, 0, Precision::Seconds), "123h     00s");
    assert_eq!(format_elapsed(600, 0, Precision::Seconds), "    10m 00s");
}

#[test]
fn parts_of_a_second_show_their_first_three_digits() {
    // the millionths and billionths are counted from the whole second, and
    // cut to three digits from the left
    assert_eq!(format_elapsed(0, 1_002_003, Precision::Nanoseconds), "        00.001 100 100s");
    assert_eq!(format_elapsed(0, 999, Precision::Nanoseconds), "        00.000 000 999s");
    assert_eq!(format_elapsed(0, 12_000, Precision::Nanoseconds), "        00.000 012 120s");
    assert_eq!(format_elapsed(0, 0, Precision::Nanoseconds), "        00.000 000 000s");
}

#[test]
fn a_duration_formats_as_its_seconds_and_nanoseconds() {
    let d = Duration::new(3723, 4_005_006);
    assert_eq!(d.as_formatted_str(Precision::Milliseconds), " 1h  2m 03.004s");
    assert_eq!(
        Duration::from_micros(1_500_000).as_formatted_str(Precision::Milliseconds),
        "        01.500s"
    );
    assert_eq!(
        Duration::from_secs(7322).as_formatted_str(Precision::Seconds),
        format_elapsed(7322, 0, Precision::Seconds)
    );
}

#[test]
fn precisions_are_ranked_from_hours_to_nanoseconds() {
    let all = [
        Precision::Hours,
        Precision::Minutes,
        Precision::Seconds,
        Precision::Milliseconds,
        Precision::Microseconds,
        Precision::Nanoseconds,
    ];
    for (rank, precision) in all.iter().enumerate() {
        assert_eq!(precision.rank() as usize, rank);
    }
    assert!(Precision::Hours < Precision::Nanoseconds);
}

#[test]
fn duplicates_are_found_wherever_they_stand() {
    assert!(!contains_duplicates::<u8>(&[]));
    assert!(!contains_duplicates(&[1]));
    assert!(!contains_duplicates(&[1, 2, 3]));
    assert!(contains_duplicates(&[1, 1]));
    assert!(contains_duplicates(&[1, 2, 1]));
    assert!(contains_duplicates(&[3, 1, 2, 2]));
    assert!(contains_duplicates(&["a", "b", "a"]));
    assert!(!contains_duplicates(&[f32::NAN, f32::NAN]));
}
