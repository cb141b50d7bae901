use videonsole::facts::civil;

#[test]
fn a_century_that_is_not_a_leap_year() {
    // 1900-03-01 is day -25508 from the epoch; 1900 was not a leap year.
    assert_eq!(civil(-25_508), (1900, 3, 1));
    assert_eq!(civil(-25_509), (1900, 2, 28));
}

#[test]
fn the_epoch_is_the_first_day_of_1970() {
    assert_eq!(civil(0), (1970, 1, 1));
    assert_eq!(civil(-1), (1969, 12, 31));
}

#[test]
fn a_leap_day_is_found_by_its_day_number() {
    // 2024-02-29T12:00:00Z is 1_709_208_000 seconds in.
    assert_eq!(civil(1_709_208_000 / 86_400), (2024, 2, 29));
    assert_eq!(civil(11_016), (2000, 2, 29));
}

use videonsole::facts::{clock_face, length_said, moment, named_resolution, picture};

#[test]
fn a_film_is_named_by_the_format_it_was_made_in() {
    assert!(picture(1920, 1080).contains("1080p"));
    assert!(picture(3840, 2160).contains("4K"));
    // Letterboxed, and still 1080p to everybody who has ever said the word.
    assert!(picture(1920, 816).contains("1080p"));
    // And a shape nothing is named for is only its numbers.
    assert_eq!(picture(320, 200), "320 × 200");
}

#[test]
fn a_picture_is_written_with_its_name_after_a_dot() {
    assert_eq!(picture(1920, 1080), "1920 × 1080  ·  1080p");
    assert_eq!(picture(1080, 1920), "1080 × 1920  ·  1080p");
    assert_eq!(named_resolution(0, 1080), None);
    assert_eq!(named_resolution(854, 480), Some("480p"));
    assert_eq!(named_resolution(853, 480), None);
    assert_eq!(named_resolution(7680, 4320), Some("8K"));
    assert_eq!(named_resolution(8000, 10), None, "a strip is no standard's shape");
}

#[test]
fn a_clock_keeps_the_shape_the_film_gave_it() {
    assert_eq!(clock_face(0, 5000), "0:00:00");
    assert_eq!(clock_face(63, 5000), "0:01:03");
    assert_eq!(clock_face(3723, 5000), "1:02:03");
    assert_eq!(clock_face(0, 300), "0:00");
    assert_eq!(clock_face(63, 300), "1:03");
    assert_eq!(clock_face(599, 600), "9:59");
    // A short film's clock never grows an hour field.
    assert_eq!(clock_face(3723, 300), "62:03");
}

#[test]
fn a_length_is_said_the_way_somebody_would_say_it() {
    assert_eq!(length_said(6420), "1 h 47 min");
    assert_eq!(length_said(1500), "25 min");
    assert_eq!(length_said(42), "42 s");
    assert_eq!(length_said(3600), "1 h 00 min");
}

#[test]
fn the_epoch_is_the_first_of_january() {
    assert_eq!(moment(0), (1970, 1, 1, 0, 0));
}

#[test]
fn a_leap_day_is_a_leap_day() {
    // 2024-02-29T12:00:00Z
    assert_eq!(moment(1_709_208_000), (2024, 2, 29, 12, 0));
    assert_eq!(moment(1_709_208_000 + 3_599), (2024, 2, 29, 12, 59));
}

#[test]
fn each_day_is_one_date_and_the_next_day_is_the_next_date() {
    let mut last = civil(-800_000);
    for days in -799_999..800_000 {
        let date = civil(days);
        assert_ne!(date, last);
        let (year, month, day) = date;
        if day > 1 {
            assert_eq!((year, month, day - 1), last);
        } else if month > 1 {
            assert_eq!((year, month - 1), (last.0, last.1));
        } else {
            assert_eq!((year - 1, 12, 31), last);
        }
        last = date;
    }
}

#[test]
fn a_clock_has_as_many_fields_as_its_film_needs() {
    for whole in [0u64, 59, 60, 3599, 3600, 86_399, 360_000] {
        assert_eq!(clock_face(whole, 5000).matches(':').count(), 2);
        assert_eq!(clock_face(whole, 300).matches(':').count(), 1);
    }
}

#[test]
fn a_square_is_not_named_for_any_standard() {
    assert_eq!(picture(1920, 1920), "1920 × 1920");
    assert_eq!(named_resolution(1920, 1600), None, "nearer a square than four to three");
    assert_eq!(named_resolution(1920, 1440), Some("1080p"), "four to three is ordinary");
    assert_eq!(named_resolution(2560, 1072), Some("1440p"), "a wide film is ordinary");
}
