use videonsole::player::{add_file_track, dialogue, worth_showing, Track};

fn track(name: &str, from_a_file: bool, forced: bool) -> Track {
    Track {
        name: String::from(name),
        from_a_file,
        forced,
    }
}

/// A forced track is the one the film cannot be watched without.
#[test]
fn a_forced_track_is_shown_without_being_asked_for() {
    let tracks = vec![
        track("English", false, false),
        track("Signs", false, true),
        track("en", true, false),
    ];
    assert_eq!(worth_showing(&tracks), Some(1));
}

/// And a file somebody put beside the film, which nobody does by accident.
#[test]
fn a_file_beside_the_film_is_shown_without_being_asked_for() {
    let tracks = vec![track("English", false, false), track("en", true, false)];
    assert_eq!(worth_showing(&tracks), Some(1));
}

#[test]
fn an_ordinary_track_inside_the_film_is_left_off() {
    let tracks = vec![
        track("English", false, false),
        track("Polish", false, false),
    ];
    assert_eq!(worth_showing(&tracks), None);
    assert_eq!(worth_showing(&[]), None);
}

/// The one that eats a subtitle's own commas if it is written with a fixed
/// field count.
#[test]
fn a_dialogue_line_keeps_the_commas_in_its_text() {
    assert_eq!(
        dialogue("0,0,Default,,0,0,0,,Well, no, not really"),
        "Well, no, not really"
    );
    assert_eq!(
        dialogue("Dialogue: 0,0:00:01.50,0:00:03.00,Default,,0,0,0,,Hello, there"),
        "Hello, there"
    );
}

#[test]
fn a_plain_text_subtitle_is_all_text() {
    assert_eq!(dialogue("Just some words"), "Just some words");
}

#[test]
fn a_dialogue_line_one_field_short_is_all_text() {
    let line = "Dialogue: 0,0:00:01.50,0:00:03.00,Default,,0,0,0";
    assert_eq!(dialogue(line), line);
    assert_eq!(dialogue("  0,0,Default,,0,0,0,,"), "");
}

#[test]
fn a_file_already_on_the_list_is_chosen_again() {
    let mut tracks = vec![track("English", false, false), track("en", false, false)];
    assert_eq!(add_file_track(&mut tracks, String::from("en")), 2);
    assert_eq!(tracks.len(), 3);
    assert!(tracks[2].from_a_file && !tracks[2].forced);
    assert_eq!(add_file_track(&mut tracks, String::from("en")), 2);
    assert_eq!(tracks.len(), 3);
    assert_eq!(add_file_track(&mut tracks, String::from("pl")), 3);
}

use videonsole::player::{add_file, source_of, stream_name, Source};

#[test]
fn a_stream_is_called_by_its_title_then_its_language() {
    assert_eq!(
        stream_name(Some(" Signs "), Some("eng")).as_deref(),
        Some("Signs (eng)")
    );
    assert_eq!(stream_name(Some("Signs"), Some("und")).as_deref(), Some("Signs"));
    assert_eq!(stream_name(Some("  "), Some("pol")).as_deref(), Some("pol"));
    assert_eq!(stream_name(None, Some(" und ")), None, "a number is better than und");
    assert_eq!(stream_name(None, None), None);
}

#[test]
fn the_film_s_own_tracks_come_before_the_files() {
    assert_eq!(source_of(2, 1, Some(0)), Some(Source::Inside(0)));
    assert_eq!(source_of(2, 1, Some(2)), Some(Source::File(0)));
    assert_eq!(source_of(2, 1, Some(3)), None);
    assert_eq!(source_of(2, 1, None), None);
}

#[test]
fn a_file_chosen_twice_is_on_the_list_once() {
    let mut files = vec![String::from("/f/a.en.srt")];
    add_file(&mut files, String::from("/f/a.pl.srt"));
    add_file(&mut files, String::from("/f/a.en.srt"));
    assert_eq!(files, vec![String::from("/f/a.en.srt"), String::from("/f/a.pl.srt")]);
}
