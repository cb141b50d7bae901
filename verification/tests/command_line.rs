use videonsole::command_line::{binding, opening, run_for, same_text, Binding, Run};
use videonsole::view::Mode;

fn args(words: &[&str]) -> Vec<String> {
    words.iter().map(|word| word.to_string()).collect()
}

#[test]
fn the_arguments_say_what_a_run_does() {
    assert_eq!(run_for(&args(&[])), Run::Window);
    assert_eq!(run_for(&args(&["/f", "--version", "--help"])), Run::Version);
    assert_eq!(run_for(&args(&["-h"])), Run::Help);
    assert_eq!(run_for(&args(&["--controllers", "--shot"])), Run::Controllers);
    assert_eq!(run_for(&args(&["/f", "--shot", "out.png"])), Run::Shot(2));
    assert_eq!(run_for(&args(&["--shot"])), Run::ShotWithoutFile);
}

#[test]
fn the_place_to_open_is_the_first_argument_that_is_not_an_option() {
    assert_eq!(opening(&args(&["--width", "-x", "/f/films", "/g"])), Some(2));
    assert_eq!(opening(&args(&["--play"])), None);
    assert_eq!(opening(&args(&["", "/f"])), Some(0));
}

#[test]
fn a_digit_is_a_tenth_of_the_way_only_in_a_film() {
    assert_eq!(binding('7', Mode::Player), Some(Binding::Part(7)));
    assert_eq!(binding('7', Mode::Grid), None);
    assert_eq!(binding('c', Mode::Grid), Some(Binding::NextSubtitles));
    assert_eq!(binding('C', Mode::Player), Some(Binding::NextSubtitles));
    assert_eq!(binding('=', Mode::Player), Some(Binding::Louder));
    assert_eq!(binding('w', Mode::Player), None, "moving letters are not taken");
}

#[test]
fn text_is_the_same_only_where_every_character_is() {
    assert!(same_text("é", "é"));
    assert!(!same_text("e", "é"));
    assert!(!same_text("ab", "a"));
}
