use videonsole::controls::Action;
use videonsole::legend::{hint, legend, pressed, Button, Page, Word, SPOT};

#[test]
fn start_is_named_only_where_it_can_be_pictured() {
    assert!(Button::Start.glyph(true).is_some());
    assert!(Button::Start.glyph(false).is_none());
}

#[test]
fn a_pair_that_was_not_drawn_cannot_be_pressed() {
    let hints = [
        hint("Play", Button::Accept),
        hint("Play the folder", Button::Start),
    ];
    assert_eq!(pressed(SPOT + 1, &hints, true), Some(Button::Start));
    assert_eq!(pressed(SPOT + 1, &hints, false), None);
}

#[test]
fn every_button_has_the_mark_its_hands_would_look_for() {
    assert_eq!(Button::Accept.glyph(true), Some("pad-south"));
    assert_eq!(Button::Accept.glyph(false), Some("key-enter"));
    assert_eq!(Button::Options.glyph(false), Some("mouse-right"));
    assert_eq!(Button::Back.glyph(false), Some("key-escape"));
    assert_eq!(Button::Start.glyph(true), Some("pad-start"));
}

#[test]
fn a_click_off_the_row_presses_nothing() {
    let hints = [hint("Back", Button::Back)];
    assert_eq!(pressed(SPOT, &hints, false), Some(Button::Back));
    assert_eq!(pressed(SPOT - 1, &hints, false), None);
    assert_eq!(pressed(SPOT + 1, &hints, false), None);
    assert_eq!(pressed(SPOT, &[], true), None);
}

#[test]
fn the_grid_s_legend_names_what_the_light_is_on() {
    let page = Page {
        playing_page: false,
        closes_on_back: true,
        has_films: true,
        current_is_folder: Some(true),
        playing: false,
    };
    assert_eq!(
        legend(page),
        vec![
            (Word::Open, Button::Accept),
            (Word::PlayTheFolder, Button::Start),
            (Word::Options, Button::Options),
            (Word::Close, Button::Back),
        ]
    );
    let empty = Page {
        has_films: false,
        current_is_folder: None,
        closes_on_back: false,
        ..page
    };
    assert_eq!(
        legend(empty),
        vec![(Word::Options, Button::Options), (Word::Back, Button::Back)]
    );
}

#[test]
fn a_film_s_legend_says_what_the_button_does_now() {
    let page = Page {
        playing_page: true,
        closes_on_back: false,
        has_films: true,
        current_is_folder: Some(false),
        playing: true,
    };
    assert_eq!(legend(page)[0], (Word::Pause, Button::Accept));
    let stopped = Page { playing: false, ..page };
    assert_eq!(legend(stopped)[0], (Word::Play, Button::Accept));
    assert_eq!(legend(stopped).len(), 4);
}

#[test]
fn each_button_asks_for_its_own_action() {
    assert_eq!(Button::Accept.action(), Action::Accept);
    assert_eq!(Button::Options.action(), Action::Menu);
    assert_eq!(Button::Back.action(), Action::Back);
    assert_eq!(Button::Start.action(), Action::Submit);
}
