use videonsole::view::{
    closes_on_back, cut_to_fit, follow_the_menu, grid_step, leaving, next_subtitle, page_step, shortened,
    wanted, wheel, Direction, Leave, Line, Mode, Wheel,
};

/// Every letter is the same width, which is all a cut needs to be tested.
fn ruler(string: &str) -> f32 {
    string.chars().count() as f32 * 10.0
}

#[test]
fn a_grid_stops_at_its_edges_rather_than_wrapping() {
    // Ten cards, four across.
    assert_eq!(grid_step(0, 10, 4, Direction::Left), None);
    assert_eq!(grid_step(3, 10, 4, Direction::Right), Some(4));
    assert_eq!(grid_step(9, 10, 4, Direction::Right), None);
    assert_eq!(grid_step(5, 10, 4, Direction::Down), Some(9));
    assert_eq!(grid_step(6, 10, 4, Direction::Down), None);
    assert_eq!(grid_step(2, 10, 4, Direction::Up), None);
    assert_eq!(grid_step(6, 10, 4, Direction::Up), Some(2));
    assert_eq!(grid_step(0, 0, 4, Direction::Right), None);
    // No columns is one.
    assert_eq!(grid_step(0, 3, 0, Direction::Down), Some(1));
}

#[test]
fn a_page_moves_the_light_a_page_and_stops_at_the_ends() {
    assert_eq!(page_step(0, 100, 12, true), Some(12));
    assert_eq!(page_step(95, 100, 12, true), Some(99));
    assert_eq!(page_step(99, 100, 12, true), None);
    assert_eq!(page_step(5, 100, 12, false), Some(0));
    assert_eq!(page_step(0, 100, 12, false), None);
    assert_eq!(page_step(0, 0, 12, true), None);
}

#[test]
fn the_subtitle_key_comes_round_through_none() {
    assert_eq!(next_subtitle(0, None), None);
    assert_eq!(next_subtitle(1, None), Some(Some(0)));
    assert_eq!(next_subtitle(1, Some(0)), Some(None));
    assert_eq!(next_subtitle(3, Some(1)), Some(Some(2)));
    assert_eq!(next_subtitle(3, Some(2)), Some(None));
}

#[test]
fn a_shortened_name_keeps_two_thirds_of_its_front() {
    let name = "The Long Goodbye (1973).mkv";
    let cut = shortened(name, 12);
    assert_eq!(cut, "The Long….mkv");
    assert_eq!(shortened("abc", 1), "a…");
    assert_eq!(shortened("abc", 0), "…");
    assert_eq!(shortened("abcdef", 6), "abcd…ef");
}

#[test]
fn a_menu_row_is_built_up_a_part_at_a_time() {
    let line = Line::new(String::from("Subtitles"), "subtitles")
        .detail(String::from("English"))
        .ticked(true)
        .group(2);
    assert_eq!(line.label, "Subtitles");
    assert_eq!(line.detail.as_deref(), Some("English"));
    assert_eq!(line.aside, Some("chosen"));
    assert_eq!(line.group, 2);
    assert_eq!(Line::new(String::from("x"), "y").ticked(false).aside, None);
    assert_ne!(Mode::Grid, Mode::Player);
}

#[test]
fn a_name_too_wide_loses_its_middle_and_keeps_both_ends() {
    let cut = cut_to_fit(|s: String| ruler(&s) <= 120.0, "SomeSeries S01E10.mkv");
    assert!(cut.len() < "SomeSeries S01E10.mkv".len());
    assert!(ruler(&cut) <= 120.0);
    assert!(cut.starts_with("Some"), "the front says which series");
    assert!(cut.ends_with("mkv"), "and the back which episode: {cut}");
}

#[test]
fn a_name_that_fits_is_left_exactly_as_it_is() {
    assert_eq!(cut_to_fit(|s: String| ruler(&s) <= 500.0, "Short.mkv"), "Short.mkv");
    // And no room at all is an ellipsis rather than a panic.
    assert_eq!(cut_to_fit(|s: String| ruler(&s) <= 5.0, "Short.mkv"), "…");
}

use videonsole::view::{cut_from_the_front, place_of, tally, Tally};

#[test]
fn a_path_is_cut_from_the_front_a_folder_at_a_time() {
    let path = "/home/jens/films/series/one";
    assert_eq!(cut_from_the_front(|s: String| ruler(&s) <= 500.0, path), path);
    assert_eq!(
        cut_from_the_front(|s: String| ruler(&s) <= 150.0, path),
        "…/series/one"
    );
    assert_eq!(cut_from_the_front(|s: String| ruler(&s) <= 50.0, path), "…/one");
    // Even the last name too wide: letters come off its front.
    assert_eq!(cut_from_the_front(|s: String| ruler(&s) <= 30.0, path), "…ne");
    assert_eq!(cut_from_the_front(|s: String| ruler(&s) <= 5.0, path), "…");
}

#[test]
fn the_head_counts_films_and_folders() {
    assert_eq!(tally(&[]), Tally::Nothing);
    assert_eq!(tally(&[true, true]), Tally::Folders(2));
    assert_eq!(tally(&[false]), Tally::Films(1));
    assert_eq!(tally(&[true, false, false]), Tally::Both(2, 1));
}

#[test]
fn the_place_in_a_folder_counts_films_only() {
    let folder = [true, false, true, false, false];
    assert_eq!(place_of(&folder, 0), Some((1, 3)));
    assert_eq!(place_of(&folder, 3), Some((2, 3)));
    assert_eq!(place_of(&folder, 4), Some((3, 3)));
    assert_eq!(place_of(&[true], 0), None);
}

#[test]
fn a_step_and_a_step_back_come_home() {
    for cursor in 0..10 {
        for direction in [Direction::Right, Direction::Down] {
            if let Some(at) = grid_step(cursor, 10, 4, direction) {
                let back = if direction == Direction::Right {
                    Direction::Left
                } else {
                    Direction::Up
                };
                assert_eq!(grid_step(at, 10, 4, back), Some(cursor));
            }
        }
    }
}

use videonsole::player::Track;
use videonsole::view::{menu_rows, Command, Setting};

fn setting(playing_page: bool) -> Setting {
    Setting {
        playing_page,
        fill: false,
        run_the_folder: false,
        info: false,
        hidden: false,
        chosen: Some(1),
        order: 0,
    }
}

#[test]
fn the_film_s_menu_lists_every_track_with_the_chosen_one_ticked() {
    let tracks = vec![
        Track {
            name: String::from("English"),
            from_a_file: false,
            forced: false,
        },
        Track {
            name: String::from("en"),
            from_a_file: true,
            forced: false,
        },
    ];
    let (title, rows) = menu_rows(setting(true), &tracks, &[], "beach.mkv");
    assert_eq!(title, "beach.mkv");
    let commands: Vec<Command> = rows.iter().map(|row| row.1).collect();
    assert_eq!(
        commands,
        vec![
            Command::Fill,
            Command::FromTheStart,
            Command::RunTheFolder,
            Command::Subtitles(None),
            Command::Subtitles(Some(0)),
            Command::Subtitles(Some(1)),
            Command::AddSubtitles,
            Command::Info,
            Command::BackToGrid,
        ]
    );
    assert_eq!(rows[0].0.label, "Fill the screen");
    assert_eq!(rows[3].0.aside, None);
    assert_eq!(rows[4].0.aside, None);
    assert_eq!(rows[5].0.aside, Some("chosen"));
    assert_eq!(rows[5].0.detail.as_deref(), Some("From a file"));
    assert_eq!(rows[3].0.group, 2);
}

#[test]
fn a_film_without_tracks_can_still_be_given_one() {
    let (_, rows) = menu_rows(Setting { chosen: None, ..setting(true) }, &[], &[], "x");
    assert_eq!(rows[3].1, Command::Subtitles(None));
    assert_eq!(rows[3].0.aside, Some("chosen"));
    assert_eq!(rows[4].1, Command::AddSubtitles);
}

#[test]
fn the_grid_s_menu_ticks_the_order_it_is_in() {
    let (title, rows) = menu_rows(setting(false), &[], &["Name", "Newest"], "");
    assert_eq!(title, "Options");
    assert_eq!(rows.len(), 5);
    assert_eq!(rows[0].0.aside, Some("chosen"));
    assert_eq!(rows[1].0.aside, None);
    assert_eq!(rows[1].1, Command::SortBy(1));
    assert_eq!(rows[2].0.label, "Show hidden files");
    assert_eq!(rows[4].1, Command::UpAFolder);
}

#[test]
fn back_over_a_film_opened_on_its_own_closes() {
    assert_eq!(leaving(Mode::Player, true, false), Leave::LetGoAndQuit);
    assert!(closes_on_back(Mode::Player, true, false));
    assert_eq!(leaving(Mode::Player, false, true), Leave::BackToGrid);
    assert!(!closes_on_back(Mode::Player, false, true));
}

#[test]
fn back_in_a_folder_goes_up_until_the_top_and_then_closes() {
    assert_eq!(leaving(Mode::Grid, false, false), Leave::UpAFolder);
    assert!(!closes_on_back(Mode::Grid, true, false));
    assert_eq!(leaving(Mode::Grid, true, true), Leave::Quit);
    assert!(closes_on_back(Mode::Grid, false, true));
}

#[test]
fn a_wheel_over_a_film_is_the_volume_and_elsewhere_presses() {
    assert_eq!(wheel(0, Mode::Player, false), Wheel::Nothing);
    assert_eq!(wheel(2, Mode::Player, false), Wheel::Volume(-2));
    assert_eq!(wheel(-3, Mode::Player, false), Wheel::Volume(3));
    assert_eq!(wheel(2, Mode::Player, true), Wheel::Presses(Direction::Down, 2));
    assert_eq!(wheel(-1, Mode::Grid, false), Wheel::Presses(Direction::Up, 1));
    assert_eq!(wheel(4, Mode::Grid, true), Wheel::Presses(Direction::Down, 4));
}

#[test]
fn a_menu_window_follows_the_light_and_no_further() {
    // Ten rows, four at a time.
    assert_eq!(follow_the_menu(0, 5, 10, 4), 2, "just far enough to show row five");
    assert_eq!(follow_the_menu(3, 1, 10, 4), 1, "back up to the row above it");
    assert_eq!(follow_the_menu(2, 4, 10, 4), 2, "a row already showing moves nothing");
    assert_eq!(follow_the_menu(9, 9, 10, 4), 6, "never past the last row");
    assert_eq!(follow_the_menu(0, 2, 3, 4), 0, "a short menu does not scroll");
    assert_eq!(follow_the_menu(0, 3, 10, 0), 3, "a window holds a row at least");
}

#[test]
fn the_films_wanted_are_the_one_watched_and_those_on_the_screen_once_each() {
    let entries = [true, false, false, true, false];
    assert_eq!(wanted(&entries, 2, 1, 4), vec![2, 1], "the one under the light first");
    assert_eq!(wanted(&entries, 0, 0, 10), vec![1, 2, 4], "no folders, and up to the end");
    assert_eq!(wanted(&entries, 4, 3, 1), vec![4], "nothing on a screen that ends first");
    assert_eq!(wanted(&[], 0, 0, 4), Vec::<usize>::new());
}
