use videonsole::controls::{
    accept_row, act, at_the_top, command, kept, landing, placed, run, up_from, Action, Effect, Over, Page,
    Reply, Sound,
};
use videonsole::view::{closes_on_back, wheel, Command, Direction, Leave, Mode, Wheel};

/// A page as a file manager's double-click leaves it: one film playing, in a
/// folder that is the top of the walk.
fn watching() -> Page {
    Page {
        mode: Mode::Player,
        over: Over::Nothing,
        cursor: 0,
        columns: 4,
        page: 12,
        opened_on_a_film: true,
        top_here: true,
        can_go_up: true,
        run_the_folder: false,
        fill: false,
        info: false,
        hidden: false,
        order: 0,
    }
}

/// The same page, browsing the grid of its folder.
fn browsing() -> Page {
    Page { mode: Mode::Grid, opened_on_a_film: false, ..watching() }
}

/// A page placed in a walk rooted at `top`, as it stands in `folder`.
fn in_the_walk(page: Page, folder: &str, top: &str) -> Page {
    let (top_here, can_go_up) = placed(folder, top);
    Page { top_here, can_go_up, ..page }
}

fn at_top_of(page: &Page) -> bool {
    page.top_here || !page.can_go_up
}

const FOUR_FILMS: [bool; 4] = [false, false, false, false];

#[test]
fn a_wheel_in_the_grid_walks_the_grid_instead_of_changing_the_volume() {
    let page = Page { columns: 1, ..browsing() };
    let turned = wheel(1, page.mode, false);
    assert_eq!(turned, Wheel::Presses(Direction::Down, 1));
    let (after, reply) = act(page, &FOUR_FILMS, Action::Down);
    assert_eq!(after.cursor, 1, "one notch is one row");
    assert_eq!(reply.effect, Effect::Nothing, "and nothing was made quieter");
    assert_eq!(reply.sound, Some(Sound::Move));
}

#[test]
fn opened_on_one_film_back_closes() {
    let page = watching();
    assert!(page.opened_on_a_film, "started in the player");
    assert!(closes_on_back(page.mode, page.opened_on_a_film, at_top_of(&page)));
    let (_, reply) = act(page, &FOUR_FILMS, Action::Back);
    assert_eq!(reply.effect, Effect::Leave(Leave::LetGoAndQuit), "Back closed it");
    assert_eq!(reply.sound, Some(Sound::Back));
}

#[test]
fn asking_for_the_folder_makes_it_an_ordinary_walk() {
    let (page, reply) = command(watching(), Command::BackToGrid, true);
    assert_eq!(page.mode, Mode::Grid);
    assert!(!page.opened_on_a_film, "no longer a handed-over film");
    assert_eq!(reply.effect, Effect::PartWithTheFilm);

    let page = in_the_walk(page, "/one/two", "/one");
    assert!(!closes_on_back(page.mode, page.opened_on_a_film, at_top_of(&page)));
    let (_, reply) = act(page, &FOUR_FILMS, Action::Back);
    assert_eq!(
        reply.effect,
        Effect::Leave(Leave::UpAFolder),
        "it walked out of the folder rather than closing"
    );
    assert_eq!(up_from("/one/two"), Some("/one"));
}

#[test]
fn back_closes_at_the_folder_the_walk_was_opened_on() {
    let page = in_the_walk(browsing(), "/home/someone/Films", "/home/someone/Films");
    assert!(closes_on_back(page.mode, page.opened_on_a_film, at_top_of(&page)));
    let (_, reply) = act(page, &FOUR_FILMS, Action::Back);
    assert_eq!(
        reply.effect,
        Effect::Leave(Leave::Quit),
        "it closed rather than walking up to /home/someone"
    );
}

#[test]
fn back_walks_up_to_the_top_but_not_past_it() {
    let top = "/home/someone/Films";
    let page = in_the_walk(browsing(), "/home/someone/Films/Series", top);
    assert!(!closes_on_back(page.mode, page.opened_on_a_film, at_top_of(&page)));
    let (_, reply) = act(page, &FOUR_FILMS, Action::Back);
    assert_eq!(reply.effect, Effect::Leave(Leave::UpAFolder));
    let up = up_from("/home/someone/Films/Series").unwrap();
    assert_eq!(up, "/home/someone/Films");
    assert!(at_the_top(up, top), "and now it is at the top");
    let page = in_the_walk(page, up, top);
    assert!(closes_on_back(page.mode, page.opened_on_a_film, at_top_of(&page)));
}

#[test]
fn asking_to_go_above_the_top_moves_the_top() {
    let page = in_the_walk(browsing(), "/home/someone/Films", "/home/someone/Films");
    let (page, reply) = run(page, Command::UpAFolder, false);
    assert_eq!(reply.effect, Effect::RaiseTheTop);
    assert_eq!(reply.sound, Some(Sound::Back));
    let up = up_from("/home/someone/Films").unwrap();
    assert_eq!(up, "/home/someone");
    let page = in_the_walk(page, up, up);
    assert!(
        closes_on_back(page.mode, page.opened_on_a_film, at_top_of(&page)),
        "the new folder is the new top"
    );
}

#[test]
fn the_root_has_nothing_above_it_and_is_the_top() {
    assert_eq!(up_from("/"), None);
    assert!(at_the_top("/", "/home"));
    assert!(!at_the_top("/home/someone", "/home"));
    assert!(at_the_top("/home/someone/", "/home/someone"), "a path, not its letters");
    let (_, reply) = run(in_the_walk(browsing(), "/", "/home"), Command::UpAFolder, false);
    assert_eq!(reply.effect, Effect::Nothing);
    assert_eq!(reply.sound, Some(Sound::Error));
}

#[test]
fn a_menu_opened_and_closed_leaves_the_page_as_it_was() {
    let page = Page { cursor: 2, ..browsing() };
    let (opened, reply) = act(page, &FOUR_FILMS, Action::Menu);
    assert_eq!(opened.over, Over::Menu);
    assert_eq!(reply, Reply { effect: Effect::OpenMenu, sound: Some(Sound::Press), wakes: true });
    let (closed, reply) = act(opened, &FOUR_FILMS, Action::Back);
    assert_eq!(closed, page);
    assert_eq!(reply, Reply { effect: Effect::MenuClose, sound: Some(Sound::Back), wakes: false });
}

#[test]
fn a_dialog_reads_the_press_and_the_page_does_not() {
    let page = Page { over: Over::Dialog, cursor: 1, ..browsing() };
    let (after, reply) = act(page, &FOUR_FILMS, Action::Right);
    assert_eq!(after, page);
    assert_eq!(reply.effect, Effect::DialogStep(true));
    assert_eq!(reply.sound, Some(Sound::Move));
    let (after, reply) = act(page, &FOUR_FILMS, Action::Down);
    assert_eq!(after, page);
    assert_eq!(reply, Reply { effect: Effect::Nothing, sound: None, wakes: false });
    let (after, reply) = act(page, &FOUR_FILMS, Action::Accept);
    assert_eq!(after.over, Over::Nothing);
    assert_eq!(reply.effect, Effect::DialogAccept);
}

#[test]
fn the_chooser_answers_for_itself() {
    let page = Page { over: Over::Chooser, ..browsing() };
    let (after, reply) = act(page, &FOUR_FILMS, Action::Back);
    assert_eq!(after, page);
    assert_eq!(reply, Reply { effect: Effect::Chooser(Action::Back), sound: None, wakes: false });
}

#[test]
fn the_grid_stops_at_its_edges_and_pages_inside_it() {
    let page = Page { cursor: 3, ..browsing() };
    let (after, reply) = act(page, &FOUR_FILMS, Action::Right);
    assert_eq!(after.cursor, 3);
    assert_eq!(reply.sound, None);
    let (after, reply) = act(page, &FOUR_FILMS, Action::Previous);
    assert_eq!(after.cursor, 0);
    assert_eq!(reply.sound, Some(Sound::Move));
    let (after, _) = act(page, &[], Action::Left);
    assert_eq!(after.cursor, 3, "an empty folder has nowhere to go");
}

#[test]
fn accept_goes_into_a_folder_and_opens_a_film() {
    let entries = [true, false];
    let (after, reply) = act(browsing(), &entries, Action::Accept);
    assert_eq!(reply.effect, Effect::EnterFolder);
    assert_eq!(after.mode, Mode::Grid);
    let (after, reply) = act(Page { cursor: 1, ..browsing() }, &entries, Action::Accept);
    assert_eq!(reply.effect, Effect::ShowFilm);
    assert_eq!(after.mode, Mode::Player);
    let (_, reply) = act(Page { cursor: 2, ..browsing() }, &entries, Action::Accept);
    assert_eq!(reply.sound, Some(Sound::Error), "no card under the light");
}

#[test]
fn submit_plays_the_folder_from_its_first_film() {
    let entries = [true, true, false, false];
    let (after, reply) = act(browsing(), &entries, Action::Submit);
    assert_eq!(after.cursor, 2);
    assert!(after.run_the_folder);
    assert_eq!(after.mode, Mode::Player);
    assert_eq!(reply.effect, Effect::ShowFilm);
    let (_, reply) = act(browsing(), &[true, true], Action::Submit);
    assert_eq!(reply.sound, Some(Sound::Error), "nothing to play");
}

#[test]
fn the_player_hands_seeking_and_loudness_to_the_film() {
    let page = Page { opened_on_a_film: false, ..watching() };
    assert_eq!(act(page, &FOUR_FILMS, Action::Left).1.effect, Effect::Seek(true));
    assert_eq!(act(page, &FOUR_FILMS, Action::Up).1.effect, Effect::Volume(true));
    assert_eq!(act(page, &FOUR_FILMS, Action::Next).1.effect, Effect::StepFilm(false));
    assert_eq!(act(page, &FOUR_FILMS, Action::Accept).1.effect, Effect::PlayPause);
    let (after, reply) = act(page, &FOUR_FILMS, Action::Back);
    assert_eq!(reply.effect, Effect::Leave(Leave::BackToGrid));
    assert_eq!(after.mode, Mode::Grid);
    let (after, _) = act(page, &FOUR_FILMS, Action::Submit);
    assert!(after.run_the_folder);
}

#[test]
fn a_switch_twice_is_undone() {
    for switch in [Command::Fill, Command::Info, Command::RunTheFolder, Command::ShowHidden] {
        let (once, _) = run(browsing(), switch, false);
        assert_ne!(once, browsing());
        let (twice, _) = run(once, switch, false);
        assert_eq!(twice, browsing());
    }
}

#[test]
fn a_row_with_no_answer_is_heard_as_a_press() {
    let (_, reply) = accept_row(watching(), None, true);
    assert_eq!(reply.sound, Some(Sound::Press));
    let (after, reply) = accept_row(watching(), Some(Command::SortBy(2)), true);
    assert_eq!(after.order, 2);
    assert_eq!(reply.effect, Effect::Reread);
    assert_eq!(reply.sound, Some(Sound::Press));
    let (_, reply) = accept_row(watching(), Some(Command::AddSubtitles), false);
    assert_eq!(reply.sound, Some(Sound::Error), "no film to add them to");
    let (_, reply) = command(watching(), Command::Subtitles(Some(1)), true);
    assert_eq!(reply.effect, Effect::ChooseSubtitles(Some(1)));
    assert!(reply.wakes);
}

#[test]
fn going_up_lands_on_the_folder_just_left() {
    let listing = vec![
        String::from("/home/someone/Films/Documentaries"),
        String::from("/home/someone/Films/Series"),
        String::from("/home/someone/Films/a.mkv"),
    ];
    assert_eq!(landing(&listing, Some("/home/someone/Films/Series")), 1);
    assert_eq!(landing(&listing, Some("/home/someone/Films/Series/")), 1, "a path, not its letters");
    assert_eq!(landing(&listing, Some("/elsewhere")), 0, "the first card otherwise");
    assert_eq!(landing(&listing, None), 0);
}

#[test]
fn reading_a_folder_again_keeps_the_light_on_its_entry() {
    let listing = vec![String::from("/f/b.mkv"), String::from("/f/a.mkv")];
    assert_eq!(kept(&listing, Some("/f/a.mkv")), 1, "sorted anew, and followed");
    assert_eq!(kept(&listing, Some("/f/.hidden.mkv")), 0, "hidden again: the first card");
    assert_eq!(kept(&[], Some("/f/a.mkv")), 0, "an empty folder");
}
