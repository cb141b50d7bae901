//! What every control does to the page.
//!
//! A press — of a pad's button, a key, a turn of the wheel — is read against
//! what is open over the page and where the light is, and becomes three
//! things: the page as it stands after it, what the player, the folder and
//! the panels are asked to do, and what is heard. The asking is left to
//! whoever holds the player and the panels; what they answer, where they
//! answer anything, is what is heard.

use vstd::prelude::*;

use crate::paths::{parent, parent_of, same, same_path};
use crate::view::{
    grid_step, leave_of, page_step, paged, stepped, Command, Direction, Leave, Mode,
};

verus! {

/// What a control asks for, whichever control it was.
#[derive(Debug, Clone, Copy, PartialEq, Eq, Structural)]
pub enum Action {
    Left,
    Right,
    Up,
    Down,
    Previous,
    Next,
    Accept,
    Back,
    Menu,
    Submit,
}

/// What a press is answered with.
#[derive(Debug, Clone, Copy, PartialEq, Eq, Structural)]
pub enum Sound {
    Move,
    Press,
    Back,
    Error,
}

/// What reads a press before the page does: the file chooser while it is
/// busy, then a dialog, then a menu. One thing at a time.
#[derive(Debug, Clone, Copy, PartialEq, Eq, Structural)]
pub enum Over {
    Nothing,
    Menu,
    Dialog,
    Chooser,
}

/// The page, as far as a press can change it.
#[derive(Debug, Clone, Copy, PartialEq, Eq, Structural)]
pub struct Page {
    /// The grid of the folder, or a film.
    pub mode: Mode,
    /// What reads a press before the page does.
    pub over: Over,
    /// The card the light is on.
    pub cursor: usize,
    /// How many cards a row of the grid holds.
    pub columns: usize,
    /// How many cards a page of the grid holds.
    pub page: usize,
    /// Whether this was started on one film rather than on a folder, which
    /// makes Back the way out of the application.
    pub opened_on_a_film: bool,
    /// Whether this folder is the one the walk is rooted at.
    pub top_here: bool,
    /// Whether there is a folder above this one.
    pub can_go_up: bool,
    /// Whether the whole folder is being played through.
    pub run_the_folder: bool,
    /// Whether the film fills the screen rather than fitting it.
    pub fill: bool,
    /// Whether the details are showing.
    pub info: bool,
    /// Whether hidden files are listed.
    pub hidden: bool,
    /// The order the listing is in, as its place among the orders.
    pub order: usize,
}

/// What a press asks of whatever is outside the page.
#[derive(Debug, Clone, Copy, PartialEq, Eq, Structural)]
pub enum Effect {
    /// Nothing: the page is all that changed.
    Nothing,
    /// The file chooser reads the press itself, and what it answers is heard.
    Chooser(Action),
    /// The dialog's light moves, forwards where this holds.
    DialogStep(bool),
    /// The dialog's button under the light is pressed, and the dialog closes.
    DialogAccept,
    /// The dialog closes.
    DialogClose,
    /// The menu's light moves, down where this holds.
    MenuStep(bool),
    /// The menu's row under the light is pressed and the menu closes; the
    /// row's command is then run (see `accept_row`), and what that answers is
    /// heard.
    MenuAccept,
    /// The menu closes.
    MenuClose,
    /// The Options menu is raised.
    OpenMenu,
    /// Into the folder under the light.
    EnterFolder,
    /// The film under the light is opened and played.
    ShowFilm,
    /// Through the film, backwards where this holds, as far as the hold has
    /// grown; what the seek answers is heard.
    Seek(bool),
    /// A step louder where this holds, and quieter where it does not; what
    /// the change answers is heard.
    Volume(bool),
    /// To the film before this one in the folder where this holds, and after
    /// it where it does not; what that answers is heard.
    StepFilm(bool),
    /// Play or pause, or start again where the film had run out; what that
    /// answers is heard.
    PlayPause,
    /// What Back does.
    Leave(Leave),
    /// Up a folder from the top of the walk, the top following.
    RaiseTheTop,
    /// The film from its start, the place it was left forgotten.
    Restart,
    /// This subtitle track shown, or none.
    ChooseSubtitles(Option<usize>),
    /// The chooser asked for a subtitle file beside the film; it answers
    /// `Error` where it could not be raised.
    AskForSubtitle,
    /// The chooser asked for a folder.
    AskForFolder,
    /// The folder read again, in its order and with or without hidden files.
    Reread,
    /// The film stopped, its place written down, and put back into its card.
    PartWithTheFilm,
}

/// What a press comes to: what is asked of the outside, what is heard where
/// the outside answers nothing, and whether the transport wakes up.
#[derive(Debug, Clone, Copy, PartialEq, Eq, Structural)]
pub struct Reply {
    pub effect: Effect,
    pub sound: Option<Sound>,
    pub wakes: bool,
}

/// Whether the folder on the page is as far out as the walk goes.
pub open spec fn at_top(p: Page) -> bool {
    p.top_here || !p.can_go_up
}

/// The page once it has gone to another folder: the grid, an ordinary walk,
/// nothing being played through. Where the light lands (see `landing`) and
/// where the new folder stands in the walk (see `placed`) are read off the
/// folder once it has been read.
pub open spec fn moved(p: Page) -> Page {
    Page { opened_on_a_film: false, mode: Mode::Grid, run_the_folder: false, ..p }
}

/// What Back does on the page.
pub open spec fn left(p: Page) -> (Page, Effect, Option<Sound>) {
    let leave = leave_of(p.mode, p.opened_on_a_film, at_top(p));
    let after = match leave {
        Leave::BackToGrid => Page { mode: Mode::Grid, run_the_folder: false, ..p },
        Leave::UpAFolder => moved(p),
        _ => p,
    };
    (after, Effect::Leave(leave), Some(Sound::Back))
}

/// The first film among the entries, where there is one.
pub open spec fn first_film(is_folder: Seq<bool>) -> Option<int>
    decreases is_folder.len(),
{
    if is_folder.len() == 0 {
        None
    } else if !is_folder[0] {
        Some(0)
    } else {
        match first_film(is_folder.drop_first()) {
            Some(i) => Some(i + 1),
            None => None,
        }
    }
}

/// The direction a press of a direction is.
pub open spec fn direction_of(action: Action) -> Direction {
    match action {
        Action::Left => Direction::Left,
        Action::Right => Direction::Right,
        Action::Up => Direction::Up,
        _ => Direction::Down,
    }
}

/// A press in the grid. The directions move the light a card or a row, and
/// stop at the edges; Previous and Next move it a page; Accept goes into a
/// folder or opens a film; Submit plays the folder through from the film
/// under the light, or from the first film where the light is on a folder.
pub open spec fn grid_acted(p: Page, is_folder: Seq<bool>, action: Action) -> (
    Page,
    Effect,
    Option<Sound>,
) {
    let count = is_folder.len() as int;
    match action {
        Action::Left | Action::Right | Action::Up | Action::Down => match stepped(
            p.cursor as int,
            count,
            p.columns as int,
            direction_of(action),
        ) {
            Some(at) => (Page { cursor: at as usize, ..p }, Effect::Nothing, Some(Sound::Move)),
            None => (p, Effect::Nothing, None),
        },
        Action::Previous | Action::Next => match paged(
            p.cursor as int,
            count,
            p.page as int,
            action == Action::Next,
        ) {
            Some(at) => (Page { cursor: at as usize, ..p }, Effect::Nothing, Some(Sound::Move)),
            None => (p, Effect::Nothing, None),
        },
        Action::Accept => if p.cursor >= count {
            (p, Effect::Nothing, Some(Sound::Error))
        } else if is_folder[p.cursor as int] {
            (moved(p), Effect::EnterFolder, Some(Sound::Press))
        } else {
            (Page { mode: Mode::Player, ..p }, Effect::ShowFilm, Some(Sound::Press))
        },
        Action::Back => left(p),
        Action::Menu => (Page { over: Over::Menu, ..p }, Effect::OpenMenu, Some(Sound::Press)),
        Action::Submit => match first_film(is_folder) {
            None => (p, Effect::Nothing, Some(Sound::Error)),
            Some(first) => {
                let at = if p.cursor < count && is_folder[p.cursor as int] {
                    first
                } else {
                    p.cursor as int
                };
                let a_film = at < count && !is_folder[at];
                (
                    Page {
                        cursor: at as usize,
                        run_the_folder: true,
                        mode: if a_film {
                            Mode::Player
                        } else {
                            p.mode
                        },
                        ..p
                    },
                    Effect::ShowFilm,
                    Some(Sound::Press),
                )
            },
        },
    }
}

/// A press over a film. Left and Right move through it, Up and Down change
/// how loud it is, Previous and Next go to the film either side, Accept plays
/// or pauses, and Submit says whether the folder is played through.
pub open spec fn player_acted(p: Page, action: Action) -> (Page, Effect, Option<Sound>) {
    match action {
        Action::Left => (p, Effect::Seek(true), None),
        Action::Right => (p, Effect::Seek(false), None),
        Action::Up => (p, Effect::Volume(true), None),
        Action::Down => (p, Effect::Volume(false), None),
        Action::Previous => (p, Effect::StepFilm(true), None),
        Action::Next => (p, Effect::StepFilm(false), None),
        Action::Accept => (p, Effect::PlayPause, None),
        Action::Back => left(p),
        Action::Menu => (Page { over: Over::Menu, ..p }, Effect::OpenMenu, Some(Sound::Press)),
        Action::Submit => (
            Page { run_the_folder: !p.run_the_folder, ..p },
            Effect::Nothing,
            Some(Sound::Press),
        ),
    }
}

/// A press with a dialog open: Left and Right move along its buttons, Accept
/// presses one and Back closes it. Anything else goes nowhere.
pub open spec fn dialog_acted(p: Page, action: Action) -> (Page, Effect, Option<Sound>) {
    match action {
        Action::Left => (p, Effect::DialogStep(false), Some(Sound::Move)),
        Action::Right => (p, Effect::DialogStep(true), Some(Sound::Move)),
        Action::Accept => (
            Page { over: Over::Nothing, ..p },
            Effect::DialogAccept,
            Some(Sound::Press),
        ),
        Action::Back => (Page { over: Over::Nothing, ..p }, Effect::DialogClose, Some(Sound::Back)),
        _ => (p, Effect::Nothing, None),
    }
}

/// A press with a menu open: Up and Down walk its rows, Accept runs one, and
/// Back or Menu closes it. Anything else goes nowhere.
pub open spec fn menu_acted(p: Page, action: Action) -> (Page, Effect, Option<Sound>) {
    match action {
        Action::Up => (p, Effect::MenuStep(false), Some(Sound::Move)),
        Action::Down => (p, Effect::MenuStep(true), Some(Sound::Move)),
        Action::Accept => (Page { over: Over::Nothing, ..p }, Effect::MenuAccept, Some(Sound::Press)),
        Action::Back | Action::Menu => (
            Page { over: Over::Nothing, ..p },
            Effect::MenuClose,
            Some(Sound::Back),
        ),
        _ => (p, Effect::Nothing, None),
    }
}

/// A press, read by whatever is open over the page first, and by the page
/// where nothing is. Only a press the page itself reads wakes the transport.
pub open spec fn acted(p: Page, is_folder: Seq<bool>, action: Action) -> (Page, Reply) {
    let (after, effect, sound) = match p.over {
        Over::Chooser => (p, Effect::Chooser(action), None),
        Over::Dialog => dialog_acted(p, action),
        Over::Menu => menu_acted(p, action),
        Over::Nothing => match p.mode {
            Mode::Grid => grid_acted(p, is_folder, action),
            Mode::Player => player_acted(p, action),
        },
    };
    (after, Reply { effect, sound, wakes: p.over == Over::Nothing })
}

/// A command of the Options menu, or of the keyboard's shorthands, on the
/// page. `has_player` is whether a film is open.
pub open spec fn ran(p: Page, command: Command, has_player: bool) -> (Page, Effect, Option<Sound>) {
    match command {
        Command::Fill => (Page { fill: !p.fill, ..p }, Effect::Nothing, None),
        Command::FromTheStart => (p, Effect::Restart, None),
        Command::Info => (Page { info: !p.info, ..p }, Effect::Nothing, None),
        Command::RunTheFolder => (
            Page { run_the_folder: !p.run_the_folder, ..p },
            Effect::Nothing,
            None,
        ),
        Command::Subtitles(track) => (p, Effect::ChooseSubtitles(track), None),
        Command::AddSubtitles => if has_player {
            (p, Effect::AskForSubtitle, None)
        } else {
            (p, Effect::Nothing, Some(Sound::Error))
        },
        Command::OpenFolder => (p, Effect::AskForFolder, None),
        Command::UpAFolder => if !p.can_go_up {
            (p, Effect::Nothing, Some(Sound::Error))
        } else if p.top_here {
            (moved(p), Effect::RaiseTheTop, Some(Sound::Back))
        } else {
            (moved(p), Effect::Leave(Leave::UpAFolder), Some(Sound::Back))
        },
        Command::ShowHidden => (Page { hidden: !p.hidden, ..p }, Effect::Reread, None),
        Command::SortBy(order) => (Page { order, ..p }, Effect::Reread, None),
        Command::BackToGrid => (
            Page { opened_on_a_film: false, mode: Mode::Grid, run_the_folder: false, ..p },
            Effect::PartWithTheFilm,
            Some(Sound::Back),
        ),
    }
}

/// What is heard of a command run from a menu or a key: what it answers, and
/// `Press` where it answers nothing.
pub open spec fn or_press(sound: Option<Sound>) -> Option<Sound> {
    match sound {
        Some(s) => Some(s),
        None => Some(Sound::Press),
    }
}

/// Where the first film among the entries is.
fn find_first_film(is_folder: &[bool]) -> (first: Option<usize>)
    ensures
        match first {
            Some(i) => first_film(is_folder@) == Some(i as int),
            None => first_film(is_folder@) is None,
        },
{
    let mut i: usize = 0;
    while i < is_folder.len()
        invariant
            0 <= i <= is_folder.len(),
            forall|j: int| 0 <= j < i ==> is_folder@[j],
        decreases is_folder.len() - i,
    {
        if !is_folder[i] {
            proof {
                lemma_first_film(is_folder@, i as int);
            }
            return Some(i);
        }
        i += 1;
    }
    proof {
        lemma_first_film(is_folder@, i as int);
    }
    None
}

/// Where every entry before `i` is a folder, the first film is at `i` where
/// that is a film, and there is none where `i` is the end.
proof fn lemma_first_film(is_folder: Seq<bool>, i: int)
    requires
        0 <= i <= is_folder.len(),
        forall|j: int| 0 <= j < i ==> is_folder[j],
    ensures
        i < is_folder.len() && !is_folder[i] ==> first_film(is_folder) == Some(i),
        i == is_folder.len() ==> first_film(is_folder) is None,
    decreases i,
{
    if i > 0 {
        let rest = is_folder.drop_first();
        assert forall|j: int| 0 <= j < i - 1 implies rest[j] by {
            assert(rest[j] == is_folder[j + 1]);
        }
        lemma_first_film(rest, i - 1);
    }
}

/// What Back does on the page.
fn leave(p: Page) -> (out: (Page, Effect, Option<Sound>))
    ensures
        out == left(p),
{
    let at_the_top = p.top_here || !p.can_go_up;
    let leave = crate::view::leaving(p.mode, p.opened_on_a_film, at_the_top);
    let after = match leave {
        Leave::BackToGrid => Page { mode: Mode::Grid, run_the_folder: false, ..p },
        Leave::UpAFolder => Page {
            opened_on_a_film: false,
            mode: Mode::Grid,
            run_the_folder: false,
            ..p
        },
        _ => p,
    };
    (after, Effect::Leave(leave), Some(Sound::Back))
}

/// A press in the grid.
fn grid_act(p: Page, is_folder: &[bool], action: Action) -> (out: (Page, Effect, Option<Sound>))
    ensures
        out == grid_acted(p, is_folder@, action),
{
    let count = is_folder.len();
    match action {
        Action::Left | Action::Right | Action::Up | Action::Down => {
            let direction = match action {
                Action::Left => Direction::Left,
                Action::Right => Direction::Right,
                Action::Up => Direction::Up,
                _ => Direction::Down,
            };
            match grid_step(p.cursor, count, p.columns, direction) {
                Some(at) => (Page { cursor: at, ..p }, Effect::Nothing, Some(Sound::Move)),
                None => (p, Effect::Nothing, None),
            }
        },
        Action::Previous | Action::Next => {
            let forward = match action {
                Action::Next => true,
                _ => false,
            };
            match page_step(p.cursor, count, p.page, forward) {
                Some(at) => (Page { cursor: at, ..p }, Effect::Nothing, Some(Sound::Move)),
                None => (p, Effect::Nothing, None),
            }
        },
        Action::Accept => if p.cursor >= count {
            (p, Effect::Nothing, Some(Sound::Error))
        } else if is_folder[p.cursor] {
            (
                Page { opened_on_a_film: false, mode: Mode::Grid, run_the_folder: false, ..p },
                Effect::EnterFolder,
                Some(Sound::Press),
            )
        } else {
            (Page { mode: Mode::Player, ..p }, Effect::ShowFilm, Some(Sound::Press))
        },
        Action::Back => leave(p),
        Action::Menu => (Page { over: Over::Menu, ..p }, Effect::OpenMenu, Some(Sound::Press)),
        Action::Submit => match find_first_film(is_folder) {
            None => (p, Effect::Nothing, Some(Sound::Error)),
            Some(first) => {
                let at = if p.cursor < count && is_folder[p.cursor] {
                    first
                } else {
                    p.cursor
                };
                let a_film = at < count && !is_folder[at];
                let mode = if a_film {
                    Mode::Player
                } else {
                    p.mode
                };
                (
                    Page { cursor: at, run_the_folder: true, mode, ..p },
                    Effect::ShowFilm,
                    Some(Sound::Press),
                )
            },
        },
    }
}

/// A press over a film.
fn player_act(p: Page, action: Action) -> (out: (Page, Effect, Option<Sound>))
    ensures
        out == player_acted(p, action),
{
    match action {
        Action::Left => (p, Effect::Seek(true), None),
        Action::Right => (p, Effect::Seek(false), None),
        Action::Up => (p, Effect::Volume(true), None),
        Action::Down => (p, Effect::Volume(false), None),
        Action::Previous => (p, Effect::StepFilm(true), None),
        Action::Next => (p, Effect::StepFilm(false), None),
        Action::Accept => (p, Effect::PlayPause, None),
        Action::Back => leave(p),
        Action::Menu => (Page { over: Over::Menu, ..p }, Effect::OpenMenu, Some(Sound::Press)),
        Action::Submit => (
            Page { run_the_folder: !p.run_the_folder, ..p },
            Effect::Nothing,
            Some(Sound::Press),
        ),
    }
}

/// A press with a dialog open.
fn dialog_act(p: Page, action: Action) -> (out: (Page, Effect, Option<Sound>))
    ensures
        out == dialog_acted(p, action),
{
    match action {
        Action::Left => (p, Effect::DialogStep(false), Some(Sound::Move)),
        Action::Right => (p, Effect::DialogStep(true), Some(Sound::Move)),
        Action::Accept => (
            Page { over: Over::Nothing, ..p },
            Effect::DialogAccept,
            Some(Sound::Press),
        ),
        Action::Back => (Page { over: Over::Nothing, ..p }, Effect::DialogClose, Some(Sound::Back)),
        _ => (p, Effect::Nothing, None),
    }
}

/// A press with a menu open.
fn menu_act(p: Page, action: Action) -> (out: (Page, Effect, Option<Sound>))
    ensures
        out == menu_acted(p, action),
{
    match action {
        Action::Up => (p, Effect::MenuStep(false), Some(Sound::Move)),
        Action::Down => (p, Effect::MenuStep(true), Some(Sound::Move)),
        Action::Accept => (Page { over: Over::Nothing, ..p }, Effect::MenuAccept, Some(Sound::Press)),
        Action::Back | Action::Menu => (
            Page { over: Over::Nothing, ..p },
            Effect::MenuClose,
            Some(Sound::Back),
        ),
        _ => (p, Effect::Nothing, None),
    }
}

/// What a press does, given the page and which of the folder's entries are
/// folders.
pub fn act(p: Page, is_folder: &[bool], action: Action) -> (out: (Page, Reply))
    ensures
        out == acted(p, is_folder@, action),
{
    let (after, effect, sound) = match p.over {
        Over::Chooser => (p, Effect::Chooser(action), None),
        Over::Dialog => dialog_act(p, action),
        Over::Menu => menu_act(p, action),
        Over::Nothing => match p.mode {
            Mode::Grid => grid_act(p, is_folder, action),
            Mode::Player => player_act(p, action),
        },
    };
    let wakes = match p.over {
        Over::Nothing => true,
        _ => false,
    };
    (after, Reply { effect, sound, wakes })
}

/// What a command does to the page, and what it asks of the outside.
pub fn run(p: Page, command: Command, has_player: bool) -> (out: (Page, Reply))
    ensures
        out.0 == ran(p, command, has_player).0,
        out.1 == (Reply {
            effect: ran(p, command, has_player).1,
            sound: ran(p, command, has_player).2,
            wakes: false,
        }),
{
    let (after, effect, sound) = match command {
        Command::Fill => (Page { fill: !p.fill, ..p }, Effect::Nothing, None),
        Command::FromTheStart => (p, Effect::Restart, None),
        Command::Info => (Page { info: !p.info, ..p }, Effect::Nothing, None),
        Command::RunTheFolder => (
            Page { run_the_folder: !p.run_the_folder, ..p },
            Effect::Nothing,
            None,
        ),
        Command::Subtitles(track) => (p, Effect::ChooseSubtitles(track), None),
        Command::AddSubtitles => if has_player {
            (p, Effect::AskForSubtitle, None)
        } else {
            (p, Effect::Nothing, Some(Sound::Error))
        },
        Command::OpenFolder => (p, Effect::AskForFolder, None),
        Command::UpAFolder => if !p.can_go_up {
            (p, Effect::Nothing, Some(Sound::Error))
        } else {
            let after = Page {
                opened_on_a_film: false,
                mode: Mode::Grid,
                run_the_folder: false,
                ..p
            };
            if p.top_here {
                (after, Effect::RaiseTheTop, Some(Sound::Back))
            } else {
                (after, Effect::Leave(Leave::UpAFolder), Some(Sound::Back))
            }
        },
        Command::ShowHidden => (Page { hidden: !p.hidden, ..p }, Effect::Reread, None),
        Command::SortBy(order) => (Page { order, ..p }, Effect::Reread, None),
        Command::BackToGrid => (
            Page { opened_on_a_film: false, mode: Mode::Grid, run_the_folder: false, ..p },
            Effect::PartWithTheFilm,
            Some(Sound::Back),
        ),
    };
    (after, Reply { effect, sound, wakes: false })
}

/// A command from the keyboard's shorthands: it wakes the transport, and is
/// heard as `Press` where it answers nothing.
pub fn command(p: Page, wanted: Command, has_player: bool) -> (out: (Page, Reply))
    ensures
        out.0 == ran(p, wanted, has_player).0,
        out.1 == (Reply {
            effect: ran(p, wanted, has_player).1,
            sound: or_press(ran(p, wanted, has_player).2),
            wakes: true,
        }),
{
    let (after, reply) = run(p, wanted, has_player);
    let sound = match reply.sound {
        Some(s) => Some(s),
        None => Some(Sound::Press),
    };
    (after, Reply { effect: reply.effect, sound, wakes: true })
}

/// The row a menu was accepted on, once it has closed: its command where it
/// has one, heard as `Press` where it answers nothing, and just `Press`
/// where the row had no command.
pub fn accept_row(p: Page, chosen: Option<Command>, has_player: bool) -> (out: (Page, Reply))
    ensures
        match chosen {
            Some(c) => out.0 == ran(p, c, has_player).0 && out.1 == (Reply {
                effect: ran(p, c, has_player).1,
                sound: or_press(ran(p, c, has_player).2),
                wakes: false,
            }),
            None => out.0 == p && out.1 == (Reply {
                effect: Effect::Nothing,
                sound: Some(Sound::Press),
                wakes: false,
            }),
        },
{
    match chosen {
        Some(c) => {
            let (after, reply) = run(p, c, has_player);
            let sound = match reply.sound {
                Some(s) => Some(s),
                None => Some(Sound::Press),
            };
            (after, Reply { effect: reply.effect, sound, wakes: false })
        },
        None => (p, Reply { effect: Effect::Nothing, sound: Some(Sound::Press), wakes: false }),
    }
}

/// Where among some paths the first that is the same path as `was` is.
pub open spec fn first_same(paths: Seq<Seq<char>>, was: Seq<char>) -> Option<int>
    decreases paths.len(),
{
    if paths.len() == 0 {
        None
    } else if same_path(paths[0], was) {
        Some(0)
    } else {
        match first_same(paths.drop_first(), was) {
            Some(i) => Some(i + 1),
            None => None,
        }
    }
}

/// The text of each path of a listing.
pub open spec fn texts_of(paths: Seq<String>) -> Seq<Seq<char>> {
    paths.map_values(|p: String| p@)
}

/// Where the light lands in a folder just read: on the entry it was asked to
/// land on — the folder just left, on the way up — where that is listed, and
/// on the first card otherwise.
pub open spec fn landed(paths: Seq<Seq<char>>, was: Option<Seq<char>>) -> int {
    match was {
        Some(w) => match first_same(paths, w) {
            Some(i) => i,
            None => 0,
        },
        None => 0,
    }
}

/// Where the light stays when the same folder is read again, sorted anew or
/// with hidden files shown or not: on the entry it was on where that is still
/// listed, on the first card otherwise, and never past the last.
pub open spec fn kept_on(paths: Seq<Seq<char>>, was: Option<Seq<char>>) -> int {
    let at = landed(paths, was);
    let last = if paths.len() > 0 {
        paths.len() - 1
    } else {
        0
    };
    if at > last {
        last
    } else {
        at
    }
}

/// Where every path before `i` is another path than `was`, the first that is
/// the same is at `i` where that one is, and there is none where `i` is the
/// end.
proof fn lemma_first_same(paths: Seq<Seq<char>>, was: Seq<char>, i: int)
    requires
        0 <= i <= paths.len(),
        forall|j: int| 0 <= j < i ==> !same_path(paths[j], was),
    ensures
        i < paths.len() && same_path(paths[i], was) ==> first_same(paths, was) == Some(i),
        i == paths.len() ==> first_same(paths, was) is None,
    decreases i,
{
    if i > 0 {
        let rest = paths.drop_first();
        assert forall|j: int| 0 <= j < i - 1 implies !same_path(rest[j], was) by {
            assert(rest[j] == paths[j + 1]);
        }
        lemma_first_same(rest, was, i - 1);
    }
}

/// Where the light lands in a folder just read, given the paths it lists.
pub fn landing(paths: &[String], was: Option<&str>) -> (at: usize)
    ensures
        at == landed(
            texts_of(paths@),
            match was {
                Some(w) => Some(w@),
                None => None,
            },
        ),
{
    let w = match was {
        Some(w) => w,
        None => return 0,
    };
    let ghost texts = texts_of(paths@);
    let mut i: usize = 0;
    while i < paths.len()
        invariant
            i <= paths@.len(),
            texts == texts_of(paths@),
            texts.len() == paths@.len(),
            was == Some(w),
            forall|j: int| 0 <= j < i ==> !same_path(#[trigger] texts[j], w@),
        decreases paths@.len() - i,
    {
        assert(texts[i as int] == paths@[i as int]@);
        if same(paths[i].as_str(), w) {
            proof {
                lemma_first_same(texts, w@, i as int);
            }
            return i;
        }
        i += 1;
    }
    proof {
        lemma_first_same(texts, w@, i as int);
    }
    0
}

/// Where the light stays when the same folder is read again.
pub fn kept(paths: &[String], was: Option<&str>) -> (at: usize)
    ensures
        at == kept_on(
            texts_of(paths@),
            match was {
                Some(w) => Some(w@),
                None => None,
            },
        ),
        paths@.len() > 0 ==> at < paths@.len(),
{
    let at = landing(paths, was);
    let last = if paths.len() > 0 {
        paths.len() - 1
    } else {
        0
    };
    if at > last {
        last
    } else {
        at
    }
}

/// Whether a folder is as far out as the walk rooted at `top` goes: the top
/// itself, or a folder with nothing above it.
pub open spec fn topmost(folder: Seq<char>, top: Seq<char>) -> bool {
    same_path(folder, top) || upward(folder) is None
}

/// The folder above this one, where there is one that is not this one.
pub open spec fn upward(folder: Seq<char>) -> Option<Seq<char>> {
    match parent_of(folder) {
        Some(up) => if same_path(up, folder) {
            None
        } else {
            Some(up)
        },
        None => None,
    }
}

/// Whether this folder is as far out as the walk goes.
pub fn at_the_top(folder: &str, top: &str) -> (at: bool)
    ensures
        at == topmost(folder@, top@),
{
    if same(folder, top) {
        return true;
    }
    match parent(folder) {
        Some(up) => same(up, folder),
        None => true,
    }
}

/// The folder above this one, where there is one that is not this one.
pub fn up_from(folder: &str) -> (up: Option<&str>)
    ensures
        match up {
            Some(u) => upward(folder@) == Some(u@),
            None => upward(folder@) is None,
        },
{
    match parent(folder) {
        Some(up) => if same(up, folder) {
            None
        } else {
            Some(up)
        },
        None => None,
    }
}

/// Where a folder stands in the walk rooted at `top`: whether it is the top,
/// and whether there is a folder above it.
pub fn placed(folder: &str, top: &str) -> (place: (bool, bool))
    ensures
        place.0 == same_path(folder@, top@),
        place.1 == upward(folder@) is Some,
{
    let top_here = same(folder, top);
    let can_go_up = match up_from(folder) {
        Some(_) => true,
        None => false,
    };
    (top_here, can_go_up)
}

/// Over a film with nothing open over it, the directions come in opposite
/// pairs: Left seeks back and Right forward, Up is louder and Down quieter,
/// Previous goes to the film before and Next to the film after; Accept plays
/// or pauses. None of them moves the page, and each is answered by the film.
pub proof fn law_a_film_answers_directions_in_pairs(p: Page, is_folder: Seq<bool>)
    requires
        p.over == Over::Nothing,
        p.mode == Mode::Player,
    ensures
        acted(p, is_folder, Action::Left).1.effect == Effect::Seek(true),
        acted(p, is_folder, Action::Right).1.effect == Effect::Seek(false),
        acted(p, is_folder, Action::Up).1.effect == Effect::Volume(true),
        acted(p, is_folder, Action::Down).1.effect == Effect::Volume(false),
        acted(p, is_folder, Action::Previous).1.effect == Effect::StepFilm(true),
        acted(p, is_folder, Action::Next).1.effect == Effect::StepFilm(false),
        acted(p, is_folder, Action::Accept).1.effect == Effect::PlayPause,
        forall|a: Action|
            a != Action::Back && a != Action::Menu && a != Action::Submit ==> #[trigger] acted(
                p,
                is_folder,
                a,
            ).0 == p && acted(p, is_folder, a).1.sound is None && acted(p, is_folder, a).1.wakes,
{
}

/// An open panel is walked in pairs too: a menu's rows by Up and Down, a
/// dialog's buttons by Left and Right, each a step back and a step forward;
/// Accept presses what the light is on and closes it, Back closes it, and a
/// busy chooser hears every press itself.
pub proof fn law_open_panels_step_in_pairs(p: Page, is_folder: Seq<bool>, a: Action)
    ensures
        p.over == Over::Menu ==> {
            &&& acted(p, is_folder, Action::Up).1.effect == Effect::MenuStep(false)
            &&& acted(p, is_folder, Action::Down).1.effect == Effect::MenuStep(true)
            &&& acted(p, is_folder, Action::Accept).1.effect == Effect::MenuAccept
            &&& acted(p, is_folder, Action::Back).1.effect == Effect::MenuClose
            &&& acted(p, is_folder, Action::Menu).1.effect == Effect::MenuClose
            &&& acted(p, is_folder, Action::Back).0.over == Over::Nothing
        },
        p.over == Over::Dialog ==> {
            &&& acted(p, is_folder, Action::Left).1.effect == Effect::DialogStep(false)
            &&& acted(p, is_folder, Action::Right).1.effect == Effect::DialogStep(true)
            &&& acted(p, is_folder, Action::Accept).1.effect == Effect::DialogAccept
            &&& acted(p, is_folder, Action::Back).1.effect == Effect::DialogClose
            &&& acted(p, is_folder, Action::Back).0.over == Over::Nothing
        },
        p.over == Over::Chooser ==> acted(p, is_folder, a) == (p, Reply {
            effect: Effect::Chooser(a),
            sound: None,
            wakes: false,
        }),
{
}

/// In the grid the light moves a card at a time across and a row at a time
/// up and down, where there is a card to move to, and is heard to; where
/// there is none it stays put and nothing is heard. Accept goes into a
/// folder and opens a film.
pub proof fn law_the_grid_moves_by_cards_and_rows(p: Page, is_folder: Seq<bool>)
    requires
        p.over == Over::Nothing,
        p.mode == Mode::Grid,
        p.cursor < is_folder.len(),
        is_folder.len() <= usize::MAX,
        p.columns >= 1,
    ensures
        ({
            let (c, n, w) = (p.cursor as int, is_folder.len() as int, p.columns as int);
            let right = acted(p, is_folder, Action::Right);
            let left = acted(p, is_folder, Action::Left);
            let down = acted(p, is_folder, Action::Down);
            let up = acted(p, is_folder, Action::Up);
            &&& c + 1 < n ==> right.0.cursor == c + 1 && right.1.sound == Some(Sound::Move)
            &&& c + 1 >= n ==> right.0 == p && right.1.sound is None
            &&& c >= 1 ==> left.0.cursor == c - 1 && left.1.sound == Some(Sound::Move)
            &&& c == 0 ==> left.0 == p && left.1.sound is None
            &&& c + w < n ==> down.0.cursor == c + w && down.1.sound == Some(Sound::Move)
            &&& c + w >= n ==> down.0 == p && down.1.sound is None
            &&& c >= w ==> up.0.cursor == c - w && up.1.sound == Some(Sound::Move)
            &&& c < w ==> up.0 == p && up.1.sound is None
            &&& is_folder[c] ==> acted(p, is_folder, Action::Accept).1.effect == Effect::EnterFolder
            &&& !is_folder[c] ==> acted(p, is_folder, Action::Accept).1.effect == Effect::ShowFilm
                && acted(p, is_folder, Action::Accept).0.mode == Mode::Player
        }),
{
}

/// Each switch of the Options menu flips its own setting and nothing else
/// on the page: Fill the fill, Info the details, Run the folder the
/// playing through, Show hidden the hidden files; and a sort changes the
/// order to the one asked for and nothing else.
pub proof fn law_each_switch_flips_its_own_setting(p: Page, has_player: bool, order: usize)
    ensures
        ran(p, Command::Fill, has_player).0 == (Page { fill: !p.fill, ..p }),
        ran(p, Command::Info, has_player).0 == (Page { info: !p.info, ..p }),
        ran(p, Command::RunTheFolder, has_player).0 == (Page {
            run_the_folder: !p.run_the_folder,
            ..p
        }),
        ran(p, Command::ShowHidden, has_player).0 == (Page { hidden: !p.hidden, ..p }),
        ran(p, Command::SortBy(order), has_player).0 == (Page { order, ..p }),
        ran(p, Command::ShowHidden, has_player).1 == Effect::Reread,
        ran(p, Command::SortBy(order), has_player).1 == Effect::Reread,
{
}

/// A menu opened over the page and closed again leaves the page as it was:
/// Menu raises it, and Back closes it and nothing else.
pub proof fn law_a_menu_opened_and_closed_leaves_the_page_as_it_was(
    p: Page,
    is_folder: Seq<bool>,
)
    requires
        p.over == Over::Nothing,
    ensures
        acted(p, is_folder, Action::Menu).1.effect == Effect::OpenMenu,
        acted(acted(p, is_folder, Action::Menu).0, is_folder, Action::Back).1.effect
            == Effect::MenuClose,
        acted(acted(p, is_folder, Action::Menu).0, is_folder, Action::Back).0 == p,
{
}

/// Whatever is open over the page reads a press and the page does not: the
/// light, the page, the film and every setting stay where they were, only
/// what is open may close, and the transport does not wake.
pub proof fn law_one_thing_at_a_time(p: Page, is_folder: Seq<bool>, action: Action)
    requires
        p.over != Over::Nothing,
    ensures
        acted(p, is_folder, action).0 == (Page { over: acted(p, is_folder, action).0.over, ..p }),
        !acted(p, is_folder, action).1.wakes,
{
}

/// Back is always heard as Back, wherever the page reads it or a dialog or a
/// menu does; only the file chooser answers it for itself.
pub proof fn law_back_is_heard_as_back(p: Page, is_folder: Seq<bool>)
    requires
        p.over != Over::Chooser,
    ensures
        acted(p, is_folder, Action::Back).1.sound == Some(Sound::Back),
{
}

/// No press takes the light off the cards: wherever it was on one, it is on
/// one after any press at all.
pub proof fn law_the_light_stays_on_a_card(p: Page, is_folder: Seq<bool>, action: Action)
    requires
        p.cursor < is_folder.len(),
    ensures
        acted(p, is_folder, action).0.cursor < is_folder.len(),
{
    if p.over == Over::Nothing && p.mode == Mode::Grid && action == Action::Submit {
        if let Some(first) = first_film(is_folder) {
            lemma_first_film_is_a_film(is_folder);
        }
    }
}

/// The first film is one of the entries, and a film.
proof fn lemma_first_film_is_a_film(is_folder: Seq<bool>)
    ensures
        first_film(is_folder) matches Some(i) ==> 0 <= i < is_folder.len() && !is_folder[i],
    decreases is_folder.len(),
{
    if is_folder.len() > 0 && is_folder[0] {
        lemma_first_film_is_a_film(is_folder.drop_first());
    }
}

/// A switch of the Options menu run twice is where it started: filling,
/// the details, playing the folder through and showing hidden files.
pub proof fn law_a_switch_twice_is_undone(p: Page, c: Command, has_player: bool)
    requires
        c == Command::Fill || c == Command::Info || c == Command::RunTheFolder || c
            == Command::ShowHidden,
    ensures
        ran(ran(p, c, has_player).0, c, has_player).0 == p,
{
}

/// Back in a folder closes only as far out as the walk goes, and anywhere
/// else goes up to a folder that is there: for a page placed in the walk as
/// `placed` places it, Back closes exactly where `at_the_top` says the top
/// is, and goes up everywhere else, where there is a folder above.
pub proof fn law_back_in_a_folder_closes_only_at_the_top(
    p: Page,
    is_folder: Seq<bool>,
    folder: Seq<char>,
    top: Seq<char>,
)
    requires
        p.over == Over::Nothing,
        p.mode == Mode::Grid,
        p.top_here == same_path(folder, top),
        p.can_go_up == upward(folder) is Some,
    ensures
        acted(p, is_folder, Action::Back).1.effect == if topmost(folder, top) {
            Effect::Leave(Leave::Quit)
        } else {
            Effect::Leave(Leave::UpAFolder)
        },
        !topmost(folder, top) ==> upward(folder) is Some,
{
}

} // verus!
