//! What the buttons do, drawn rather than spelled out.
//!
//! A legend names a button only where this build has a picture of it, and a
//! pair that was not drawn cannot be pressed: the row and the press are both
//! asked of the same `glyph`.

use vstd::prelude::*;

use crate::controls::Action;

verus! {

/// A word, and the button it is said over.
#[derive(Debug, Clone, Copy)]
pub struct Hint {
    pub label: &'static str,
    pub on: Button,
}

/// The buttons a legend ever names.
#[derive(Debug, Clone, Copy, PartialEq, Eq, Structural)]
pub enum Button {
    Accept,
    Options,
    Back,
    /// Start, which has no key on a keyboard that anything shipped here
    /// pictures — so it is named only while a pad is in hand.
    Start,
}

/// Where a pointer can land on the legend's row. Clear of everything the
/// pages number.
pub const SPOT: u32 = 0x8000;

/// Whether a button has a picture, given what the user's hands are on.
pub open spec fn glyph_spec(button: Button, pad: bool) -> bool {
    !(button == Button::Start && !pad)
}

/// The picture of a button, given what the user's hands are on.
pub open spec fn glyph_of(button: Button, pad: bool) -> Option<&'static str> {
    match (button, pad) {
        (Button::Accept, true) => Some("pad-south"),
        (Button::Accept, false) => Some("key-enter"),
        (Button::Options, true) => Some("pad-north"),
        (Button::Options, false) => Some("mouse-right"),
        (Button::Back, true) => Some("pad-east"),
        (Button::Back, false) => Some("key-escape"),
        (Button::Start, true) => Some("pad-start"),
        (Button::Start, false) => None,
    }
}

/// What pressing a button asks for.
pub open spec fn action_of(button: Button) -> Action {
    match button {
        Button::Accept => Action::Accept,
        Button::Options => Action::Menu,
        Button::Back => Action::Back,
        Button::Start => Action::Submit,
    }
}

impl Button {
    /// What pressing this button asks for, which is what a click on its pair
    /// on the legend asks for too.
    pub fn action(self) -> (asked: Action)
        ensures
            asked == action_of(self),
    {
        match self {
            Button::Accept => Action::Accept,
            Button::Options => Action::Menu,
            Button::Back => Action::Back,
            Button::Start => Action::Submit,
        }
    }

    /// The picture of this button, given what the user's hands are on.
    ///
    /// `None` where this build has no honest picture of it, which is a reason
    /// to leave the pair out rather than to draw the wrong button.
    pub fn glyph(self, pad: bool) -> (mark: Option<&'static str>)
        ensures
            mark == glyph_of(self, pad),
            mark is Some <==> glyph_spec(self, pad),
    {
        match (self, pad) {
            (Button::Accept, true) => Some("pad-south"),
            (Button::Accept, false) => Some("key-enter"),
            (Button::Options, true) => Some("pad-north"),
            (Button::Options, false) => Some("mouse-right"),
            (Button::Back, true) => Some("pad-east"),
            (Button::Back, false) => Some("key-escape"),
            (Button::Start, true) => Some("pad-start"),
            (Button::Start, false) => None,
        }
    }
}

/// A word and the button it is said over.
pub fn hint(label: &'static str, on: Button) -> (made: Hint)
    ensures
        made.label == label,
        made.on == on,
{
    Hint { label, on }
}

/// Which button a click landed on, if it landed on the row at all.
///
/// Asked of the same hints the row was drawn from, so a pair that was not
/// drawn — Start, on a keyboard — cannot be pressed.
pub fn pressed(id: u32, hints: &[Hint], pad: bool) -> (button: Option<Button>)
    requires
        hints@.len() <= u32::MAX - SPOT,
    ensures
        match button {
            Some(b) => exists|i: int|
                0 <= i < hints@.len() && id == SPOT + i && glyph_spec(hints@[i].on, pad)
                    && b == hints@[i].on,
            None => !(exists|i: int|
                0 <= i < hints@.len() && id == SPOT + i && glyph_spec(#[trigger] hints@[i].on, pad)),
        },
{
    let mut index: usize = 0;
    while index < hints.len()
        invariant
            index <= hints@.len(),
            hints@.len() <= u32::MAX - SPOT,
            forall|i: int|
                0 <= i < index ==> !(id == SPOT + i && glyph_spec(#[trigger] hints@[i].on, pad)),
        decreases hints@.len() - index,
    {
        let hint = hints[index];
        if hint.on.glyph(pad).is_some() && id == SPOT + index as u32 {
            return Some(hint.on);
        }
        index += 1;
    }
    None
}

/// The words a legend says over its buttons, each a message of the
/// catalogs.
#[derive(Debug, Clone, Copy, PartialEq, Eq, Structural)]
pub enum Word {
    Open,
    Play,
    Pause,
    PlayTheFolder,
    Options,
    Close,
    Back,
}

/// What the legend has to know about the page under it.
#[derive(Debug, Clone, Copy, PartialEq, Eq, Structural)]
pub struct Page {
    /// Whether a film is showing rather than the grid.
    pub playing_page: bool,
    /// Whether Back closes the application rather than going anywhere.
    pub closes_on_back: bool,
    /// Whether the folder holds any film at all.
    pub has_films: bool,
    /// What the light is on in the grid: nothing, a folder, or a film.
    pub current_is_folder: Option<bool>,
    /// Whether the film is playing and has not reached its end.
    pub playing: bool,
}

/// The pairs a legend shows, in order, for a page.
///
/// In the grid: what the light is on can be opened or played, a folder with
/// films in it can be played through, and then the options and the way back
/// — which is Close where Back leaves. Over a film: play or pause, as the
/// button really does at that moment, then the folder, the options and the
/// way back.
pub open spec fn legend_of(page: Page) -> Seq<(Word, Button)> {
    let back = if page.closes_on_back {
        (Word::Close, Button::Back)
    } else {
        (Word::Back, Button::Back)
    };
    if page.playing_page {
        seq![
            (if page.playing {
                Word::Pause
            } else {
                Word::Play
            }, Button::Accept),
            (Word::PlayTheFolder, Button::Start),
            (Word::Options, Button::Options),
            back,
        ]
    } else {
        let rest = seq![(Word::Options, Button::Options), back];
        let with_folder = if page.has_films {
            seq![(Word::PlayTheFolder, Button::Start)] + rest
        } else {
            rest
        };
        match page.current_is_folder {
            Some(folder) => seq![(if folder {
                Word::Open
            } else {
                Word::Play
            }, Button::Accept)] + with_folder,
            None => with_folder,
        }
    }
}

/// The pairs a legend shows, in order, for a page.
pub fn legend(page: Page) -> (pairs: Vec<(Word, Button)>)
    ensures
        pairs@ == legend_of(page),
{
    let back = if page.closes_on_back {
        (Word::Close, Button::Back)
    } else {
        (Word::Back, Button::Back)
    };
    let mut pairs: Vec<(Word, Button)> = Vec::new();
    if page.playing_page {
        pairs.push((if page.playing {
            Word::Pause
        } else {
            Word::Play
        }, Button::Accept));
        pairs.push((Word::PlayTheFolder, Button::Start));
        pairs.push((Word::Options, Button::Options));
        pairs.push(back);
    } else {
        match page.current_is_folder {
            Some(folder) => pairs.push((if folder {
                Word::Open
            } else {
                Word::Play
            }, Button::Accept)),
            None => {},
        }
        if page.has_films {
            pairs.push((Word::PlayTheFolder, Button::Start));
        }
        pairs.push((Word::Options, Button::Options));
        pairs.push(back);
    }
    assert(pairs@ =~= legend_of(page));
    pairs
}

/// Every button has a picture while a pad is in hand, and all but Start
/// with a keyboard; no two buttons share a picture, and no picture is both a
/// pad's and a keyboard's.
pub proof fn law_each_button_has_its_own_picture(b: Button, c: Button, pad: bool, keys: bool)
    ensures
        glyph_of(b, true) is Some,
        glyph_of(b, false) is None <==> b == Button::Start,
        b != c && glyph_of(b, pad) is Some ==> glyph_of(b, pad) != glyph_of(c, pad),
        pad != keys && glyph_of(b, pad) is Some ==> glyph_of(b, pad) != glyph_of(c, keys),
{
    reveal_strlit("pad-south");
    reveal_strlit("key-enter");
    reveal_strlit("pad-north");
    reveal_strlit("mouse-right");
    reveal_strlit("pad-east");
    reveal_strlit("key-escape");
    reveal_strlit("pad-start");
}

/// Each pair names what its button does on the page: Accept says Pause over
/// a film that is playing and Play over one that is not, and in the grid
/// Open where the light is on a folder and Play where it is on a film; Start
/// says Play the folder, Options says Options, and Back says Close where
/// Back leaves and Back where it does not. Accept leads where there is
/// something under it to press, Back comes last, and no button is named
/// twice.
pub proof fn law_each_pair_says_what_its_button_does(page: Page)
    ensures
        forall|i: int|
            0 <= i < legend_of(page).len() ==> {
                let (word, button) = #[trigger] legend_of(page)[i];
                &&& button == Button::Accept ==> word == if page.playing_page {
                    if page.playing {
                        Word::Pause
                    } else {
                        Word::Play
                    }
                } else if page.current_is_folder == Some(true) {
                    Word::Open
                } else {
                    Word::Play
                }
                &&& button == Button::Start ==> word == Word::PlayTheFolder
                &&& button == Button::Options ==> word == Word::Options
                &&& button == Button::Back ==> word == if page.closes_on_back {
                    Word::Close
                } else {
                    Word::Back
                }
            },
        (legend_of(page)[0].1 == Button::Accept) <==> (page.playing_page
            || page.current_is_folder is Some),
        legend_of(page).last().1 == Button::Back,
        (exists|i: int| 0 <= i < legend_of(page).len() && #[trigger] legend_of(page)[i].1
            == Button::Start) <==> (page.playing_page || page.has_films),
        forall|i: int, j: int|
            0 <= i < j < legend_of(page).len() ==> #[trigger] legend_of(page)[i].1
                != #[trigger] legend_of(page)[j].1,
{
    let l = legend_of(page);
    if page.playing_page {
        assert(l[1].1 == Button::Start);
    } else if page.has_films {
        if page.current_is_folder is Some {
            assert(l[1].1 == Button::Start);
        } else {
            assert(l[0].1 == Button::Start);
        }
    }
}

/// Every page's legend ends with the way back, so a mouse can always reach
/// a Back that is only ever drawn there.
pub proof fn law_there_is_always_a_way_back(page: Page)
    ensures
        legend_of(page).len() >= 2,
        legend_of(page).last().1 == Button::Back,
{
    let s = legend_of(page);
    if !page.playing_page {
        let rest = seq![
            (Word::Options, Button::Options),
            if page.closes_on_back {
                (Word::Close, Button::Back)
            } else {
                (Word::Back, Button::Back)
            },
        ];
        let with_folder = if page.has_films {
            seq![(Word::PlayTheFolder, Button::Start)] + rest
        } else {
            rest
        };
        assert(with_folder.last() == rest.last());
    }
}

} // verus!
