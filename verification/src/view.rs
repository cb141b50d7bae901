//! What a press does to the page: where the light goes in the grid, which
//! subtitle track comes next, and what a row of the Options menu says.

use vstd::prelude::*;

use crate::text::{chars_of, copy_range, join, join_with, string_from, views};

verus! {

/// Which page is showing.
#[derive(Debug, Clone, Copy, PartialEq, Eq, Structural)]
pub enum Mode {
    Grid,
    Player,
}

/// One row of a menu, before it is a row of a menu: what it says, what it
/// says under that, the mark beside it, the word on its far side, and which
/// group of rows it stands in.
#[derive(Debug, Clone)]
pub struct Line {
    pub label: String,
    pub detail: Option<String>,
    pub glyph: &'static str,
    pub aside: Option<&'static str>,
    pub group: u8,
}

impl Line {
    /// A row saying this, beside this mark, with nothing under it, nothing
    /// on its far side and in the first group.
    pub fn new(label: String, glyph: &'static str) -> (line: Line)
        ensures
            line.label@ == label@,
            line.glyph == glyph,
            line.detail is None,
            line.aside is None,
            line.group == 0,
    {
        Line { label, detail: None, glyph, aside: None, group: 0 }
    }

    /// The same row, with this under it.
    pub fn detail(self, detail: String) -> (line: Line)
        ensures
            line.label == self.label,
            line.glyph == self.glyph,
            line.detail == Some(detail),
            line.aside == self.aside,
            line.group == self.group,
    {
        Line { detail: Some(detail), ..self }
    }

    /// The same row, marked chosen on its far side where it is.
    pub fn ticked(self, ticked: bool) -> (line: Line)
        ensures
            line.label == self.label,
            line.glyph == self.glyph,
            line.detail == self.detail,
            line.aside == if ticked {
                Some("chosen")
            } else {
                None
            },
            line.group == self.group,
    {
        let aside = if ticked {
            Some("chosen")
        } else {
            None
        };
        Line { aside, ..self }
    }

    /// The same row, in this group.
    pub fn group(self, group: u8) -> (line: Line)
        ensures
            line.label == self.label,
            line.glyph == self.glyph,
            line.detail == self.detail,
            line.aside == self.aside,
            line.group == group,
    {
        Line { group, ..self }
    }
}

/// A way the light can be moved in the grid.
#[derive(Debug, Clone, Copy, PartialEq, Eq, Structural)]
pub enum Direction {
    Left,
    Right,
    Up,
    Down,
}

/// Where a press of a direction takes the light in a grid of `count` cards
/// laid out `columns` across: one card along, or one row up or down. A grid
/// stops at its edges rather than wrapping, so a press that would leave it
/// goes nowhere.
pub open spec fn stepped(cursor: int, count: int, columns: int, direction: Direction) -> Option<
    int,
> {
    let across = if columns < 1 {
        1
    } else {
        columns
    };
    let at = match direction {
        Direction::Left => cursor - 1,
        Direction::Right => cursor + 1,
        Direction::Up => cursor - across,
        Direction::Down => cursor + across,
    };
    if count == 0 || at < 0 || at >= count {
        None
    } else {
        Some(at)
    }
}

/// Where a press of a direction takes the light in the grid, or `None` where
/// it would leave the grid and so goes nowhere.
pub fn grid_step(cursor: usize, count: usize, columns: usize, direction: Direction) -> (at: Option<
    usize,
>)
    ensures
        match at {
            Some(a) => stepped(cursor as int, count as int, columns as int, direction) == Some(
                a as int,
            ),
            None => stepped(cursor as int, count as int, columns as int, direction) is None,
        },
{
    if count == 0 {
        return None;
    }
    let across = if columns < 1 {
        1
    } else {
        columns
    };
    match direction {
        Direction::Left => if cursor >= 1 && cursor - 1 < count {
            Some(cursor - 1)
        } else {
            None
        },
        Direction::Right => if cursor < count && cursor + 1 < count {
            Some(cursor + 1)
        } else {
            None
        },
        Direction::Up => if cursor >= across && cursor - across < count {
            Some(cursor - across)
        } else {
            None
        },
        Direction::Down => if cursor < count && across < count - cursor {
            Some(cursor + across)
        } else {
            None
        },
    }
}

/// Where a page forward or back takes the light: a page of cards along,
/// held inside the grid, and nowhere where that is where it already is.
pub open spec fn paged(cursor: int, count: int, page: int, forward: bool) -> Option<int> {
    let step = if page < 1 {
        1
    } else {
        page
    };
    let wanted = if forward {
        cursor + step
    } else {
        cursor - step
    };
    let at = if wanted < 0 {
        0
    } else if wanted > count - 1 {
        count - 1
    } else {
        wanted
    };
    if count == 0 || at == cursor {
        None
    } else {
        Some(at)
    }
}

/// Where a page forward or back takes the light, given how many cards a page
/// holds, or `None` where the light would not move.
pub fn page_step(cursor: usize, count: usize, page: usize, forward: bool) -> (at: Option<usize>)
    ensures
        match at {
            Some(a) => paged(cursor as int, count as int, page as int, forward) == Some(a as int),
            None => paged(cursor as int, count as int, page as int, forward) is None,
        },
{
    if count == 0 {
        return None;
    }
    let step = if page < 1 {
        1
    } else {
        page
    };
    let last = count - 1;
    let at = if forward {
        if cursor >= last || step >= last - cursor {
            last
        } else {
            cursor + step
        }
    } else {
        if cursor <= step {
            0
        } else if cursor - step > last {
            last
        } else {
            cursor - step
        }
    };
    if at == cursor {
        None
    } else {
        Some(at)
    }
}

/// The subtitle track after the chosen one, and round through none: with no
/// track chosen the first, after the last none. A film with no tracks has
/// no next one.
pub open spec fn next_track(tracks: int, chosen: Option<int>) -> Option<Option<int>> {
    if tracks == 0 {
        None
    } else {
        match chosen {
            None => Some(Some(0)),
            Some(at) => if at + 1 < tracks {
                Some(Some(at + 1))
            } else {
                Some(None)
            },
        }
    }
}

/// The next subtitle track, and round through none — or `None` for a film
/// with no tracks, where there is nothing to cycle through.
///
/// A cycle rather than a list, because this is the keyboard's shorthand for
/// what the Options menu lays out properly, and a key pressed twice on a film
/// with one track has to get back to no subtitles.
pub fn next_subtitle(tracks: usize, chosen: Option<usize>) -> (next: Option<Option<usize>>)
    ensures
        next == match next_track(tracks as int, match chosen {
            Some(c) => Some(c as int),
            None => None,
        }) {
            Some(Some(n)) => Some(Some(n as usize)),
            Some(None) => Some(None::<usize>),
            None => None::<Option<usize>>,
        },
        next matches Some(Some(n)) ==> n < tracks,
{
    if tracks == 0 {
        return None;
    }
    match chosen {
        None => Some(Some(0)),
        Some(at) => if at < tracks - 1 {
            Some(Some(at + 1))
        } else {
            Some(None)
        },
    }
}

/// How much of a name is kept off its front when `keep` letters of it are:
/// two thirds, rounded up to a pair, and never more than there are.
pub open spec fn front_of(keep: int) -> int {
    let front = ((keep + 2) / 3) * 2;
    if front > keep {
        keep
    } else {
        front
    }
}

/// A name cut to `keep` of its letters, with an ellipsis where its middle
/// was: two thirds off the front and the rest off the back, because the
/// front says which series and the back says which episode and what kind of
/// file it is.
pub open spec fn shortened_text(name: Seq<char>, keep: int) -> Seq<char> {
    let front = front_of(keep);
    let back = keep - front;
    name.take(front) + seq!['\u{2026}'] + name.skip(name.len() - back)
}

/// A name cut to `keep` of its letters, its middle given up for an ellipsis.
pub fn shortened(name: &str, keep: usize) -> (cut: String)
    requires
        keep <= name@.len(),
    ensures
        cut@ == shortened_text(name@, keep as int),
{
    let letters = chars_of(name);
    let third = keep / 3 + if keep % 3 == 0 {
        0
    } else {
        1
    };
    assert(third == (keep + 2) / 3);
    let front = if third * 2 > keep {
        keep
    } else {
        third * 2
    };
    let back = keep - front;
    let mut out: Vec<char> = Vec::new();
    let mut i: usize = 0;
    while i < front
        invariant
            i <= front <= keep <= letters@.len(),
            out@ == letters@.take(i as int),
        decreases front - i,
    {
        out.push(letters[i]);
        i += 1;
        assert(out@ =~= letters@.take(i as int));
    }
    out.push('\u{2026}');
    let ghost head = out@;
    let n = letters.len();
    let mut j: usize = n - back;
    while j < n
        invariant
            n == letters@.len(),
            back <= n,
            n - back <= j <= n,
            out@ == head + letters@.subrange(n - back, j as int),
        decreases n - j,
    {
        out.push(letters[j]);
        j += 1;
        assert(out@ =~= head + letters@.subrange(n - back, j as int));
    }
    assert(letters@.subrange(n - back, n as int) =~= letters@.skip(n - back));
    string_from(&out)
}

/// A step the other way undoes a step: where a press of Right moved the
/// light, Left brings it back, and the same for Down and Up.
pub proof fn law_steps_undo(cursor: int, count: int, columns: int)
    requires
        0 <= cursor < count,
    ensures
        stepped(cursor, count, columns, Direction::Right) matches Some(at) ==> stepped(
            at,
            count,
            columns,
            Direction::Left,
        ) == Some(cursor),
        stepped(cursor, count, columns, Direction::Down) matches Some(at) ==> stepped(
            at,
            count,
            columns,
            Direction::Up,
        ) == Some(cursor),
        stepped(cursor, count, columns, Direction::Left) matches Some(at) ==> stepped(
            at,
            count,
            columns,
            Direction::Right,
        ) == Some(cursor),
        stepped(cursor, count, columns, Direction::Up) matches Some(at) ==> stepped(
            at,
            count,
            columns,
            Direction::Down,
        ) == Some(cursor),
{
}

/// The light never leaves the grid: a step or a page lands on a card.
pub proof fn law_light_stays_on_a_card(cursor: int, count: int, columns: int, page: int)
    requires
        0 <= cursor < count,
    ensures
        forall|d: Direction| #[trigger] stepped(cursor, count, columns, d) matches Some(at) ==> 0
            <= at < count,
        paged(cursor, count, page, true) matches Some(at) ==> cursor < at < count,
        paged(cursor, count, page, false) matches Some(at) ==> 0 <= at < cursor,
{
}

/// Where the track is after this many presses of the subtitle key on a film
/// with no track chosen.
pub open spec fn after_presses(tracks: int, presses: nat) -> Option<int>
    decreases presses,
{
    if presses == 0 {
        None
    } else {
        match next_track(tracks, after_presses(tracks, (presses - 1) as nat)) {
            Some(next) => next,
            None => None,
        }
    }
}

/// The subtitle key goes through every track in order and then round to
/// none: on a film with one track, pressed twice, it is back at none.
pub proof fn law_subtitles_come_round(tracks: nat, presses: nat)
    requires
        tracks > 0,
        presses <= tracks + 1,
    ensures
        presses == 0 || presses == tracks + 1 ==> after_presses(tracks as int, presses) is None,
        1 <= presses <= tracks ==> after_presses(tracks as int, presses) == Some(presses - 1),
    decreases presses,
{
    if presses > 0 {
        law_subtitles_come_round(tracks, (presses - 1) as nat);
    }
}

/// Whether a piece of text was put to the test and given this answer.
pub open spec fn answered<F: Fn(String) -> bool>(fits: F, text: Seq<char>, answer: bool) -> bool {
    exists|s: String| s@ == text && #[trigger] fits.ensures((s,), answer)
}

/// A name cut to the room there is for it, where the room is asked of
/// `fits`: the whole name where it fits, and otherwise the longest cut of it
/// that does — two thirds off the front and the rest off the back — and an
/// ellipsis alone where nothing does.
///
/// `fits` is handed in rather than reached for, because nothing here can
/// measure a word.
pub fn cut_to_fit<F: Fn(String) -> bool>(fits: F, name: &str) -> (cut: String)
    requires
        forall|s: String| #[trigger] fits.requires((s,)),
    ensures
        (cut@ == name@ && answered(fits, name@, true)) || (answered(fits, name@, false) && exists|
            keep: int,
        |
            0 <= keep && (keep == 0 || keep < name@.len()) && cut@ == shortened_text(name@, keep)
                && (keep > 0 ==> answered(fits, shortened_text(name@, keep), true)) && forall|
                longer: int,
            |
                keep < longer < name@.len() ==> #[trigger] answered(
                    fits,
                    shortened_text(name@, longer),
                    false,
                )),
{
    let letters = chars_of(name);
    let n = letters.len();
    let whole = name.to_owned();
    let kept = whole.clone();
    if fits(whole) {
        assert(answered(fits, name@, true));
        return kept;
    }
    assert(answered(fits, name@, false));
    let mut keep = n;
    while keep > 1
        invariant
            n == name@.len(),
            keep <= n,
            answered(fits, name@, false),
            forall|s: String| #[trigger] fits.requires((s,)),
            forall|longer: int|
                keep <= longer < n ==> #[trigger] answered(
                    fits,
                    shortened_text(name@, longer),
                    false,
                ),
        decreases keep,
    {
        keep -= 1;
        let shorter = shortened(name, keep);
        let tried = shorter.clone();
        if fits(tried) {
            assert(answered(fits, shortened_text(name@, keep as int), true));
            return shorter;
        }
        assert(answered(fits, shortened_text(name@, keep as int), false));
    }
    shortened(name, 0)
}

/// How many entries of a folder before `upto` are films rather than folders.
pub open spec fn films_before(is_folder: Seq<bool>, upto: int) -> nat
    decreases upto,
{
    if upto <= 0 || is_folder.len() == 0 {
        0
    } else if upto > is_folder.len() {
        films_before(is_folder, is_folder.len() as int)
    } else {
        films_before(is_folder, upto - 1) + if is_folder[upto - 1] {
            0nat
        } else {
            1nat
        }
    }
}

/// What the head of the grid counts in a folder: nothing in an empty one,
/// and otherwise its films, its folders, or both.
#[derive(Debug, Clone, Copy, PartialEq, Eq, Structural)]
pub enum Tally {
    Nothing,
    Films(usize),
    Folders(usize),
    Both(usize, usize),
}

/// What the head of the grid counts, given which entries are folders.
pub fn tally(is_folder: &[bool]) -> (counted: Tally)
    ensures
        ({
            let films = films_before(is_folder@, is_folder@.len() as int);
            let folders = is_folder@.len() - films;
            counted == if films == 0 && folders == 0 {
                Tally::Nothing
            } else if films == 0 {
                Tally::Folders(folders as usize)
            } else if folders == 0 {
                Tally::Films(films as usize)
            } else {
                Tally::Both(films as usize, folders as usize)
            }
        }),
{
    let n = is_folder.len();
    let films = count_films(is_folder, n);
    let folders = n - films;
    if films == 0 && folders == 0 {
        Tally::Nothing
    } else if films == 0 {
        Tally::Folders(folders)
    } else if folders == 0 {
        Tally::Films(films)
    } else {
        Tally::Both(films, folders)
    }
}

/// How many of the first `upto` entries are films.
fn count_films(is_folder: &[bool], upto: usize) -> (films: usize)
    requires
        upto <= is_folder@.len(),
    ensures
        films == films_before(is_folder@, upto as int),
        films <= upto,
{
    let mut films: usize = 0;
    let mut i: usize = 0;
    while i < upto
        invariant
            i <= upto <= is_folder@.len(),
            films == films_before(is_folder@, i as int),
            films <= i,
        decreases upto - i,
    {
        if !is_folder[i] {
            films += 1;
        }
        i += 1;
    }
    films
}

/// Which film of the folder the light is on, counting films only, and how
/// many films there are — or `None` in a folder without any.
pub fn place_of(is_folder: &[bool], cursor: usize) -> (place: Option<(usize, usize)>)
    requires
        is_folder@.len() < usize::MAX,
    ensures
        ({
            let total = films_before(is_folder@, is_folder@.len() as int);
            let before = films_before(is_folder@, cursor as int);
            match place {
                Some((at, of)) => total > 0 && at == before + 1 && of == total,
                None => total == 0,
            }
        }),
{
    let n = is_folder.len();
    let total = count_films(is_folder, n);
    if total == 0 {
        return None;
    }
    let upto = if cursor < n {
        cursor
    } else {
        n
    };
    let before = count_films(is_folder, upto);
    proof {
        if cursor > n {
            assert(films_before(is_folder@, cursor as int) == films_before(is_folder@, n as int));
        }
    }
    Some((before + 1, total))
}

/// The films among the entries from `first` up to `end`, in order, leaving
/// out the one at `skip`.
pub open spec fn films_between(is_folder: Seq<bool>, first: int, end: int, skip: int) -> Seq<usize>
    decreases end - first,
{
    if end <= first {
        Seq::empty()
    } else {
        let before = films_between(is_folder, first, end - 1, skip);
        if !is_folder[end - 1] && end - 1 != skip {
            before.push((end - 1) as usize)
        } else {
            before
        }
    }
}

/// The films worth knowing the facts of: the one under the light, where it
/// is on one, and then every film of the cards from `first` up to `last`
/// that is not that one, in order.
pub open spec fn wanted_films(is_folder: Seq<bool>, cursor: int, first: int, last: int) -> Seq<usize> {
    let end = if last < is_folder.len() {
        last
    } else {
        is_folder.len() as int
    };
    let head = if 0 <= cursor < is_folder.len() && !is_folder[cursor] {
        seq![cursor as usize]
    } else {
        Seq::empty()
    };
    head + films_between(is_folder, first, end, cursor)
}

/// Every index `films_between` gives is a film between the bounds, other
/// than the one left out, and they come in rising order.
proof fn lemma_films_between(is_folder: Seq<bool>, first: int, end: int, skip: int)
    requires
        0 <= first,
        end <= is_folder.len(),
        end <= usize::MAX,
    ensures
        forall|k: int|
            0 <= k < films_between(is_folder, first, end, skip).len() ==> {
                let i = #[trigger] films_between(is_folder, first, end, skip)[k] as int;
                first <= i < end && !is_folder[i] && i != skip
            },
        forall|k: int, m: int|
            0 <= k < m < films_between(is_folder, first, end, skip).len() ==> #[trigger] films_between(
                is_folder,
                first,
                end,
                skip,
            )[k] < #[trigger] films_between(is_folder, first, end, skip)[m],
    decreases end - first,
{
    if end > first {
        lemma_films_between(is_folder, first, end - 1, skip);
        let before = films_between(is_folder, first, end - 1, skip);
        let all = films_between(is_folder, first, end, skip);
        if !is_folder[end - 1] && end - 1 != skip {
            assert(all == before.push((end - 1) as usize));
            assert forall|k: int| 0 <= k < all.len() implies {
                let i = #[trigger] all[k] as int;
                first <= i < end && !is_folder[i] && i != skip
            } by {
                if k < before.len() {
                    assert(all[k] == before[k]);
                }
            }
            assert forall|k: int, m: int| 0 <= k < m < all.len() implies #[trigger] all[k]
                < #[trigger] all[m] by {
                assert(all[k] == before[k]);
                if m < before.len() {
                    assert(all[m] == before[m]);
                } else {
                    assert(all[m] == (end - 1) as usize);
                    assert((before[k] as int) < end - 1);
                }
            }
        } else {
            assert(all == before);
        }
    }
}

/// The films worth knowing the facts of, as places among the entries: the
/// one under the light first, where it is on one, then the films among the
/// cards from `first` up to `last` — everything on the screen, and a row
/// either side — each once.
pub fn wanted(is_folder: &[bool], cursor: usize, first: usize, last: usize) -> (films: Vec<usize>)
    ensures
        films@ == wanted_films(is_folder@, cursor as int, first as int, last as int),
        forall|k: int|
            0 <= k < films@.len() ==> (films@[k] as int) < is_folder@.len() && !is_folder@[films@[k] as int],
        forall|k: int, m: int| 0 <= k < m < films@.len() ==> films@[k] != films@[m],
{
    let mut films: Vec<usize> = Vec::new();
    if cursor < is_folder.len() && !is_folder[cursor] {
        films.push(cursor);
    }
    let ghost head = films@;
    let end = if last < is_folder.len() {
        last
    } else {
        is_folder.len()
    };
    let mut i = first;
    while i < end
        invariant
            first <= i,
            i <= end || end <= first,
            end <= first ==> i == first,
            end <= is_folder@.len(),
            head == (if (cursor as int) < is_folder@.len() && !is_folder@[cursor as int] {
                seq![cursor]
            } else {
                Seq::<usize>::empty()
            }),
            films@ == head + films_between(is_folder@, first as int, i as int, cursor as int),
        decreases end - i,
    {
        if !is_folder[i] && i != cursor {
            films.push(i);
        }
        proof {
            assert(films_between(is_folder@, first as int, i + 1, cursor as int) =~= if !is_folder@[i as int]
                && i != cursor {
                films_between(is_folder@, first as int, i as int, cursor as int).push(i)
            } else {
                films_between(is_folder@, first as int, i as int, cursor as int)
            });
        }
        i += 1;
    }
    proof {
        assert(films_between(is_folder@, first as int, i as int, cursor as int) =~= films_between(
            is_folder@,
            first as int,
            end as int,
            cursor as int,
        ));
        lemma_films_between(is_folder@, first as int, end as int, cursor as int);
        let tail = films_between(is_folder@, first as int, end as int, cursor as int);
        assert forall|k: int| 0 <= k < films@.len() implies (films@[k] as int) < is_folder@.len()
            && !is_folder@[films@[k] as int] by {
            if k >= head.len() {
                assert(films@[k] == tail[k - head.len()]);
            }
        }
        assert forall|k: int, m: int| 0 <= k < m < films@.len() implies films@[k] != films@[m] by {
            if k >= head.len() {
                assert(films@[k] == tail[k - head.len()]);
                assert(films@[m] == tail[m - head.len()]);
            } else {
                assert(films@[m] == tail[m - head.len()]);
            }
        }
    }
    films
}

/// Where the first `/` at or after `i` is, or `-1`.
pub open spec fn slash_from(s: Seq<char>, i: int) -> int
    decreases s.len() - i,
{
    if i < 0 || i >= s.len() {
        -1
    } else if s[i] == '/' {
        i
    } else {
        slash_from(s, i + 1)
    }
}

/// The names a path is made of: what lies between its slashes, leaving out
/// what is empty.
pub open spec fn names_in(path: Seq<char>) -> Seq<Seq<char>>
    decreases path.len(),
{
    let c = slash_from(path, 0);
    if c < 0 {
        if path.len() > 0 {
            seq![path]
        } else {
            Seq::empty()
        }
    } else {
        proof {
            lemma_slash_order(path, 0);
        }
        let head = path.take(c);
        (if head.len() > 0 {
            seq![head]
        } else {
            Seq::empty()
        }) + names_in(path.skip(c + 1))
    }
}

/// What a path is tried at, in order, when it has to be cut to fit from the
/// front: the whole of it; then an ellipsis and the path from its second
/// name on, from its third, and so on to its last; then, where even the last
/// name is too wide, an ellipsis and that name with more and more of its
/// front taken off.
pub open spec fn front_cuts(path: Seq<char>) -> Seq<Seq<char>> {
    let names = names_in(path);
    let folders = if names.len() > 1 {
        Seq::new(
            (names.len() - 1) as nat,
            |k: int| seq!['\u{2026}', '/'] + join(names.skip(k + 1), seq!['/']),
        )
    } else {
        Seq::empty()
    };
    let last = if names.len() > 0 {
        names.last()
    } else {
        path
    };
    seq![path] + folders + Seq::new(last.len(), |k: int| seq!['\u{2026}'] + last.skip(k))
}

proof fn lemma_slash_shift(s: Seq<char>, a: int, i: int)
    requires
        0 <= a <= s.len(),
        0 <= i,
    ensures
        slash_from(s.skip(a), i) == if slash_from(s, a + i) < 0 {
            -1
        } else {
            slash_from(s, a + i) - a
        },
    decreases s.len() - a - i,
{
    if a + i < s.len() {
        assert(s.skip(a)[i] == s[a + i]);
        lemma_slash_shift(s, a, i + 1);
    }
}

/// What `slash_from` finds is a slash, with none before it from `i` on.
pub proof fn lemma_slash_order(s: Seq<char>, i: int)
    requires
        0 <= i,
    ensures
        slash_from(s, i) < 0 || (i <= slash_from(s, i) < s.len() && s[slash_from(s, i)] == '/'
            && forall|j: int| i <= j < slash_from(s, i) ==> s[j] != '/'),
        slash_from(s, i) < 0 ==> forall|j: int| i <= j < s.len() ==> s[j] != '/',
    decreases s.len() - i,
{
    if i < s.len() {
        lemma_slash_order(s, i + 1);
    }
}

/// The names of the path from `from` on.
fn names_from(chars: &Vec<char>, from: usize) -> (names: Vec<Vec<char>>)
    requires
        from <= chars@.len(),
    ensures
        views(names@) == names_in(chars@.skip(from as int)),
    decreases chars@.len() - from,
{
    let len = chars.len();
    let mut i = from;
    while i < len && chars[i] != '/'
        invariant
            from <= i <= len,
            len == chars@.len(),
            forall|j: int| from <= j < i ==> chars@[j] != '/',
        decreases len - i,
    {
        i += 1;
    }
    let ghost rest = chars@.skip(from as int);
    proof {
        lemma_slash_order(chars@, from as int);
        lemma_slash_shift(chars@, from as int, 0);
        let c = slash_from(chars@, from as int);
        if i < len {
            if c < 0 {
                assert(chars@[i as int] != '/');
            } else if c < i {
                assert(chars@[c] != '/');
            } else if c > i {
                assert(chars@[i as int] != '/');
            }
        } else if c >= 0 {
            assert(chars@[c] != '/');
        }
    }
    if i == len {
        let mut names: Vec<Vec<char>> = Vec::new();
        if from < len {
            let whole = copy_range(chars, from, len);
            assert(whole@ =~= rest);
            names.push(whole);
            assert(views(names@) =~= seq![rest]);
        } else {
            assert(views(names@) =~= Seq::<Seq<char>>::empty());
        }
        return names;
    }
    let head = copy_range(chars, from, i);
    assert(head@ =~= rest.take(i - from));
    assert(rest.skip(i - from + 1) =~= chars@.skip(i + 1));
    let after = names_from(chars, i + 1);
    let mut names: Vec<Vec<char>> = Vec::new();
    if head.len() > 0 {
        names.push(head);
    }
    let ghost first = views(names@);
    let mut k: usize = 0;
    while k < after.len()
        invariant
            k <= after@.len(),
            views(names@) == first + views(after@).take(k as int),
        decreases after@.len() - k,
    {
        let piece = copy_range(&after[k], 0, after[k].len());
        assert(piece@ =~= after@[k as int]@);
        let ghost before = names@;
        names.push(piece);
        assert(views(names@) =~= views(before).push(piece@));
        k += 1;
        assert(views(after@).take(k as int) =~= views(after@).take(k - 1).push(after@[k - 1]@));
        assert(views(names@) =~= first + views(after@).take(k as int));
    }
    assert(views(after@).take(k as int) =~= views(after@));
    names
}

/// A path cut to the room there is for it, where the room is asked of
/// `fits`, cut from the front because the end of a path is the part that
/// says which folder this is: the first of `front_cuts` that fits, or an
/// ellipsis alone where none does.
pub fn cut_from_the_front<F: Fn(String) -> bool>(fits: F, path: &str) -> (cut: String)
    requires
        forall|s: String| #[trigger] fits.requires((s,)),
    ensures
        (exists|k: int|
            0 <= k < front_cuts(path@).len() && cut@ == front_cuts(path@)[k] && answered(
                fits,
                front_cuts(path@)[k],
                true,
            ) && forall|j: int|
                0 <= j < k ==> #[trigger] answered(fits, front_cuts(path@)[j], false)) || (cut@
            == seq!['\u{2026}'] && forall|j: int|
            0 <= j < front_cuts(path@).len() ==> #[trigger] answered(
                fits,
                front_cuts(path@)[j],
                false,
            )),
{
    let chars = chars_of(path);
    let ghost cuts = front_cuts(path@);
    let names = names_from(&chars, 0);
    assert(chars@.skip(0) =~= chars@);
    let ghost all = views(names@);
    let whole = path.to_owned();
    let kept = whole.clone();
    assert(cuts[0] == path@);
    if fits(whole) {
        assert(answered(fits, cuts[0], true));
        return kept;
    }
    assert(answered(fits, cuts[0], false));
    let n = names.len();
    let folders: usize = if n > 1 {
        n - 1
    } else {
        0
    };
    let mut skip: usize = 1;
    while skip < n
        invariant
            1 <= skip,
            skip <= n || n == 0,
            n == all.len(),
            all == views(names@),
            all == names_in(path@),
            cuts == front_cuts(path@),
            folders == if n > 1 {
                n - 1
            } else {
                0
            },
            forall|s: String| #[trigger] fits.requires((s,)),
            forall|j: int| 0 <= j < skip ==> #[trigger] answered(fits, cuts[j], false),
        decreases n - skip,
    {
        let mut tail: Vec<Vec<char>> = Vec::new();
        let mut k = skip;
        while k < n
            invariant
                skip <= k <= n,
                n == all.len(),
                all == views(names@),
                views(tail@) == all.subrange(skip as int, k as int),
            decreases n - k,
        {
            let piece = copy_range(&names[k], 0, names[k].len());
            assert(piece@ =~= names@[k as int]@);
            let ghost before = tail@;
            tail.push(piece);
            assert(views(tail@) =~= views(before).push(piece@));
            k += 1;
            assert(all.subrange(skip as int, k as int) =~= all.subrange(skip as int, k - 1).push(
                all[k - 1],
            ));
            assert(views(tail@) =~= all.subrange(skip as int, k as int));
        }
        assert(all.subrange(skip as int, n as int) =~= all.skip(skip as int));
        let joined = join_with(&tail, '/');
        let mut shorter: Vec<char> = vec!['\u{2026}', '/'];
        let mut i: usize = 0;
        while i < joined.len()
            invariant
                i <= joined@.len(),
                shorter@ == seq!['\u{2026}', '/'] + joined@.take(i as int),
            decreases joined@.len() - i,
        {
            shorter.push(joined[i]);
            i += 1;
            assert(shorter@ =~= seq!['\u{2026}', '/'] + joined@.take(i as int));
        }
        assert(joined@.take(i as int) =~= joined@);
        assert(cuts[skip as int] == shorter@);
        let candidate = string_from(&shorter);
        let tried = candidate.clone();
        if fits(tried) {
            assert(answered(fits, cuts[skip as int], true));
            return candidate;
        }
        assert(answered(fits, cuts[skip as int], false));
        skip += 1;
    }
    let last: Vec<char> = if n > 0 {
        copy_range(&names[n - 1], 0, names[n - 1].len())
    } else {
        copy_range(&chars, 0, chars.len())
    };
    proof {
        if n > 0 {
            assert(last@ == all.last());
        } else {
            assert(last@ =~= path@);
        }
    }
    let base: usize = 1 + folders;
    assert(forall|j: int| 0 <= j < base ==> #[trigger] answered(fits, cuts[j], false));
    let mut from: usize = 0;
    while from < last.len()
        invariant
            from <= last@.len(),
            base == 1 + folders,
            cuts == front_cuts(path@),
            cuts.len() == base + last@.len(),
            forall|k: int|
                0 <= k < last@.len() ==> cuts[base + k] == seq!['\u{2026}'] + last@.skip(k),
            forall|s: String| #[trigger] fits.requires((s,)),
            forall|j: int| 0 <= j < base + from ==> #[trigger] answered(fits, cuts[j], false),
        decreases last@.len() - from,
    {
        let mut shorter: Vec<char> = vec!['\u{2026}'];
        let mut i = from;
        while i < last.len()
            invariant
                from <= i <= last@.len(),
                shorter@ == seq!['\u{2026}'] + last@.subrange(from as int, i as int),
            decreases last@.len() - i,
        {
            shorter.push(last[i]);
            i += 1;
            assert(shorter@ =~= seq!['\u{2026}'] + last@.subrange(from as int, i as int));
        }
        assert(last@.subrange(from as int, i as int) =~= last@.skip(from as int));
        assert(cuts[base + from] == shorter@);
        let candidate = string_from(&shorter);
        let tried = candidate.clone();
        if fits(tried) {
            assert(answered(fits, cuts[base + from], true));
            assert(0 <= base + from < cuts.len());
            assert(candidate@ == cuts[base + from]);
            return candidate;
        }
        assert(answered(fits, cuts[base + from], false));
        from += 1;
    }
    let ellipsis: Vec<char> = vec!['\u{2026}'];
    string_from(&ellipsis)
}

/// What a row of the Options menu does.
#[derive(Debug, Clone, Copy, PartialEq, Eq, Structural)]
pub enum Command {
    Fill,
    FromTheStart,
    Info,
    RunTheFolder,
    Subtitles(Option<usize>),
    /// Read a subtitle file that is not beside the film and not in it.
    AddSubtitles,
    OpenFolder,
    UpAFolder,
    ShowHidden,
    /// Sort the listing by the order at this place among the orders.
    SortBy(usize),
    BackToGrid,
}

/// What the Options menu has to know about the page it is raised over.
#[derive(Debug, Clone, Copy, PartialEq, Eq, Structural)]
pub struct Setting {
    /// Whether a film is showing rather than the grid.
    pub playing_page: bool,
    /// Whether the film fills the screen rather than fitting it.
    pub fill: bool,
    /// Whether the whole folder is being played through.
    pub run_the_folder: bool,
    /// Whether the details are showing.
    pub info: bool,
    /// Whether hidden files are listed.
    pub hidden: bool,
    /// The subtitle track chosen, if one is.
    pub chosen: Option<usize>,
    /// The order the listing is in, as its place among the orders.
    pub order: usize,
}

/// A row as the menu reads it: its label, what is said under it, its mark,
/// the word on its far side, and its group.
pub type RowView = (Seq<char>, Option<Seq<char>>, Seq<char>, Option<Seq<char>>, u8);

/// A row, as the menu reads it.
pub open spec fn row_view(line: Line) -> RowView {
    (
        line.label@,
        match line.detail {
            Some(d) => Some(d@),
            None => None,
        },
        line.glyph@,
        match line.aside {
            Some(a) => Some(a@),
            None => None,
        },
        line.group,
    )
}

/// The rows of a menu, as the menu reads them.
pub open spec fn rows_view(rows: Seq<(Line, Command)>) -> Seq<(RowView, Command)> {
    rows.map_values(|r: (Line, Command)| (row_view(r.0), r.1))
}

/// A plain row: nothing under it and nothing on its far side.
pub open spec fn plain(label: Seq<char>, glyph: Seq<char>, group: u8) -> RowView {
    (label, None, glyph, None, group)
}

/// The row of one subtitle track: its name, where it came from where that
/// is a file, and the tick where it is the one chosen.
pub open spec fn track_row(track: crate::player::Track, chosen: bool) -> RowView {
    (
        track.name@,
        if track.from_a_file {
            Some("From a file"@)
        } else {
            None
        },
        "setting-typed"@,
        if chosen {
            Some("chosen"@)
        } else {
            None
        },
        0,
    )
}

/// The Options menu over a film: the scale, the start, the folder, then
/// every subtitle track with none first and the chosen one ticked — the group
/// is there whether the film has a track or not, since a film with none is
/// exactly the one somebody wants to add one to — then the details and the
/// way back to the folder.
pub open spec fn film_menu(setting: Setting, tracks: Seq<crate::player::Track>) -> Seq<
    (RowView, Command),
> {
    seq![
        (plain(
            if setting.fill {
                "Fit to the screen"@
            } else {
                "Fill the screen"@
            },
            "setting-scale"@,
            0,
        ), Command::Fill),
        (plain("Start from the beginning"@, "media-previous"@, 1), Command::FromTheStart),
        (plain(
            if setting.run_the_folder {
                "Stop playing the folder"@
            } else {
                "Play the whole folder"@
            },
            "media-play"@,
            0,
        ), Command::RunTheFolder),
        (("No subtitles"@, None, "setting-typed"@, if setting.chosen is None {
            Some("chosen"@)
        } else {
            None
        }, 2), Command::Subtitles(None)),
    ] + Seq::new(
        tracks.len(),
        |n: int|
            (
                track_row(tracks[n], setting.chosen == Some(n as usize)),
                Command::Subtitles(Some(n as usize)),
            ),
    ) + seq![
        (plain("Add a subtitle file\u{2026}"@, "file-page"@, 0), Command::AddSubtitles),
        (plain(
            if setting.info {
                "Hide the details"@
            } else {
                "Show the details"@
            },
            "setting-info"@,
            3,
        ), Command::Info),
        (plain("Back to the folder"@, "category-video"@, 4), Command::BackToGrid),
    ]
}

/// The Options menu over the grid: every order the listing can be sorted
/// in, the one it is in ticked, then hidden files, another folder, and up a
/// folder.
pub open spec fn grid_menu(setting: Setting, orders: Seq<&'static str>) -> Seq<(RowView, Command)> {
    Seq::new(
        orders.len(),
        |k: int|
            ((orders[k]@, None, "setting-order"@, if k == setting.order {
                Some("chosen"@)
            } else {
                None
            }, 0), Command::SortBy(k as usize)),
    ) + seq![
        (plain(
            if setting.hidden {
                "Hide hidden files"@
            } else {
                "Show hidden files"@
            },
            "setting-typed"@,
            1,
        ), Command::ShowHidden),
        (plain("Open another folder\u{2026}"@, "file-folder"@, 2), Command::OpenFolder),
        (plain("Up a folder"@, "arrow-up"@, 0), Command::UpAFolder),
    ]
}

/// An Options menu ticks what is chosen and nothing else: over the grid,
/// every order of the listing has its row, labelled with its name and
/// sorting by it, and a row that sorts is ticked exactly where its order is
/// the one the listing is in; over a film, a row that chooses subtitles is
/// ticked exactly where the track it chooses — or none — is the one chosen.
pub proof fn law_the_menu_ticks_what_is_chosen(
    setting: Setting,
    orders: Seq<&'static str>,
    tracks: Seq<crate::player::Track>,
)
    requires
        orders.len() < usize::MAX,
        tracks.len() < usize::MAX,
    ensures
        forall|k: int|
            0 <= k < orders.len() ==> (#[trigger] grid_menu(setting, orders)[k]).1
                == Command::SortBy(k as usize) && grid_menu(setting, orders)[k].0.0 == orders[k]@,
        forall|i: int|
            0 <= i < grid_menu(setting, orders).len() ==> match (
            #[trigger] grid_menu(setting, orders)[i]).1 {
                Command::SortBy(k) => (grid_menu(setting, orders)[i].0.3 == Some("chosen"@) <==> k
                    == setting.order) && (grid_menu(setting, orders)[i].0.3 is None || grid_menu(
                    setting,
                    orders,
                )[i].0.3 == Some("chosen"@)),
                _ => true,
            },
        forall|i: int|
            0 <= i < film_menu(setting, tracks).len() ==> match (
            #[trigger] film_menu(setting, tracks)[i]).1 {
                Command::Subtitles(t) => (film_menu(setting, tracks)[i].0.3 == Some("chosen"@) <==> t
                    == setting.chosen) && (film_menu(setting, tracks)[i].0.3 is None || film_menu(
                    setting,
                    tracks,
                )[i].0.3 == Some("chosen"@)),
                _ => true,
            },
{
    let g = grid_menu(setting, orders);
    let n = orders.len() as int;
    assert forall|i: int| 0 <= i < g.len() implies match (#[trigger] g[i]).1 {
        Command::SortBy(k) => (g[i].0.3 == Some("chosen"@) <==> k == setting.order) && (g[i].0.3
            is None || g[i].0.3 == Some("chosen"@)),
        _ => true,
    } by {
        if i < n {
            assert(g[i].1 == Command::SortBy(i as usize));
            assert((i as usize) as int == i);
        }
    }
    let f = film_menu(setting, tracks);
    let m = tracks.len() as int;
    assert forall|i: int| 0 <= i < f.len() implies match (#[trigger] f[i]).1 {
        Command::Subtitles(t) => (f[i].0.3 == Some("chosen"@) <==> t == setting.chosen) && (f[i].0.3
            is None || f[i].0.3 == Some("chosen"@)),
        _ => true,
    } by {
        if 4 <= i < 4 + m {
            let n = i - 4;
            assert(f[i] == (
                track_row(tracks[n], setting.chosen == Some(n as usize)),
                Command::Subtitles(Some(n as usize)),
            ));
        }
    }
}

/// A switch's row says what pressing it will do, which is the opposite of
/// what is on: Fit to the screen while the film fills it and Fill the
/// screen while it fits, Stop playing the folder while it plays through,
/// Hide the details while they show, Hide hidden files while they are
/// listed — and the other way round.
pub proof fn law_a_switch_says_what_it_will_do(
    setting: Setting,
    orders: Seq<&'static str>,
    tracks: Seq<crate::player::Track>,
)
    ensures
        forall|i: int|
            0 <= i < film_menu(setting, tracks).len() ==> {
                let (row, command) = #[trigger] film_menu(setting, tracks)[i];
                &&& command == Command::Fill ==> row.0 == if setting.fill {
                    "Fit to the screen"@
                } else {
                    "Fill the screen"@
                }
                &&& command == Command::RunTheFolder ==> row.0 == if setting.run_the_folder {
                    "Stop playing the folder"@
                } else {
                    "Play the whole folder"@
                }
                &&& command == Command::Info ==> row.0 == if setting.info {
                    "Hide the details"@
                } else {
                    "Show the details"@
                }
            },
        forall|i: int|
            0 <= i < grid_menu(setting, orders).len() ==> {
                let (row, command) = #[trigger] grid_menu(setting, orders)[i];
                command == Command::ShowHidden ==> row.0 == if setting.hidden {
                    "Hide hidden files"@
                } else {
                    "Show hidden files"@
                }
            },
{
    let f = film_menu(setting, tracks);
    let m = tracks.len() as int;
    assert forall|i: int| 0 <= i < f.len() implies {
        let (row, command) = #[trigger] f[i];
        &&& command == Command::Fill ==> row.0 == if setting.fill {
            "Fit to the screen"@
        } else {
            "Fill the screen"@
        }
        &&& command == Command::RunTheFolder ==> row.0 == if setting.run_the_folder {
            "Stop playing the folder"@
        } else {
            "Play the whole folder"@
        }
        &&& command == Command::Info ==> row.0 == if setting.info {
            "Hide the details"@
        } else {
            "Show the details"@
        }
    } by {
        if 4 <= i < 4 + m {
            let n = i - 4;
            assert(f[i].1 == Command::Subtitles(Some(n as usize)));
        }
    }
}

/// A plain row.
fn plain_row(label: &'static str, glyph: &'static str, group: u8) -> (line: Line)
    ensures
        row_view(line) == plain(label@, glyph@, group),
{
    Line::new(label.to_owned(), glyph).group(group)
}

/// Push a row and say so.
fn push_row(rows: &mut Vec<(Line, Command)>, line: Line, command: Command)
    ensures
        rows_view(final(rows)@) == rows_view(old(rows)@).push((row_view(line), command)),
{
    let ghost before = rows@;
    let ghost view = row_view(line);
    rows.push((line, command));
    assert(rows_view(rows@) =~= rows_view(before).push((view, command)));
}

/// The Options menu: what it is called and its rows, over a film or over the
/// grid. Over a film it is called by the film's name; over the grid, Options.
pub fn menu_rows(
    setting: Setting,
    tracks: &[crate::player::Track],
    orders: &[&'static str],
    film_name: &str,
) -> (menu: (String, Vec<(Line, Command)>))
    requires
        tracks@.len() < usize::MAX,
        orders@.len() < usize::MAX,
    ensures
        menu.0@ == if setting.playing_page {
            film_name@
        } else {
            "Options"@
        },
        rows_view(menu.1@) == if setting.playing_page {
            film_menu(setting, tracks@)
        } else {
            grid_menu(setting, orders@)
        },
{
    let mut rows: Vec<(Line, Command)> = Vec::new();
    if setting.playing_page {
        push_row(
            &mut rows,
            plain_row(
                if setting.fill {
                    "Fit to the screen"
                } else {
                    "Fill the screen"
                },
                "setting-scale",
                0,
            ),
            Command::Fill,
        );
        push_row(
            &mut rows,
            plain_row("Start from the beginning", "media-previous", 1),
            Command::FromTheStart,
        );
        push_row(
            &mut rows,
            plain_row(
                if setting.run_the_folder {
                    "Stop playing the folder"
                } else {
                    "Play the whole folder"
                },
                "media-play",
                0,
            ),
            Command::RunTheFolder,
        );
        push_row(
            &mut rows,
            Line::new("No subtitles".to_owned(), "setting-typed").ticked(
                setting.chosen.is_none(),
            ).group(2),
            Command::Subtitles(None),
        );
        let ghost head = rows_view(rows@);
        let mut number: usize = 0;
        while number < tracks.len()
            invariant
                number <= tracks@.len(),
                tracks@.len() < usize::MAX,
                rows_view(rows@) == head + Seq::new(
                    number as nat,
                    |n: int|
                        (
                            track_row(tracks@[n], setting.chosen == Some(n as usize)),
                            Command::Subtitles(Some(n as usize)),
                        ),
                ),
            decreases tracks@.len() - number,
        {
            let track = &tracks[number];
            let ticked = match setting.chosen {
                Some(c) => c == number,
                None => false,
            };
            let row = Line::new(track.name.clone(), "setting-typed").ticked(ticked);
            let row = if track.from_a_file {
                row.detail("From a file".to_owned())
            } else {
                row
            };
            assert(row_view(row) == track_row(tracks@[number as int], ticked));
            push_row(&mut rows, row, Command::Subtitles(Some(number)));
            number += 1;
            assert(rows_view(rows@) =~= head + Seq::new(
                number as nat,
                |n: int|
                    (
                        track_row(tracks@[n], setting.chosen == Some(n as usize)),
                        Command::Subtitles(Some(n as usize)),
                    ),
            ));
        }
        push_row(
            &mut rows,
            plain_row("Add a subtitle file\u{2026}", "file-page", 0),
            Command::AddSubtitles,
        );
        push_row(
            &mut rows,
            plain_row(
                if setting.info {
                    "Hide the details"
                } else {
                    "Show the details"
                },
                "setting-info",
                3,
            ),
            Command::Info,
        );
        push_row(
            &mut rows,
            plain_row("Back to the folder", "category-video", 4),
            Command::BackToGrid,
        );
        assert(rows_view(rows@) =~= film_menu(setting, tracks@));
        return (film_name.to_owned(), rows);
    }
    let mut k: usize = 0;
    while k < orders.len()
        invariant
            k <= orders@.len(),
            orders@.len() < usize::MAX,
            rows_view(rows@) == Seq::new(
                k as nat,
                |j: int|
                    ((orders@[j]@, None::<Seq<char>>, "setting-order"@, if j == setting.order {
                        Some("chosen"@)
                    } else {
                        None
                    }, 0u8), Command::SortBy(j as usize)),
            ),
        decreases orders@.len() - k,
    {
        let row = Line::new(orders[k].to_owned(), "setting-order").ticked(k == setting.order);
        push_row(&mut rows, row, Command::SortBy(k));
        k += 1;
        assert(rows_view(rows@) =~= Seq::new(
            k as nat,
            |j: int|
                ((orders@[j]@, None::<Seq<char>>, "setting-order"@, if j == setting.order {
                    Some("chosen"@)
                } else {
                    None
                }, 0u8), Command::SortBy(j as usize)),
        ));
    }
    push_row(
        &mut rows,
        plain_row(
            if setting.hidden {
                "Hide hidden files"
            } else {
                "Show hidden files"
            },
            "setting-typed",
            1,
        ),
        Command::ShowHidden,
    );
    push_row(
        &mut rows,
        plain_row("Open another folder\u{2026}", "file-folder", 2),
        Command::OpenFolder,
    );
    push_row(&mut rows, plain_row("Up a folder", "arrow-up", 0), Command::UpAFolder);
    assert(rows_view(rows@) =~= grid_menu(setting, orders@));
    ("Options".to_owned(), rows)
}

/// What Back does.
#[derive(Debug, Clone, Copy, PartialEq, Eq, Structural)]
pub enum Leave {
    /// Let the film go and close: it was what the application was opened on.
    LetGoAndQuit,
    /// Put the film back into its card and show the grid.
    BackToGrid,
    /// Close: there is nowhere further out to go.
    Quit,
    /// Go up to the folder this one is in.
    UpAFolder,
}

/// What Back does, on a page: over a film opened on its own, it closes; over
/// any other film, it goes back to the grid; in a folder as far out as the
/// walk goes, it closes; and in any other, it goes up one.
pub open spec fn leave_of(mode: Mode, opened_on_a_film: bool, at_the_top: bool) -> Leave {
    match mode {
        Mode::Player => if opened_on_a_film {
            Leave::LetGoAndQuit
        } else {
            Leave::BackToGrid
        },
        Mode::Grid => if at_the_top {
            Leave::Quit
        } else {
            Leave::UpAFolder
        },
    }
}

/// Whether Back closes, as the legend reads it to name the button.
pub open spec fn closes_of(mode: Mode, opened_on_a_film: bool, at_the_top: bool) -> bool {
    match mode {
        Mode::Player => opened_on_a_film,
        Mode::Grid => at_the_top,
    }
}

/// What Back does, from where the page stands.
pub fn leaving(mode: Mode, opened_on_a_film: bool, at_the_top: bool) -> (leave: Leave)
    ensures
        leave == leave_of(mode, opened_on_a_film, at_the_top),
{
    match mode {
        Mode::Player => if opened_on_a_film {
            Leave::LetGoAndQuit
        } else {
            Leave::BackToGrid
        },
        Mode::Grid => if at_the_top {
            Leave::Quit
        } else {
            Leave::UpAFolder
        },
    }
}

/// Whether Back closes the application rather than going anywhere.
pub fn closes_on_back(mode: Mode, opened_on_a_film: bool, at_the_top: bool) -> (closes: bool)
    ensures
        closes == closes_of(mode, opened_on_a_film, at_the_top),
{
    match mode {
        Mode::Player => opened_on_a_film,
        Mode::Grid => at_the_top,
    }
}

/// The legend says Close exactly where Back closes: what `closes_on_back`
/// answers, which names the button, is whether what Back does is to close.
pub proof fn law_back_closes_where_it_says_close(mode: Mode, opened_on_a_film: bool, at_the_top: bool)
    ensures
        closes_of(mode, opened_on_a_film, at_the_top) <==> (leave_of(
            mode,
            opened_on_a_film,
            at_the_top,
        ) == Leave::LetGoAndQuit || leave_of(mode, opened_on_a_film, at_the_top) == Leave::Quit),
{
}

/// What a wheel does, turned this many notches.
pub open spec fn wheel_of(notches: i32, mode: Mode, overlaid: bool) -> Wheel {
    if notches == 0 {
        Wheel::Nothing
    } else if mode == Mode::Player && !overlaid {
        Wheel::Volume(-notches as i64)
    } else if notches > 0 {
        Wheel::Presses(Direction::Down, notches as u32)
    } else {
        Wheel::Presses(Direction::Up, (-(notches as int)) as u32)
    }
}

/// A wheel over a film with nothing over it turns the volume: a notch
/// downwards a step quieter and a notch upwards a step louder, as many steps
/// as notches. Anywhere else it is as many presses of Down or Up as there
/// are notches, downwards Down. No turn, no press.
pub proof fn law_the_wheel_turns_by_notches(notches: i32, mode: Mode, overlaid: bool)
    requires
        notches > i32::MIN,
    ensures
        ({
            let turned = wheel_of(notches, mode, overlaid);
            &&& notches == 0 ==> turned == Wheel::Nothing
            &&& notches != 0 && mode == Mode::Player && !overlaid ==> (turned matches Wheel::Volume(
                v,
            ) && v == -(notches as int) && (notches > 0 ==> v < 0))
            &&& notches != 0 && (mode == Mode::Grid || overlaid) ==> (turned matches Wheel::Presses(
                d,
                count,
            ) && count as int == (if notches > 0 {
                notches as int
            } else {
                -(notches as int)
            }) && (d == Direction::Down <==> notches > 0) && (d == Direction::Down || d
                == Direction::Up))
        }),
{
}

/// What a turn of the wheel does.
#[derive(Debug, Clone, Copy, PartialEq, Eq, Structural)]
pub enum Wheel {
    /// Nothing turned.
    Nothing,
    /// The volume, this many steps up (or down, where it is negative).
    Volume(i64),
    /// This many presses of a direction.
    Presses(Direction, u32),
}

/// What a wheel does: over a film with nothing open over it, it is the
/// volume, a step a notch and up when turned away; everywhere else it is Up
/// and Down, a press a notch, so a grid scrolls and an open menu walks its
/// rows. `notches` is positive downwards.
pub fn wheel(notches: i32, mode: Mode, overlaid: bool) -> (turned: Wheel)
    requires
        notches > i32::MIN,
    ensures
        turned == wheel_of(notches, mode, overlaid),
{
    if notches == 0 {
        return Wheel::Nothing;
    }
    if mode == Mode::Player && !overlaid {
        return Wheel::Volume(-(notches as i64));
    }
    if notches > 0 {
        Wheel::Presses(Direction::Down, notches as u32)
    } else {
        Wheel::Presses(Direction::Up, (-(notches as i64)) as u32)
    }
}

/// How many rows a menu's window shows: as many as it holds, at least one,
/// and no more than there are (one, for a menu with none).
pub open spec fn window_of(rows: int, window: int) -> int {
    let most = if rows < 1 {
        1
    } else {
        rows
    };
    let w = if window < 1 {
        1
    } else {
        window
    };
    if w > most {
        most
    } else {
        w
    }
}

/// Which row a menu's window starts at once it has followed the light: it
/// moves just far enough to keep the row under the light in it, and never
/// so far down that it would run past the last row.
pub open spec fn followed(first: int, selected: int, rows: int, window: int) -> int {
    let w = window_of(rows, window);
    let moved = if selected < first {
        selected
    } else if selected + 1 > first + w {
        selected + 1 - w
    } else {
        first
    };
    let last = if rows > w {
        rows - w
    } else {
        0
    };
    if moved > last {
        last
    } else {
        moved
    }
}

/// Which row a menu's window starts at once it has followed the light.
pub fn follow_the_menu(first: usize, selected: usize, rows: usize, window: usize) -> (at: usize)
    ensures
        at == followed(first as int, selected as int, rows as int, window as int),
        selected < rows ==> at <= selected < at + window_of(rows as int, window as int),
        rows >= 1 ==> at + window_of(rows as int, window as int) <= rows,
{
    let most = if rows < 1 {
        1
    } else {
        rows
    };
    let w = if window < 1 {
        1
    } else if window > most {
        most
    } else {
        window
    };
    let moved = if selected < first {
        selected
    } else if selected >= first && selected - first >= w {
        selected - (w - 1)
    } else {
        first
    };
    let last = if rows > w {
        rows - w
    } else {
        0
    };
    if moved > last {
        last
    } else {
        moved
    }
}

} // verus!
