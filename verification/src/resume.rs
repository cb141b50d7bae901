//! Where you left off.
//!
//! One line per film, most recently watched first, and an end to the list:
//! beyond a few hundred the least recently watched are dropped, which is what
//! a list somebody never asked to curate should do.
//!
//! A film is named by the bytes of its path. Where it was left is carried as
//! the caller measured it — the bits of a number of seconds — and compared
//! only for being the same; deciding whether a position is worth keeping at
//! all (past the first minute, short of the credits) is arithmetic on
//! seconds and is the caller's, which then either remembers the film here or
//! forgets it.

use vstd::prelude::*;

use crate::subtitles::first_of;
use crate::text::{chars_of, copy_range, same_bytes, string_from};

verus! {

/// How many films are remembered.
pub const HOW_MANY: usize = 400;

/// Where one film was left.
#[derive(Debug, Clone, Copy, PartialEq, Eq, Structural)]
pub struct Left {
    /// The position, as the bits of the seconds it was measured in.
    pub at: u64,
    /// When the film itself was last written, so a file replaced under the
    /// same name is not resumed into.
    pub stamp: u64,
}

/// The record of where films were left.
pub struct Resume {
    /// Most recently watched first, which is both the order it is written in
    /// and what decides who is dropped when the list is full.
    marks: Vec<(Vec<u8>, Left)>,
    /// Whether anything has changed since it was read or written.
    changed: bool,
}

/// The films of a record, in order.
pub open spec fn films(marks: Seq<(Seq<u8>, Left)>) -> Seq<Seq<u8>> {
    marks.map_values(|m: (Seq<u8>, Left)| m.0)
}

/// Whether no film is in a record twice.
pub open spec fn no_film_twice(marks: Seq<(Seq<u8>, Left)>) -> bool {
    forall|i: int, j: int|
        0 <= i < marks.len() && 0 <= j < marks.len() && i != j ==> #[trigger] marks[i].0
            != #[trigger] marks[j].0
}

/// Where a film was left, as a record says.
pub open spec fn mark_in(marks: Seq<(Seq<u8>, Left)>, film: Seq<u8>) -> Option<Left>
    decreases marks.len(),
{
    if marks.len() == 0 {
        None
    } else if marks[0].0 == film {
        Some(marks[0].1)
    } else {
        mark_in(marks.drop_first(), film)
    }
}

/// Whether a mark is of some other film.
pub open spec fn other_than(film: Seq<u8>) -> spec_fn((Seq<u8>, Left)) -> bool {
    |m: (Seq<u8>, Left)| m.0 != film
}

/// A record without a film, the rest in the order they were.
pub open spec fn without(marks: Seq<(Seq<u8>, Left)>, film: Seq<u8>) -> Seq<(Seq<u8>, Left)> {
    marks.filter(other_than(film))
}

/// A record with a film put first, where it was left, and the list cut back
/// to its length.
pub open spec fn remembered(marks: Seq<(Seq<u8>, Left)>, film: Seq<u8>, left: Left) -> Seq<
    (Seq<u8>, Left),
> {
    let all = seq![(film, left)] + without(marks, film);
    if all.len() > HOW_MANY {
        all.take(HOW_MANY as int)
    } else {
        all
    }
}

impl View for Resume {
    type V = Seq<(Seq<u8>, Left)>;

    closed spec fn view(&self) -> Seq<(Seq<u8>, Left)> {
        self.marks@.map_values(|m: (Vec<u8>, Left)| (m.0@, m.1))
    }
}

proof fn lemma_mark_first(marks: Seq<(Seq<u8>, Left)>, film: Seq<u8>, i: int)
    requires
        0 <= i < marks.len(),
        marks[i].0 == film,
        forall|j: int| 0 <= j < i ==> #[trigger] marks[j].0 != film,
    ensures
        mark_in(marks, film) == Some(marks[i].1),
    decreases i,
{
    if i > 0 {
        let rest = marks.drop_first();
        assert forall|j: int| 0 <= j < i - 1 implies #[trigger] rest[j].0 != film by {
            assert(rest[j] == marks[j + 1]);
        }
        assert(marks[0].0 != film);
        lemma_mark_first(rest, film, i - 1);
    }
}

proof fn lemma_mark_none(marks: Seq<(Seq<u8>, Left)>, film: Seq<u8>)
    requires
        forall|j: int| 0 <= j < marks.len() ==> #[trigger] marks[j].0 != film,
    ensures
        mark_in(marks, film) is None,
    decreases marks.len(),
{
    if marks.len() > 0 {
        let rest = marks.drop_first();
        assert forall|j: int| 0 <= j < rest.len() implies #[trigger] rest[j].0 != film by {
            assert(rest[j] == marks[j + 1]);
        }
        assert(marks[0].0 != film);
        lemma_mark_none(rest, film);
    }
}

/// Where a film was left, if the record holds it: the one mark with that
/// film, in a record that holds no film twice.
pub proof fn lemma_mark_at(marks: Seq<(Seq<u8>, Left)>, i: int)
    requires
        no_film_twice(marks),
        0 <= i < marks.len(),
    ensures
        mark_in(marks, marks[i].0) == Some(marks[i].1),
{
    assert forall|j: int| 0 <= j < i implies #[trigger] marks[j].0 != marks[i].0 by {
        assert(marks[j].0 != marks[i].0);
    }
    lemma_mark_first(marks, marks[i].0, i);
}

proof fn lemma_without_absent(marks: Seq<(Seq<u8>, Left)>, film: Seq<u8>)
    requires
        forall|j: int| 0 <= j < marks.len() ==> #[trigger] marks[j].0 != film,
    ensures
        without(marks, film) == marks,
    decreases marks.len(),
{
    reveal(Seq::filter);
    if marks.len() > 0 {
        lemma_without_absent(marks.drop_last(), film);
        assert(marks.drop_last().push(marks.last()) =~= marks);
    } else {
        assert(without(marks, film) =~= marks);
    }
}

proof fn lemma_without_unique(marks: Seq<(Seq<u8>, Left)>, film: Seq<u8>)
    requires
        no_film_twice(marks),
    ensures
        no_film_twice(without(marks, film)),
        forall|j: int|
            0 <= j < without(marks, film).len() ==> #[trigger] without(marks, film)[j].0 != film,
        without(marks, film).len() <= marks.len(),
        forall|j: int|
            0 <= j < without(marks, film).len() ==> marks.contains(
                #[trigger] without(marks, film)[j],
            ),
    decreases marks.len(),
{
    reveal(Seq::filter);
    if marks.len() > 0 {
        let rest = marks.drop_last();
        assert forall|i: int, j: int|
            0 <= i < rest.len() && 0 <= j < rest.len() && i != j implies #[trigger] rest[i].0
            != #[trigger] rest[j].0 by {
            assert(rest[i] == marks[i] && rest[j] == marks[j]);
        }
        lemma_without_unique(rest, film);
        let w = without(rest, film);
        let last = marks.last();
        assert forall|j: int| 0 <= j < w.len() implies #[trigger] w[j].0 != last.0 by {
            assert(rest.contains(w[j]));
            let k = choose|k: int| 0 <= k < rest.len() && rest[k] == w[j];
            assert(marks[k] == rest[k]);
            assert(marks[marks.len() - 1] == last);
        }
        assert forall|j: int| 0 <= j < w.len() implies marks.contains(#[trigger] w[j]) by {
            assert(rest.contains(w[j]));
            let k = choose|k: int| 0 <= k < rest.len() && rest[k] == w[j];
            assert(marks[k] == w[j]);
        }
        if last.0 != film {
            assert(without(marks, film) =~= w.push(last));
            assert(marks[marks.len() - 1] == last);
        } else {
            assert(without(marks, film) =~= w);
        }
    }
}

impl Resume {
    /// Whether the record holds no film twice.
    pub open spec fn wf(&self) -> bool {
        no_film_twice(self@)
    }

    /// Whether anything has changed since the record was read or written.
    pub closed spec fn has_changed(&self) -> bool {
        self.changed
    }

    /// An empty record, with nothing to write.
    pub fn new() -> (made: Resume)
        ensures
            made.wf(),
            made@ == Seq::<(Seq<u8>, Left)>::empty(),
            !made.has_changed(),
    {
        let made = Resume { marks: Vec::new(), changed: false };
        assert(made@ =~= Seq::<(Seq<u8>, Left)>::empty());
        made
    }

    /// Whether anything has changed since the record was read or written.
    pub fn changed(&self) -> (changed: bool)
        ensures
            changed == self.has_changed(),
    {
        self.changed
    }

    /// Say that the record as it stands has been written.
    pub fn saved(&mut self)
        ensures
            final(self)@ == old(self)@,
            !final(self).has_changed(),
    {
        self.changed = false;
    }

    /// The marks, most recently watched first, as they are to be written.
    pub fn marks(&self) -> (marks: &Vec<(Vec<u8>, Left)>)
        ensures
            marks@.map_values(|m: (Vec<u8>, Left)| (m.0@, m.1)) == self@,
    {
        &self.marks
    }

    /// Where in the record a film is.
    fn find(&self, film: &[u8]) -> (at: Option<usize>)
        ensures
            match at {
                Some(i) => i < self@.len() && self@[i as int].0 == film@ && forall|j: int|
                    0 <= j < i ==> #[trigger] self@[j].0 != film@,
                None => forall|j: int| 0 <= j < self@.len() ==> #[trigger] self@[j].0 != film@,
            },
    {
        let mut i: usize = 0;
        while i < self.marks.len()
            invariant
                i <= self@.len(),
                self@.len() == self.marks@.len(),
                forall|j: int| 0 <= j < i ==> #[trigger] self@[j].0 != film@,
            decreases self@.len() - i,
        {
            assert(self@[i as int].0 == self.marks@[i as int].0@);
            if same_bytes(self.marks[i].0.as_slice(), film) {
                return Some(i);
            }
            i += 1;
        }
        None
    }

    /// Where a film was left, if the record holds it.
    pub fn mark(&self, film: &[u8]) -> (left: Option<Left>)
        ensures
            left == mark_in(self@, film@),
    {
        match self.find(film) {
            Some(i) => {
                proof {
                    lemma_mark_first(self@, film@, i as int);
                }
                assert(self@[i as int].1 == self.marks@[i as int].1);
                Some(self.marks[i].1)
            },
            None => {
                proof {
                    lemma_mark_none(self@, film@);
                }
                None
            },
        }
    }

    /// Where this film was left, if it is worth going back to: `None` for a
    /// film that was never watched or was finished, and for one whose file
    /// has been written since it was left.
    pub fn at(&self, film: &[u8], written: u64) -> (at: Option<u64>)
        ensures
            at == match mark_in(self@, film@) {
                Some(left) => if left.stamp == written {
                    Some(left.at)
                } else {
                    None
                },
                None => None,
            },
    {
        match self.mark(film) {
            Some(left) => if left.stamp == written {
                Some(left.at)
            } else {
                None
            },
            None => None,
        }
    }

    /// Take one mark read out of the written record, at its end. A film the
    /// record already holds keeps the mark read first.
    pub fn read_mark(&mut self, film: Vec<u8>, left: Left)
        requires
            old(self).wf(),
        ensures
            final(self).wf(),
            final(self).has_changed() == old(self).has_changed(),
            final(self)@ == if mark_in(old(self)@, film@) is Some {
                old(self)@
            } else {
                old(self)@.push((film@, left))
            },
    {
        match self.find(film.as_slice()) {
            Some(i) => {
                proof {
                    lemma_mark_first(self@, film@, i as int);
                }
            },
            None => {
                proof {
                    lemma_mark_none(self@, film@);
                }
                let ghost before = self@;
                let ghost f = film@;
                self.marks.push((film, left));
                assert(self@ =~= before.push((f, left)));
                assert forall|i: int, j: int|
                    0 <= i < self@.len() && 0 <= j < self@.len() && i != j implies #[trigger] self@[i].0
                    != #[trigger] self@[j].0 by {
                    if i < before.len() && j < before.len() {
                        assert(self@[i] == before[i] && self@[j] == before[j]);
                    } else if i < before.len() {
                        assert(self@[i] == before[i]);
                    } else if j < before.len() {
                        assert(self@[j] == before[j]);
                    }
                }
            },
        }
    }

    /// Forget a film: the record without it, and a change to write where it
    /// held it.
    pub fn forget(&mut self, film: &[u8])
        requires
            old(self).wf(),
        ensures
            final(self).wf(),
            final(self)@ == without(old(self)@, film@),
            final(self).has_changed() == (old(self).has_changed() || mark_in(old(self)@, film@)
                is Some),
    {
        proof {
            lemma_without_unique(self@, film@);
        }
        match self.find(film) {
            Some(i) => {
                let ghost before = self@;
                proof {
                    lemma_mark_first(before, film@, i as int);
                }
                self.marks.remove(i);
                self.changed = true;
                proof {
                    lemma_without_after_removal(before, film@, i as int);
                }
                assert(self@ =~= before.remove(i as int));
            },
            None => {
                proof {
                    lemma_without_absent(self@, film@);
                    lemma_mark_none(self@, film@);
                }
            },
        }
    }

    /// Remember where a film was left: first in the record, where it was
    /// left, and the least recently watched dropped where that makes the
    /// record longer than it keeps. Only a mark the record did not already
    /// hold is a change to write.
    pub fn remember(&mut self, film: Vec<u8>, left: Left)
        requires
            old(self).wf(),
        ensures
            final(self).wf(),
            final(self)@ == remembered(old(self)@, film@, left),
            final(self).has_changed() == (old(self).has_changed() || mark_in(old(self)@, film@)
                != Some(left)),
    {
        proof {
            lemma_without_unique(self@, film@);
        }
        let before_mark = self.mark(film.as_slice());
        let changed = match before_mark {
            Some(m) => m != left,
            None => true,
        };
        if changed {
            self.changed = true;
        }
        self.forget_quietly(film.as_slice());
        let ghost rest = self@;
        let ghost f = film@;
        self.marks.insert(0, (film, left));
        assert(self@ =~= seq![(f, left)] + rest);
        proof {
            assert forall|i: int, j: int|
                0 <= i < self@.len() && 0 <= j < self@.len() && i != j implies #[trigger] self@[i].0
                != #[trigger] self@[j].0 by {
                if i > 0 && j > 0 {
                    assert(self@[i] == rest[i - 1] && self@[j] == rest[j - 1]);
                } else if i > 0 {
                    assert(self@[i] == rest[i - 1]);
                } else if j > 0 {
                    assert(self@[j] == rest[j - 1]);
                }
            }
        }
        if self.marks.len() > HOW_MANY {
            let ghost all = self@;
            self.marks.truncate(HOW_MANY);
            assert(self@ =~= all.take(HOW_MANY as int));
            proof {
                assert forall|i: int, j: int|
                    0 <= i < self@.len() && 0 <= j < self@.len() && i != j implies #[trigger] self@[i].0
                    != #[trigger] self@[j].0 by {
                    assert(self@[i] == all[i] && self@[j] == all[j]);
                }
            }
        }
    }

    /// The record without a film, the change flag as it was.
    fn forget_quietly(&mut self, film: &[u8])
        requires
            old(self).wf(),
        ensures
            final(self).wf(),
            final(self)@ == without(old(self)@, film@),
            final(self).has_changed() == old(self).has_changed(),
    {
        proof {
            lemma_without_unique(self@, film@);
        }
        match self.find(film) {
            Some(i) => {
                let ghost before = self@;
                self.marks.remove(i);
                proof {
                    lemma_without_after_removal(before, film@, i as int);
                }
                assert(self@ =~= before.remove(i as int));
            },
            None => {
                proof {
                    lemma_without_absent(self@, film@);
                }
            },
        }
    }
}


proof fn lemma_without_after_removal(marks: Seq<(Seq<u8>, Left)>, film: Seq<u8>, i: int)
    requires
        no_film_twice(marks),
        0 <= i < marks.len(),
        marks[i].0 == film,
    ensures
        without(marks, film) == marks.remove(i),
{
    let rest = marks.remove(i);
    assert forall|j: int| 0 <= j < rest.len() implies #[trigger] rest[j].0 != film by {
        if j < i {
            assert(rest[j] == marks[j]);
        } else {
            assert(rest[j] == marks[j + 1]);
        }
    }
    lemma_without_absent(rest, film);
    lemma_without_split(marks, film, i);
}

proof fn lemma_without_split(marks: Seq<(Seq<u8>, Left)>, film: Seq<u8>, i: int)
    requires
        0 <= i < marks.len(),
        marks[i].0 == film,
    ensures
        without(marks, film) == without(marks.remove(i), film),
{
    reveal(Seq::filter);
    assert(marks =~= marks.take(i) + seq![marks[i]] + marks.skip(i + 1));
    assert(marks.remove(i) =~= marks.take(i) + marks.skip(i + 1));
    Seq::filter_distributes_over_add(
        marks.take(i) + seq![marks[i]],
        marks.skip(i + 1),
        other_than(film),
    );
    Seq::filter_distributes_over_add(
        marks.take(i),
        seq![marks[i]],
        other_than(film),
    );
    Seq::filter_distributes_over_add(
        marks.take(i),
        marks.skip(i + 1),
        other_than(film),
    );
    assert(seq![marks[i]].filter(other_than(film)) =~= Seq::<
        (Seq<u8>, Left),
    >::empty()) by {
        reveal_with_fuel(Seq::filter, 2);
        assert(seq![marks[i]].drop_last() =~= Seq::<(Seq<u8>, Left)>::empty());
    }
}

/// A film just remembered is the first in the record, where it was left, and
/// the record never runs past its length.
pub proof fn law_newest_first(marks: Seq<(Seq<u8>, Left)>, film: Seq<u8>, left: Left)
    ensures
        remembered(marks, film, left).len() <= HOW_MANY,
        remembered(marks, film, left)[0] == (film, left),
        mark_in(remembered(marks, film, left), film) == Some(left),
{
}

/// A film forgotten is not in the record, and nothing else is lost from it.
pub proof fn law_forgotten_is_gone(marks: Seq<(Seq<u8>, Left)>, film: Seq<u8>, other: Seq<u8>)
    requires
        no_film_twice(marks),
        other != film,
    ensures
        mark_in(without(marks, film), film) is None,
        mark_in(without(marks, film), other) == mark_in(marks, other),
{
    lemma_without_unique(marks, film);
    lemma_mark_none(without(marks, film), film);
    lemma_same_mark_without(marks, film, other);
}

/// Remembering a film and then forgetting it leaves the record as forgetting
/// it alone would have, wherever remembering it dropped nobody off the end.
pub proof fn law_forget_undoes_remember(marks: Seq<(Seq<u8>, Left)>, film: Seq<u8>, left: Left)
    requires
        no_film_twice(marks),
        without(marks, film).len() < HOW_MANY,
    ensures
        without(remembered(marks, film, left), film) == without(marks, film),
{
    let w = without(marks, film);
    lemma_without_unique(marks, film);
    assert(remembered(marks, film, left) == seq![(film, left)] + w);
    Seq::filter_distributes_over_add(seq![(film, left)], w, other_than(film));
    assert(seq![(film, left)].filter(other_than(film)) =~= Seq::<(Seq<u8>, Left)>::empty()) by {
        reveal_with_fuel(Seq::filter, 2);
        assert(seq![(film, left)].drop_last() =~= Seq::<(Seq<u8>, Left)>::empty());
    }
    lemma_without_absent(w, film);
    assert(Seq::<(Seq<u8>, Left)>::empty() + w =~= w);
}

/// Remembering one film leaves where every other film was left as it was,
/// wherever remembering it dropped nobody off the end.
pub proof fn law_others_are_kept(
    marks: Seq<(Seq<u8>, Left)>,
    film: Seq<u8>,
    left: Left,
    other: Seq<u8>,
)
    requires
        no_film_twice(marks),
        without(marks, film).len() < HOW_MANY,
        other != film,
    ensures
        mark_in(remembered(marks, film, left), other) == mark_in(marks, other),
{
    let w = without(marks, film);
    lemma_without_unique(marks, film);
    let r = remembered(marks, film, left);
    assert(r == seq![(film, left)] + w);
    assert(r.drop_first() =~= w);
    lemma_same_mark_without(marks, film, other);
}

proof fn lemma_same_mark_without(marks: Seq<(Seq<u8>, Left)>, film: Seq<u8>, other: Seq<u8>)
    requires
        no_film_twice(marks),
        other != film,
    ensures
        mark_in(without(marks, film), other) == mark_in(marks, other),
{
    let w = without(marks, film);
    lemma_without_unique(marks, film);
    if exists|i: int| 0 <= i < marks.len() && marks[i].0 == other {
        let i = choose|i: int| 0 <= i < marks.len() && marks[i].0 == other;
        lemma_mark_at(marks, i);
        marks.lemma_filter_contains(other_than(film), i);
        let k = choose|k: int| 0 <= k < w.len() && w[k] == marks[i];
        lemma_mark_at(w, k);
    } else {
        lemma_mark_none(marks, other);
        assert forall|j: int| 0 <= j < w.len() implies #[trigger] w[j].0 != other by {
            assert(marks.contains(w[j]));
        }
        lemma_mark_none(w, other);
    }
}

/// A line of the record as its three fields: where the film was left, when
/// the film was written, and the film — cut at the first two tabs, the film
/// keeping any tab after them; `None` for a line with fewer than two tabs.
pub open spec fn record_fields(line: Seq<char>) -> Option<(Seq<char>, Seq<char>, Seq<char>)> {
    let i = first_of(line, '\t');
    if i >= line.len() {
        None
    } else {
        let rest = line.skip(i as int + 1);
        let j = first_of(rest, '\t');
        if j >= rest.len() {
            None
        } else {
            Some((line.take(i as int), rest.take(j as int), rest.skip(j as int + 1)))
        }
    }
}

/// Where the first tab at or after `from` is, or the end.
fn next_tab(chars: &Vec<char>, from: usize) -> (at: usize)
    requires
        from <= chars@.len(),
    ensures
        at == from + first_of(chars@.skip(from as int), '\t'),
        at <= chars@.len(),
{
    let mut k = from;
    while k < chars.len() && chars[k] != '\t'
        invariant
            from <= k <= chars@.len(),
            forall|j: int| from <= j < k ==> chars@[j] != '\t',
        decreases chars@.len() - k,
    {
        k += 1;
    }
    proof {
        let rest = chars@.skip(from as int);
        assert forall|j: int| 0 <= j < k - from implies rest[j] != '\t' by {
            assert(rest[j] == chars@[from + j]);
        }
        if k < chars@.len() {
            assert(rest[k - from] == chars@[k as int]);
        }
        crate::subtitles::lemma_first_of(rest, '\t', k - from);
    }
    k
}

/// A line of the record as its three fields, where it has them.
pub fn fields_of(line: &str) -> (fields: Option<(String, String, String)>)
    ensures
        match fields {
            Some((at, stamp, film)) => record_fields(line@) == Some((at@, stamp@, film@)),
            None => record_fields(line@) is None,
        },
{
    let chars = chars_of(line);
    let n = chars.len();
    let i = next_tab(&chars, 0);
    assert(chars@.skip(0) =~= chars@);
    if i >= n {
        return None;
    }
    let j = next_tab(&chars, i + 1);
    let ghost rest = line@.skip(i + 1);
    assert(chars@.skip(i + 1) =~= rest);
    if j >= n {
        return None;
    }
    let at = string_from(&copy_range(&chars, 0, i));
    let stamp = string_from(&copy_range(&chars, i + 1, j));
    let film = string_from(&copy_range(&chars, j + 1, n));
    assert(at@ =~= line@.take(i as int));
    assert(stamp@ =~= rest.take(j - i - 1));
    assert(film@ =~= rest.skip(j - i));
    Some((at, stamp, film))
}

} // verus!
