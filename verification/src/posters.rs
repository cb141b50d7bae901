//! What is known of each film the grid has asked about.
//!
//! Opening a film for its length, its size and a frame is slow and is done
//! by readers of their own; this is what the grid holds meanwhile. Every film
//! is asked about once: a film being looked at is waiting, one looked at is
//! known, and one that could not be read is refused and kept so, so the same
//! unreadable file is not opened again on every frame it is drawn on. Nothing
//! is ever let go of — a film's facts are a few numbers and a path.

use vstd::prelude::*;

use crate::text::same_bytes;

verus! {

/// Where one film stands.
#[derive(Debug, Clone, PartialEq, Eq)]
pub enum Held<F> {
    /// Asked about, with no answer yet.
    Waiting,
    /// Looked at, and this is what was found.
    Known(F),
    /// Looked at and refused.
    Refused,
}

/// What is held of each film asked about, by the bytes of its path.
pub struct Posters<F> {
    held: Vec<(Vec<u8>, Held<F>)>,
}

/// Where a film stands in a holding, if it is held.
pub open spec fn held_in<F>(held: Seq<(Seq<u8>, Held<F>)>, film: Seq<u8>) -> Option<Held<F>>
    decreases held.len(),
{
    if held.len() == 0 {
        None
    } else if held.last().0 == film {
        Some(held.last().1)
    } else {
        held_in(held.drop_last(), film)
    }
}

/// Whether an answer has come for a film, either way.
pub open spec fn settled_in<F>(held: Seq<(Seq<u8>, Held<F>)>, film: Seq<u8>) -> bool {
    match held_in(held, film) {
        Some(Held::Known(_)) | Some(Held::Refused) => true,
        _ => false,
    }
}

/// The films of a list that were not held before, in the order given, each
/// once: the ones a `want` of that list asks the readers for.
pub open spec fn fresh_films<F>(held: Seq<(Seq<u8>, Held<F>)>, films: Seq<Seq<u8>>) -> Seq<Seq<u8>>
    decreases films.len(),
{
    if films.len() == 0 {
        Seq::empty()
    } else {
        let before = fresh_films(held, films.drop_last());
        let film = films.last();
        if held_in(held, film) is Some || before.contains(film) {
            before
        } else {
            before.push(film)
        }
    }
}

/// The bytes of each path of a list.
pub open spec fn paths_of(films: Seq<Vec<u8>>) -> Seq<Seq<u8>> {
    films.map_values(|f: Vec<u8>| f@)
}

impl<F> View for Posters<F> {
    type V = Seq<(Seq<u8>, Held<F>)>;

    closed spec fn view(&self) -> Seq<(Seq<u8>, Held<F>)> {
        self.held@.map_values(|h: (Vec<u8>, Held<F>)| (h.0@, h.1))
    }
}


proof fn lemma_held_last<F>(held: Seq<(Seq<u8>, Held<F>)>, film: Seq<u8>, i: int)
    requires
        0 <= i < held.len(),
        held[i].0 == film,
        forall|j: int| i < j < held.len() ==> #[trigger] held[j].0 != film,
    ensures
        held_in(held, film) == Some(held[i].1),
    decreases held.len(),
{
    if i < held.len() - 1 {
        let front = held.drop_last();
        assert forall|j: int| i < j < front.len() implies #[trigger] front[j].0 != film by {
            assert(front[j] == held[j]);
        }
        assert(held[held.len() - 1].0 != film);
        lemma_held_last(front, film, i);
    }
}

proof fn lemma_held_none<F>(held: Seq<(Seq<u8>, Held<F>)>, film: Seq<u8>)
    requires
        forall|j: int| 0 <= j < held.len() ==> #[trigger] held[j].0 != film,
    ensures
        held_in(held, film) is None,
    decreases held.len(),
{
    if held.len() > 0 {
        let front = held.drop_last();
        assert forall|j: int| 0 <= j < front.len() implies #[trigger] front[j].0 != film by {
            assert(front[j] == held[j]);
        }
        assert(held[held.len() - 1].0 != film);
        lemma_held_none(front, film);
    }
}

proof fn lemma_held_push<F>(held: Seq<(Seq<u8>, Held<F>)>, film: Seq<u8>, h: Held<F>, other: Seq<u8>)
    ensures
        held_in(held.push((film, h)), other) == if other == film {
            Some(h)
        } else {
            held_in(held, other)
        },
{
    assert(held.push((film, h)).drop_last() =~= held);
}

impl<F> Posters<F> {
    /// Nothing asked about yet.
    pub fn new() -> (made: Posters<F>)
        ensures
            made@ == Seq::<(Seq<u8>, Held<F>)>::empty(),
    {
        let made = Posters { held: Vec::new() };
        assert(made@ =~= Seq::<(Seq<u8>, Held<F>)>::empty());
        made
    }

    /// Where in the holding a film is, the latest place it stands.
    fn find(&self, film: &[u8]) -> (at: Option<usize>)
        ensures
            match at {
                Some(i) => i < self@.len() && self@[i as int].0 == film@ && held_in(self@, film@)
                    == Some(self@[i as int].1),
                None => held_in(self@, film@) is None,
            },
    {
        let n = self.held.len();
        let mut i = n;
        while i > 0
            invariant
                i <= n,
                n == self@.len(),
                n == self.held@.len(),
                forall|j: int| i <= j < n ==> #[trigger] self@[j].0 != film@,
            decreases i,
        {
            assert(self@[i - 1].0 == self.held@[i - 1].0@);
            if same_bytes(self.held[i - 1].0.as_slice(), film) {
                proof {
                    lemma_held_last(self@, film@, i - 1);
                }
                return Some(i - 1);
            }
            i -= 1;
        }
        proof {
            lemma_held_none(self@, film@);
        }
        None
    }

    /// Take an answer from a reader: what it found of a film, or that it
    /// could not be read.
    pub fn settle(&mut self, film: Vec<u8>, found: Option<F>)
        ensures
            forall|other: Seq<u8>|
                #[trigger] held_in(final(self)@, other) == if other == film@ {
                    Some(
                        match found {
                            Some(f) => Held::Known(f),
                            None => Held::Refused,
                        },
                    )
                } else {
                    held_in(old(self)@, other)
                },
    {
        let held = match found {
            Some(f) => Held::Known(f),
            None => Held::Refused,
        };
        let ghost before = self@;
        let ghost f = film@;
        let ghost h = held;
        self.held.push((film, held));
        assert(self@ =~= before.push((f, h)));
        proof {
            assert forall|other: Seq<u8>|
                #[trigger] held_in(self@, other) == if other == f {
                    Some(h)
                } else {
                    held_in(before, other)
                } by {
                lemma_held_push(before, f, h, other);
            }
        }
    }

    /// The films worth knowing about, of which the ones never asked about
    /// before are the ones to ask the readers for: each is held as waiting,
    /// and handed back in the order given, once each.
    pub fn want(&mut self, films: &[Vec<u8>]) -> (asked: Vec<Vec<u8>>)
        ensures
            forall|other: Seq<u8>|
                held_in(old(self)@, other) is Some ==> #[trigger] held_in(final(self)@, other)
                    == held_in(old(self)@, other),
            forall|i: int| 0 <= i < films@.len() ==> #[trigger] held_in(final(self)@, films@[i]@)
                is Some,
            forall|i: int|
                0 <= i < asked@.len() ==> held_in(old(self)@, #[trigger] asked@[i]@) is None
                    && held_in(final(self)@, asked@[i]@) == Some(Held::<F>::Waiting),
            forall|i: int, j: int|
                0 <= i < j < asked@.len() ==> #[trigger] asked@[i]@ != #[trigger] asked@[j]@,
            forall|other: Seq<u8>|
                held_in(old(self)@, other) is None && #[trigger] held_in(final(self)@, other)
                    is Some ==> exists|i: int| 0 <= i < asked@.len() && asked@[i]@ == other,
            paths_of(asked@) == fresh_films(old(self)@, paths_of(films@)),
    {
        let ghost start = self@;
        let ghost wanted = paths_of(films@);
        let mut asked: Vec<Vec<u8>> = Vec::new();
        let mut k: usize = 0;
        while k < films.len()
            invariant
                k <= films@.len(),
                forall|other: Seq<u8>|
                    held_in(start, other) is Some ==> #[trigger] held_in(self@, other) == held_in(
                        start,
                        other,
                    ),
                forall|i: int| 0 <= i < k ==> #[trigger] held_in(self@, films@[i]@) is Some,
                forall|i: int|
                    0 <= i < asked@.len() ==> held_in(start, #[trigger] asked@[i]@) is None
                        && held_in(self@, asked@[i]@) == Some(Held::<F>::Waiting),
                forall|i: int, j: int|
                    0 <= i < j < asked@.len() ==> #[trigger] asked@[i]@ != #[trigger] asked@[j]@,
                forall|other: Seq<u8>|
                    held_in(start, other) is None && #[trigger] held_in(self@, other) is Some
                        ==> exists|i: int| 0 <= i < asked@.len() && asked@[i]@ == other,
                wanted == paths_of(films@),
                paths_of(asked@) == fresh_films(start, wanted.take(k as int)),
            decreases films@.len() - k,
        {
            let film = &films[k];
            let ghost done = paths_of(asked@);
            proof {
                assert(wanted.take(k + 1).drop_last() =~= wanted.take(k as int));
                assert(wanted.take(k + 1).last() == film@);
            }
            match self.find(film.as_slice()) {
                Some(_) => {
                    proof {
                        if held_in(start, film@) is None {
                            let i = choose|i: int| 0 <= i < asked@.len() && asked@[i]@ == film@;
                            assert(done[i] == film@);
                        }
                    }
                },
                None => {
                    let ghost before = self@;
                    let ghost f = film@;
                    let copy = vstd::slice::slice_to_vec(film.as_slice());
                    let copy_again = vstd::slice::slice_to_vec(film.as_slice());
                    self.held.push((copy, Held::Waiting));
                    assert(self@ =~= before.push((f, Held::<F>::Waiting)));
                    let ghost old_asked = asked@;
                    asked.push(copy_again);
                    proof {
                        assert(paths_of(asked@) =~= done.push(f));
                        assert forall|i: int| 0 <= i < done.len() implies #[trigger] done[i]
                            != f by {
                            assert(done[i] == old_asked[i]@);
                            assert(held_in(before, old_asked[i]@) == Some(Held::<F>::Waiting));
                        }
                        assert forall|other: Seq<u8>|
                            #[trigger] held_in(self@, other) == if other == f {
                                Some(Held::<F>::Waiting)
                            } else {
                                held_in(before, other)
                            } by {
                            lemma_held_push(before, f, Held::<F>::Waiting, other);
                        }
                        assert forall|i: int, j: int|
                            0 <= i < j < asked@.len() implies #[trigger] asked@[i]@
                            != #[trigger] asked@[j]@ by {
                            if j == asked@.len() - 1 {
                                assert(asked@[j]@ == f);
                                assert(held_in(before, asked@[i]@) == Some(Held::<F>::Waiting));
                            } else {
                                assert(asked@[i] == old_asked[i] && asked@[j] == old_asked[j]);
                            }
                        }
                        assert forall|i: int|
                            0 <= i < asked@.len() implies held_in(start, #[trigger] asked@[i]@)
                            is None && held_in(self@, asked@[i]@) == Some(Held::<F>::Waiting) by {
                            if i < old_asked.len() {
                                assert(asked@[i] == old_asked[i]);
                            } else {
                                assert(asked@[i]@ == f);
                            }
                        }
                        assert forall|other: Seq<u8>|
                            held_in(start, other) is None && #[trigger] held_in(self@, other)
                                is Some implies exists|i: int|
                            0 <= i < asked@.len() && asked@[i]@ == other by {
                            if other == f {
                                assert(asked@[asked@.len() - 1]@ == other);
                            } else {
                                let i = choose|i: int|
                                    0 <= i < old_asked.len() && old_asked[i]@ == other;
                                assert(asked@[i] == old_asked[i]);
                            }
                        }
                    }
                },
            }
            proof {
                let f = film@;
                if held_in(start, f) is Some || done.contains(f) {
                    assert(paths_of(asked@) =~= done);
                } else {
                    assert(paths_of(asked@) =~= done.push(f));
                }
            }
            k += 1;
        }
        proof {
            assert(wanted.take(k as int) =~= wanted);
        }
        asked
    }

    /// What is known of a film, once it has been looked at and read.
    pub fn facts(&self, film: &[u8]) -> (known: Option<&F>)
        ensures
            match known {
                Some(f) => held_in(self@, film@) == Some(Held::Known(*f)),
                None => !(held_in(self@, film@) matches Some(Held::Known(_))),
            },
    {
        match self.find(film) {
            Some(i) => {
                assert(self@[i as int].1 == self.held@[i as int].1);
                match &self.held[i].1 {
                    Held::Known(f) => Some(f),
                    _ => None,
                }
            },
            None => None,
        }
    }

    /// Whether a film has been looked at at all, either way: what the grid
    /// asks before drawing a card that is still waiting.
    pub fn settled(&self, film: &[u8]) -> (settled: bool)
        ensures
            settled == settled_in(self@, film@),
    {
        match self.find(film) {
            Some(i) => {
                assert(self@[i as int].1 == self.held@[i as int].1);
                match &self.held[i].1 {
                    Held::Waiting => false,
                    _ => true,
                }
            },
            None => false,
        }
    }
}

} // verus!
