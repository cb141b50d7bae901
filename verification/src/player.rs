//! The subtitle tracks a film offers, and which of them is shown unasked.
//!
//! A track is a number on both sides of the player — the film's own streams
//! first, then the files somebody put beside it or chose — and what a menu
//! row says about it is its name and where it came from.

use vstd::prelude::*;

use crate::text::{chars_of, copy_range, space, string_from, trim, trim_start};

verus! {

/// One subtitle track, as a menu offers it.
#[derive(Debug, Clone, PartialEq, Eq)]
pub struct Track {
    /// What to call it: the stream's language or title, or what a file beside
    /// the film is called.
    pub name: String,
    /// Whether it came from a file rather than from inside the film.
    pub from_a_file: bool,
    /// The film marks this one as one that has to be shown — the lines nobody
    /// is meant to be able to turn off, for the scene in another language.
    pub forced: bool,
}

/// Whether no track before `upto` is forced.
pub open spec fn none_forced_before(tracks: Seq<Track>, upto: int) -> bool {
    forall|j: int| 0 <= j < upto ==> !(#[trigger] tracks[j]).forced
}

/// Whether no track before `upto` came from a file.
pub open spec fn no_file_before(tracks: Seq<Track>, upto: int) -> bool {
    forall|j: int| 0 <= j < upto ==> !(#[trigger] tracks[j]).from_a_file
}

/// Which subtitle track to show when nobody has said.
///
/// Two things count as somebody having meant it, and neither of them is the
/// ordinary `default` flag: the first track the film marks forced, and
/// failing that the first file sitting beside the film. Nobody downloads a
/// `.srt` by accident.
pub fn worth_showing(tracks: &[Track]) -> (shown: Option<usize>)
    ensures
        match shown {
            Some(i) => i < tracks@.len() && (
                (tracks@[i as int].forced && none_forced_before(tracks@, i as int))
                || (none_forced_before(tracks@, tracks@.len() as int)
                    && tracks@[i as int].from_a_file && no_file_before(tracks@, i as int))),
            None => none_forced_before(tracks@, tracks@.len() as int) && no_file_before(
                tracks@,
                tracks@.len() as int,
            ),
        },
{
    let mut i: usize = 0;
    while i < tracks.len()
        invariant
            i <= tracks@.len(),
            none_forced_before(tracks@, i as int),
        decreases tracks@.len() - i,
    {
        if tracks[i].forced {
            return Some(i);
        }
        i += 1;
    }
    let mut k: usize = 0;
    while k < tracks.len()
        invariant
            k <= tracks@.len(),
            none_forced_before(tracks@, tracks@.len() as int),
            no_file_before(tracks@, k as int),
        decreases tracks@.len() - k,
    {
        if tracks[k].from_a_file {
            return Some(k);
        }
        k += 1;
    }
    None
}

/// Whether a track is a file that goes by this name.
pub open spec fn is_file_named(track: Track, name: Seq<char>) -> bool {
    track.from_a_file && track.name@ == name
}

/// Take a subtitle file onto the list of tracks, under the name it goes by.
///
/// A file already on the list is chosen again rather than added twice, so
/// what comes back is the number of the first file track of that name where
/// there is one, and otherwise the number of a new one at the end.
pub fn add_file_track(tracks: &mut Vec<Track>, name: String) -> (number: usize)
    requires
        old(tracks)@.len() < usize::MAX,
    ensures
        number <= old(tracks)@.len(),
        forall|j: int| 0 <= j < number ==> !is_file_named(#[trigger] old(tracks)@[j], name@),
        number < old(tracks)@.len() ==> is_file_named(old(tracks)@[number as int], name@)
            && final(tracks)@ == old(tracks)@,
        number == old(tracks)@.len() ==> final(tracks)@ == old(tracks)@.push(
            Track { name, from_a_file: true, forced: false },
        ),
{
    let mut i: usize = 0;
    while i < tracks.len()
        invariant
            i <= tracks@.len(),
            tracks@ == old(tracks)@,
            forall|j: int| 0 <= j < i ==> !is_file_named(#[trigger] tracks@[j], name@),
        decreases tracks@.len() - i,
    {
        if tracks[i].from_a_file && tracks[i].name == name {
            return i;
        }
        i += 1;
    }
    let number = tracks.len();
    tracks.push(Track { name, from_a_file: true, forced: false });
    number
}

/// The words a SubStation dialogue line begins with, in a file.
pub open spec fn dialogue_mark() -> Seq<char> {
    seq!['D', 'i', 'a', 'l', 'o', 'g', 'u', 'e', ':']
}

/// How many times a character occurs in some text.
pub open spec fn count_of(s: Seq<char>, c: char) -> nat
    decreases s.len(),
{
    if s.len() == 0 {
        0
    } else {
        count_of(s.drop_first(), c) + if s[0] == c {
            1nat
        } else {
            0nat
        }
    }
}

/// What follows the `k`th comma, or the whole text where `k` is nought.
pub open spec fn after_commas(s: Seq<char>, k: nat) -> Seq<char>
    decreases s.len(),
{
    if k == 0 {
        s
    } else if s.len() == 0 {
        s
    } else if s[0] == ',' {
        after_commas(s.drop_first(), (k - 1) as nat)
    } else {
        after_commas(s.drop_first(), k)
    }
}

/// The words out of a SubStation dialogue line.
///
/// A line out of a file begins `Dialogue:` and has nine fields before its
/// text; the one a decoder hands over has eight. The text may hold commas of
/// its own, so it is what is left after the fields; a line with too few
/// commas to have them is a plain text subtitle, and all of it is text.
pub open spec fn dialogue_text(line: Seq<char>) -> Seq<char> {
    let trimmed = trim_start(line);
    let marked = trimmed.len() >= 9 && trimmed.take(9) == dialogue_mark();
    let body = if marked {
        trim_start(trimmed.skip(9))
    } else {
        trimmed
    };
    let fields: nat = if marked {
        10
    } else {
        9
    };
    if count_of(body, ',') < fields - 1 {
        line
    } else {
        after_commas(body, (fields - 1) as nat)
    }
}

proof fn lemma_count_step(s: Seq<char>, c: char, i: int)
    requires
        0 <= i < s.len(),
    ensures
        count_of(s.skip(i), c) == count_of(s.skip(i + 1), c) + if s[i] == c {
            1nat
        } else {
            0nat
        },
{
    assert(s.skip(i).drop_first() =~= s.skip(i + 1));
}

proof fn lemma_after_step(s: Seq<char>, k: nat, i: int)
    requires
        0 <= i < s.len(),
        k > 0,
    ensures
        after_commas(s.skip(i), k) == if s[i] == ',' {
            after_commas(s.skip(i + 1), (k - 1) as nat)
        } else {
            after_commas(s.skip(i + 1), k)
        },
{
    assert(s.skip(i).drop_first() =~= s.skip(i + 1));
}

/// Where the white space at the front of some characters ends, from `from`.
fn skip_space(chars: &Vec<char>, from: usize) -> (at: usize)
    requires
        from <= chars@.len(),
    ensures
        from <= at <= chars@.len(),
        trim_start(chars@.skip(from as int)) == chars@.skip(at as int),
{
    let mut at = from;
    while at < chars.len() && space(chars[at])
        invariant
            from <= at <= chars@.len(),
            trim_start(chars@.skip(from as int)) == trim_start(chars@.skip(at as int)),
        decreases chars@.len() - at,
    {
        assert(chars@.skip(at as int).drop_first() =~= chars@.skip(at + 1));
        at += 1;
    }
    proof {
        let rest = chars@.skip(at as int);
        if rest.len() > 0 {
            assert(rest[0] == chars@[at as int]);
        }
    }
    at
}

/// The words out of a SubStation dialogue line: what is left after its fields,
/// or the whole line where it has too few commas to have them.
pub fn dialogue(line: &str) -> (text: String)
    ensures
        text@ == dialogue_text(line@),
{
    let chars = chars_of(line);
    let n = chars.len();
    assert(chars@.skip(0) =~= chars@);
    let start = skip_space(&chars, 0);
    let trimmed = Ghost(chars@.skip(start as int));
    let mark: [char; 9] = ['D', 'i', 'a', 'l', 'o', 'g', 'u', 'e', ':'];
    let mut marked = n - start >= 9;
    let mut m: usize = 0;
    while marked && m < 9
        invariant
            m <= 9,
            marked ==> start + 9 <= n,
            n == chars@.len(),
            mark@ == dialogue_mark(),
            marked ==> forall|j: int| 0 <= j < m ==> chars@[start + j] == dialogue_mark()[j],
            !marked ==> !(trimmed@.len() >= 9 && trimmed@.take(9) == dialogue_mark()),
            trimmed@ == chars@.skip(start as int),
        decreases 9 - m + if marked {
            1int
        } else {
            0int
        },
    {
        if chars[start + m] != mark[m] {
            assert(trimmed@.take(9)[m as int] == chars@[start + m]);
            marked = false;
        } else {
            m += 1;
        }
    }
    proof {
        if marked {
            assert(trimmed@.take(9) =~= dialogue_mark());
        }
    }
    let (body_start, fields) = if marked {
        assert(chars@.skip(start + 9) =~= trimmed@.skip(9));
        (skip_space(&chars, start + 9), 10usize)
    } else {
        (start, 9usize)
    };
    let body = Ghost(chars@.skip(body_start as int));
    let wanted: usize = fields - 1;
    // Count the commas, up to as many as the fields need.
    let mut seen: usize = 0;
    let mut i = body_start;
    let mut cut = body_start;
    assert(chars@.skip(body_start as int) == body@);
    while i < n && seen < wanted
        invariant
            body_start <= i <= n,
            n == chars@.len(),
            body@ == chars@.skip(body_start as int),
            seen <= wanted,
            wanted == fields - 1,
            count_of(body@, ',') == seen + count_of(chars@.skip(i as int), ','),
            after_commas(body@, wanted as nat) == after_commas(
                chars@.skip(i as int),
                (wanted - seen) as nat,
            ),
        decreases n - i,
    {
        proof {
            lemma_count_step(chars@, ',', i as int);
            lemma_after_step(chars@, (wanted - seen) as nat, i as int);
        }
        if chars[i] == ',' {
            seen += 1;
        }
        i += 1;
    }
    if seen < wanted {
        assert(chars@.skip(i as int) =~= Seq::<char>::empty());
        assert(count_of(body@, ',') == seen);
        return string_from(&chars);
    }
    let rest = copy_range(&chars, i, n);
    assert(rest@ =~= chars@.skip(i as int));
    string_from(&rest)
}

/// What a subtitle stream is called on a menu, given its title and its
/// language as the film tags them: the title with the language after it,
/// or whichever of the two there is — a tag that is empty once trimmed, or a
/// language of `und`, is no tag — and nothing where neither is, which leaves
/// the stream to be called by its number.
pub open spec fn stream_name_of(title: Option<Seq<char>>, language: Option<Seq<char>>) -> Option<
    Seq<char>,
> {
    let t = match title {
        Some(t) if trim(t).len() > 0 => Some(trim(t)),
        _ => None,
    };
    let l = match language {
        Some(l) if trim(l).len() > 0 && trim(l) != seq!['u', 'n', 'd'] => Some(trim(l)),
        _ => None,
    };
    match (t, l) {
        (Some(t), Some(l)) => Some(t + seq![' ', '('] + l + seq![')']),
        (Some(t), None) => Some(t),
        (None, Some(l)) => Some(l),
        (None, None) => None,
    }
}

/// The views of a tag that may not be there.
pub open spec fn tag_view(tag: Option<&str>) -> Option<Seq<char>> {
    match tag {
        Some(t) => Some(t@),
        None => None,
    }
}

/// What a subtitle stream is called on a menu: its title if it has one,
/// then its language, in that order, because a maker who wrote a title wrote
/// it to be read and a three-letter language code is better than a number.
/// `None` where the film says neither.
pub fn stream_name(title: Option<&str>, language: Option<&str>) -> (name: Option<String>)
    ensures
        match name {
            Some(n) => stream_name_of(tag_view(title), tag_view(language)) == Some(n@),
            None => stream_name_of(tag_view(title), tag_view(language)) is None,
        },
{
    let t = match title {
        Some(t) => {
            let kept = crate::text::trimmed(&chars_of(t));
            if kept.len() > 0 {
                Some(kept)
            } else {
                None
            }
        },
        None => None,
    };
    let l = match language {
        Some(l) => {
            let kept = crate::text::trimmed(&chars_of(l));
            let und = kept.len() == 3 && kept[0] == 'u' && kept[1] == 'n' && kept[2] == 'd';
            proof {
                if kept@ == seq!['u', 'n', 'd'] {
                    assert(kept@.len() == 3 && kept@[0] == 'u' && kept@[1] == 'n' && kept@[2] == 'd');
                }
                if und {
                    assert(kept@ =~= seq!['u', 'n', 'd']);
                }
            }
            if kept.len() > 0 && !und {
                Some(kept)
            } else {
                None
            }
        },
        None => None,
    };
    match (t, l) {
        (Some(t), Some(l)) => {
            let mut out = t;
            out.push(' ');
            out.push('(');
            let mut i: usize = 0;
            let ghost start = out@;
            while i < l.len()
                invariant
                    i <= l@.len(),
                    out@ == start + l@.take(i as int),
                decreases l@.len() - i,
            {
                out.push(l[i]);
                i += 1;
                assert(out@ =~= start + l@.take(i as int));
            }
            out.push(')');
            assert(l@.take(i as int) =~= l@);
            Some(string_from(&out))
        },
        (Some(t), None) => Some(string_from(&t)),
        (None, Some(l)) => Some(string_from(&l)),
        (None, None) => None,
    }
}

/// Where a track's cues come from: the film's own stream, by its place
/// among the film's subtitle streams, or a file, by its place among the
/// files.
#[derive(Debug, Clone, Copy, PartialEq, Eq, Structural)]
pub enum Source {
    Inside(usize),
    File(usize),
}

/// Where a track's cues come from, given how many streams the film has and
/// how many files: the film's own tracks first, then the files, because a
/// track is a number on both sides of the player and nothing carries its
/// name across. `None` for no track at all or for a number past the end.
pub fn source_of(inside: usize, files: usize, track: Option<usize>) -> (source: Option<Source>)
    ensures
        source == match track {
            None => None,
            Some(t) => if t < inside {
                Some(Source::Inside(t))
            } else if t - inside < files {
                Some(Source::File((t - inside) as usize))
            } else {
                None
            },
        },
{
    match track {
        None => None,
        Some(t) => if t < inside {
            Some(Source::Inside(t))
        } else if t - inside < files {
            Some(Source::File(t - inside))
        } else {
            None
        },
    }
}

/// Take a subtitle file at the end of the list of files, where it is not on
/// it already.
pub fn add_file(files: &mut Vec<String>, file: String)
    ensures
        (exists|i: int| 0 <= i < old(files)@.len() && old(files)@[i]@ == file@)
            ==> final(files)@ == old(files)@,
        !(exists|i: int| 0 <= i < old(files)@.len() && old(files)@[i]@ == file@)
            ==> final(files)@ == old(files)@.push(file),
{
    let mut i: usize = 0;
    while i < files.len()
        invariant
            i <= files@.len(),
            files@ == old(files)@,
            forall|j: int| 0 <= j < i ==> files@[j]@ != file@,
        decreases files@.len() - i,
    {
        if files[i] == file {
            return;
        }
        i += 1;
    }
    files.push(file);
}

} // verus!
