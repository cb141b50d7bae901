//! The blocks a subtitle file is made of.
//!
//! SubRip and WebVTT are one format with two spellings of a decimal point:
//! blocks separated by a blank line, a line holding `-->` is the timing, and
//! everything after it up to the blank line is the text. Anything before the
//! timing — a cue number, a cue name, `WEBVTT`, a `NOTE` — is not read, which
//! is what makes one reading cover both.
//!
//! What comes out of a file here is each block's two times as they are
//! written and its cleaned text. Reading a time as a number of seconds — and
//! leaving out a block whose times do not read as one — is the caller's, as
//! is putting the cues in order of time.

use vstd::prelude::*;

use crate::encoding::{decode, decoded};
use crate::subtitles::{clean_chars, cleaned};
use crate::text::{
    chars_of, copy_range, is_space, join, join_lines, segments, space, string_from, text_lines,
    trim, trim_start, views, without_return,
};

verus! {

/// A block of a subtitle file: its two times as written, and its text.
#[derive(Debug, Clone, PartialEq, Eq)]
pub struct Timed {
    pub from: String,
    pub to: String,
    pub text: String,
}

/// A block as characters: its two times and its text.
pub type TimedView = (Seq<char>, Seq<char>, Seq<char>);

/// The views of some blocks.
pub open spec fn timed_views(cues: Seq<Timed>) -> Seq<TimedView> {
    cues.map_values(|cue: Timed| (cue.from@, cue.to@, cue.text@))
}

/// A line without the carriage returns at its end.
pub open spec fn strip_returns(line: Seq<char>) -> Seq<char>
    decreases line.len(),
{
    if line.len() > 0 && line.last() == '\r' {
        strip_returns(line.drop_last())
    } else {
        line
    }
}

/// Whether `-->` begins at `i`.
pub open spec fn arrow_at(s: Seq<char>, i: int) -> bool {
    0 <= i && i + 3 <= s.len() && s[i] == '-' && s[i + 1] == '-' && s[i + 2] == '>'
}

/// Where the first `-->` at or after `i` begins, or `-1`.
pub open spec fn arrow_from(s: Seq<char>, i: int) -> int
    decreases s.len() - i,
{
    if i < 0 || i + 3 > s.len() {
        -1
    } else if arrow_at(s, i) {
        i
    } else {
        arrow_from(s, i + 1)
    }
}

/// Where the first white space at or after `i` is, or the end.
pub open spec fn space_from(s: Seq<char>, i: int) -> int
    decreases s.len() - i,
{
    if i < 0 || i >= s.len() {
        s.len() as int
    } else if is_space(s[i]) {
        i
    } else {
        space_from(s, i + 1)
    }
}

/// The end time as it is written after the arrow: its first word, since
/// WebVTT writes its cue settings after the time on the same line — or all of
/// it where it holds no word.
pub open spec fn end_stamp(right: Seq<char>) -> Seq<char> {
    let t = trim_start(right);
    if t.len() == 0 {
        right
    } else {
        t.take(space_from(t, 0))
    }
}

/// The two times of a timing line, where it is one.
pub open spec fn timing_of(line: Seq<char>) -> Option<(Seq<char>, Seq<char>)> {
    let a = arrow_from(line, 0);
    if a < 0 {
        None
    } else {
        Some((line.take(a), end_stamp(line.skip(a + 3))))
    }
}

/// Where a reading of a file is: the timing of the block being read, if
/// one is, its lines so far, and the blocks finished.
pub type Reading = (Option<(Seq<char>, Seq<char>)>, Seq<Seq<char>>, Seq<TimedView>);

/// The blocks finished once the one being read is: a block with a timing
/// and some text to show is one more.
pub open spec fn finished(reading: Reading) -> Seq<TimedView> {
    let (timing, lines, done) = reading;
    match timing {
        Some((from, to)) => {
            let text = cleaned(join(lines, seq!['\n']));
            if text.len() > 0 {
                done.push((from, to, text))
            } else {
                done
            }
        },
        None => done,
    }
}

/// One more line read: a blank line ends a block, a timing line ends one and
/// begins the next, and any other line is text where a block is being read.
pub open spec fn read_line(reading: Reading, raw: Seq<char>) -> Reading {
    let line = strip_returns(raw);
    if trim(line).len() == 0 {
        (None, Seq::empty(), finished(reading))
    } else {
        match timing_of(line) {
            Some(timing) => (Some(timing), Seq::empty(), finished(reading)),
            None => if reading.0 is Some {
                (reading.0, reading.1.push(line), reading.2)
            } else {
                reading
            },
        }
    }
}

/// A file's lines read in order.
pub open spec fn read_lines(lines: Seq<Seq<char>>) -> Reading
    decreases lines.len(),
{
    if lines.len() == 0 {
        (None, Seq::empty(), Seq::empty())
    } else {
        read_line(read_lines(lines.drop_last()), lines.last())
    }
}

/// The blocks of a SubRip or WebVTT file, in the order it holds them.
pub open spec fn timed_cues(text: Seq<char>) -> Seq<TimedView> {
    finished(read_lines(text_lines(text)))
}

proof fn lemma_segments_step(s: Seq<char>, i: int)
    requires
        0 <= i < s.len(),
    ensures
        segments(s.take(i + 1)) == if s[i] == '\n' {
            segments(s.take(i)).push(Seq::empty())
        } else {
            let before = segments(s.take(i));
            before.update(before.len() - 1, before.last().push(s[i]))
        },
{
    assert(s.take(i + 1).drop_last() =~= s.take(i));
}

proof fn lemma_segments_nonempty(s: Seq<char>)
    ensures
        segments(s).len() >= 1,
    decreases s.len(),
{
    if s.len() > 0 {
        lemma_segments_nonempty(s.drop_last());
    }
}

/// The lines of a text, as `str::lines` yields them.
pub fn lines_of(chars: &Vec<char>) -> (lines: Vec<Vec<char>>)
    ensures
        views(lines@) == text_lines(chars@),
{
    let mut lines: Vec<Vec<char>> = Vec::new();
    let mut current: Vec<char> = Vec::new();
    let mut i: usize = 0;
    assert(chars@.take(0) =~= Seq::<char>::empty());
    while i < chars.len()
        invariant
            i <= chars@.len(),
            segments(chars@.take(i as int)).len() >= 1,
            current@ == segments(chars@.take(i as int)).last(),
            views(lines@) == segments(chars@.take(i as int)).drop_last().map_values(
                |line: Seq<char>| without_return(line),
            ),
        decreases chars@.len() - i,
    {
        let ghost before = segments(chars@.take(i as int));
        proof {
            lemma_segments_step(chars@, i as int);
        }
        let c = chars[i];
        if c == '\n' {
            let mut line = current;
            if line.len() > 0 && line[line.len() - 1] == '\r' {
                line.pop();
            }
            assert(line@ == without_return(before.last()));
            let ghost old_lines = lines@;
            lines.push(line);
            current = Vec::new();
            proof {
                let after = segments(chars@.take(i + 1));
                assert(after.drop_last() =~= before);
                assert(views(lines@) =~= views(old_lines).push(without_return(before.last())));
                assert(before =~= before.drop_last().push(before.last()));
                assert(before.map_values(|line: Seq<char>| without_return(line))
                    =~= before.drop_last().map_values(|line: Seq<char>| without_return(line)).push(
                    without_return(before.last()),
                ));
                assert(views(lines@) =~= after.drop_last().map_values(
                    |line: Seq<char>| without_return(line),
                ));
            }
        } else {
            current.push(c);
            proof {
                let after = segments(chars@.take(i + 1));
                assert(after.drop_last() =~= before.drop_last());
            }
        }
        i += 1;
        proof {
            lemma_segments_nonempty(chars@.take(i as int));
        }
    }
    assert(chars@.take(i as int) =~= chars@);
    let ghost cut = segments(chars@);
    let ghost old_lines = lines@;
    if current.len() > 0 {
        lines.push(current);
        assert(views(lines@) =~= views(old_lines).push(cut.last()));
    }
    lines
}

/// A line without the carriage returns at its end.
fn without_returns(line: &Vec<char>) -> (out: Vec<char>)
    ensures
        out@ == strip_returns(line@),
{
    let mut end = line.len();
    assert(line@.take(end as int) =~= line@);
    while end > 0 && line[end - 1] == '\r'
        invariant
            end <= line@.len(),
            strip_returns(line@.take(end as int)) == strip_returns(line@),
        decreases end,
    {
        assert(line@.take(end as int).drop_last() =~= line@.take(end - 1));
        end -= 1;
    }
    assert(line@.take(end as int) =~= line@.subrange(0, end as int));
    copy_range(line, 0, end)
}

/// Whether a line holds nothing but white space.
fn blank(line: &Vec<char>) -> (is_blank: bool)
    ensures
        is_blank == (trim(line@).len() == 0),
{
    let mut i: usize = 0;
    assert(line@.skip(0) =~= line@);
    while i < line.len()
        invariant
            i <= line@.len(),
            trim_start(line@.skip(i as int)) == trim_start(line@),
            forall|j: int| 0 <= j < i ==> is_space(line@[j]),
        decreases line@.len() - i,
    {
        if !space(line[i]) {
            proof {
                assert(line@.skip(i as int)[0] == line@[i as int]);
                lemma_trim_end_keeps(trim_start(line@));
            }
            return false;
        }
        assert(line@.skip(i as int).drop_first() =~= line@.skip(i + 1));
        i += 1;
    }
    assert(line@.skip(i as int) =~= Seq::<char>::empty());
    proof {
        lemma_trim_end_keeps(trim_start(line@));
    }
    true
}

proof fn lemma_trim_end_keeps(s: Seq<char>)
    ensures
        (crate::text::trim_end(s).len() == 0) == (s.len() == 0 || forall|j: int|
            0 <= j < s.len() ==> is_space(s[j])),
        s.len() > 0 && !is_space(s[0]) ==> crate::text::trim_end(s).len() > 0,
    decreases s.len(),
{
    if s.len() > 0 {
        lemma_trim_end_keeps(s.drop_last());
        if is_space(s.last()) {
            if crate::text::trim_end(s.drop_last()).len() == 0 {
                assert forall|j: int| 0 <= j < s.len() implies is_space(s[j]) by {
                    if j < s.len() - 1 {
                        assert(s[j] == s.drop_last()[j]);
                    }
                }
            } else {
                let j = choose|j: int| 0 <= j < s.drop_last().len() && !is_space(
                    s.drop_last()[j],
                );
                assert(s[j] == s.drop_last()[j]);
            }
            if s.len() > 1 && !is_space(s[0]) {
                assert(s.drop_last()[0] == s[0]);
            }
        }
    }
}

/// Where the first `-->` is.
fn arrow(line: &Vec<char>) -> (at: Option<usize>)
    ensures
        match at {
            Some(a) => arrow_from(line@, 0) == a as int && a + 3 <= line@.len(),
            None => arrow_from(line@, 0) < 0,
        },
{
    let n = line.len();
    let mut i: usize = 0;
    while n >= 3 && i <= n - 3
        invariant
            n == line@.len(),
            arrow_from(line@, 0) == arrow_from(line@, i as int),
        decreases n - i,
    {
        if line[i] == '-' && line[i + 1] == '-' && line[i + 2] == '>' {
            return Some(i);
        }
        i += 1;
    }
    None
}

/// The end time as it is written after the arrow.
fn end_of(line: &Vec<char>, from: usize) -> (stamp: Vec<char>)
    requires
        from <= line@.len(),
    ensures
        stamp@ == end_stamp(line@.skip(from as int)),
{
    let n = line.len();
    let ghost right = line@.skip(from as int);
    let mut start = from;
    assert(line@.skip(from as int) =~= right);
    while start < n && space(line[start])
        invariant
            from <= start <= n,
            n == line@.len(),
            right == line@.skip(from as int),
            trim_start(right) == trim_start(line@.skip(start as int)),
        decreases n - start,
    {
        assert(line@.skip(start as int).drop_first() =~= line@.skip(start + 1));
        start += 1;
    }
    proof {
        let rest = line@.skip(start as int);
        if rest.len() > 0 {
            assert(rest[0] == line@[start as int]);
        }
        assert(trim_start(rest) == rest);
    }
    if start == n {
        assert(line@.skip(start as int) =~= Seq::<char>::empty());
        return copy_range(line, from, n);
    }
    let ghost t = line@.skip(start as int);
    let mut end = start;
    while end < n && !space(line[end])
        invariant
            start <= end <= n,
            n == line@.len(),
            t == line@.skip(start as int),
            space_from(t, 0) == space_from(t, end - start),
        decreases n - end,
    {
        end += 1;
    }
    proof {
        if end < n {
            assert(t[end - start] == line@[end as int]);
        }
        assert(space_from(t, end - start) == end - start);
    }
    let stamp = copy_range(line, start, end);
    assert(stamp@ =~= t.take(end - start));
    assert(line@.subrange(from as int, n as int) =~= right);
    stamp
}

/// The blocks of a SubRip or WebVTT file: for each timing line, its two times
/// as they are written, and the text of the lines after it up to the next
/// blank line or timing line, cleaned — leaving out a block with no text to
/// show.
pub fn timed_blocks(text: &str) -> (cues: Vec<Timed>)
    ensures
        timed_views(cues@) == timed_cues(text@),
{
    let chars = chars_of(text);
    let lines = lines_of(&chars);
    let ghost all = views(lines@);
    let mut timing: Option<(Vec<char>, Vec<char>)> = None;
    let mut body: Vec<Vec<char>> = Vec::new();
    let mut cues: Vec<Timed> = Vec::new();
    let mut i: usize = 0;
    assert(all.take(0) =~= Seq::<Seq<char>>::empty());
    while i < lines.len()
        invariant
            i <= lines@.len(),
            all == views(lines@),
            all == text_lines(chars@),
            chars@ == text@,
            read_lines(all.take(i as int)) == (
                match timing {
                    Some((f, t)) => Some((f@, t@)),
                    None => None,
                },
                views(body@),
                timed_views(cues@),
            ),
        decreases lines@.len() - i,
    {
        assert(all.take(i + 1).drop_last() =~= all.take(i as int));
        assert(all.take(i + 1).last() == lines@[i as int]@);
        let line = without_returns(&lines[i]);
        if blank(&line) {
            finish(&mut timing, &mut body, &mut cues);
        } else {
            match arrow(&line) {
                Some(a) => {
                    let width = line.len();
                    assert(a + 3 <= width);
                    finish(&mut timing, &mut body, &mut cues);
                    let from = copy_range(&line, 0, a);
                    let to = end_of(&line, a + 3);
                    assert(from@ =~= line@.take(a as int));
                    timing = Some((from, to));
                },
                None => {
                    if timing.is_some() {
                        let ghost before = body@;
                        body.push(line);
                        assert(views(body@) =~= views(before).push(line@));
                    }
                },
            }
        }
        i += 1;
    }
    assert(all.take(i as int) =~= all);
    finish(&mut timing, &mut body, &mut cues);
    cues
}

/// Finish the block being read.
fn finish(
    timing: &mut Option<(Vec<char>, Vec<char>)>,
    body: &mut Vec<Vec<char>>,
    cues: &mut Vec<Timed>,
)
    ensures
        *final(timing) is None,
        final(body)@.len() == 0,
        timed_views(final(cues)@) == finished(
            (
                match *old(timing) {
                    Some((f, t)) => Some((f@, t@)),
                    None => None,
                },
                views(old(body)@),
                timed_views(old(cues)@),
            ),
        ),
{
    match timing.take() {
        Some((from, to)) => {
            let joined = join_lines(body);
            let text = clean_chars(&joined);
            if text.len() > 0 {
                let ghost before = cues@;
                cues.push(Timed { from: string_from(&from), to: string_from(&to), text: string_from(&text) });
                assert(timed_views(cues@) =~= timed_views(before).push((from@, to@, text@)));
            }
        },
        None => {},
    }
    body.clear();
}

/// The text after a word at the front of a line, white space before it
/// aside, where the line begins with it.
pub open spec fn after_word(line: Seq<char>, word: Seq<char>) -> Option<Seq<char>> {
    let t = trim_start(line);
    if t.len() >= word.len() && t.take(word.len() as int) == word {
        Some(t.skip(word.len() as int))
    } else {
        None
    }
}

/// Where the first comma at or after `i` is, or `-1`.
pub open spec fn comma_from(s: Seq<char>, i: int) -> int
    decreases s.len() - i,
{
    if i < 0 || i >= s.len() {
        -1
    } else if s[i] == ',' {
        i
    } else {
        comma_from(s, i + 1)
    }
}

/// Text cut at its commas into at most `n` pieces, the last holding the
/// rest: what `str::splitn` yields for a comma.
pub open spec fn split_commas(s: Seq<char>, n: nat) -> Seq<Seq<char>>
    decreases n,
{
    let c = comma_from(s, 0);
    if n <= 1 || c < 0 {
        seq![s]
    } else {
        seq![s.take(c)] + split_commas(s.skip(c + 1), (n - 1) as nat)
    }
}

/// Text cut at every comma: one more piece than there are commas.
pub open spec fn all_commas(s: Seq<char>) -> Seq<Seq<char>> {
    split_commas(s, s.len() + 1)
}

/// Text with its ASCII capitals made small.
pub open spec fn small_letters(s: Seq<char>) -> Seq<char> {
    s.map_values(|c: char| if 'A' <= c <= 'Z' {
        ((c as u32) + 32) as char
    } else {
        c
    })
}

/// The names of a SubStation file's fields, off its `Format:` line: each
/// trimmed, with its capitals made small. A field whose name lower-cases to
/// `start` or `end` in full Unicode is one whose capitals are ASCII, since no
/// other letter lower-cases to any of the letters of those two words, so
/// these are found alike either way.
pub open spec fn field_names(rest: Seq<char>) -> Seq<Seq<char>> {
    all_commas(rest).map_values(|field: Seq<char>| small_letters(trim(field)))
}

/// Where a name first stands among the fields, or `-1`.
pub open spec fn first_field(fields: Seq<Seq<char>>, name: Seq<char>) -> int
    decreases fields.len(),
{
    if fields.len() == 0 {
        -1
    } else if fields[0] == name {
        0
    } else if first_field(fields.drop_first(), name) < 0 {
        -1
    } else {
        first_field(fields.drop_first(), name) + 1
    }
}

/// Where a name first stands among the fields, or where it stands by
/// default.
pub open spec fn field_or(fields: Seq<Seq<char>>, name: Seq<char>, fallback: int) -> int {
    if first_field(fields, name) < 0 {
        fallback
    } else {
        first_field(fields, name)
    }
}

/// `Format:`
pub open spec fn format_word() -> Seq<char> {
    seq!['F', 'o', 'r', 'm', 'a', 't', ':']
}

/// `Dialogue:`
pub open spec fn dialogue_word() -> Seq<char> {
    seq!['D', 'i', 'a', 'l', 'o', 'g', 'u', 'e', ':']
}

/// `start`
pub open spec fn start_word() -> Seq<char> {
    seq!['s', 't', 'a', 'r', 't']
}

/// `end`
pub open spec fn end_word() -> Seq<char> {
    seq!['e', 'n', 'd']
}

/// Where a reading of a SubStation file is: the fields its last `Format:`
/// line named, and the cues so far.
pub type Staging = (Seq<Seq<char>>, Seq<TimedView>);

/// The cue a `Dialogue:` line makes, given the fields named so far: the
/// line's fields cut at as many commas as there are fields before the text,
/// so that the text keeps its own commas; the start and the end where the
/// fields name them, and the second and third field where none does. A line
/// with too few fields, or no field where a time should be, or no text to
/// show, makes none.
pub open spec fn dialogue_cue(fields: Seq<Seq<char>>, rest: Seq<char>) -> Option<TimedView> {
    let count: nat = if fields.len() == 0 {
        10
    } else {
        fields.len()
    };
    let parts = split_commas(rest, count);
    let from = field_or(fields, start_word(), 1);
    let to = field_or(fields, end_word(), 2);
    let text = cleaned(parts.last());
    if parts.len() < count || from >= parts.len() || to >= parts.len() || text.len() == 0 {
        None
    } else {
        Some((parts[from], parts[to], text))
    }
}

/// One more line of a SubStation file read.
pub open spec fn stage_line(staging: Staging, raw: Seq<char>) -> Staging {
    let line = strip_returns(raw);
    match after_word(line, format_word()) {
        Some(rest) => (field_names(rest), staging.1),
        None => match after_word(line, dialogue_word()) {
            Some(rest) => match dialogue_cue(staging.0, rest) {
                Some(cue) => (staging.0, staging.1.push(cue)),
                None => staging,
            },
            None => staging,
        },
    }
}

/// A SubStation file's lines read in order.
pub open spec fn stage_lines(lines: Seq<Seq<char>>) -> Staging
    decreases lines.len(),
{
    if lines.len() == 0 {
        (Seq::empty(), Seq::empty())
    } else {
        stage_line(stage_lines(lines.drop_last()), lines.last())
    }
}

/// The cues of a SubStation file, in the order it holds them.
pub open spec fn substation_cues(text: Seq<char>) -> Seq<TimedView> {
    stage_lines(text_lines(text)).1
}

/// Where the text after a word at the front of a line begins, white space
/// before the word aside.
fn after_word_at(line: &Vec<char>, word: &[char]) -> (at: Option<usize>)
    ensures
        match at {
            Some(k) => word@.len() <= k <= line@.len() && after_word(line@, word@) == Some(
                line@.skip(k as int),
            ),
            None => after_word(line@, word@) is None,
        },
{
    let n = line.len();
    let mut start: usize = 0;
    assert(line@.skip(0) =~= line@);
    while start < n && space(line[start])
        invariant
            start <= n,
            n == line@.len(),
            trim_start(line@) == trim_start(line@.skip(start as int)),
        decreases n - start,
    {
        assert(line@.skip(start as int).drop_first() =~= line@.skip(start + 1));
        start += 1;
    }
    let ghost t = line@.skip(start as int);
    proof {
        if t.len() > 0 {
            assert(t[0] == line@[start as int]);
        }
        assert(trim_start(t) == t);
    }
    let w = word.len();
    if n - start < w {
        return None;
    }
    let mut k: usize = 0;
    while k < w
        invariant
            k <= w,
            w == word@.len(),
            start + w <= n,
            n == line@.len(),
            t == line@.skip(start as int),
            trim_start(line@) == t,
            forall|j: int| 0 <= j < k ==> t[j] == word@[j],
        decreases w - k,
    {
        if line[start + k] != word[k] {
            proof {
                assert(t.take(w as int)[k as int] == t[k as int]);
                assert(t[k as int] == line@[start + k]);
                assert(t.take(w as int)[k as int] != word@[k as int]);
                assert(t.take(w as int) != word@);
            }
            return None;
        }
        k += 1;
    }
    assert(t.take(w as int) =~= word@);
    assert(t.skip(w as int) =~= line@.skip(start + w));
    Some(start + w)
}

proof fn lemma_comma_shift(s: Seq<char>, a: int, i: int)
    requires
        0 <= a <= s.len(),
        0 <= i,
    ensures
        comma_from(s.skip(a), i) == if comma_from(s, a + i) < 0 {
            -1
        } else {
            comma_from(s, a + i) - a
        },
    decreases s.len() - a - i,
{
    if a + i < s.len() {
        assert(s.skip(a)[i] == s[a + i]);
        lemma_comma_shift(s, a, i + 1);
    }
}

proof fn lemma_comma_from_order(s: Seq<char>, i: int)
    requires
        0 <= i,
    ensures
        comma_from(s, i) < 0 || (i <= comma_from(s, i) < s.len() && s[comma_from(s, i)] == ','
            && forall|j: int| i <= j < comma_from(s, i) ==> s[j] != ','),
        comma_from(s, i) < 0 ==> forall|j: int| i <= j < s.len() ==> s[j] != ',',
    decreases s.len() - i,
{
    if i < s.len() {
        lemma_comma_from_order(s, i + 1);
    }
}

proof fn lemma_split_enough(s: Seq<char>, n1: nat, n2: nat)
    requires
        n1 >= s.len() + 1,
        n2 >= s.len() + 1,
    ensures
        split_commas(s, n1) == split_commas(s, n2),
    decreases s.len(),
{
    let c = comma_from(s, 0);
    lemma_comma_from_order(s, 0);
    if c >= 0 {
        lemma_split_enough(s.skip(c + 1), (n1 - 1) as nat, (n2 - 1) as nat);
    }
}

/// The pieces of the characters from `from` on, cut at commas into at most
/// `n`.
fn split_at_commas(chars: &Vec<char>, from: usize, n: usize) -> (pieces: Vec<Vec<char>>)
    requires
        from <= chars@.len(),
        n >= 1,
    ensures
        views(pieces@) == split_commas(chars@.skip(from as int), n as nat),
{
    let len = chars.len();
    let mut pieces: Vec<Vec<char>> = Vec::new();
    let mut start = from;
    let mut i = from;
    assert(chars@.skip(from as int) =~= chars@.skip(start as int));
    while i < len && pieces.len() + 1 < n
        invariant
            from <= start <= i <= len,
            len == chars@.len(),
            n >= 1,
            pieces@.len() < n,
            forall|j: int| start <= j < i ==> chars@[j] != ',',
            views(pieces@) + split_commas(chars@.skip(start as int), (n - pieces@.len()) as nat)
                == split_commas(chars@.skip(from as int), n as nat),
        decreases len - i,
    {
        if chars[i] == ',' {
            let piece = copy_range(chars, start, i);
            proof {
                let rest = chars@.skip(start as int);
                lemma_comma_from_order(chars@, start as int);
                lemma_comma_shift(chars@, start as int, 0);
                assert(comma_from(chars@, start as int) == i) by {
                    lemma_comma_from_order(chars@, start as int);
                    let c = comma_from(chars@, start as int);
                    if c < 0 {
                        assert(chars@[i as int] != ',');
                    } else if c < i {
                        assert(chars@[c] != ',');
                    } else if c > i {
                        assert(chars@[i as int] != ',');
                    }
                }
                assert(rest.take(i - start) =~= piece@);
                assert(rest.skip(i - start + 1) =~= chars@.skip(i + 1));
                let m = (n - pieces@.len()) as nat;
                assert(split_commas(rest, m) == seq![piece@] + split_commas(
                    chars@.skip(i + 1),
                    (m - 1) as nat,
                ));
            }
            let ghost before = pieces@;
            pieces.push(piece);
            assert(views(pieces@) =~= views(before).push(piece@));
            start = i + 1;
            assert(views(pieces@) + split_commas(chars@.skip(start as int), (n - pieces@.len()) as nat)
                =~= views(before) + (seq![piece@] + split_commas(
                chars@.skip(start as int),
                (n - before.len() - 1) as nat,
            )));
        }
        i += 1;
    }
    let last = copy_range(chars, start, len);
    proof {
        let rest = chars@.skip(start as int);
        assert(last@ =~= rest);
        let m = (n - pieces@.len()) as nat;
        if m > 1 {
            lemma_comma_from_order(chars@, start as int);
            lemma_comma_shift(chars@, start as int, 0);
            let c = comma_from(chars@, start as int);
            if c >= 0 {
                assert(chars@[c] != ',');
            }
        }
        assert(split_commas(rest, m) == seq![rest]);
    }
    let ghost before = pieces@;
    pieces.push(last);
    assert(views(pieces@) =~= views(before) + seq![last@]);
    pieces
}

/// Characters with their ASCII capitals made small.
fn small(chars: &Vec<char>) -> (out: Vec<char>)
    ensures
        out@ == small_letters(chars@),
{
    let mut out: Vec<char> = Vec::new();
    let mut i: usize = 0;
    while i < chars.len()
        invariant
            i <= chars@.len(),
            out@ == small_letters(chars@.take(i as int)),
        decreases chars@.len() - i,
    {
        let c = chars[i];
        let d = if 'A' <= c && c <= 'Z' {
            char_of_ascii((c as u32 + 32) as u8)
        } else {
            c
        };
        out.push(d);
        i += 1;
        assert(out@ =~= small_letters(chars@.take(i as int)));
    }
    assert(chars@.take(i as int) =~= chars@);
    out
}

fn char_of_ascii(b: u8) -> (c: char)
    requires
        b < 128,
    ensures
        c == (b as u32) as char,
{
    let c = b as char;
    assert(c as u32 == b as u32);
    proof {
        vstd::utf8::char_u32_cast(c, b as u32);
    }
    c
}

/// The names of the fields on a `Format:` line, from `from` on.
fn names_of(chars: &Vec<char>, from: usize) -> (names: Vec<Vec<char>>)
    requires
        from <= chars@.len(),
        from >= 1,
    ensures
        views(names@) == field_names(chars@.skip(from as int)),
{
    let pieces = split_at_commas(chars, from, usize::MAX);
    let len = chars.len();
    proof {
        lemma_split_enough(
            chars@.skip(from as int),
            usize::MAX as nat,
            (chars@.skip(from as int).len() + 1) as nat,
        );
    }
    let ghost all = views(pieces@);
    let mut names: Vec<Vec<char>> = Vec::new();
    let mut i: usize = 0;
    while i < pieces.len()
        invariant
            i <= pieces@.len(),
            all == views(pieces@),
            all == all_commas(chars@.skip(from as int)),
            views(names@) == all.take(i as int).map_values(
                |field: Seq<char>| small_letters(trim(field)),
            ),
        decreases pieces@.len() - i,
    {
        let trimmed_piece = crate::text::trimmed(&pieces[i]);
        let name = small(&trimmed_piece);
        let ghost before = names@;
        names.push(name);
        assert(views(names@) =~= views(before).push(name@));
        i += 1;
        assert(all.take(i as int) =~= all.take(i - 1).push(all[i - 1]));
        assert(all.take(i as int).map_values(|field: Seq<char>| small_letters(trim(field)))
            =~= all.take(i - 1).map_values(|field: Seq<char>| small_letters(trim(field))).push(
            small_letters(trim(all[i - 1])),
        ));
    }
    assert(all.take(i as int) =~= all);
    names
}

/// Whether some characters are these.
fn same_chars(x: &Vec<char>, y: &[char]) -> (same: bool)
    ensures
        same == (x@ == y@),
{
    if x.len() != y.len() {
        return false;
    }
    let mut i: usize = 0;
    while i < x.len()
        invariant
            i <= x@.len(),
            x@.len() == y@.len(),
            forall|j: int| 0 <= j < i ==> x@[j] == y@[j],
        decreases x@.len() - i,
    {
        if x[i] != y[i] {
            return false;
        }
        i += 1;
    }
    assert(x@ =~= y@);
    true
}

proof fn lemma_first_field(fields: Seq<Seq<char>>, name: Seq<char>)
    ensures
        first_field(fields, name) < fields.len(),
        first_field(fields, name) >= 0 ==> fields[first_field(fields, name)] == name && forall|
            j: int,
        |
            0 <= j < first_field(fields, name) ==> fields[j] != name,
        first_field(fields, name) < 0 ==> forall|j: int| 0 <= j < fields.len() ==> fields[j] != name,
    decreases fields.len(),
{
    if fields.len() > 0 {
        let rest = fields.drop_first();
        lemma_first_field(rest, name);
        assert forall|j: int| 0 < j < fields.len() implies fields[j] == rest[j - 1] by {}
    }
}

/// Where a name stands among the fields, or where it stands by default.
fn field_index(fields: &Vec<Vec<char>>, name: &[char], fallback: usize) -> (at: usize)
    ensures
        at == field_or(views(fields@), name@, fallback as int),
{
    let ghost all = views(fields@);
    let mut i: usize = 0;
    assert(all.skip(0) =~= all);
    proof {
        lemma_first_field(all, name@);
    }
    while i < fields.len()
        invariant
            i <= fields@.len(),
            all == views(fields@),
            forall|j: int| 0 <= j < i ==> all[j] != name@,
            first_field(all, name@) < 0 ==> first_field(all.skip(i as int), name@) < 0,
            first_field(all, name@) >= 0 ==> first_field(all.skip(i as int), name@) + i
                == first_field(all, name@),
            first_field(all, name@) < all.len(),
            first_field(all, name@) >= 0 ==> all[first_field(all, name@)] == name@,
        decreases fields@.len() - i,
    {
        let rest = Ghost(all.skip(i as int));
        assert(rest@[0] == all[i as int]);
        assert(rest@.drop_first() =~= all.skip(i + 1));
        proof {
            lemma_first_field(all, name@);
        }
        if same_chars(&fields[i], name) {
            return i;
        }
        i += 1;
    }
    proof {
        lemma_first_field(all, name@);
    }
    fallback
}

/// The cues of a SubStation file: one for each `Dialogue:` line with the
/// fields its file's `Format:` line names and some text to show, each with
/// its two times as they are written and its text cleaned.
///
/// The format line is read rather than assumed, because the field order is
/// genuinely per-file, and the text is what is left after the fields rather
/// than a field, so that it keeps its own commas.
pub fn substation(text: &str) -> (cues: Vec<Timed>)
    ensures
        timed_views(cues@) == substation_cues(text@),
{
    let chars = chars_of(text);
    let lines = lines_of(&chars);
    let ghost all = views(lines@);
    let format: [char; 7] = ['F', 'o', 'r', 'm', 'a', 't', ':'];
    let dialogue: [char; 9] = ['D', 'i', 'a', 'l', 'o', 'g', 'u', 'e', ':'];
    let start: [char; 5] = ['s', 't', 'a', 'r', 't'];
    let end: [char; 3] = ['e', 'n', 'd'];
    assert(format@ =~= format_word());
    assert(dialogue@ =~= dialogue_word());
    assert(start@ =~= start_word());
    assert(end@ =~= end_word());
    let mut fields: Vec<Vec<char>> = Vec::new();
    let mut cues: Vec<Timed> = Vec::new();
    let mut i: usize = 0;
    assert(all.take(0) =~= Seq::<Seq<char>>::empty());
    while i < lines.len()
        invariant
            i <= lines@.len(),
            all == views(lines@),
            all == text_lines(chars@),
            chars@ == text@,
            format@ == format_word(),
            dialogue@ == dialogue_word(),
            start@ == start_word(),
            end@ == end_word(),
            stage_lines(all.take(i as int)) == (views(fields@), timed_views(cues@)),
        decreases lines@.len() - i,
    {
        assert(all.take(i + 1).drop_last() =~= all.take(i as int));
        assert(all.take(i + 1).last() == lines@[i as int]@);
        let line = without_returns(&lines[i]);
        match after_word_at(&line, &format) {
            Some(k) => {
                fields = names_of(&line, k);
            },
            None => {
                match after_word_at(&line, &dialogue) {
                    Some(k) => {
                        let count = if fields.len() == 0 {
                            10
                        } else {
                            fields.len()
                        };
                        let parts = split_at_commas(&line, k, count);
                        let from = field_index(&fields, &start, 1);
                        let to = field_index(&fields, &end, 2);
                        if parts.len() >= count && from < parts.len() && to < parts.len() {
                            let body = clean_chars(&parts[parts.len() - 1]);
                            if body.len() > 0 {
                                let ghost before = cues@;
                                cues.push(
                                    Timed {
                                        from: string_from(&parts[from]),
                                        to: string_from(&parts[to]),
                                        text: string_from(&body),
                                    },
                                );
                                assert(timed_views(cues@) =~= timed_views(before).push(
                                    (parts@[from as int]@, parts@[to as int]@, body@),
                                ));
                            }
                        }
                    },
                    None => {},
                }
            },
        }
        i += 1;
    }
    assert(all.take(i as int) =~= all);
    cues
}

/// Whether a file's ending names a SubStation file, in either case.
pub open spec fn substation_ending(ending: Seq<char>) -> bool {
    small_letters(ending) == seq!['a', 's', 's'] || small_letters(ending) == seq!['s', 's', 'a']
}

/// The blocks of a subtitle file, from its bytes and its ending: read as
/// text the way a file that says nothing of its encoding is, and then as
/// SubStation where the ending says so and as SubRip or WebVTT otherwise.
pub fn read_cues(bytes: &[u8], ending: &str) -> (cues: Vec<Timed>)
    ensures
        timed_views(cues@) == if substation_ending(ending@) {
            substation_cues(decoded(bytes@))
        } else {
            timed_cues(decoded(bytes@))
        },
{
    let text = decode(bytes);
    let ending_chars = chars_of(ending);
    let lowered = small(&ending_chars);
    let ass: [char; 3] = ['a', 's', 's'];
    let ssa: [char; 3] = ['s', 's', 'a'];
    assert(ass@ =~= seq!['a', 's', 's']);
    assert(ssa@ =~= seq!['s', 's', 'a']);
    if same_chars(&lowered, &ass) || same_chars(&lowered, &ssa) {
        substation(text.as_str())
    } else {
        timed_blocks(text.as_str())
    }
}

} // verus!
