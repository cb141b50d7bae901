//! The words under a film.
//!
//! Two sources, and they are deliberately the same kind of thing by the time
//! anything else sees them: a cue with a start, an end and some text. One
//! comes from a stream inside the film and the other from a file sitting
//! beside it. SubRip, WebVTT and SubStation are three spellings of one idea.
//!
//! What is here is the part that reads text: the marks that come off a line
//! before it is drawn, the bytes of a file as characters, the name a file is
//! offered under, and the blocks a file is made of. Reading the times in a
//! block as seconds is floating point and is the caller's.

use vstd::prelude::*;

use vstd::string::StringSliceAdditionalSpecFns;
use vstd::utf8::{decode_utf8, encode_utf8, is_char_boundary};

use crate::command_line::same_text;
use crate::paths::{extension, file_name, file_name_of, file_stem, last_dot, stem_of_name};
use crate::text::{chars_of, lowercase, lowercase_of, string_from, tidied, tidy};

verus! {

/// Where the first `c` in `w` is, or the length of `w` where there is none.
pub open spec fn first_of(w: Seq<char>, c: char) -> nat
    decreases w.len(),
{
    if w.len() == 0 {
        0
    } else if w[0] == c {
        0
    } else {
        1 + first_of(w.drop_first(), c)
    }
}

/// Whether there is a newline among the first `i` characters of `w`.
pub open spec fn newline_before(w: Seq<char>, i: int) -> bool {
    exists|j: int| 0 <= j < i && w[j] == '\n'
}

/// What a `<` followed by `rest` is: `Some(n)` where it opens a tag and the
/// next `n` characters are passed over with it, `None` where it is only a
/// less-than sign.
///
/// A tag is a `>` among the next twenty-four characters with no newline before
/// it, and what is passed over is the tag itself: everything up to and with
/// that `>`.
pub open spec fn tag_skip(rest: Seq<char>) -> Option<nat> {
    let window = rest.take(if rest.len() < 24 {
        rest.len() as int
    } else {
        24
    });
    let i = first_of(window, '>');
    if i >= window.len() || newline_before(window, i as int) {
        None
    } else {
        // The `>` is among the characters there are, so this is never more
        // than what is left.
        Some(
            if i + 1 < rest.len() {
                (i + 1) as nat
            } else {
                rest.len()
            },
        )
    }
}

pub(crate) proof fn lemma_first_of(w: Seq<char>, c: char, k: int)
    requires
        0 <= k <= w.len(),
        forall|j: int| 0 <= j < k ==> w[j] != c,
        k == w.len() || w[k] == c,
    ensures
        first_of(w, c) == k,
    decreases k,
{
    if k > 0 {
        lemma_first_of(w.drop_first(), c, k - 1);
    }
}

/// What is left of a line once SubStation's `{...}` override blocks, its
/// `\N` and `\h`, and SubRip's tags have come off it, before the lines are
/// tidied. `depth` is how many braces are open.
pub open spec fn unmarked(s: Seq<char>, depth: nat) -> Seq<char>
    decreases s.len(),
{
    if s.len() == 0 {
        Seq::empty()
    } else {
        let c = s[0];
        let rest = s.drop_first();
        if c == '{' {
            unmarked(rest, depth + 1)
        } else if c == '}' {
            unmarked(
                rest,
                if depth > 0 {
                    (depth - 1) as nat
                } else {
                    0
                },
            )
        } else if depth > 0 {
            unmarked(rest, depth)
        } else if c == '\\' {
            if rest.len() > 0 && (rest[0] == 'N' || rest[0] == 'n') {
                seq!['\n'] + unmarked(rest.drop_first(), depth)
            } else if rest.len() > 0 && rest[0] == 'h' {
                seq![' '] + unmarked(rest.drop_first(), depth)
            } else {
                seq!['\\'] + unmarked(rest, depth)
            }
        } else if c == '<' {
            match tag_skip(rest) {
                Some(n) => unmarked(rest.skip(n as int), depth),
                None => seq!['<'] + unmarked(rest, depth),
            }
        } else {
            seq![c] + unmarked(rest, depth)
        }
    }
}

/// One cue's text, as it is drawn: the marks off, every line trimmed, and the
/// whole trimmed.
pub open spec fn cleaned(s: Seq<char>) -> Seq<char> {
    tidied(unmarked(s, 0))
}

/// `tag_skip` of what follows position `from`, read off the characters.
fn tag_end(chars: &Vec<char>, from: usize) -> (over: Option<usize>)
    requires
        from <= chars@.len(),
    ensures
        over matches Some(n) ==> tag_skip(chars@.skip(from as int)) == Some(n as nat),
        over is None ==> tag_skip(chars@.skip(from as int)) is None,
{
    let ghost rest = chars@.skip(from as int);
    let length = chars.len();
    let left = length - from;
    let reach = if left < 24 {
        left
    } else {
        24
    };
    let ghost window = rest.take(reach as int);
    assert(rest.len() == left);
    assert(window == rest.take(if rest.len() < 24 {
        rest.len() as int
    } else {
        24
    }));
    let mut k: usize = 0;
    let mut newline = false;
    while k < reach
        invariant
            k <= reach <= left,
            reach <= 24,
            rest.len() == left,
            window == rest.take(if rest.len() < 24 {
                rest.len() as int
            } else {
                24
            }),
            left == length - from,
            length == chars@.len(),
            from <= length,
            rest == chars@.skip(from as int),
            window == rest.take(reach as int),
            newline <==> exists|j: int| 0 <= j < k && window[j] == '\n',
            window.len() == reach,
            forall|j: int| 0 <= j < k ==> window[j] != '>',
        decreases reach - k,
    {
        let c = chars[from + k];
        assert(c == window[k as int]);
        if c == '>' {
            proof {
                lemma_first_of(window, '>', k as int);
            }
            if newline {
                proof {
                    let j = choose|j: int| 0 <= j < k && window[j] == '\n';
                    let w = rest.take(if rest.len() < 24 {
                        rest.len() as int
                    } else {
                        24
                    });
                    assert(w[j] == '\n');
                    assert(w == window);
                    assert(first_of(w, '>') == k);
                    assert(newline_before(w, k as int));
                }
                assert(tag_skip(rest) is None);
                return None;
            }
            assert(tag_skip(rest) == Some((k + 1) as nat));
            return Some(k + 1);
        }
        if c == '\n' {
            newline = true;
        }
        k += 1;
    }
    proof {
        lemma_first_of(window, '>', k as int);
    }
    None
}

/// `unmarked`, read off the characters.
fn unmark(chars: &Vec<char>) -> (out: Vec<char>)
    ensures
        out@ == unmarked(chars@, 0),
{
    let mut out: Vec<char> = Vec::new();
    let mut depth: usize = 0;
    let mut i: usize = 0;
    let length = chars.len();
    assert(chars@.skip(0) =~= chars@);
    while i < length
        invariant
            i <= length,
            length == chars@.len(),
            depth <= i,
            out@ + unmarked(chars@.skip(i as int), depth as nat) == unmarked(chars@, 0),
        decreases length - i,
    {
        let ghost before = out@;
        let ghost here = chars@.skip(i as int);
        let ghost rest = here.drop_first();
        assert(rest =~= chars@.skip(i + 1));
        let c = chars[i];
        assert(here[0] == c);
        if c == '{' {
            depth += 1;
            i += 1;
        } else if c == '}' {
            if depth > 0 {
                depth -= 1;
            }
            i += 1;
        } else if depth > 0 {
            i += 1;
        } else if c == '\\' {
            if i + 1 < length && (chars[i + 1] == 'N' || chars[i + 1] == 'n') {
                assert(rest[0] == chars@[i + 1]);
                assert(rest.drop_first() =~= chars@.skip(i + 2));
                out.push('\n');
                i += 2;
                assert(out@ + unmarked(chars@.skip(i as int), depth as nat) =~= before
                    + unmarked(here, depth as nat));
            } else if i + 1 < length && chars[i + 1] == 'h' {
                assert(rest[0] == chars@[i + 1]);
                assert(rest.drop_first() =~= chars@.skip(i + 2));
                out.push(' ');
                i += 2;
                assert(out@ + unmarked(chars@.skip(i as int), depth as nat) =~= before
                    + unmarked(here, depth as nat));
            } else {
                proof {
                    if i + 1 < length {
                        assert(rest[0] == chars@[i + 1]);
                    }
                }
                out.push('\\');
                i += 1;
                assert(out@ + unmarked(chars@.skip(i as int), depth as nat) =~= before
                    + unmarked(here, depth as nat));
            }
        } else if c == '<' {
            match tag_end(chars, i + 1) {
                Some(n) => {
                    assert(rest.skip(n as int) =~= chars@.skip(i + 1 + n));
                    i = i + 1 + n;
                },
                None => {
                    out.push('<');
                    i += 1;
                    assert(out@ + unmarked(chars@.skip(i as int), depth as nat) =~= before
                        + unmarked(here, depth as nat));
                },
            }
        } else {
            out.push(c);
            i += 1;
            assert(out@ + unmarked(chars@.skip(i as int), depth as nat) =~= before + unmarked(
                here,
                depth as nat,
            ));
        }
    }
    assert(unmarked(chars@.skip(i as int), depth as nat) =~= Seq::<char>::empty());
    assert(out@ =~= unmarked(chars@, 0));
    out
}

/// `cleaned`, over characters.
pub(crate) fn clean_chars(chars: &Vec<char>) -> (out: Vec<char>)
    ensures
        out@ == cleaned(chars@),
{
    let marks_off = unmark(chars);
    tidy(&marks_off)
}

/// One cue's text, as it is drawn.
///
/// Three things come off it, and each of them appears in real files often
/// enough to be worth handling: SubStation's `{\...}` override blocks, its
/// `\N` line break, and the handful of HTML-ish tags SubRip picked up along the
/// way. What is left is words and newlines, every line trimmed.
pub fn clean(text: &str) -> (out: String)
    ensures
        out@ == cleaned(text@),
{
    let chars = chars_of(text);
    let marks_off = unmark(&chars);
    let tidy = tidy(&marks_off);
    string_from(&tidy)
}

/// A byte with an upper-case ASCII letter lowered, and anything else as it is.
pub open spec fn ascii_lower(b: u8) -> u8 {
    if 65 <= b <= 90 {
        (b + 32) as u8
    } else {
        b
    }
}

/// Whether two runs of bytes are the same but for the case of ASCII letters.
pub open spec fn same_ignoring_ascii_case(x: Seq<u8>, y: Seq<u8>) -> bool {
    x.len() == y.len() && forall|i: int| 0 <= i < x.len() ==> ascii_lower(x[i]) == ascii_lower(
        y[i],
    )
}

/// Text with the dots at its front taken off.
pub open spec fn without_leading_dots(s: Seq<char>) -> Seq<char>
    decreases s.len(),
{
    if s.len() > 0 && s[0] == '.' {
        without_leading_dots(s.drop_first())
    } else {
        s
    }
}

/// Whether a subtitle's stem begins with the film's, letter case aside.
pub open spec fn starts_with_stem(film_stem: Seq<u8>, stem: Seq<u8>) -> bool {
    &&& film_stem.len() > 0
    &&& stem.len() >= film_stem.len()
    &&& is_char_boundary(stem, film_stem.len() as int)
    &&& same_ignoring_ascii_case(stem.take(film_stem.len() as int), film_stem)
}

/// What a subtitle is called, given the film's stem, its own stem and its
/// own file name.
pub open spec fn subtitle_name(film_stem: Seq<char>, stem: Seq<char>, whole: Seq<char>) -> Seq<
    char,
> {
    let (f, s) = (encode_utf8(film_stem), encode_utf8(stem));
    let rest = if starts_with_stem(f, s) {
        without_leading_dots(decode_utf8(s.skip(f.len() as int)))
    } else {
        Seq::empty()
    };
    if rest.len() == 0 {
        whole
    } else {
        rest
    }
}

fn lower(b: u8) -> (l: u8)
    ensures
        l == ascii_lower(b),
{
    if 65 <= b && b <= 90 {
        b + 32
    } else {
        b
    }
}

fn same_bytes_ignoring_case(x: &[u8], y: &[u8]) -> (same: bool)
    ensures
        same == same_ignoring_ascii_case(x@, y@),
{
    if x.len() != y.len() {
        return false;
    }
    let mut i: usize = 0;
    while i < x.len()
        invariant
            i <= x@.len(),
            x@.len() == y@.len(),
            forall|j: int| 0 <= j < i ==> ascii_lower(x@[j]) == ascii_lower(y@[j]),
        decreases x@.len() - i,
    {
        if lower(x[i]) != lower(y[i]) {
            return false;
        }
        i += 1;
    }
    true
}

/// What a subtitle file is called, from the film's stem and the file's own
/// stem and name: the part of the name the film's own name does not account
/// for, or the file's own name where nothing is left over.
pub fn name_from_parts(film_stem: &str, stem: &str, whole: &str) -> (name: String)
    ensures
        name@ == subtitle_name(film_stem@, stem@, whole@),
{
    broadcast use vstd::utf8::group_utf8_lib;

    let f = film_stem.as_bytes();
    let s = stem.as_bytes();
    let n = f.len();
    let m = s.len();
    let mut rest: Vec<char> = Vec::new();
    if n > 0 && m >= n && stem.is_char_boundary(n) {
        let (head, tail) = stem.split_at(n);
        let head_bytes = head.as_bytes();
        assert(head_bytes@ =~= s@.take(n as int));
        if same_bytes_ignoring_case(head_bytes, f) {
            assert(starts_with_stem(f@, s@));
            let chars = chars_of(tail);
            assert(tail.spec_bytes() =~= s@.skip(n as int));
            assert(chars@ == decode_utf8(s@.skip(n as int)));
            let mut k: usize = 0;
            assert(chars@.skip(0) =~= chars@);
            while k < chars.len() && chars[k] == '.'
                invariant
                    k <= chars@.len(),
                    without_leading_dots(chars@.skip(k as int)) == without_leading_dots(chars@),
                decreases chars@.len() - k,
            {
                assert(chars@.skip(k as int).drop_first() =~= chars@.skip(k + 1));
                k += 1;
            }
            rest = crate::text::copy_range(&chars, k, chars.len());
            assert(rest@ =~= chars@.skip(k as int));
            assert(without_leading_dots(chars@.skip(k as int)) == chars@.skip(k as int));
            assert(rest@ == without_leading_dots(decode_utf8(s@.skip(n as int))));
        } else {
            assert(!starts_with_stem(f@, s@));
        }
    } else {
        assert(!starts_with_stem(f@, s@));
    }
    assert(rest@ == (if starts_with_stem(f@, s@) {
        without_leading_dots(decode_utf8(s@.skip(f@.len() as int)))
    } else {
        Seq::<char>::empty()
    }));
    if rest.len() == 0 {
        whole.to_owned()
    } else {
        string_from(&rest)
    }
}

/// What a subtitle file is called, to somebody choosing between three of them.
///
/// The part of the name the film's own name does not account for — `en`,
/// `pl.forced` — because that is the whole of what tells two of them apart.
/// Falls back to the file's own name where there is nothing left over, which
/// is the single-file case.
pub fn name_of(film: &str, subtitle: &str) -> (name: String)
    ensures
        ({
            let whole = match file_name_of(subtitle@) {
                Some(n) => n,
                None => Seq::empty(),
            };
            let film_stem = match file_name_of(film@) {
                Some(n) => stem_of_name(n),
                None => Seq::empty(),
            };
            let stem = match file_name_of(subtitle@) {
                Some(n) => stem_of_name(n),
                None => Seq::empty(),
            };
            name@ == subtitle_name(film_stem, stem, whole)
        }),
{
    let whole = match file_name(subtitle) {
        Some(n) => n,
        None => "",
    };
    let film_stem = match file_stem(film) {
        Some(s) => s,
        None => String::new(),
    };
    let stem = match file_stem(subtitle) {
        Some(s) => s,
        None => String::new(),
    };
    proof {
        reveal_strlit("");
    }
    name_from_parts(film_stem.as_str(), stem.as_str(), whole)
}

/// Whether some text holds no brace.
pub open spec fn no_brace(s: Seq<char>) -> bool {
    forall|i: int| 0 <= i < s.len() ==> #[trigger] s[i] != '{' && s[i] != '}'
}

proof fn lemma_unmarked_no_brace(s: Seq<char>, depth: nat)
    ensures
        no_brace(unmarked(s, depth)),
    decreases s.len(),
{
    if s.len() > 0 {
        let c = s[0];
        let rest = s.drop_first();
        lemma_unmarked_no_brace(rest, depth + 1);
        lemma_unmarked_no_brace(rest, depth);
        if depth > 0 {
            lemma_unmarked_no_brace(rest, (depth - 1) as nat);
        } else {
            lemma_unmarked_no_brace(rest, 0);
        }
        if rest.len() > 0 {
            lemma_unmarked_no_brace(rest.drop_first(), depth);
        }
        if c == '<' {
            match tag_skip(rest) {
                Some(n) => {
                    lemma_unmarked_no_brace(rest.skip(n as int), depth);
                },
                None => {},
            }
        }
        let out = unmarked(s, depth);
        if c != '{' && c != '}' && depth == 0 {
            assert forall|i: int| 0 <= i < out.len() implies #[trigger] out[i] != '{' && out[i]
                != '}' by {
                if c == '\\' {
                    if rest.len() > 0 && (rest[0] == 'N' || rest[0] == 'n') {
                        assert(out == seq!['\n'] + unmarked(rest.drop_first(), depth));
                        if i > 0 {
                            assert(out[i] == unmarked(rest.drop_first(), depth)[i - 1]);
                        }
                    } else if rest.len() > 0 && rest[0] == 'h' {
                        assert(out == seq![' '] + unmarked(rest.drop_first(), depth));
                        if i > 0 {
                            assert(out[i] == unmarked(rest.drop_first(), depth)[i - 1]);
                        }
                    } else {
                        assert(out == seq!['\\'] + unmarked(rest, depth));
                        if i > 0 {
                            assert(out[i] == unmarked(rest, depth)[i - 1]);
                        }
                    }
                } else if c == '<' {
                    match tag_skip(rest) {
                        Some(n) => {},
                        None => {
                            assert(out == seq!['<'] + unmarked(rest, depth));
                            if i > 0 {
                                assert(out[i] == unmarked(rest, depth)[i - 1]);
                            }
                        },
                    }
                } else {
                    assert(out == seq![c] + unmarked(rest, depth));
                    if i > 0 {
                        assert(out[i] == unmarked(rest, depth)[i - 1]);
                    }
                }
            }
        }
    }
}

proof fn lemma_trim_no_brace(s: Seq<char>)
    requires
        no_brace(s),
    ensures
        no_brace(crate::text::trim_start(s)),
        no_brace(crate::text::trim_end(s)),
        no_brace(crate::text::trim(s)),
{
    lemma_trim_start_no_brace(s);
    lemma_trim_end_no_brace(crate::text::trim_start(s));
    lemma_trim_end_no_brace(s);
}

proof fn lemma_trim_start_no_brace(s: Seq<char>)
    requires
        no_brace(s),
    ensures
        no_brace(crate::text::trim_start(s)),
    decreases s.len(),
{
    if s.len() > 0 && crate::text::is_space(s[0]) {
        assert forall|i: int| 0 <= i < s.drop_first().len() implies #[trigger] s.drop_first()[i]
            != '{' && s.drop_first()[i] != '}' by {
            assert(s.drop_first()[i] == s[i + 1]);
        }
        lemma_trim_start_no_brace(s.drop_first());
    }
}

proof fn lemma_trim_end_no_brace(s: Seq<char>)
    requires
        no_brace(s),
    ensures
        no_brace(crate::text::trim_end(s)),
    decreases s.len(),
{
    if s.len() > 0 && crate::text::is_space(s.last()) {
        assert forall|i: int| 0 <= i < s.drop_last().len() implies #[trigger] s.drop_last()[i]
            != '{' && s.drop_last()[i] != '}' by {
            assert(s.drop_last()[i] == s[i]);
        }
        lemma_trim_end_no_brace(s.drop_last());
    }
}

proof fn lemma_segments_no_brace(s: Seq<char>)
    requires
        no_brace(s),
    ensures
        forall|k: int|
            0 <= k < crate::text::segments(s).len() ==> no_brace(
                #[trigger] crate::text::segments(s)[k],
            ),
        crate::text::segments(s).len() >= 1,
    decreases s.len(),
{
    if s.len() > 0 {
        let front = s.drop_last();
        assert forall|i: int| 0 <= i < front.len() implies #[trigger] front[i] != '{' && front[i]
            != '}' by {
            assert(front[i] == s[i]);
        }
        lemma_segments_no_brace(front);
        let before = crate::text::segments(front);
        let after = crate::text::segments(s);
        assert(s.last() == s[s.len() - 1]);
        assert forall|k: int| 0 <= k < after.len() implies no_brace(#[trigger] after[k]) by {
            if s.last() == '\n' {
                if k < before.len() {
                    assert(after[k] == before[k]);
                } else {
                    assert(after[k] =~= Seq::<char>::empty());
                }
            } else {
                if k < before.len() - 1 {
                    assert(after[k] == before[k]);
                } else {
                    let piece = before.last().push(s.last());
                    assert(after[k] == piece);
                    assert(no_brace(before[before.len() - 1]));
                    assert forall|i: int| 0 <= i < piece.len() implies #[trigger] piece[i] != '{'
                        && piece[i] != '}' by {
                        if i < piece.len() - 1 {
                            assert(piece[i] == before.last()[i]);
                        }
                    }
                }
            }
        }
    }
}

proof fn lemma_join_no_brace(pieces: Seq<Seq<char>>)
    requires
        forall|k: int| 0 <= k < pieces.len() ==> no_brace(#[trigger] pieces[k]),
    ensures
        no_brace(crate::text::join(pieces, seq!['\n'])),
    decreases pieces.len(),
{
    if pieces.len() > 1 {
        let front = pieces.drop_last();
        assert forall|k: int| 0 <= k < front.len() implies no_brace(#[trigger] front[k]) by {
            assert(front[k] == pieces[k]);
        }
        lemma_join_no_brace(front);
        let head = crate::text::join(front, seq!['\n']);
        let last = pieces.last();
        assert(no_brace(pieces[pieces.len() - 1]));
        let whole = head + seq!['\n'] + last;
        assert forall|i: int| 0 <= i < whole.len() implies #[trigger] whole[i] != '{' && whole[i]
            != '}' by {
            if i < head.len() {
                assert(whole[i] == head[i]);
            } else if i > head.len() {
                assert(whole[i] == last[i - head.len() - 1]);
            }
        }
    } else if pieces.len() == 1 {
        assert(no_brace(pieces[0]));
    }
}

/// Whether text holds nothing a cue's marks are made of: no brace, no
/// backslash and no `<`.
pub open spec fn unmarked_already(s: Seq<char>) -> bool {
    forall|i: int| 0 <= i < s.len() ==> #[trigger] s[i] != '{' && s[i] != '}' && s[i] != '\\'
        && s[i] != '<'
}

proof fn lemma_plain_unmarked(s: Seq<char>)
    requires
        unmarked_already(s),
    ensures
        unmarked(s, 0) == s,
    decreases s.len(),
{
    if s.len() > 0 {
        let rest = s.drop_first();
        assert forall|i: int| 0 <= i < rest.len() implies #[trigger] rest[i] != '{' && rest[i]
            != '}' && rest[i] != '\\' && rest[i] != '<' by {
            assert(rest[i] == s[i + 1]);
        }
        lemma_plain_unmarked(rest);
        assert(s[0] != '{' && s[0] != '}' && s[0] != '\\' && s[0] != '<');
        assert(seq![s[0]] + rest =~= s);
    }
}

proof fn lemma_unmarked_len(s: Seq<char>, depth: nat)
    ensures
        unmarked(s, depth).len() <= s.len(),
    decreases s.len(),
{
    if s.len() > 0 {
        let c = s[0];
        let rest = s.drop_first();
        lemma_unmarked_len(rest, depth + 1);
        lemma_unmarked_len(rest, depth);
        if depth > 0 {
            lemma_unmarked_len(rest, (depth - 1) as nat);
        } else {
            lemma_unmarked_len(rest, 0);
        }
        if rest.len() > 0 {
            lemma_unmarked_len(rest.drop_first(), depth);
        }
        if c == '<' {
            match tag_skip(rest) {
                Some(n) => {
                    lemma_unmarked_len(rest.skip(n as int), depth);
                },
                None => {},
            }
        }
    }
}

/// What a cue's text is drawn as is trimmed at both ends, and so is every
/// line of it, cut at its newlines; it is never longer than the text; and
/// text with no marks in it is drawn as itself with its lines and its ends
/// trimmed.
pub proof fn law_clean_trims_and_never_grows(text: Seq<char>)
    ensures
        crate::text::trim(cleaned(text)) == cleaned(text),
        crate::text::lines_trimmed(cleaned(text)),
        cleaned(text).len() <= text.len(),
        unmarked_already(text) ==> cleaned(text) == tidied(text),
{
    lemma_unmarked_len(text, 0);
    crate::text::lemma_tidied_len(unmarked(text, 0));
    crate::text::lemma_tidied_lines(unmarked(text, 0));
    crate::text::lemma_trim_trimmed(
        crate::text::join(
            crate::text::text_lines(unmarked(text, 0)).map_values(
                |line: Seq<char>| crate::text::trim(line),
            ),
            seq!['\n'],
        ),
    );
    if unmarked_already(text) {
        lemma_plain_unmarked(text);
    }
}

/// What a cue's text is drawn as holds no brace: SubStation's override
/// blocks come off whole, however they are nested or left unclosed.
pub proof fn law_no_override_is_left(text: Seq<char>)
    ensures
        no_brace(cleaned(text)),
{
    let t = unmarked(text, 0);
    lemma_unmarked_no_brace(text, 0);
    lemma_segments_no_brace(t);
    let cut = crate::text::segments(t);
    let lines = crate::text::text_lines(t);
    let ended = cut.drop_last().map_values(|line: Seq<char>| crate::text::without_return(line));
    assert forall|k: int| 0 <= k < lines.len() implies no_brace(#[trigger] lines[k]) by {
        if k < ended.len() {
            let piece = cut[k];
            assert(no_brace(piece));
            assert(lines[k] == crate::text::without_return(piece));
            let w = crate::text::without_return(piece);
            assert forall|i: int| 0 <= i < w.len() implies #[trigger] w[i] != '{' && w[i] != '}' by {
                assert(w[i] == piece[i]);
            }
        } else {
            assert(lines[k] == cut.last());
            assert(no_brace(cut[cut.len() - 1]));
        }
    }
    let trimmed_lines = lines.map_values(|line: Seq<char>| crate::text::trim(line));
    assert forall|k: int| 0 <= k < trimmed_lines.len() implies no_brace(#[trigger] trimmed_lines[k]) by {
        lemma_trim_no_brace(lines[k]);
    }
    lemma_join_no_brace(trimmed_lines);
    lemma_trim_no_brace(crate::text::join(trimmed_lines, seq!['\n']));
}

/// The endings a subtitle file beside a film may have, folded to lower case.
pub open spec fn subtitle_ending(ending: Seq<char>) -> bool {
    ||| ending == seq!['s', 'r', 't']
    ||| ending == seq!['v', 't', 't']
    ||| ending == seq!['a', 's', 's']
    ||| ending == seq!['s', 's', 'a']
    ||| ending == seq!['s', 'u', 'b']
}

/// Whether a file is offered as subtitles for a film: its ending, folded to
/// lower case, is a subtitle file's, and its name, folded, begins with the
/// film's stem, folded. A film with no file name has none offered.
pub open spec fn is_offered(film: Seq<char>, candidate: Seq<char>) -> bool {
    match (file_name_of(film), file_name_of(candidate)) {
        (Some(film_name), Some(name)) => {
            let folded = lowercase_of(stem_of_name(film_name));
            let lowered = lowercase_of(name);
            &&& last_dot(name) > 0
            &&& subtitle_ending(lowercase_of(name.skip(last_dot(name) + 1)))
            &&& folded.len() <= lowered.len()
            &&& lowered.take(folded.len() as int) == folded
        },
        _ => false,
    }
}

/// Which files beside a film are offered: a file is offered exactly where
/// both have a name, the file's ending — what follows the last `.` of its
/// name, a name that is all ending having none — folded to lower case is one
/// of `srt`, `vtt`, `ass`, `ssa` and `sub`, and its name folded to lower
/// case begins with the film's stem folded the same way. Any other ending,
/// and any file named for another film, is not offered.
pub proof fn law_subtitle_files_by_ending_and_name(film: Seq<char>, candidate: Seq<char>)
    ensures
        match (file_name_of(film), file_name_of(candidate)) {
            (Some(film_name), Some(name)) => {
                let folded = lowercase_of(stem_of_name(film_name));
                let lowered = lowercase_of(name);
                let ending = lowercase_of(name.skip(last_dot(name) + 1));
                is_offered(film, candidate) <==> {
                    &&& last_dot(name) > 0
                    &&& (ending == seq!['s', 'r', 't'] || ending == seq!['v', 't', 't'] || ending
                        == seq!['a', 's', 's'] || ending == seq!['s', 's', 'a'] || ending
                        == seq!['s', 'u', 'b'])
                    &&& folded.len() <= lowered.len()
                    &&& lowered.take(folded.len() as int) == folded
                }
            },
            _ => !is_offered(film, candidate),
        },
{
}

/// Whether some text begins with some other.
fn begins_with(text: &str, front: &str) -> (begins: bool)
    ensures
        begins == (front@.len() <= text@.len() && text@.take(front@.len() as int) == front@),
{
    let t = chars_of(text);
    let f = chars_of(front);
    if f.len() > t.len() {
        return false;
    }
    let mut i: usize = 0;
    while i < f.len()
        invariant
            i <= f@.len() <= t@.len(),
            t@ == text@,
            f@ == front@,
            forall|j: int| 0 <= j < i ==> t@[j] == f@[j],
        decreases f@.len() - i,
    {
        if t[i] != f[i] {
            proof {
                assert(text@.take(front@.len() as int)[i as int] != front@[i as int]);
            }
            return false;
        }
        i += 1;
    }
    assert(text@.take(front@.len() as int) =~= front@);
    true
}

/// Whether a file is offered as subtitles for a film, by its path.
pub fn offered(film: &str, candidate: &str) -> (yes: bool)
    ensures
        yes == is_offered(film@, candidate@),
{
    let stem = match file_stem(film) {
        Some(s) => s,
        None => return false,
    };
    let name = match file_name(candidate) {
        Some(n) => n,
        None => return false,
    };
    let ending = match extension(candidate) {
        Some(e) => e,
        None => return false,
    };
    let folded_ending = lowercase(ending.as_str());
    proof {
        reveal_strlit("srt");
        reveal_strlit("vtt");
        reveal_strlit("ass");
        reveal_strlit("ssa");
        reveal_strlit("sub");
    }
    let known = same_text(folded_ending.as_str(), "srt") || same_text(folded_ending.as_str(), "vtt")
        || same_text(folded_ending.as_str(), "ass") || same_text(folded_ending.as_str(), "ssa")
        || same_text(folded_ending.as_str(), "sub");
    assert(known == subtitle_ending(folded_ending@)) by {
        assert("srt"@ =~= seq!['s', 'r', 't']);
        assert("vtt"@ =~= seq!['v', 't', 't']);
        assert("ass"@ =~= seq!['a', 's', 's']);
        assert("ssa"@ =~= seq!['s', 's', 'a']);
        assert("sub"@ =~= seq!['s', 'u', 'b']);
    }
    if !known {
        return false;
    }
    let folded = lowercase(stem.as_str());
    let lowered = lowercase(name);
    begins_with(lowered.as_str(), folded.as_str())
}

} // verus!
