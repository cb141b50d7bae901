//! The few places text becomes a `String` and back.
//!
//! Everything in this crate works on sequences of characters and bytes, which
//! is where the contracts can speak about it; these turn one into the other
//! at the edges.

use vstd::prelude::*;

use vstd::utf8::{decode_utf8, is_scalar, valid_utf8};

verus! {

/// `String`'s collection from characters: the string holds exactly those
/// characters, in that order.
#[verifier::external_body]
pub(crate) fn string_from(chars: &Vec<char>) -> (made: String)
    ensures
        made@ == chars@,
{
    chars.iter().collect()
}

/// `str::chars`, collected: the characters of a string, in order.
#[verifier::external_body]
pub(crate) fn chars_of(text: &str) -> (chars: Vec<char>)
    ensures
        chars@ == text@,
{
    text.chars().collect()
}

/// What `String::from_utf8_lossy` makes of some bytes: their characters, with
/// U+FFFD standing for each maximal ill-formed subsequence — each longest
/// stretch that begins like a character and cannot go on to be one, or a
/// single byte that cannot begin one.
pub uninterp spec fn utf8_lossy(bytes: Seq<u8>) -> Seq<char>;

/// `std::str::from_utf8`, owned: the text the bytes spell where they are
/// UTF-8 throughout, and `None` where they are not.
#[verifier::external_body]
pub(crate) fn utf8_text(bytes: &[u8]) -> (text: Option<String>)
    ensures
        match text {
            Some(t) => valid_utf8(bytes@) && t@ == decode_utf8(bytes@),
            None => !valid_utf8(bytes@),
        },
{
    match std::str::from_utf8(bytes) {
        Ok(text) => Some(text.to_owned()),
        Err(_) => None,
    }
}

/// `String::from_utf8_lossy`, owned. Which replacement characters stand where
/// in bytes that are not UTF-8 is the standard library's rule and is named
/// here, not restated; bytes that are UTF-8 come through as their characters,
/// as its documentation says.
#[verifier::external_body]
pub(crate) fn utf8_lossy_text(bytes: &[u8]) -> (text: String)
    ensures
        text@ == utf8_lossy(bytes@),
        valid_utf8(bytes@) ==> text@ == decode_utf8(bytes@),
{
    String::from_utf8_lossy(bytes).into_owned()
}

/// What `str::to_lowercase` makes of some text: each character by Unicode's
/// lower-case mapping, some of them to more than one character.
pub uninterp spec fn lowercase_of(text: Seq<char>) -> Seq<char>;

/// `str::to_lowercase`.
#[verifier::external_body]
pub(crate) fn lowercase(text: &str) -> (lower: String)
    ensures
        lower@ == lowercase_of(text@),
{
    text.to_lowercase()
}

/// `char::from_u32`: the character with that number, where there is one.
#[verifier::external_body]
pub(crate) fn char_of(value: u32) -> (c: Option<char>)
    ensures
        match c {
            Some(c) => is_scalar(value) && c == value as char,
            None => !is_scalar(value),
        },
{
    char::from_u32(value)
}

/// Whether a character is white space, as Unicode's `White_Space` property
/// and `char::is_whitespace` say.
pub open spec fn is_space(c: char) -> bool {
    ||| '\t' <= c <= '\r'
    ||| c == ' '
    ||| c == '\u{85}'
    ||| c == '\u{a0}'
    ||| c == '\u{1680}'
    ||| '\u{2000}' <= c <= '\u{200a}'
    ||| c == '\u{2028}'
    ||| c == '\u{2029}'
    ||| c == '\u{202f}'
    ||| c == '\u{205f}'
    ||| c == '\u{3000}'
}

/// `char::is_whitespace`.
pub fn space(c: char) -> (answer: bool)
    ensures
        answer == is_space(c),
{
    ('\t' <= c && c <= '\r') || c == ' ' || c == '\u{85}' || c == '\u{a0}' || c == '\u{1680}' || (
    '\u{2000}' <= c && c <= '\u{200a}') || c == '\u{2028}' || c == '\u{2029}' || c == '\u{202f}'
        || c == '\u{205f}' || c == '\u{3000}'
}

/// Text without the white space at its front.
pub open spec fn trim_start(s: Seq<char>) -> Seq<char>
    decreases s.len(),
{
    if s.len() > 0 && is_space(s[0]) {
        trim_start(s.drop_first())
    } else {
        s
    }
}

/// Text without the white space at its end.
pub open spec fn trim_end(s: Seq<char>) -> Seq<char>
    decreases s.len(),
{
    if s.len() > 0 && is_space(s.last()) {
        trim_end(s.drop_last())
    } else {
        s
    }
}

/// Text without white space at either end, as `str::trim` leaves it.
pub open spec fn trim(s: Seq<char>) -> Seq<char> {
    trim_end(trim_start(s))
}

/// Text cut at every newline: one more piece than there are newlines.
pub open spec fn segments(s: Seq<char>) -> Seq<Seq<char>>
    decreases s.len(),
{
    if s.len() == 0 {
        seq![Seq::empty()]
    } else {
        let before = segments(s.drop_last());
        if s.last() == '\n' {
            before.push(Seq::empty())
        } else {
            before.update(before.len() - 1, before.last().push(s.last()))
        }
    }
}

/// A line that ended in a newline, without the carriage return before it.
pub open spec fn without_return(line: Seq<char>) -> Seq<char> {
    if line.len() > 0 && line.last() == '\r' {
        line.drop_last()
    } else {
        line
    }
}

/// The lines of a text, as `str::lines` yields them: cut at each newline, a
/// carriage return before the newline taken off, and no empty line after a
/// final newline.
pub open spec fn text_lines(s: Seq<char>) -> Seq<Seq<char>> {
    let cut = segments(s);
    let ended = cut.drop_last().map_values(|line: Seq<char>| without_return(line));
    if cut.last().len() == 0 {
        ended
    } else {
        ended.push(cut.last())
    }
}

/// Pieces of text put together with a separator between each two.
pub open spec fn join(pieces: Seq<Seq<char>>, sep: Seq<char>) -> Seq<char>
    decreases pieces.len(),
{
    if pieces.len() == 0 {
        Seq::empty()
    } else if pieces.len() == 1 {
        pieces[0]
    } else {
        join(pieces.drop_last(), sep) + sep + pieces.last()
    }
}

proof fn lemma_trim_start_suffix(s: Seq<char>, i: int)
    requires
        0 <= i <= s.len(),
        forall|j: int| 0 <= j < i ==> is_space(#[trigger] s[j]),
    ensures
        trim_start(s) == trim_start(s.subrange(i, s.len() as int)),
    decreases i,
{
    if i > 0 {
        assert(s.drop_first().subrange(i - 1, s.drop_first().len() as int) =~= s.subrange(
            i,
            s.len() as int,
        ));
        lemma_trim_start_suffix(s.drop_first(), i - 1);
    } else {
        assert(s.subrange(0, s.len() as int) =~= s);
    }
}

proof fn lemma_trim_end_prefix(s: Seq<char>, k: int)
    requires
        0 <= k <= s.len(),
        forall|j: int| k <= j < s.len() ==> is_space(#[trigger] s[j]),
    ensures
        trim_end(s) == trim_end(s.subrange(0, k)),
    decreases s.len() - k,
{
    if k < s.len() {
        assert(s.drop_last().subrange(0, k) =~= s.subrange(0, k));
        lemma_trim_end_prefix(s.drop_last(), k);
    } else {
        assert(s.subrange(0, k) =~= s);
    }
}

/// What `trim_start` leaves begins with no white space.
proof fn lemma_trim_start_shape(s: Seq<char>)
    ensures
        trim_start(s).len() > 0 ==> !is_space(trim_start(s)[0]),
        trim_start(s).len() <= s.len(),
        trim_start(s) == s.skip(s.len() - trim_start(s).len()),
    decreases s.len(),
{
    if s.len() > 0 && is_space(s[0]) {
        lemma_trim_start_shape(s.drop_first());
        assert(s.drop_first().skip(s.drop_first().len() - trim_start(s).len()) =~= s.skip(
            s.len() - trim_start(s).len(),
        ));
    } else {
        assert(s.skip(0) =~= s);
    }
}

/// What `trim_end` leaves is a beginning of the text, and ends with no white
/// space.
proof fn lemma_trim_end_shape(s: Seq<char>)
    ensures
        trim_end(s).len() <= s.len(),
        trim_end(s) == s.take(trim_end(s).len() as int),
        trim_end(s).len() > 0 ==> !is_space(trim_end(s).last()),
    decreases s.len(),
{
    if s.len() > 0 && is_space(s.last()) {
        lemma_trim_end_shape(s.drop_last());
        assert(s.drop_last().take(trim_end(s).len() as int) =~= s.take(trim_end(s).len() as int));
    } else {
        assert(s.take(s.len() as int) =~= s);
    }
}

/// Trimmed text trims to itself.
pub(crate) proof fn lemma_trim_trimmed(s: Seq<char>)
    ensures
        trim(trim(s)) == trim(s),
        trim(s).len() <= s.len(),
{
    let y = trim_start(s);
    lemma_trim_start_shape(s);
    lemma_trim_end_shape(y);
    let w = trim_end(y);
    if w.len() > 0 {
        assert(w[0] == y[0]);
    }
    assert(trim_start(w) == w);
    assert(trim_end(w) == w);
}

/// How many characters some pieces of text hold between them.
pub open spec fn total_len(pieces: Seq<Seq<char>>) -> nat
    decreases pieces.len(),
{
    if pieces.len() == 0 {
        0
    } else {
        total_len(pieces.drop_last()) + pieces.last().len()
    }
}

/// Pieces no longer, one for one, hold no more between them.
proof fn lemma_total_len_shrinks(p: Seq<Seq<char>>, q: Seq<Seq<char>>)
    requires
        p.len() == q.len(),
        forall|i: int| 0 <= i < p.len() ==> (#[trigger] q[i]).len() <= p[i].len(),
    ensures
        total_len(q) <= total_len(p),
    decreases p.len(),
{
    if p.len() > 0 {
        assert forall|i: int| 0 <= i < p.drop_last().len() implies (
        #[trigger] q.drop_last()[i]).len() <= p.drop_last()[i].len() by {
            assert(q.drop_last()[i] == q[i] && p.drop_last()[i] == p[i]);
        }
        lemma_total_len_shrinks(p.drop_last(), q.drop_last());
    }
}

/// Joined with a separator, pieces take their own length and one separator
/// fewer than there are pieces.
proof fn lemma_join_len(pieces: Seq<Seq<char>>, sep: Seq<char>)
    ensures
        pieces.len() > 0 ==> join(pieces, sep).len() == total_len(pieces) + (pieces.len() - 1)
            * sep.len(),
        pieces.len() == 0 ==> join(pieces, sep).len() == 0,
    decreases pieces.len(),
{
    if pieces.len() > 1 {
        let front = pieces.drop_last();
        lemma_join_len(front, sep);
        let n = pieces.len() as int;
        let k = sep.len() as int;
        assert((n - 1) * k == (n - 2) * k + k) by (nonlinear_arith);
        assert(join(pieces, sep) == join(front, sep) + sep + pieces.last());
        assert(total_len(pieces) == total_len(front) + pieces.last().len());
        assert(join(front, sep).len() == total_len(front) + (n - 2) * k);
    } else if pieces.len() == 1 {
        assert(pieces.drop_last().len() == 0);
        assert(total_len(pieces.drop_last()) == 0);
        assert(total_len(pieces) == pieces.last().len());
    }
}

/// A text is its pieces between newlines and the newlines between them.
proof fn lemma_segments_len(s: Seq<char>)
    ensures
        segments(s).len() >= 1,
        total_len(segments(s)) + segments(s).len() - 1 == s.len(),
    decreases s.len(),
{
    if s.len() > 0 {
        lemma_segments_len(s.drop_last());
        let before = segments(s.drop_last());
        assert(total_len(before) == total_len(before.drop_last()) + before.last().len());
        if s.last() != '\n' {
            let after = before.update(before.len() - 1, before.last().push(s.last()));
            assert(after.drop_last() =~= before.drop_last());
            assert(segments(s) == after);
            assert(total_len(after) == total_len(after.drop_last()) + after.last().len());
        } else {
            let after = before.push(Seq::<char>::empty());
            assert(after.drop_last() =~= before);
            assert(segments(s) == after);
            assert(total_len(after) == total_len(after.drop_last()) + after.last().len());
        }
    } else {
        let one = seq![Seq::<char>::empty()];
        assert(segments(s) == one);
        assert(one.drop_last().len() == 0);
        assert(total_len(one) == total_len(one.drop_last()) + one.last().len());
    }
}

/// A text's lines, put together with a newline between each two, are no
/// longer than the text.
proof fn lemma_lines_len(s: Seq<char>, lines: Seq<Seq<char>>)
    requires
        lines.len() == text_lines(s).len(),
        forall|i: int| 0 <= i < lines.len() ==> (#[trigger] lines[i]).len() <= text_lines(s)[i].len(),
    ensures
        join(lines, seq!['\n']).len() <= s.len(),
{
    let cut = segments(s);
    lemma_segments_len(s);
    let ended = cut.drop_last().map_values(|line: Seq<char>| without_return(line));
    let all = text_lines(s);
    lemma_total_len_shrinks(all, lines);
    lemma_join_len(lines, seq!['\n']);
    assert forall|i: int| 0 <= i < ended.len() implies (#[trigger] ended[i]).len()
        <= cut.drop_last()[i].len() by {
    }
    lemma_total_len_shrinks(cut.drop_last(), ended);
    assert(total_len(cut) == total_len(cut.drop_last()) + cut.last().len());
    let newline = seq!['\n'];
    assert(newline.len() == 1);
    if lines.len() > 0 {
        let (n, k) = (lines.len() as int, newline.len() as int);
        assert((n - 1) * k == n - 1) by (nonlinear_arith)
            requires
                k == 1,
        ;
    }
    if cut.last().len() == 0 {
        assert(all == ended);
    } else {
        assert(all == ended.push(cut.last()));
        assert(all.drop_last() =~= ended);
        assert(total_len(all) == total_len(all.drop_last()) + all.last().len());
    }
}

/// Text with its lines trimmed, put back together and trimmed is no longer
/// than the text.
pub(crate) proof fn lemma_tidied_len(s: Seq<char>)
    ensures
        tidied(s).len() <= s.len(),
{
    let all = text_lines(s);
    let lines = all.map_values(|line: Seq<char>| trim(line));
    assert forall|i: int| 0 <= i < lines.len() implies (#[trigger] lines[i]).len() <= all[i].len() by {
        lemma_trim_trimmed(all[i]);
    }
    lemma_lines_len(s, lines);
    lemma_trim_trimmed(join(lines, seq!['\n']));
}

/// Whether two runs of bytes are the same bytes.
pub(crate) fn same_bytes(x: &[u8], y: &[u8]) -> (same: bool)
    ensures
        same == (x@ == y@),
{
    if x.len() != y.len() {
        return false;
    }
    let mut i: usize = 0;
    while i < x.len()
        invariant
            i <= x@.len(),
            x@.len() == y@.len(),
            forall|j: int| 0 <= j < i ==> x@[j] == y@[j],
        decreases x@.len() - i,
    {
        if x[i] != y[i] {
            return false;
        }
        i += 1;
    }
    assert(x@ =~= y@);
    true
}

/// Whether text holds no newline.
pub open spec fn one_line(s: Seq<char>) -> bool {
    forall|i: int| 0 <= i < s.len() ==> #[trigger] s[i] != '\n'
}

/// Whether every line of a text, cut at its newlines, is trimmed.
pub open spec fn lines_trimmed(s: Seq<char>) -> bool {
    forall|k: int| 0 <= k < segments(s).len() ==> trim(#[trigger] segments(s)[k]) == segments(s)[k]
}

/// Text with no newline added to the end of a text lengthens its last
/// line.
proof fn lemma_segments_append(x: Seq<char>, y: Seq<char>)
    requires
        one_line(y),
    ensures
        segments(x + y) == segments(x).update(
            segments(x).len() - 1,
            segments(x).last() + y,
        ),
    decreases y.len(),
{
    lemma_segments_len(x);
    if y.len() == 0 {
        assert(x + y =~= x);
        assert(segments(x).last() + y =~= segments(x).last());
        assert(segments(x).update(segments(x).len() - 1, segments(x).last()) =~= segments(x));
    } else {
        let front = y.drop_last();
        assert forall|i: int| 0 <= i < front.len() implies #[trigger] front[i] != '\n' by {
            assert(front[i] == y[i]);
        }
        lemma_segments_append(x, front);
        assert((x + y).drop_last() =~= x + front);
        assert((x + y).last() == y.last());
        assert(y.last() != '\n');
        let before = segments(x + front);
        let n = segments(x).len();
        assert(before.len() == n);
        assert(before.last() == segments(x).last() + front);
        assert(before.last().push(y.last()) =~= segments(x).last() + y);
        assert(before.update(n - 1, before.last().push(y.last())) =~= segments(x).update(
            n - 1,
            segments(x).last() + y,
        ));
    }
}

/// The pieces of text without newlines, joined with newlines, cut at the
/// newlines again, are the pieces.
proof fn lemma_segments_of_join(pieces: Seq<Seq<char>>)
    requires
        pieces.len() > 0,
        forall|i: int| 0 <= i < pieces.len() ==> one_line(#[trigger] pieces[i]),
    ensures
        segments(join(pieces, seq!['\n'])) == pieces,
    decreases pieces.len(),
{
    let empty = Seq::<char>::empty();
    if pieces.len() == 1 {
        assert(join(pieces, seq!['\n']) == pieces[0]);
        lemma_segments_append(empty, pieces[0]);
        assert(empty + pieces[0] =~= pieces[0]);
        assert(segments(empty) == seq![empty]);
        assert(seq![empty].update(0, empty + pieces[0]) =~= pieces);
    } else {
        let front = pieces.drop_last();
        assert forall|i: int| 0 <= i < front.len() implies one_line(#[trigger] front[i]) by {
            assert(front[i] == pieces[i]);
        }
        lemma_segments_of_join(front);
        let joined = join(front, seq!['\n']);
        assert(join(pieces, seq!['\n']) == joined + seq!['\n'] + pieces.last());
        assert(joined + seq!['\n'] =~= joined.push('\n'));
        assert((joined.push('\n')).drop_last() =~= joined);
        assert(segments(joined.push('\n')) == front.push(empty));
        assert(one_line(pieces.last())) by {
            assert(pieces.last() == pieces[pieces.len() - 1]);
        }
        lemma_segments_append(joined.push('\n'), pieces.last());
        assert(front.push(empty).update(front.len() as int, empty + pieces.last()) =~= pieces);
    }
}

/// A character put in front of a text: a newline is a new first line, and
/// anything else begins the first line.
proof fn lemma_segments_prepend(c: char, t: Seq<char>)
    ensures
        segments(seq![c] + t) == if c == '\n' {
            seq![Seq::<char>::empty()] + segments(t)
        } else {
            segments(t).update(0, seq![c] + segments(t)[0])
        },
    decreases t.len(),
{
    let empty = Seq::<char>::empty();
    lemma_segments_len(t);
    if t.len() == 0 {
        let one = seq![c];
        assert(seq![c] + t =~= one);
        assert(one.drop_last() =~= empty);
        assert(one.last() == c);
        assert(segments(one.drop_last()) == seq![empty]);
        assert(segments(t) == seq![empty]);
        if c == '\n' {
            assert(segments(one) == seq![empty].push(empty));
            assert(seq![empty] + seq![empty] =~= seq![empty].push(empty));
        } else {
            assert(seq![empty].last().push(c) =~= seq![c] + empty);
            assert(seq![empty].update(0, seq![empty].last().push(c)) =~= seq![empty].update(
                0,
                seq![c] + empty,
            ));
        }
    } else {
        let front = t.drop_last();
        let d = t.last();
        lemma_segments_prepend(c, front);
        lemma_segments_len(front);
        assert((seq![c] + t).drop_last() =~= seq![c] + front);
        assert((seq![c] + t).last() == d);
        let sf = segments(front);
        let st = segments(t);
        if d == '\n' {
            assert(st == sf.push(empty));
            if c == '\n' {
                assert((seq![empty] + sf).push(empty) =~= seq![empty] + sf.push(empty));
            } else {
                assert(sf.update(0, seq![c] + sf[0]).push(empty) =~= sf.push(empty).update(
                    0,
                    seq![c] + sf.push(empty)[0],
                ));
            }
        } else {
            assert(st == sf.update(sf.len() - 1, sf.last().push(d)));
            if c == '\n' {
                let b = seq![empty] + sf;
                assert(b.update(b.len() - 1, b.last().push(d)) =~= seq![empty] + st);
            } else {
                let b = sf.update(0, seq![c] + sf[0]);
                if sf.len() == 1 {
                    assert((seq![c] + sf[0]).push(d) =~= seq![c] + sf[0].push(d));
                    assert(b.update(b.len() - 1, b.last().push(d)) =~= st.update(
                        0,
                        seq![c] + st[0],
                    ));
                } else {
                    assert(b.update(b.len() - 1, b.last().push(d)) =~= st.update(
                        0,
                        seq![c] + st[0],
                    ));
                }
            }
        }
    }
}

/// Trimmed text that is not empty begins and ends with something other
/// than white space.
proof fn lemma_trimmed_ends(x: Seq<char>)
    requires
        trim(x) == x,
        x.len() > 0,
    ensures
        !is_space(x[0]),
        !is_space(x.last()),
{
    let y = trim_start(x);
    lemma_trim_start_shape(x);
    lemma_trim_end_shape(y);
    assert(trim_end(y) == x);
    assert(x[0] == y.take(x.len() as int)[0]);
}

/// Trimming the end of a text whose lines are trimmed leaves its lines
/// trimmed.
proof fn lemma_trim_end_lines(s: Seq<char>)
    requires
        lines_trimmed(s),
    ensures
        lines_trimmed(trim_end(s)),
    decreases s.len(),
{
    if s.len() > 0 && is_space(s.last()) {
        let front = s.drop_last();
        let sf = segments(front);
        lemma_segments_len(front);
        if s.last() == '\n' {
            assert(segments(s) == sf.push(Seq::<char>::empty()));
            assert forall|k: int| 0 <= k < sf.len() implies trim(#[trigger] sf[k]) == sf[k] by {
                assert(segments(s)[k] == sf[k]);
            }
            lemma_trim_end_lines(front);
        } else {
            let st = segments(s);
            assert(st == sf.update(sf.len() - 1, sf.last().push(s.last())));
            let last = st[sf.len() - 1];
            assert(last == sf.last().push(s.last()));
            assert(trim(last) == last);
            lemma_trimmed_ends(last);
            assert(false);
        }
    }
}

/// Trimming the start of a text whose lines are trimmed leaves its lines
/// trimmed.
proof fn lemma_trim_start_lines(s: Seq<char>)
    requires
        lines_trimmed(s),
    ensures
        lines_trimmed(trim_start(s)),
    decreases s.len(),
{
    if s.len() > 0 && is_space(s[0]) {
        let t = s.drop_first();
        assert(s =~= seq![s[0]] + t);
        lemma_segments_prepend(s[0], t);
        lemma_segments_len(t);
        let st = segments(t);
        if s[0] == '\n' {
            assert forall|k: int| 0 <= k < st.len() implies trim(#[trigger] st[k]) == st[k] by {
                assert(segments(s)[k + 1] == st[k]);
            }
            lemma_trim_start_lines(t);
        } else {
            let first = segments(s)[0];
            assert(first == seq![s[0]] + st[0]);
            assert(trim(first) == first);
            assert(first[0] == s[0]);
            lemma_trimmed_ends(first);
            assert(false);
        }
    }
}

/// Every piece of a text cut at its newlines holds no newline.
proof fn lemma_segments_one_line(s: Seq<char>)
    ensures
        forall|k: int| 0 <= k < segments(s).len() ==> one_line(#[trigger] segments(s)[k]),
    decreases s.len(),
{
    if s.len() > 0 {
        let front = s.drop_last();
        lemma_segments_one_line(front);
        lemma_segments_len(front);
        let sf = segments(front);
        if s.last() != '\n' {
            let grown = sf.last().push(s.last());
            assert forall|i: int| 0 <= i < grown.len() implies #[trigger] grown[i] != '\n' by {
                if i < sf.last().len() {
                    assert(grown[i] == sf[sf.len() - 1][i]);
                }
            }
            assert forall|k: int| 0 <= k < segments(s).len() implies one_line(
                #[trigger] segments(s)[k],
            ) by {
                if k < sf.len() - 1 {
                    assert(segments(s)[k] == sf[k]);
                }
            }
        } else {
            assert forall|k: int| 0 <= k < segments(s).len() implies one_line(
                #[trigger] segments(s)[k],
            ) by {
                if k < sf.len() {
                    assert(segments(s)[k] == sf[k]);
                }
            }
        }
    }
}

/// Trimmed or cut short, a line stays a line.
proof fn lemma_trim_one_line(x: Seq<char>)
    requires
        one_line(x),
    ensures
        one_line(trim(x)),
        one_line(without_return(x)),
{
    lemma_trim_start_shape(x);
    let y = trim_start(x);
    lemma_trim_end_shape(y);
    assert forall|i: int| 0 <= i < y.len() implies #[trigger] y[i] != '\n' by {
        assert(y[i] == x[x.len() - y.len() + i]);
    }
    let w = trim_end(y);
    assert forall|i: int| 0 <= i < w.len() implies #[trigger] w[i] != '\n' by {
        assert(w[i] == y[i]);
    }
    let v = without_return(x);
    assert forall|i: int| 0 <= i < v.len() implies #[trigger] v[i] != '\n' by {
        assert(v[i] == x[i]);
    }
}

/// Every line of tidied text is trimmed.
pub(crate) proof fn lemma_tidied_lines(s: Seq<char>)
    ensures
        lines_trimmed(tidied(s)),
{
    let all = text_lines(s);
    let lines = all.map_values(|line: Seq<char>| trim(line));
    let cut = segments(s);
    lemma_segments_one_line(s);
    lemma_segments_len(s);
    assert forall|i: int| 0 <= i < all.len() implies one_line(#[trigger] all[i]) by {
        if i < cut.len() - 1 {
            lemma_trim_one_line(cut[i]);
            assert(all[i] == without_return(cut[i]));
        } else {
            assert(all[i] == cut.last());
        }
    }
    assert forall|i: int| 0 <= i < lines.len() implies one_line(#[trigger] lines[i]) && trim(
        lines[i],
    ) == lines[i] by {
        lemma_trim_one_line(all[i]);
        lemma_trim_trimmed(all[i]);
    }
    let joined = join(lines, seq!['\n']);
    if lines.len() == 0 {
        let empty = Seq::<char>::empty();
        assert(joined == empty);
        assert(trim_start(empty) == empty);
        assert(trim_end(empty) == empty);
        assert(segments(empty) == seq![empty]);
    } else {
        lemma_segments_of_join(lines);
        assert forall|k: int| 0 <= k < segments(joined).len() implies trim(
            #[trigger] segments(joined)[k],
        ) == segments(joined)[k] by {
            assert(segments(joined)[k] == lines[k]);
        }
        lemma_trim_start_lines(joined);
        lemma_trim_end_lines(trim_start(joined));
    }
}

/// The characters from `from` to `to`, copied.
pub fn copy_range(chars: &Vec<char>, from: usize, to: usize) -> (piece: Vec<char>)
    requires
        from <= to <= chars@.len(),
    ensures
        piece@ == chars@.subrange(from as int, to as int),
{
    let mut piece: Vec<char> = Vec::new();
    let mut i = from;
    while i < to
        invariant
            from <= i <= to,
            to <= chars@.len(),
            piece@ == chars@.subrange(from as int, i as int),
        decreases to - i,
    {
        piece.push(chars[i]);
        i += 1;
        assert(piece@ =~= chars@.subrange(from as int, i as int));
    }
    piece
}

/// `str::trim`, over characters.
pub fn trimmed(chars: &Vec<char>) -> (out: Vec<char>)
    ensures
        out@ == trim(chars@),
{
    let mut from: usize = 0;
    while from < chars.len() && space(chars[from])
        invariant
            from <= chars@.len(),
            forall|j: int| 0 <= j < from ==> is_space(#[trigger] chars@[j]),
        decreases chars@.len() - from,
    {
        from += 1;
    }
    proof {
        lemma_trim_start_suffix(chars@, from as int);
    }
    let ghost rest = chars@.subrange(from as int, chars@.len() as int);
    assert(trim_start(rest) == rest) by {
        if rest.len() > 0 {
            assert(rest[0] == chars@[from as int]);
        }
    }
    let mut to: usize = chars.len();
    while to > from && space(chars[to - 1])
        invariant
            from <= to <= chars@.len(),
            forall|j: int| to <= j < chars@.len() ==> is_space(#[trigger] chars@[j]),
        decreases to,
    {
        to -= 1;
    }
    proof {
        let k = (to - from) as int;
        assert forall|j: int| k <= j < rest.len() implies is_space(#[trigger] rest[j]) by {
            assert(rest[j] == chars@[from + j]);
        }
        lemma_trim_end_prefix(rest, k);
        let kept = rest.subrange(0, k);
        assert(kept =~= chars@.subrange(from as int, to as int));
        if kept.len() > 0 {
            assert(kept.last() == chars@[to - 1]);
        }
        assert(trim_end(kept) == kept);
    }
    copy_range(chars, from, to)
}

/// The pieces of a text, each viewed as characters.
pub open spec fn views(pieces: Seq<Vec<char>>) -> Seq<Seq<char>> {
    pieces.map_values(|piece: Vec<char>| piece@)
}

/// Pieces of text put together with a newline between each two.
pub fn join_lines(pieces: &Vec<Vec<char>>) -> (out: Vec<char>)
    ensures
        out@ == join(views(pieces@), seq!['\n']),
{
    let mut out: Vec<char> = Vec::new();
    let mut k: usize = 0;
    while k < pieces.len()
        invariant
            k <= pieces@.len(),
            out@ == join(views(pieces@.take(k as int)), seq!['\n']),
        decreases pieces@.len() - k,
    {
        let ghost before = views(pieces@.take(k as int));
        assert(views(pieces@.take(k + 1)).drop_last() =~= before);
        assert(views(pieces@.take(k + 1)).last() == pieces@[k as int]@);
        if k > 0 {
            out.push('\n');
        }
        let piece = &pieces[k];
        let mut i: usize = 0;
        let ghost start = out@;
        while i < piece.len()
            invariant
                i <= piece@.len(),
                out@ == start + piece@.take(i as int),
            decreases piece@.len() - i,
        {
            out.push(piece[i]);
            i += 1;
            assert(out@ =~= start + piece@.take(i as int));
        }
        assert(piece@.take(i as int) =~= piece@);
        k += 1;
        proof {
            if k == 1 {
                assert(views(pieces@.take(1)) =~= seq![pieces@[0]@]);
                assert(out@ =~= join(views(pieces@.take(k as int)), seq!['\n']));
            } else {
                assert(out@ =~= join(views(pieces@.take(k as int)), seq!['\n']));
            }
        }
    }
    assert(pieces@.take(k as int) =~= pieces@);
    out
}

/// The lines of a text as `str::lines` yields them, each trimmed, put back
/// together with newlines, and the whole trimmed.
pub open spec fn tidied(s: Seq<char>) -> Seq<char> {
    trim(join(text_lines(s).map_values(|line: Seq<char>| trim(line)), seq!['\n']))
}

proof fn lemma_segments_step(s: Seq<char>, i: int)
    requires
        0 <= i < s.len(),
    ensures
        segments(s.take(i + 1)) == if s[i] == '\n' {
            segments(s.take(i)).push(Seq::empty())
        } else {
            let before = segments(s.take(i));
            before.update(before.len() - 1, before.last().push(s[i]))
        },
{
    assert(s.take(i + 1).drop_last() =~= s.take(i));
}

proof fn lemma_segments_nonempty(s: Seq<char>)
    ensures
        segments(s).len() >= 1,
    decreases s.len(),
{
    if s.len() > 0 {
        lemma_segments_nonempty(s.drop_last());
    }
}

/// `tidied`, worked out.
pub fn tidy(chars: &Vec<char>) -> (out: Vec<char>)
    ensures
        out@ == tidied(chars@),
{
    let ghost trim_line = |line: Seq<char>| trim(without_return(line));
    let mut pieces: Vec<Vec<char>> = Vec::new();
    let mut current: Vec<char> = Vec::new();
    let mut i: usize = 0;
    assert(chars@.take(0) =~= Seq::<char>::empty());
    while i < chars.len()
        invariant
            i <= chars@.len(),
            segments(chars@.take(i as int)).len() >= 1,
            current@ == segments(chars@.take(i as int)).last(),
            views(pieces@) == segments(chars@.take(i as int)).drop_last().map_values(trim_line),
            trim_line == (|line: Seq<char>| trim(without_return(line))),
        decreases chars@.len() - i,
    {
        let ghost before = segments(chars@.take(i as int));
        proof {
            lemma_segments_step(chars@, i as int);
        }
        let c = chars[i];
        if c == '\n' {
            let mut line = current;
            if line.len() > 0 && line[line.len() - 1] == '\r' {
                line.pop();
            }
            assert(line@ == without_return(before.last()));
            let done = trimmed(&line);
            let ghost old_pieces = pieces@;
            pieces.push(done);
            current = Vec::new();
            proof {
                let after = segments(chars@.take(i + 1));
                assert(after.drop_last() =~= before);
                assert(views(pieces@) =~= views(old_pieces).push(done@));
                assert(before =~= before.drop_last().push(before.last()));
                assert(before.map_values(trim_line) =~= before.drop_last().map_values(
                    trim_line,
                ).push(trim_line(before.last())));
                assert(views(pieces@) =~= after.drop_last().map_values(trim_line));
            }
        } else {
            current.push(c);
            proof {
                let after = segments(chars@.take(i + 1));
                assert(after.drop_last() =~= before.drop_last());
            }
        }
        i += 1;
        proof {
            lemma_segments_nonempty(chars@.take(i as int));
        }
    }
    assert(chars@.take(i as int) =~= chars@);
    let ghost cut = segments(chars@);
    let ghost old_pieces = pieces@;
    if current.len() > 0 {
        let last = trimmed(&current);
        pieces.push(last);
        assert(views(pieces@) =~= views(old_pieces).push(last@));
    }
    proof {
        let lines = text_lines(chars@);
        let ended = cut.drop_last().map_values(|line: Seq<char>| without_return(line));
        assert(ended.map_values(|line: Seq<char>| trim(line)) =~= cut.drop_last().map_values(
            trim_line,
        ));
        if cut.last().len() == 0 {
            assert(views(pieces@) =~= lines.map_values(|line: Seq<char>| trim(line)));
        } else {
            assert(lines =~= ended.push(cut.last()));
            assert(lines.map_values(|line: Seq<char>| trim(line)) =~= ended.map_values(
                |line: Seq<char>| trim(line),
            ).push(trim(cut.last())));
            assert(views(pieces@) =~= lines.map_values(|line: Seq<char>| trim(line)));
        }
    }
    let joined = join_lines(&pieces);
    trimmed(&joined)
}

/// A decimal digit.
pub open spec fn digit(d: int) -> char {
    (48 + d) as char
}

/// A number written in decimal, without a sign or leading zeros.
pub open spec fn decimal_digits(n: nat) -> Seq<char>
    decreases n,
{
    if n < 10 {
        seq![digit(n as int)]
    } else {
        decimal_digits(n / 10) + seq![digit((n % 10) as int)]
    }
}

pub(crate) fn push_decimal(out: &mut Vec<char>, n: u64)
    ensures
        final(out)@ == old(out)@ + decimal_digits(n as nat),
    decreases n,
{
    if n >= 10 {
        push_decimal(out, n / 10);
    }
    out.push((48 + (n % 10) as u8) as char);
    assert(out@ =~= old(out)@ + decimal_digits(n as nat)) by {
        if n >= 10 {
            assert(decimal_digits(n as nat) == decimal_digits((n / 10) as nat) + seq![digit((n % 10) as int)]);
        }
    }
}

/// A number as `to_string` writes it.
pub fn decimal(n: u64) -> (text: String)
    ensures
        text@ == decimal_digits(n as nat),
{
    let mut out: Vec<char> = Vec::new();
    push_decimal(&mut out, n);
    assert(out@ =~= decimal_digits(n as nat));
    string_from(&out)
}

/// Pieces of text put together with a character between each two.
pub fn join_with(pieces: &Vec<Vec<char>>, sep: char) -> (out: Vec<char>)
    ensures
        out@ == join(views(pieces@), seq![sep]),
{
    let mut out: Vec<char> = Vec::new();
    let mut k: usize = 0;
    while k < pieces.len()
        invariant
            k <= pieces@.len(),
            out@ == join(views(pieces@.take(k as int)), seq![sep]),
        decreases pieces@.len() - k,
    {
        let ghost before = views(pieces@.take(k as int));
        assert(views(pieces@.take(k + 1)).drop_last() =~= before);
        assert(views(pieces@.take(k + 1)).last() == pieces@[k as int]@);
        if k > 0 {
            out.push(sep);
        }
        let piece = &pieces[k];
        let mut i: usize = 0;
        let ghost start = out@;
        while i < piece.len()
            invariant
                i <= piece@.len(),
                out@ == start + piece@.take(i as int),
            decreases piece@.len() - i,
        {
            out.push(piece[i]);
            i += 1;
            assert(out@ =~= start + piece@.take(i as int));
        }
        assert(piece@.take(i as int) =~= piece@);
        k += 1;
        proof {
            if k == 1 {
                assert(views(pieces@.take(1)) =~= seq![pieces@[0]@]);
                assert(out@ =~= join(views(pieces@.take(k as int)), seq![sep]));
            } else {
                assert(out@ =~= join(views(pieces@.take(k as int)), seq![sep]));
            }
        }
    }
    assert(pieces@.take(k as int) =~= pieces@);
    out
}

} // verus!
