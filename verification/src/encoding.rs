//! Bytes to text, for a subtitle file that says nothing about its encoding.
//!
//! UTF-8 with or without a mark, UTF-16 with one, and Windows-1252 for
//! anything else — which is a guess, and the honest one. A subtitle file
//! carries no declaration of its encoding: the format predates the question.
//! Nearly everything written this decade is UTF-8, so that is tried first and
//! accepted only if the whole file is valid; what is left is an older file in
//! somebody's local code page, and 1252 reads the most of those correctly.

use vstd::prelude::*;

use vstd::utf8::{decode_utf8, encode_utf8, is_scalar, valid_utf8};

use crate::text::{char_of, string_from, utf8_lossy, utf8_lossy_text, utf8_text};

verus! {

/// The code points of the thirty-two places where Windows-1252 differs from
/// Latin-1, from `0x80` to `0x9F`.
pub open spec fn high_points() -> Seq<u32> {
    seq![
        0x20AC, 0x81, 0x201A, 0x0192, 0x201E, 0x2026, 0x2020, 0x2021,
        0x02C6, 0x2030, 0x0160, 0x2039, 0x0152, 0x8D, 0x017D, 0x8F,
        0x90, 0x2018, 0x2019, 0x201C, 0x201D, 0x2022, 0x2013, 0x2014,
        0x02DC, 0x2122, 0x0161, 0x203A, 0x0153, 0x9D, 0x017E, 0x0178,
    ]
}

/// The code point Windows-1252 gives a byte: its own number but for the
/// thirty-two places it differs from Latin-1.
pub open spec fn cp1252_point(byte: u8) -> u32 {
    if 0x80 <= byte <= 0x9F {
        high_points()[byte - 0x80]
    } else {
        byte as u32
    }
}

/// Bytes read one to a character in Windows-1252.
pub open spec fn cp1252_text(bytes: Seq<u8>) -> Seq<char> {
    Seq::new(bytes.len(), |i: int| cp1252_point(bytes[i]) as char)
}

/// The sixteen-bit units a run of bytes makes, two bytes to a unit in the
/// order given; a last odd byte makes none.
pub open spec fn units_of(bytes: Seq<u8>, big_endian: bool) -> Seq<u16> {
    Seq::new(
        bytes.len() / 2,
        |i: int|
            if big_endian {
                (bytes[2 * i] * 256 + bytes[2 * i + 1]) as u16
            } else {
                (bytes[2 * i + 1] * 256 + bytes[2 * i]) as u16
            },
    )
}

/// Whether a unit is half of a surrogate pair.
pub open spec fn is_surrogate(unit: u16) -> bool {
    0xD800 <= unit <= 0xDFFF
}

/// The character a high and a low surrogate make together.
pub open spec fn paired(high: u16, low: u16) -> u32 {
    (0x10000 + (high - 0xD800) * 0x400 + (low - 0xDC00)) as u32
}

/// UTF-16 read the forgiving way: a unit that is no surrogate is its own
/// character, a high surrogate followed by a low one is the pair's
/// character, and any other surrogate is U+FFFD, after which reading goes on
/// at the next unit.
pub open spec fn utf16_lossy(units: Seq<u16>) -> Seq<char>
    decreases units.len(),
{
    if units.len() == 0 {
        Seq::empty()
    } else if !is_surrogate(units[0]) {
        seq![units[0] as u32 as char] + utf16_lossy(units.drop_first())
    } else if units[0] <= 0xDBFF && units.len() >= 2 && 0xDC00 <= units[1] <= 0xDFFF {
        seq![paired(units[0], units[1]) as char] + utf16_lossy(units.skip(2))
    } else {
        seq!['\u{FFFD}'] + utf16_lossy(units.drop_first())
    }
}

/// Whether the bytes begin with the given two.
pub open spec fn opens_with_pair(bytes: Seq<u8>, first: u8, second: u8) -> bool {
    bytes.len() >= 2 && bytes[0] == first && bytes[1] == second
}

/// Whether the bytes begin with UTF-8's byte order mark.
pub open spec fn opens_with_utf8_mark(bytes: Seq<u8>) -> bool {
    bytes.len() >= 3 && bytes[0] == 0xEF && bytes[1] == 0xBB && bytes[2] == 0xBF
}

/// The text a subtitle file's bytes are read as.
pub open spec fn decoded(bytes: Seq<u8>) -> Seq<char> {
    if opens_with_utf8_mark(bytes) {
        if valid_utf8(bytes.skip(3)) {
            decode_utf8(bytes.skip(3))
        } else {
            utf8_lossy(bytes.skip(3))
        }
    } else if opens_with_pair(bytes, 0xFF, 0xFE) {
        utf16_lossy(units_of(bytes.skip(2), false))
    } else if opens_with_pair(bytes, 0xFE, 0xFF) {
        utf16_lossy(units_of(bytes.skip(2), true))
    } else if valid_utf8(bytes) {
        decode_utf8(bytes)
    } else {
        cp1252_text(bytes)
    }
}

/// The character Windows-1252 gives a byte.
pub fn windows_1252(byte: u8) -> (c: char)
    ensures
        c == cp1252_point(byte) as char,
{
    proof {
        broadcast use vstd::utf8::char_u32_cast;
    }
    let c = match byte {
        0x80 => '\u{20AC}',
        0x81 => '\u{81}',
        0x82 => '\u{201A}',
        0x83 => '\u{0192}',
        0x84 => '\u{201E}',
        0x85 => '\u{2026}',
        0x86 => '\u{2020}',
        0x87 => '\u{2021}',
        0x88 => '\u{02C6}',
        0x89 => '\u{2030}',
        0x8A => '\u{0160}',
        0x8B => '\u{2039}',
        0x8C => '\u{0152}',
        0x8D => '\u{8D}',
        0x8E => '\u{017D}',
        0x8F => '\u{8F}',
        0x90 => '\u{90}',
        0x91 => '\u{2018}',
        0x92 => '\u{2019}',
        0x93 => '\u{201C}',
        0x94 => '\u{201D}',
        0x95 => '\u{2022}',
        0x96 => '\u{2013}',
        0x97 => '\u{2014}',
        0x98 => '\u{02DC}',
        0x99 => '\u{2122}',
        0x9A => '\u{0161}',
        0x9B => '\u{203A}',
        0x9C => '\u{0153}',
        0x9D => '\u{9D}',
        0x9E => '\u{017E}',
        0x9F => '\u{0178}',
        other => other as char,
    };
    assert(c as u32 == cp1252_point(byte));
    c
}

/// The units of a run of bytes, two to a unit.
fn units(bytes: &[u8], big_endian: bool) -> (units: Vec<u16>)
    ensures
        units@ == units_of(bytes@, big_endian),
{
    let mut units: Vec<u16> = Vec::new();
    let n = bytes.len();
    let count = n / 2;
    let mut i: usize = 0;
    while i < count
        invariant
            n == bytes@.len(),
            count == n / 2,
            i <= count,
            units@ =~= units_of(bytes@, big_endian).take(i as int),
        decreases count - i,
    {
        assert(2 * i + 1 < bytes@.len());
        let (a, b) = (bytes[2 * i] as u16, bytes[2 * i + 1] as u16);
        let unit = if big_endian {
            a * 256 + b
        } else {
            b * 256 + a
        };
        units.push(unit);
        i += 1;
    }
    units
}

/// UTF-16 bytes to text, in the given byte order, with U+FFFD for each
/// surrogate that has no partner.
pub fn utf16(bytes: &[u8], big_endian: bool) -> (text: String)
    ensures
        text@ == utf16_lossy(units_of(bytes@, big_endian)),
{
    let units = units(bytes, big_endian);
    let mut out: Vec<char> = Vec::new();
    let mut i: usize = 0;
    assert(units@.skip(0) =~= units@);
    while i < units.len()
        invariant
            i <= units@.len(),
            out@ + utf16_lossy(units@.skip(i as int)) == utf16_lossy(units@),
        decreases units@.len() - i,
    {
        let rest = Ghost(units@.skip(i as int));
        let before = Ghost(out@);
        let unit = units[i];
        if unit < 0xD800 || unit > 0xDFFF {
            match char_of(unit as u32) {
                Some(c) => out.push(c),
                None => out.push('\u{FFFD}'),
            }
            i += 1;
            assert(rest@.drop_first() =~= units@.skip(i as int));
        } else if unit <= 0xDBFF && i + 1 < units.len() && 0xDC00 <= units[i + 1] && units[i
            + 1] <= 0xDFFF {
            let low = units[i + 1];
            let value: u32 = 0x10000 + (unit - 0xD800) as u32 * 0x400 + (low - 0xDC00) as u32;
            assert(rest@[1] == low);
            match char_of(value) {
                Some(c) => out.push(c),
                None => out.push('\u{FFFD}'),
            }
            proof {
                assert(is_scalar(value));
            }
            i += 2;
            assert(rest@.skip(2) =~= units@.skip(i as int));
        } else {
            proof {
                if i + 1 < units.len() {
                    assert(rest@[1] == units@[i + 1]);
                }
            }
            out.push('\u{FFFD}');
            i += 1;
            assert(rest@.drop_first() =~= units@.skip(i as int));
        }
        assert(out@ + utf16_lossy(units@.skip(i as int)) =~= before@ + utf16_lossy(rest@));
    }
    assert(units@.skip(i as int) =~= Seq::<u16>::empty());
    assert(out@ =~= utf16_lossy(units@));
    string_from(&out)
}

/// Bytes to text: UTF-8 with or without a mark, UTF-16 with one, and
/// Windows-1252 for anything else.
///
/// A file in a different code page shows the wrong letters under the accents
/// rather than nothing at all, which is the better of the two failures.
pub fn decode(bytes: &[u8]) -> (text: String)
    ensures
        text@ == decoded(bytes@),
{
    let n = bytes.len();
    if n >= 3 && bytes[0] == 0xEF && bytes[1] == 0xBB && bytes[2] == 0xBF {
        let rest = slice_from(bytes, 3);
        return utf8_lossy_text(rest);
    }
    if n >= 2 && bytes[0] == 0xFF && bytes[1] == 0xFE {
        let rest = slice_from(bytes, 2);
        return utf16(rest, false);
    }
    if n >= 2 && bytes[0] == 0xFE && bytes[1] == 0xFF {
        let rest = slice_from(bytes, 2);
        return utf16(rest, true);
    }
    match utf8_text(bytes) {
        Some(text) => text,
        None => {
            let mut out: Vec<char> = Vec::new();
            let mut i: usize = 0;
            while i < n
                invariant
                    n == bytes@.len(),
                    i <= n,
                    out@ =~= cp1252_text(bytes@).take(i as int),
                decreases n - i,
            {
                out.push(windows_1252(bytes[i]));
                i += 1;
            }
            string_from(&out)
        },
    }
}

/// The bytes from `from` on.
fn slice_from(bytes: &[u8], from: usize) -> (rest: &[u8])
    requires
        from <= bytes@.len(),
    ensures
        rest@ == bytes@.skip(from as int),
{
    let rest = vstd::slice::slice_subrange(bytes, from, bytes.len());
    assert(rest@ =~= bytes@.skip(from as int));
    rest
}

proof fn lemma_leading_byte(s: Seq<char>)
    requires
        s.len() > 0,
    ensures
        encode_utf8(s).len() > 0,
        encode_utf8(s)[0] != 0xFF && encode_utf8(s)[0] != 0xFE,
        opens_with_utf8_mark(encode_utf8(s)) ==> s[0] == '\u{FEFF}',
{
    let c = s[0] as u32;
    let head = vstd::utf8::encode_scalar(c);
    let all = encode_utf8(s);
    assert(all == head + encode_utf8(s.drop_first()));
    assert(head.len() >= 1);
    assert(all[0] == head[0]);
    vstd::utf8::char_u32_cast(s[0], c);
    if c < 0x80 {
        assert((c & 0x7F) as u8 <= 0x7F) by (bit_vector);
        assert(head[0] <= 0x7F);
    } else if c < 0x800 {
        assert(0xC0 | ((c >> 6) & 0x1F) as u8 <= 0xDF) by (bit_vector);
        assert(head[0] <= 0xDF);
    } else if c < 0x1_0000 {
        assert(head.len() == 3);
        assert(all[0] == head[0] && all[1] == head[1] && all[2] == head[2]);
        assert(0xE0 | ((c >> 12) & 0x0F) as u8 <= 0xEF) by (bit_vector);
        if opens_with_utf8_mark(all) {
            assert(c == 0xFEFF) by (bit_vector)
                requires
                    0xE0 | ((c >> 12) & 0x0F) as u8 == 0xEF,
                    0x80 | ((c >> 6) & 0x3F) as u8 == 0xBB,
                    0x80 | (c & 0x3F) as u8 == 0xBF,
                    c < 0x1_0000,
            ;
            assert(s[0] == (0xFEFFu32 as char));
        }
    } else {
        assert(0xF0 | ((c >> 18) & 0x7) as u8 <= 0xF7) by (bit_vector);
        assert(0xF0 | ((c >> 18) & 0x7) as u8 >= 0xF0) by (bit_vector);
        assert(0xF0 <= head[0] <= 0xF7);
    }
}

/// Text written as UTF-8 is read back as itself, unless it begins with the
/// character a byte order mark spells, which is taken for one.
pub proof fn law_utf8_reads_as_itself(text: Seq<char>)
    requires
        text.len() == 0 || text[0] != '\u{FEFF}',
    ensures
        decoded(encode_utf8(text)) == text,
{
    vstd::utf8::encode_utf8_valid_utf8(text);
    vstd::utf8::encode_utf8_decode_utf8(text);
    if text.len() > 0 {
        lemma_leading_byte(text);
    }
}

/// A byte order mark is taken off rather than drawn: UTF-8 after a mark is
/// read as the text it spells.
pub proof fn law_a_mark_is_taken_off(text: Seq<char>)
    ensures
        decoded(seq![0xEFu8, 0xBB, 0xBF] + encode_utf8(text)) == text,
{
    let bytes = seq![0xEFu8, 0xBB, 0xBF] + encode_utf8(text);
    assert(bytes.skip(3) =~= encode_utf8(text));
    vstd::utf8::encode_utf8_valid_utf8(text);
    vstd::utf8::encode_utf8_decode_utf8(text);
}

} // verus!
