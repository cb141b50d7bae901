//! The picture a film wears in the grid, and where it is kept.
//!
//! What is made is written to `$XDG_CACHE_HOME/thumbnails/large` in the layout
//! the freedesktop thumbnail specification lays down: a PNG named for the MD5
//! of the file's URI, carrying the source's URI and modification time in
//! `tEXt` chunks so a stale one can be told from a good one. It is the same
//! cache the user's file manager fills, and that is the reason this keeps no
//! cache of its own.
//!
//! Paths here are the bytes a Unix path is made of, which is what a file name
//! really is; nothing assumes they spell UTF-8.

use vstd::prelude::*;

use vstd::string::StringSliceAdditionalSpecFns;
use vstd::utf8::{decode_utf8, encode_utf8, valid_utf8};

use crate::digest::{hex_lower, md5, md5_hex};
use crate::text::{
    decimal, decimal_digits, digit, same_bytes, string_from, utf8_lossy, utf8_lossy_text,
};

verus! {

/// The edge a poster is made to fit inside: the specification's `large`
/// size.
pub const SIZE: u32 = 256;

/// Whether a byte of a path stands for itself in a URI: the unreserved
/// characters and the path separator.
pub open spec fn unreserved(byte: u8) -> bool {
    ||| 65 <= byte <= 90
    ||| 97 <= byte <= 122
    ||| 48 <= byte <= 57
    ||| byte == 45
    ||| byte == 95
    ||| byte == 46
    ||| byte == 126
    ||| byte == 47
}

/// An upper-case hexadecimal digit.
pub open spec fn hex_upper(d: int) -> char {
    if d < 10 {
        (48 + d) as char
    } else {
        (55 + d) as char
    }
}

/// What one byte of a path becomes in a URI.
pub open spec fn uri_piece(byte: u8) -> Seq<char> {
    if unreserved(byte) {
        seq![byte as char]
    } else {
        seq!['%', hex_upper((byte / 16) as int), hex_upper((byte % 16) as int)]
    }
}

/// A path's bytes, percent-encoded.
pub open spec fn escaped(path: Seq<u8>) -> Seq<char>
    decreases path.len(),
{
    if path.len() == 0 {
        Seq::empty()
    } else {
        escaped(path.drop_last()) + uri_piece(path.last())
    }
}

/// `file://`.
pub open spec fn uri_scheme() -> Seq<char> {
    seq!['f', 'i', 'l', 'e', ':', '/', '/']
}

/// The URI a thumbnail is named for.
pub open spec fn file_uri_of(path: Seq<u8>) -> Seq<char> {
    uri_scheme() + escaped(path)
}

fn hex_digit(d: u8) -> (c: char)
    requires
        d < 16,
    ensures
        c == hex_upper(d as int),
{
    if d < 10 {
        (48 + d) as char
    } else {
        (55 + d) as char
    }
}

/// A path as the URI a thumbnail is named for.
///
/// Percent-encoded to the specification's own rule: unreserved characters and
/// the path separator stand, and everything else — spaces above all, which
/// every film downloaded from anywhere has in its name — becomes a triplet.
pub fn file_uri(path: &[u8]) -> (uri: String)
    ensures
        uri@ == file_uri_of(path@),
{
    let mut out: Vec<char> = vec!['f', 'i', 'l', 'e', ':', '/', '/'];
    let mut i: usize = 0;
    while i < path.len()
        invariant
            i <= path@.len(),
            out@ == uri_scheme() + escaped(path@.take(i as int)),
        decreases path@.len() - i,
    {
        let byte = path[i];
        let stands = (65 <= byte && byte <= 90) || (97 <= byte && byte <= 122) || (48 <= byte
            && byte <= 57) || byte == 45 || byte == 95 || byte == 46 || byte == 126 || byte == 47;
        if stands {
            out.push(byte as char);
        } else {
            out.push('%');
            out.push(hex_digit(byte / 16));
            out.push(hex_digit(byte % 16));
        }
        assert(path@.take(i + 1).drop_last() =~= path@.take(i as int));
        i += 1;
        assert(out@ =~= uri_scheme() + escaped(path@.take(i as int)));
    }
    assert(path@.take(i as int) =~= path@);
    string_from(&out)
}

/// A name put after a folder, with a separator between them where the folder
/// does not already end in one; a folder with no name at all takes none.
pub open spec fn joined(folder: Seq<u8>, name: Seq<u8>) -> Seq<u8> {
    if folder.len() > 0 && folder.last() != 47 {
        folder + seq![47u8] + name
    } else {
        folder + name
    }
}

/// `.cache`
pub open spec fn dot_cache() -> Seq<u8> {
    seq![46u8, 99, 97, 99, 104, 101]
}

/// `thumbnails`
pub open spec fn thumbnails() -> Seq<u8> {
    seq![116u8, 104, 117, 109, 98, 110, 97, 105, 108, 115]
}

/// `large`
pub open spec fn large() -> Seq<u8> {
    seq![108u8, 97, 114, 103, 101]
}

/// `.png`
pub open spec fn png_ending() -> Seq<u8> {
    seq![46u8, 112, 110, 103]
}

/// The folder the thumbnails live in, given `$XDG_CACHE_HOME` and the home
/// folder as far as they are known: the first where it is an absolute path,
/// and `.cache` in the home folder otherwise.
pub open spec fn cache_dir_of(xdg: Option<Seq<u8>>, home: Option<Seq<u8>>) -> Option<Seq<u8>> {
    let cache = match xdg {
        Some(x) if x.len() > 0 && x[0] == 47 => Some(x),
        _ => match home {
            Some(h) => Some(joined(h, dot_cache())),
            None => None,
        },
    };
    match cache {
        Some(c) => Some(joined(joined(c, thumbnails()), large())),
        None => None,
    }
}

/// The name a film's thumbnail is kept under: the MD5 of its URI, in hex.
pub open spec fn thumbnail_name(film: Seq<u8>) -> Seq<u8> {
    hex_lower(md5(encode_utf8(file_uri_of(film)))).map_values(|c: char| c as u8) + png_ending()
}

/// Put a name after a folder, as `joined` says.
fn join(folder: &mut Vec<u8>, name: &[u8])
    ensures
        final(folder)@ == joined(old(folder)@, name@),
{
    if folder.len() > 0 && folder[folder.len() - 1] != 47 {
        folder.push(47);
    }
    let mut i: usize = 0;
    let ghost start = folder@;
    while i < name.len()
        invariant
            i <= name@.len(),
            folder@ == start + name@.take(i as int),
        decreases name@.len() - i,
    {
        folder.push(name[i]);
        i += 1;
        assert(folder@ =~= start + name@.take(i as int));
    }
    assert(name@.take(i as int) =~= name@);
}

/// The bytes of a path that may not be there.
pub open spec fn bytes_of(path: Option<&[u8]>) -> Option<Seq<u8>> {
    match path {
        Some(p) => Some(p@),
        None => None,
    }
}

/// Where thumbnails are kept: `$XDG_CACHE_HOME/thumbnails/large` where that
/// variable holds an absolute path, and `~/.cache/thumbnails/large`
/// otherwise — or nowhere, where there is no home to find either.
pub fn cache_dir(xdg: Option<&[u8]>, home: Option<&[u8]>) -> (dir: Option<Vec<u8>>)
    ensures
        match dir {
            Some(d) => cache_dir_of(bytes_of(xdg), bytes_of(home)) == Some(d@),
            None => cache_dir_of(bytes_of(xdg), bytes_of(home)) is None,
        },
{
    let mut cache: Vec<u8> = match xdg {
        Some(x) if x.len() > 0 && x[0] == 47 => vstd::slice::slice_to_vec(x),
        _ => match home {
            Some(h) => {
                let mut c = vstd::slice::slice_to_vec(h);
                join(&mut c, &[46u8, 99, 97, 99, 104, 101]);
                c
            },
            None => return None,
        },
    };
    join(&mut cache, &[116u8, 104, 117, 109, 98, 110, 97, 105, 108, 115]);
    join(&mut cache, &[108u8, 97, 114, 103, 101]);
    Some(cache)
}

/// Where a film's thumbnail is kept in a cache folder: the MD5 of the film's
/// URI, as thirty-two hexadecimal digits, and `.png`.
pub fn cached_at(cache: &[u8], film: &[u8]) -> (at: Vec<u8>)
    requires
        3 * film@.len() + 100 <= usize::MAX,
    ensures
        at@ == joined(cache@, thumbnail_name(film@)),
{
    let uri = file_uri(film);
    proof {
        lemma_escaped_len(film@);
    }
    let bytes = uri.as_str().as_bytes();
    assert(bytes@ == encode_utf8(file_uri_of(film@)));
    proof {
        let u = file_uri_of(film@);
        assert forall|i: int| 0 <= i < u.len() implies (#[trigger] u[i] as u32) < 0x80 by {
            if i >= 7 {
                assert(u[i] == escaped(film@)[i - 7]);
            }
        }
        lemma_ascii_width(u);
    }
    let hex = md5_hex(bytes);
    let hex_chars = crate::text::chars_of(hex.as_str());
    let mut name: Vec<u8> = Vec::new();
    let mut i: usize = 0;
    while i < hex_chars.len()
        invariant
            i <= hex_chars@.len(),
            hex_chars@ == hex@,
            name@ == hex_chars@.take(i as int).map_values(|c: char| c as u8),
        decreases hex_chars@.len() - i,
    {
        name.push(hex_chars[i] as u8);
        i += 1;
        assert(name@ =~= hex_chars@.take(i as int).map_values(|c: char| c as u8));
    }
    assert(hex_chars@.take(i as int) =~= hex_chars@);
    name.push(46);
    name.push(112);
    name.push(110);
    name.push(103);
    let mut at = vstd::slice::slice_to_vec(cache);
    join(&mut at, name.as_slice());
    at
}

proof fn lemma_escaped_len(path: Seq<u8>)
    ensures
        escaped(path).len() <= 3 * path.len(),
        forall|i: int| 0 <= i < escaped(path).len() ==> (#[trigger] escaped(path)[i] as u32) < 0x80,
    decreases path.len(),
{
    if path.len() > 0 {
        lemma_escaped_len(path.drop_last());
        let a = escaped(path.drop_last());
        let b = uri_piece(path.last());
        assert forall|i: int| 0 <= i < escaped(path).len() implies (#[trigger] escaped(path)[i]
            as u32) < 0x80 by {
            if i >= a.len() {
                assert(escaped(path)[i] == b[i - a.len()]);
            } else {
                assert(escaped(path)[i] == a[i]);
            }
        }
    }
}

proof fn lemma_ascii_width(s: Seq<char>)
    requires
        forall|i: int| 0 <= i < s.len() ==> (#[trigger] s[i] as u32) < 0x80,
    ensures
        encode_utf8(s).len() == s.len(),
    decreases s.len(),
{
    if s.len() > 0 {
        lemma_ascii_width(s.drop_first());
    }
}

/// A share of `d` parts, `n` of them, rounded to the nearest whole with a
/// half going up.
pub open spec fn rounded(n: int, d: int) -> int {
    (2 * n + d) / (2 * d)
}

/// A size no smaller than one.
pub open spec fn at_least_one(x: int) -> int {
    if x < 1 {
        1
    } else {
        x
    }
}

/// The size a picture becomes when its longest edge is held to `edge`: never
/// enlarged, never nothing across, and otherwise each side scaled by the same
/// share and rounded.
pub open spec fn fitted(width: u32, height: u32, edge: u32) -> (int, int) {
    let longest: int = if width >= height {
        width as int
    } else {
        height as int
    };
    if longest <= edge || longest == 0 {
        (at_least_one(width as int), at_least_one(height as int))
    } else {
        (
            at_least_one(rounded(width * edge, longest)),
            at_least_one(rounded(height * edge, longest)),
        )
    }
}

/// One side scaled by `edge` over `longest`, rounded.
fn share(side: u32, edge: u32, longest: u32) -> (scaled: u32)
    requires
        side <= longest,
        edge < longest,
    ensures
        scaled == rounded(side * edge, longest as int),
        scaled <= edge,
{
    assert(side as u64 * edge as u64 <= 0xFFFF_FFFF * 0xFFFF_FFFFu64) by (nonlinear_arith)
        requires
            side <= 0xFFFF_FFFFu32,
            edge <= 0xFFFF_FFFFu32,
    ;
    let n: u64 = side as u64 * edge as u64;
    let d: u64 = longest as u64;
    let q = n / d;
    let r = n % d;
    proof {
        assert(n == q * d + r && 0 <= r < d) by (nonlinear_arith)
            requires
                q == n / d,
                r == n % d,
                d > 0,
        ;
        assert(n <= d * edge) by (nonlinear_arith)
            requires
                n == side * edge,
                side <= d,
        ;
        assert(q <= edge) by (nonlinear_arith)
            requires
                n == q * d + r,
                0 <= r,
                n <= d * edge,
                d > 0,
        ;
        if 2 * r >= d {
            assert(q < edge) by (nonlinear_arith)
                requires
                    n == q * d + r,
                    0 < r,
                    n <= d * edge,
                    d > 0,
            ;
            assert(2 * n + d == (q + 1) * (2 * d) + (2 * r - d)) by (nonlinear_arith)
                requires
                    n == q * d + r,
            ;
            vstd::arithmetic::div_mod::lemma_fundamental_div_mod_converse(
                2 * n + d,
                2 * d as int,
                q + 1,
                2 * r - d,
            );
        } else {
            assert(2 * n + d == q * (2 * d) + (2 * r + d)) by (nonlinear_arith)
                requires
                    n == q * d + r,
            ;
            vstd::arithmetic::div_mod::lemma_fundamental_div_mod_converse(
                2 * n + d,
                2 * d as int,
                q as int,
                2 * r + d,
            );
        }
    }
    if 2 * r >= d {
        (q + 1) as u32
    } else {
        q as u32
    }
}

/// The size a picture becomes when its longest edge is held to `edge`.
/// Never enlarged: a film smaller than the cache's size keeps its own.
pub fn fit(size: (u32, u32), edge: u32) -> (fitted_size: (u32, u32))
    ensures
        fitted_size.0 == fitted(size.0, size.1, edge).0,
        fitted_size.1 == fitted(size.0, size.1, edge).1,
{
    let (width, height) = size;
    let longest = if width >= height {
        width
    } else {
        height
    };
    if longest <= edge || longest == 0 {
        return (if width < 1 { 1 } else { width }, if height < 1 { 1 } else { height });
    }
    let w = share(width, edge, longest);
    let h = share(height, edge, longest);
    (if w < 1 { 1 } else { w }, if h < 1 { 1 } else { h })
}

/// A big-endian four-byte number at `at`.
pub open spec fn be32(data: Seq<u8>, at: int) -> int {
    data[at] * 0x100_0000 + data[at + 1] * 0x1_0000 + data[at + 2] * 0x100 + data[at + 3]
}

/// The chunks of a PNG from `at` on, as they lie — length, kind, body,
/// checksum — each given as its kind and its body; reading stops at the first
/// chunk the data does not hold the whole of.
pub open spec fn chunks_from(data: Seq<u8>, at: int) -> Seq<(Seq<u8>, Seq<u8>)>
    decreases data.len() + 12 - at,
{
    if at < 0 || at + 8 > data.len() || at + 8 + be32(data, at) > data.len() {
        Seq::empty()
    } else {
        let length = be32(data, at);
        seq![(data.subrange(at + 4, at + 8), data.subrange(at + 8, at + 8 + length))]
            + chunks_from(data, at + 12 + length)
    }
}

/// The chunks of a PNG, after its eight-byte signature.
pub open spec fn png_chunks_of(data: Seq<u8>) -> Seq<(Seq<u8>, Seq<u8>)> {
    chunks_from(data, 8)
}

/// The views of a list of chunks.
pub open spec fn chunk_views(chunks: Seq<(&[u8], &[u8])>) -> Seq<(Seq<u8>, Seq<u8>)> {
    chunks.map_values(|c: (&[u8], &[u8])| (c.0@, c.1@))
}

/// The chunks of a PNG, as they lie: length, kind, body, checksum. What comes
/// back is each chunk's kind and body, in order, up to the first one the data
/// does not hold the whole of.
pub fn png_chunks(data: &[u8]) -> (chunks: Vec<(&[u8], &[u8])>)
    ensures
        chunk_views(chunks@) == png_chunks_of(data@),
{
    let n = data.len();
    let mut chunks: Vec<(&[u8], &[u8])> = Vec::new();
    let mut at: usize = 8;
    while n >= 8 && at <= n - 8
        invariant_except_break
            n == data@.len(),
            8 <= at,
            chunk_views(chunks@) + chunks_from(data@, at as int) == png_chunks_of(data@),
        ensures
            chunk_views(chunks@) == png_chunks_of(data@),
        decreases n + 12 - at,
    {
        let length: u32 = ((data[at] as u32) * 0x100_0000 + (data[at + 1] as u32) * 0x1_0000
            + (data[at + 2] as u32) * 0x100 + (data[at + 3] as u32));
        assert(length == be32(data@, at as int));
        if length as usize > n - (at + 8) {
            assert(chunks_from(data@, at as int) =~= Seq::<(Seq<u8>, Seq<u8>)>::empty());
            assert(chunk_views(chunks@) =~= png_chunks_of(data@));
            break;
        }
        let end = at + 8 + length as usize;
        let kind = vstd::slice::slice_subrange(data, at + 4, at + 8);
        let body = vstd::slice::slice_subrange(data, at + 8, end);
        let ghost before = chunks@;
        assert(chunks_from(data@, at as int) == seq![(kind@, body@)] + chunks_from(
            data@,
            end + 4,
        ));
        chunks.push((kind, body));
        assert(chunk_views(chunks@) =~= chunk_views(before).push((kind@, body@)));
        assert(chunk_views(chunks@) + chunks_from(data@, end + 4) =~= chunk_views(before)
            + chunks_from(data@, at as int));
        if n - end < 4 {
            assert(chunks_from(data@, end + 4) =~= Seq::<(Seq<u8>, Seq<u8>)>::empty());
            assert(chunk_views(chunks@) =~= png_chunks_of(data@));
            break;
        }
        at = end + 4;
    }
    chunks
}

/// `tEXt`, the kind of a chunk of text.
pub open spec fn text_kind() -> Seq<u8> {
    seq![116u8, 69, 88, 116]
}

/// Where the first nought byte is, or `-1` where there is none.
pub open spec fn first_zero(s: Seq<u8>) -> int
    decreases s.len(),
{
    if s.len() == 0 {
        -1
    } else if s[0] == 0 {
        0
    } else if first_zero(s.drop_first()) < 0 {
        -1
    } else {
        first_zero(s.drop_first()) + 1
    }
}

/// The text a chunk's bytes are read as: their characters where they are
/// UTF-8, and with U+FFFD for what is not otherwise.
pub open spec fn text_value(bytes: Seq<u8>) -> Seq<char> {
    if valid_utf8(bytes) {
        decode_utf8(bytes)
    } else {
        utf8_lossy(bytes)
    }
}

/// The text of the first `tEXt` chunk with this keyword, read up to the
/// first chunk of text that has no nought byte to end its keyword: there,
/// nothing is found.
pub open spec fn text_in(chunks: Seq<(Seq<u8>, Seq<u8>)>, keyword: Seq<u8>) -> Option<Seq<char>>
    decreases chunks.len(),
{
    if chunks.len() == 0 {
        None
    } else if chunks[0].0 != text_kind() {
        text_in(chunks.drop_first(), keyword)
    } else if first_zero(chunks[0].1) < 0 {
        None
    } else if chunks[0].1.take(first_zero(chunks[0].1)) == keyword {
        Some(text_value(chunks[0].1.skip(first_zero(chunks[0].1) + 1)))
    } else {
        text_in(chunks.drop_first(), keyword)
    }
}

/// One `tEXt` chunk out of a PNG, by keyword.
pub open spec fn png_text_of(data: Seq<u8>, keyword: Seq<u8>) -> Option<Seq<char>> {
    text_in(png_chunks_of(data), keyword)
}

proof fn lemma_first_zero(s: Seq<u8>)
    ensures
        -1 <= first_zero(s) < s.len(),
        first_zero(s) >= 0 ==> s[first_zero(s)] == 0,
        forall|j: int|
            0 <= j < (if first_zero(s) < 0 {
                s.len() as int
            } else {
                first_zero(s)
            }) ==> s[j] != 0,
    decreases s.len(),
{
    if s.len() > 0 {
        lemma_first_zero(s.drop_first());
        assert forall|j: int|
            0 <= j < (if first_zero(s) < 0 {
                s.len() as int
            } else {
                first_zero(s)
            }) implies s[j] != 0 by {
            if j > 0 {
                assert(s[j] == s.drop_first()[j - 1]);
            }
        }
    }
}

/// Where the first nought byte is.
fn zero_in(body: &[u8]) -> (at: Option<usize>)
    ensures
        match at {
            Some(z) => first_zero(body@) == z && z < body@.len(),
            None => first_zero(body@) < 0,
        },
{
    proof {
        lemma_first_zero(body@);
    }
    let mut i: usize = 0;
    while i < body.len()
        invariant
            i <= body@.len(),
            forall|j: int| 0 <= j < i ==> body@[j] != 0,
            -1 <= first_zero(body@) < body@.len(),
            first_zero(body@) >= 0 ==> body@[first_zero(body@)] == 0,
        decreases body@.len() - i,
    {
        if body[i] == 0 {
            proof {
                lemma_first_zero(body@);
            }
            return Some(i);
        }
        i += 1;
    }
    None
}


/// One `tEXt` chunk out of a PNG, by the bytes of its keyword.
fn text_by_key(data: &[u8], key: &[u8]) -> (text: Option<String>)
    ensures
        match text {
            Some(t) => png_text_of(data@, key@) == Some(t@),
            None => png_text_of(data@, key@) is None,
        },
{
    let chunks = png_chunks(data);
    let ghost all = chunk_views(chunks@);
    let mut i: usize = 0;
    assert(all.skip(0) =~= all);
    while i < chunks.len()
        invariant
            i <= chunks@.len(),
            all == chunk_views(chunks@),
            all == png_chunks_of(data@),
            text_in(all.skip(i as int), key@) == text_in(all, key@),
        decreases chunks@.len() - i,
    {
        let (kind, body) = chunks[i];
        let ghost rest = all.skip(i as int);
        assert(rest[0] == (kind@, body@));
        assert(rest.drop_first() =~= all.skip(i + 1));
        let is_text = kind.len() == 4 && kind[0] == 116 && kind[1] == 69 && kind[2] == 88
            && kind[3] == 116;
        proof {
            if is_text {
                assert(kind@ =~= text_kind());
            } else {
                assert(kind@ != text_kind()) by {
                    if kind@ == text_kind() {
                        assert(kind@.len() == 4);
                    }
                }
            }
        }
        if is_text {
            match zero_in(body) {
                None => return None,
                Some(z) => {
                    let head = vstd::slice::slice_subrange(body, 0, z);
                    assert(head@ =~= body@.take(z as int));
                    if same_bytes(head, key) {
                        let end = body.len();
                        let value = vstd::slice::slice_subrange(body, z + 1, end);
                        assert(value@ =~= body@.skip(z + 1));
                        return Some(utf8_lossy_text(value));
                    }
                },
            }
        }
        i += 1;
    }
    None
}

/// One `tEXt` chunk out of a PNG, by keyword: the text of the first one with
/// that keyword, or nothing — and nothing, too, once a chunk of text turns up
/// whose keyword has no end.
pub fn png_text(data: &[u8], keyword: &str) -> (text: Option<String>)
    ensures
        match text {
            Some(t) => png_text_of(data@, keyword.spec_bytes()) == Some(t@),
            None => png_text_of(data@, keyword.spec_bytes()) is None,
        },
{
    text_by_key(data, keyword.as_bytes())
}

/// `Thumb::MTime`
pub open spec fn mtime_key() -> Seq<u8> {
    seq![84u8, 104, 117, 109, 98, 58, 58, 77, 84, 105, 109, 101]
}

/// `Thumb::URI`
pub open spec fn uri_key() -> Seq<u8> {
    seq![84u8, 104, 117, 109, 98, 58, 58, 85, 82, 73]
}

/// Whether a cached poster is still a picture of this film: its recorded
/// modification time is the film's, and the URI it records, where it records
/// one, is the film's.
pub open spec fn still_good_of(data: Seq<u8>, stamp: u64, film: Seq<u8>) -> bool {
    &&& png_text_of(data, mtime_key()) == Some(decimal_digits(stamp as nat))
    &&& match png_text_of(data, uri_key()) {
        Some(uri) => uri == file_uri_of(film),
        None => true,
    }
}

/// Whether a cached poster is still a picture of this file.
///
/// The modification time first, which is what catches a film replaced by
/// another of the same name, and then the URI, which catches the vanishingly
/// unlikely collision. A cached file that says nothing about itself is not
/// trusted: it was written by something that did not follow the
/// specification.
pub fn still_good(data: &[u8], stamp: u64, film: &[u8]) -> (good: bool)
    ensures
        good == still_good_of(data@, stamp, film@),
{
    let written = text_by_key(data, &[84u8, 104, 117, 109, 98, 58, 58, 77, 84, 105, 109, 101]);
    let wanted = decimal(stamp);
    match written {
        Some(w) => {
            if !(w == wanted) {
                return false;
            }
        },
        None => return false,
    }
    match text_by_key(data, &[84u8, 104, 117, 109, 98, 58, 58, 85, 82, 73]) {
        Some(uri) => uri == file_uri(film),
        None => true,
    }
}

/// The bytes of the PNG the `png` crate writes for an eight-bit RGBA picture
/// of this size, with these `tEXt` chunks, where it writes one.
pub uninterp spec fn png_encoded(
    width: u32,
    height: u32,
    pixels: Seq<u8>,
    texts: Seq<(Seq<char>, Seq<char>)>,
) -> Option<Seq<u8>>;

/// The views of some keyword and text pairs.
pub open spec fn text_views(texts: Seq<(String, String)>) -> Seq<(Seq<char>, Seq<char>)> {
    texts.map_values(|t: (String, String)| (t.0@, t.1@))
}

/// Text as ISO 8859-1 bytes, one to a character.
pub open spec fn latin1(text: Seq<char>) -> Seq<u8> {
    text.map_values(|c: char| c as u8)
}

/// `IHDR`, the kind of a PNG's header chunk.
pub open spec fn header_kind() -> Seq<u8> {
    seq![73u8, 72, 68, 82]
}

/// The body of a `tEXt` chunk: the keyword, a nought byte, and the text.
pub open spec fn text_body(text: (Seq<char>, Seq<char>)) -> Seq<u8> {
    latin1(text.0) + seq![0u8] + latin1(text.1)
}

/// Whether every keyword and text is short enough for a chunk's length to
/// hold it.
pub open spec fn texts_fit(texts: Seq<(Seq<char>, Seq<char>)>) -> bool {
    forall|i: int| 0 <= i < texts.len() ==> #[trigger] texts[i].0.len() + texts[i].1.len() + 1
        < 0x8000_0000
}

/// `png::Encoder`, eight-bit RGBA, with one `add_text_chunk` for each pair and
/// the picture written after the header: the bytes it wrote, or what it said
/// where it refused. What the bytes are is the crate's and is named. What is
/// stated is what its source shows: a picture with no width or no height, and
/// pixels that are not four bytes for each one of it, are refused; and what
/// it writes begins with the signature and the header chunk and then one
/// `tEXt` chunk for each pair, in order, each the keyword and the text one
/// byte to a character with a nought byte between — which it can only write
/// where every character is below 256, and refuses otherwise. The compressed
/// picture after them, and the words of a refusal, are not stated.
#[verifier::external_body]
fn encode_png(width: u32, height: u32, pixels: &[u8], texts: Vec<(String, String)>) -> (png: Result<
    Vec<u8>,
    String,
>)
    requires
        4 * width * height <= usize::MAX,
    ensures
        match png {
            Ok(bytes) => png_encoded(width, height, pixels@, text_views(texts@)) == Some(bytes@),
            Err(_) => png_encoded(width, height, pixels@, text_views(texts@)) is None,
        },
        (width == 0 || height == 0 || pixels@.len() != 4 * width * height) ==> png is Err,
        png matches Ok(bytes) ==> texts_fit(text_views(texts@)) ==> {
            let chunks = png_chunks_of(bytes@);
            &&& chunks.len() > texts@.len()
            &&& chunks[0].0 == header_kind()
            &&& forall|i: int|
                0 <= i < texts@.len() ==> #[trigger] chunks[1 + i] == (
                    text_kind(),
                    text_body(text_views(texts@)[i]),
                )
        },
{
    let mut out: Vec<u8> = Vec::new();
    let mut encoder = png::Encoder::new(&mut out, width, height);
    encoder.set_color(png::ColorType::Rgba);
    encoder.set_depth(png::BitDepth::Eight);
    for (keyword, text) in texts {
        encoder.add_text_chunk(keyword, text).map_err(|err| err.to_string())?;
    }
    let mut writer = encoder.write_header().map_err(|err| err.to_string())?;
    writer.write_image_data(pixels).map_err(|err| err.to_string())?;
    writer.finish().map_err(|err| err.to_string())?;
    Ok(out)
}

/// A picture, as the PNG a screenshot is written as.
pub fn picture_png(width: u32, height: u32, pixels: &[u8]) -> (png: Result<Vec<u8>, String>)
    requires
        4 * width * height <= usize::MAX,
    ensures
        match png {
            Ok(bytes) => png_encoded(width, height, pixels@, Seq::empty()) == Some(bytes@),
            Err(_) => png_encoded(width, height, pixels@, Seq::empty()) is None,
        },
        (width == 0 || height == 0 || pixels@.len() != 4 * width * height) ==> png is Err,
{
    let texts: Vec<(String, String)> = Vec::new();
    assert(text_views(texts@) =~= Seq::empty());
    encode_png(width, height, pixels, texts)
}

/// The two chunks of text a thumbnail carries, in the order they are
/// written: what it is a picture of, and when that file was written.
pub open spec fn poster_texts(uri: Seq<char>, stamp: u64) -> Seq<(Seq<char>, Seq<char>)> {
    seq![
        (uri_key().map_values(|b: u8| b as char), uri),
        (mtime_key().map_values(|b: u8| b as char), decimal_digits(stamp as nat)),
    ]
}

/// A poster, as the PNG the thumbnail specification asks for: the picture,
/// and the two chunks of text without which every other program treats it as
/// a thumbnail of unknown provenance and makes its own.
pub fn poster_png(width: u32, height: u32, pixels: &[u8], uri: &str, stamp: u64) -> (png: Option<
    Vec<u8>,
>)
    requires
        4 * width * height <= usize::MAX,
    ensures
        match png {
            Some(bytes) => png_encoded(width, height, pixels@, poster_texts(uri@, stamp)) == Some(
                bytes@,
            ),
            None => png_encoded(width, height, pixels@, poster_texts(uri@, stamp)) is None,
        },
        (width == 0 || height == 0 || pixels@.len() != 4 * width * height) ==> png is None,
        png matches Some(bytes) ==> texts_fit(poster_texts(uri@, stamp)) ==> {
            let chunks = png_chunks_of(bytes@);
            &&& chunks.len() > 2
            &&& chunks[0].0 == header_kind()
            &&& chunks[1] == (text_kind(), text_body(poster_texts(uri@, stamp)[0]))
            &&& chunks[2] == (text_kind(), text_body(poster_texts(uri@, stamp)[1]))
        },
{
    let mtime = "Thumb::MTime".to_owned();
    let named = "Thumb::URI".to_owned();
    proof {
        reveal_strlit("Thumb::MTime");
        reveal_strlit("Thumb::URI");
    }
    assert(mtime@ =~= mtime_key().map_values(|b: u8| b as char));
    assert(named@ =~= uri_key().map_values(|b: u8| b as char));
    let mut texts: Vec<(String, String)> = Vec::new();
    texts.push((named, uri.to_owned()));
    texts.push((mtime, decimal(stamp)));
    assert(text_views(texts@) =~= poster_texts(uri@, stamp));
    let ghost count = texts@.len();
    match encode_png(width, height, pixels, texts) {
        Ok(bytes) => {
            proof {
                if texts_fit(poster_texts(uri@, stamp)) {
                    let chunks = png_chunks_of(bytes@);
                    assert(count == 2);
                    assert(chunks[1int + 0] == (text_kind(), text_body(poster_texts(uri@, stamp)[0])));
                    assert(chunks[1int + 1] == (text_kind(), text_body(poster_texts(uri@, stamp)[1])));
                }
            }
            Some(bytes)
        },
        Err(_) => None,
    }
}

/// A picture is never made larger to fit, never made nothing across, and
/// where it has to be made smaller its longer edge comes out at the edge it
/// was held to.
pub proof fn law_fit_never_enlarges(width: u32, height: u32, edge: u32)
    ensures
        1 <= fitted(width, height, edge).0 <= at_least_one(width as int),
        1 <= fitted(width, height, edge).1 <= at_least_one(height as int),
        (width > edge || height > edge) && edge >= 1 ==> (fitted(width, height, edge).0 == edge
            || fitted(width, height, edge).1 == edge) && fitted(width, height, edge).0 <= edge
            && fitted(width, height, edge).1 <= edge,
{
    let longest: int = if width >= height {
        width as int
    } else {
        height as int
    };
    if longest > edge && longest != 0 {
        lemma_rounded_share(width as int, edge as int, longest);
        lemma_rounded_share(height as int, edge as int, longest);
        lemma_rounded_share(longest, edge as int, longest);
    }
}

proof fn lemma_rounded_share(side: int, edge: int, longest: int)
    requires
        0 <= side <= longest,
        0 <= edge < longest,
    ensures
        rounded(side * edge, longest) <= side,
        rounded(side * edge, longest) <= edge,
        rounded(longest * edge, longest) == edge,
{
    assert(2 * (side * edge) + longest < (2 * longest) * (side + 1)) by (nonlinear_arith)
        requires
            0 <= side,
            0 <= edge < longest,
    ;
    assert(2 * (side * edge) + longest < (2 * longest) * (edge + 1)) by (nonlinear_arith)
        requires
            0 <= side <= longest,
            0 <= edge < longest,
    ;
    vstd::arithmetic::div_mod::lemma_div_by_multiple_is_strongly_ordered(
        2 * (side * edge) + longest,
        (2 * longest) * (side + 1),
        side + 1,
        2 * longest,
    );
    assert((2 * longest) * (side + 1) == (side + 1) * (2 * longest) + 0) by (nonlinear_arith);
    vstd::arithmetic::div_mod::lemma_fundamental_div_mod_converse(
        (2 * longest) * (side + 1),
        2 * longest,
        side + 1,
        0,
    );
    vstd::arithmetic::div_mod::lemma_div_by_multiple_is_strongly_ordered(
        2 * (side * edge) + longest,
        (2 * longest) * (edge + 1),
        edge + 1,
        2 * longest,
    );
    assert((2 * longest) * (edge + 1) == (edge + 1) * (2 * longest) + 0) by (nonlinear_arith);
    vstd::arithmetic::div_mod::lemma_fundamental_div_mod_converse(
        (2 * longest) * (edge + 1),
        2 * longest,
        edge + 1,
        0,
    );
    assert(2 * (longest * edge) + longest == edge * (2 * longest) + longest) by (nonlinear_arith);
    vstd::arithmetic::div_mod::lemma_fundamental_div_mod_converse(
        2 * (longest * edge) + longest,
        2 * longest,
        edge,
        longest,
    );
}

/// The number a hexadecimal digit stands for.
pub open spec fn hex_value(c: char) -> int {
    if '0' <= c <= '9' {
        c as int - 48
    } else {
        c as int - 55
    }
}

/// A percent-encoded path read back into its bytes: a `%` and two digits
/// are one byte, and any other character is the byte it is.
pub open spec fn unescaped(uri: Seq<char>) -> Seq<u8>
    decreases uri.len(),
{
    if uri.len() == 0 {
        Seq::empty()
    } else if uri[0] == '%' && uri.len() >= 3 {
        seq![(hex_value(uri[1]) * 16 + hex_value(uri[2])) as u8] + unescaped(uri.skip(3))
    } else {
        seq![uri[0] as u8] + unescaped(uri.drop_first())
    }
}

proof fn lemma_escaped_front(b: u8, rest: Seq<u8>)
    ensures
        escaped(seq![b] + rest) == uri_piece(b) + escaped(rest),
    decreases rest.len(),
{
    if rest.len() == 0 {
        assert(seq![b] + rest =~= seq![b]);
        assert(seq![b].drop_last() =~= Seq::<u8>::empty());
        assert(escaped(Seq::<u8>::empty()) =~= Seq::<char>::empty());
        assert(escaped(seq![b]) == escaped(seq![b].drop_last()) + uri_piece(b));
        assert(escaped(seq![b]) =~= uri_piece(b));
        assert(uri_piece(b) + escaped(rest) =~= uri_piece(b));
    } else {
        let whole = seq![b] + rest;
        assert(whole.drop_last() =~= seq![b] + rest.drop_last());
        assert(whole.last() == rest.last());
        lemma_escaped_front(b, rest.drop_last());
        assert(escaped(whole) == escaped(whole.drop_last()) + uri_piece(whole.last()));
        assert(escaped(rest) == escaped(rest.drop_last()) + uri_piece(rest.last()));
        assert(uri_piece(b) + escaped(rest.drop_last()) + uri_piece(rest.last()) =~= uri_piece(b)
            + escaped(rest));
    }
}

proof fn lemma_piece_read_back(b: u8, rest: Seq<char>)
    ensures
        unescaped(uri_piece(b) + rest) == seq![b] + unescaped(rest),
{
    let whole = uri_piece(b) + rest;
    if unreserved(b) {
        assert((b as char) as u32 == b);
        assert(whole[0] == b as char);
        assert(whole.drop_first() =~= rest);
    } else {
        let (hi, lo) = ((b / 16) as int, (b % 16) as int);
        assert(hex_upper(hi) as u32 == if hi < 10 {
            48 + hi
        } else {
            55 + hi
        });
        assert(hex_upper(lo) as u32 == if lo < 10 {
            48 + lo
        } else {
            55 + lo
        });
        assert(hex_value(hex_upper(hi)) == hi);
        assert(hex_value(hex_upper(lo)) == lo);
        assert(whole[0] == '%' && whole[1] == hex_upper(hi) && whole[2] == hex_upper(lo));
        assert(whole.skip(3) =~= rest);
        assert((hi * 16 + lo) as u8 == b);
    }
}

proof fn lemma_escaped_read_back(path: Seq<u8>)
    ensures
        unescaped(escaped(path)) == path,
    decreases path.len(),
{
    if path.len() > 0 {
        let rest = path.drop_first();
        assert(path =~= seq![path[0]] + rest);
        lemma_escaped_front(path[0], rest);
        lemma_piece_read_back(path[0], escaped(rest));
        lemma_escaped_read_back(rest);
    }
}

/// A thumbnail's URI decodes back to its path: past `file://`, each `%` and
/// the two hexadecimal digits after it read as the byte they stand for and
/// every other character as itself give exactly the bytes of the path.
pub proof fn law_a_uri_decodes_to_its_path(path: Seq<u8>)
    ensures
        unescaped(file_uri_of(path).skip(7)) == path,
{
    assert(file_uri_of(path).skip(7) =~= escaped(path));
    lemma_escaped_read_back(path);
}

/// One URI names one path: percent-encoding a path loses nothing, so two
/// films that are different files are never given the same URI, and so
/// never the same thumbnail.
pub proof fn law_one_uri_one_path(path: Seq<u8>, other: Seq<u8>)
    requires
        file_uri_of(path) == file_uri_of(other),
    ensures
        path == other,
{
    assert(file_uri_of(path).skip(7) =~= escaped(path));
    assert(file_uri_of(other).skip(7) =~= escaped(other));
    lemma_escaped_read_back(path);
    lemma_escaped_read_back(other);
}

/// A character a file URI is written in: a letter, a digit, `-`, `_`, `.`,
/// `~`, `/`, or the `%` that begins an escape.
pub open spec fn uri_char(c: char) -> bool {
    ||| 'A' <= c <= 'Z'
    ||| 'a' <= c <= 'z'
    ||| '0' <= c <= '9'
    ||| c == '-'
    ||| c == '_'
    ||| c == '.'
    ||| c == '~'
    ||| c == '/'
    ||| c == '%'
}

/// An upper-case hexadecimal digit.
pub open spec fn upper_hex_char(c: char) -> bool {
    '0' <= c <= '9' || 'A' <= c <= 'F'
}

/// Whether text is written in a URI's characters, each `%` followed by two
/// upper-case hexadecimal digits.
pub open spec fn plain_uri_text(t: Seq<char>) -> bool {
    &&& forall|i: int| 0 <= i < t.len() ==> uri_char(#[trigger] t[i])
    &&& forall|i: int|
        0 <= i < t.len() && #[trigger] t[i] == '%' ==> i + 2 < t.len() && upper_hex_char(t[i + 1])
            && upper_hex_char(t[i + 2])
}

proof fn lemma_hex_upper_char(d: int)
    requires
        0 <= d < 16,
    ensures
        upper_hex_char(hex_upper(d)),
        hex_upper(d) != '%',
{
}

proof fn lemma_escaped_plain(path: Seq<u8>)
    ensures
        plain_uri_text(escaped(path)),
    decreases path.len(),
{
    if path.len() > 0 {
        let front = escaped(path.drop_last());
        let byte = path.last();
        let piece = uri_piece(byte);
        lemma_escaped_plain(path.drop_last());
        lemma_hex_upper_char((byte / 16) as int);
        lemma_hex_upper_char((byte % 16) as int);
        let all = escaped(path);
        assert(all == front + piece);
        assert forall|i: int| 0 <= i < piece.len() implies uri_char(#[trigger] piece[i])
            && (piece[i] == '%' ==> i == 0 && !unreserved(byte)) by {
            if unreserved(byte) {
                assert(piece[i] == byte as char);
            }
        }
        assert forall|i: int| 0 <= i < all.len() implies uri_char(#[trigger] all[i]) by {
            if i >= front.len() {
                assert(all[i] == piece[i - front.len()]);
            }
        }
        assert forall|i: int|
            0 <= i < all.len() && #[trigger] all[i] == '%' implies i + 2 < all.len()
                && upper_hex_char(all[i + 1]) && upper_hex_char(all[i + 2]) by {
            if i >= front.len() {
                assert(all[i] == piece[i - front.len()]);
                assert(all[i + 1] == piece[1]);
                assert(all[i + 2] == piece[2]);
            } else {
                assert(front[i] == '%');
                assert(all[i + 1] == front[i + 1]);
                assert(all[i + 2] == front[i + 2]);
            }
        }
    }
}

/// A thumbnail's URI is plain text: `file://`, then letters, digits, `-`,
/// `_`, `.`, `~` and `/`, and every other byte of the path as `%` and two
/// upper-case hexadecimal digits. Two paths never share one.
pub proof fn law_a_uri_is_plain_text(path: Seq<u8>, other: Seq<u8>)
    ensures
        file_uri_of(path).take(7) == uri_scheme(),
        plain_uri_text(file_uri_of(path).skip(7)),
        file_uri_of(path) == file_uri_of(other) ==> path == other,
{
    assert(file_uri_of(path).take(7) =~= uri_scheme());
    assert(file_uri_of(path).skip(7) =~= escaped(path));
    lemma_escaped_plain(path);
    if file_uri_of(path) == file_uri_of(other) {
        law_one_uri_one_path(path, other);
    }
}

proof fn lemma_small_char(c: char)
    requires
        (c as u32) < 0x80,
    ensures
        '\0' <= c <= '\u{7f}',
{
    vstd::utf8::char_u32_cast(c, c as u32);
    assert((c as u32) <= 0x7f);
}

proof fn lemma_first_zero_after(key: Seq<u8>, rest: Seq<u8>)
    requires
        forall|i: int| 0 <= i < key.len() ==> key[i] != 0,
    ensures
        first_zero(key + seq![0u8] + rest) == key.len(),
    decreases key.len(),
{
    let whole = key + seq![0u8] + rest;
    if key.len() > 0 {
        assert(whole.drop_first() =~= key.drop_first() + seq![0u8] + rest);
        lemma_first_zero_after(key.drop_first(), rest);
    } else {
        assert(whole[0] == 0);
    }
}

proof fn lemma_bytes_through_chars(bytes: Seq<u8>)
    ensures
        latin1(bytes.map_values(|b: u8| b as char)) == bytes,
{
    let through = latin1(bytes.map_values(|b: u8| b as char));
    assert forall|i: int| 0 <= i < bytes.len() implies #[trigger] through[i] == bytes[i] by {
        let b = bytes[i];
        assert((b as char) as u32 == b as u32);
    }
    assert(through =~= bytes);
}

proof fn lemma_ascii_reads_back(text: Seq<char>)
    requires
        vstd::utf8::is_ascii_chars(text),
    ensures
        text_value(latin1(text)) == text,
{
    vstd::utf8::is_ascii_chars_encode_utf8(text);
    assert(latin1(text) =~= encode_utf8(text));
    vstd::utf8::encode_utf8_valid_utf8(text);
    vstd::utf8::encode_utf8_decode_utf8(text);
}

proof fn lemma_digits_are_ascii(n: nat)
    ensures
        vstd::utf8::is_ascii_chars(decimal_digits(n)),
    decreases n,
{
    if n >= 10 {
        lemma_digits_are_ascii(n / 10);
        let d = digit((n % 10) as int);
        assert(d as u32 == 48 + n % 10);
        assert(vstd::utf8::is_ascii_chars(decimal_digits(n / 10) + seq![d]));
    } else {
        assert(digit(n as int) as u32 == 48 + n);
    }
}

/// A poster reads back as what it was written with: the `tEXt` chunks of a
/// PNG whose header chunk is followed by the two a poster carries give up
/// the modification time and the URI, where the URI is ASCII, as every URI
/// this library makes is.
pub proof fn law_a_poster_reads_back(bytes: Seq<u8>, uri: Seq<char>, stamp: u64)
    requires
        ({
            let chunks = png_chunks_of(bytes);
            &&& chunks.len() > 2
            &&& chunks[0].0 == header_kind()
            &&& chunks[1] == (text_kind(), text_body(poster_texts(uri, stamp)[0]))
            &&& chunks[2] == (text_kind(), text_body(poster_texts(uri, stamp)[1]))
        }),
        vstd::utf8::is_ascii_chars(uri),
    ensures
        png_text_of(bytes, mtime_key()) == Some(decimal_digits(stamp as nat)),
        png_text_of(bytes, uri_key()) == Some(uri),
{
    let chunks = png_chunks_of(bytes);
    let digits = decimal_digits(stamp as nat);
    assert(header_kind() != text_kind()) by {
        assert(header_kind()[0] != text_kind()[0]);
    }
    lemma_bytes_through_chars(mtime_key());
    lemma_bytes_through_chars(uri_key());
    let time_body = latin1(mtime_key().map_values(|b: u8| b as char)) + seq![0u8] + latin1(digits);
    let uri_body = latin1(uri_key().map_values(|b: u8| b as char)) + seq![0u8] + latin1(uri);
    assert(text_body(poster_texts(uri, stamp)[0]) == uri_body);
    assert(text_body(poster_texts(uri, stamp)[1]) == time_body);
    lemma_first_zero_after(mtime_key(), latin1(digits));
    lemma_first_zero_after(uri_key(), latin1(uri));
    assert(time_body.take(12) =~= mtime_key());
    assert(time_body.skip(13) =~= latin1(digits));
    assert(uri_body.take(10) =~= uri_key());
    assert(uri_body.skip(11) =~= latin1(uri));
    lemma_digits_are_ascii(stamp as nat);
    lemma_ascii_reads_back(digits);
    lemma_ascii_reads_back(uri);
    let rest = chunks.drop_first();
    assert(rest[0] == chunks[1]);
    assert(rest.drop_first()[0] == chunks[2]);
    assert(mtime_key() != uri_key()) by {
        assert(mtime_key().len() != uri_key().len());
    }
    assert(text_value(time_body.skip(13)) == digits);
    assert(text_value(uri_body.skip(11)) == uri);
    assert(text_in(chunks, uri_key()) == text_in(rest, uri_key()));
    assert(text_in(rest, uri_key()) == Some(uri));
    assert(text_in(chunks, mtime_key()) == text_in(rest, mtime_key()));
    assert(first_zero(uri_body) == 10);
    assert(uri_body.take(10) != mtime_key());
    assert(text_in(rest, mtime_key()) == text_in(rest.drop_first(), mtime_key()));
    assert(text_in(rest.drop_first(), mtime_key()) == Some(digits));
}

/// A poster this program writes of a film is taken as still good until the
/// film is written again: where the PNG has the chunks `poster_png` promises
/// for the film's URI and time, wherever its texts fit, what `still_good`
/// asks of it is what it was written with. Any film whose path is shorter
/// than half a gigabyte has texts that fit.
pub proof fn law_a_fresh_poster_is_good(bytes: Seq<u8>, film: Seq<u8>, stamp: u64)
    requires
        film.len() <= 0x2000_0000,
        texts_fit(poster_texts(file_uri_of(film), stamp)) ==> {
            let chunks = png_chunks_of(bytes);
            let texts = poster_texts(file_uri_of(film), stamp);
            &&& chunks.len() > 2
            &&& chunks[0].0 == header_kind()
            &&& chunks[1] == (text_kind(), text_body(texts[0]))
            &&& chunks[2] == (text_kind(), text_body(texts[1]))
        },
    ensures
        still_good_of(bytes, stamp, film),
{
    let uri = file_uri_of(film);
    lemma_escaped_len(film);
    lemma_digits_short(stamp as nat);
    let texts = poster_texts(uri, stamp);
    assert(texts_fit(texts)) by {
        assert forall|i: int| 0 <= i < texts.len() implies #[trigger] texts[i].0.len()
            + texts[i].1.len() + 1 < 0x8000_0000 by {
            if i == 0 {
                assert(texts[0].0.len() == 10);
            } else {
                assert(texts[1].0.len() == 12);
            }
        }
    }
    assert forall|i: int| 0 <= i < uri.len() implies '\0' <= #[trigger] uri[i] <= '\u{7f}' by {
        if i >= 7 {
            assert(uri[i] == escaped(film)[i - 7]);
            lemma_small_char(uri[i]);
        } else {
            assert(uri[i] == uri_scheme()[i]);
        }
    }
    law_a_poster_reads_back(bytes, uri, stamp);
}

/// Ten to the power `k`.
spec fn ten_to(k: nat) -> nat
    decreases k,
{
    if k == 0 {
        1
    } else {
        10 * ten_to((k - 1) as nat)
    }
}

/// A number below ten to the `k` is written in at most `k` digits.
proof fn lemma_digits_bound(n: nat, k: nat)
    requires
        k >= 1,
        n < ten_to(k),
    ensures
        decimal_digits(n).len() <= k,
    decreases k,
{
    if n >= 10 {
        assert(ten_to(1) == 10) by {
            reveal_with_fuel(ten_to, 2);
        }
        assert(k >= 2);
        let t = ten_to((k - 1) as nat);
        assert(n / 10 < t) by (nonlinear_arith)
            requires
                n < 10 * t,
                n >= 10,
        ;
        lemma_digits_bound(n / 10, (k - 1) as nat);
    }
}

/// A number is written in at most twenty digits.
proof fn lemma_digits_short(n: nat)
    requires
        n <= u64::MAX,
    ensures
        decimal_digits(n).len() <= 20,
{
    assert(ten_to(20) == 100_000_000_000_000_000_000) by {
        reveal_with_fuel(ten_to, 21);
    }
    lemma_digits_bound(n, 20);
}

} // verus!
