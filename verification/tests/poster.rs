use videonsole::digest::md5_hex;

/// The published vectors. This names files in a cache everything else on
/// the machine shares, so being one bit different from everybody is being
/// wrong in a way that only shows as every thumbnail being made twice.
#[test]
fn md5_matches_the_published_vectors() {
    assert_eq!(md5_hex(b""), "d41d8cd98f00b204e9800998ecf8427e");
    assert_eq!(md5_hex(b"a"), "0cc175b9c0f1b6a831c399e269772661");
    assert_eq!(md5_hex(b"abc"), "900150983cd24fb0d6963f7d28e17f72");
    assert_eq!(
        md5_hex(b"message digest"),
        "f96b697d7cb7938d525a2f31aaf161d0"
    );
    assert_eq!(
        md5_hex(b"The quick brown fox jumps over the lazy dog"),
        "9e107d9d372bb6826bd81d3542a419d6"
    );
    // Longer than one block, which is where a padding mistake shows.
    assert_eq!(
        md5_hex(
            b"12345678901234567890123456789012345678901234567890\
              123456789012345678901234567890"
        )
        .len(),
        32
    );
}

#[test]
fn md5_of_two_blocks_is_the_published_one() {
    assert_eq!(
        md5_hex(
            b"12345678901234567890123456789012345678901234567890\
              123456789012345678901234567890"
        ),
        "57edf4a22be3c955ac49da2e2107b67a"
    );
}

use videonsole::poster::{
    cache_dir, cached_at, file_uri, fit, picture_png, png_chunks, png_text, poster_png,
    still_good,
};

#[test]
fn a_uri_is_encoded_the_way_the_specification_names_a_file() {
    assert_eq!(
        file_uri("/home/jens/film/me.mkv".as_bytes()),
        "file:///home/jens/film/me.mkv"
    );
    // The case every downloaded film is.
    assert_eq!(
        file_uri("/f/The Long Goodbye.mkv".as_bytes()),
        "file:///f/The%20Long%20Goodbye.mkv"
    );
}

#[test]
fn a_byte_that_is_not_text_is_a_triplet_too() {
    assert_eq!(file_uri(&[b'/', 0xFF, b'~', b'%']), "file:///%FF~%25");
    assert_eq!(file_uri("é".as_bytes()), "file://%C3%A9");
}

#[test]
fn the_longest_edge_is_held_and_nothing_is_enlarged() {
    assert_eq!(fit((1920, 1080), 256), (256, 144));
    assert_eq!(fit((1080, 1920), 256), (144, 256));
    assert_eq!(fit((160, 90), 256), (160, 90), "never enlarged");
    assert_eq!(fit((0, 0), 256), (1, 1));
}

#[test]
fn a_fitted_side_rounds_to_the_nearest_and_is_never_nothing() {
    // 1000 × 256 / 3000 is 85.33…
    assert_eq!(fit((3000, 1000), 256), (256, 85));
    // 2 × 256 / 1024 is a half, which goes up.
    assert_eq!(fit((1024, 2), 256), (256, 1));
    assert_eq!(fit((4000, 1), 256), (256, 1));
}

#[test]
fn the_cache_is_the_one_every_desktop_shares() {
    assert_eq!(
        cache_dir(Some(&b"/tmp/cache"[..]), Some(&b"/home/jens"[..])),
        Some(b"/tmp/cache/thumbnails/large".to_vec())
    );
    // A relative `XDG_CACHE_HOME` is not believed.
    assert_eq!(
        cache_dir(Some(&b"cache"[..]), Some(&b"/home/jens/"[..])),
        Some(b"/home/jens/.cache/thumbnails/large".to_vec())
    );
    assert_eq!(cache_dir(None, None), None);
}

#[test]
fn a_thumbnail_is_named_for_the_md5_of_the_uri() {
    let at = cached_at(b"/c", b"/home/jens/film/me.mkv");
    let uri = file_uri(b"/home/jens/film/me.mkv");
    let expected = format!("/c/{}.png", md5_hex(uri.as_bytes()));
    assert_eq!(at, expected.into_bytes());
}

#[test]
fn a_png_gives_up_the_chunks_it_was_written_with() {
    let png = poster_png(1, 1, &[0, 0, 0, 255], "file:///a", 42).unwrap();
    assert_eq!(png_text(&png, "Thumb::MTime").as_deref(), Some("42"));
    assert_eq!(png_text(&png, "Thumb::URI").as_deref(), Some("file:///a"));
    assert_eq!(png_text(&png, "Nothing::Here"), None);
    // The header comes first, and the end last.
    let chunks = png_chunks(&png);
    assert_eq!(chunks[0].0, b"IHDR");
    assert_eq!(chunks[chunks.len() - 1].0, b"IEND");
}

#[test]
fn a_poster_is_good_while_its_film_is_the_one_it_was_made_of() {
    let png = poster_png(1, 1, &[0, 0, 0, 255], "file:///f/a.mkv", 1700).unwrap();
    assert!(still_good(&png, 1700, b"/f/a.mkv"));
    assert!(!still_good(&png, 1701, b"/f/a.mkv"), "written since");
    assert!(!still_good(&png, 1700, b"/f/b.mkv"), "somebody else's picture");
    let bare = picture_png(1, 1, &[0, 0, 0, 255]).unwrap();
    assert!(!still_good(&bare, 1700, b"/f/a.mkv"), "says nothing about itself");
}

#[test]
fn a_picture_of_the_wrong_size_is_not_written() {
    assert!(picture_png(2, 1, &[0, 0, 0, 255]).is_err());
    assert!(picture_png(0, 0, &[]).is_err());
    assert!(poster_png(1, 1, &[0, 0, 0], "file:///a", 1).is_none());
}

#[test]
fn chunks_stop_where_the_data_does() {
    assert!(png_chunks(&[]).is_empty());
    let mut data = vec![0u8; 8];
    data.extend_from_slice(&[0, 0, 0, 2, b'a', b'b', b'c', b'd', 1, 2, 9, 9, 9, 9]);
    data.extend_from_slice(&[0, 0, 0, 9, b'x', b'y', b'z', b'w', 1]);
    let chunks = png_chunks(&data);
    assert_eq!(chunks.len(), 1);
    assert_eq!(chunks[0], (&b"abcd"[..], &[1u8, 2][..]));
}

#[test]
fn two_paths_are_two_uris() {
    let paths: [&[u8]; 5] = [b"/f/a b", b"/f/a%20b", b"/f/a+b", b"/f/a\xFFb", b"/f/a%FFb"];
    for (i, one) in paths.iter().enumerate() {
        for (j, other) in paths.iter().enumerate() {
            assert_eq!(file_uri(one) == file_uri(other), i == j);
        }
    }
}
