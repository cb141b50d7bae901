use videonsole::subtitles::clean;

#[test]
fn overrides_and_tags_come_off_and_the_words_stay() {
    assert_eq!(clean("{\\an8}Up <i>there</i>"), "Up there");
    assert_eq!(clean("a \\N b"), "a\nb");
    // Not every angle bracket is a tag.
    assert_eq!(clean("5 < 6"), "5 < 6");
}

#[test]
fn a_hard_space_is_a_space_and_a_lone_backslash_stays() {
    assert_eq!(clean("a\\hb"), "a b");
    assert_eq!(clean("back\\slash"), "back\\slash");
    assert_eq!(clean("  {unclosed words"), "");
    assert_eq!(clean("line one  \r\n\r\n  line two\n"), "line one\n\nline two");
}

use videonsole::encoding::{decode, utf16, windows_1252};
use videonsole::subtitles::{name_from_parts, name_of};

#[test]
fn a_file_that_is_not_utf8_is_still_read() {
    // `café` in Windows-1252.
    let bytes = [b'c', b'a', b'f', 0xE9];
    assert_eq!(decode(&bytes), "café");
    // And a mark is taken off rather than drawn.
    assert_eq!(decode(&[0xEF, 0xBB, 0xBF, b'a']), "a");
}

#[test]
fn utf8_without_a_mark_is_read_as_it_is() {
    assert_eq!(decode("żółw".as_bytes()), "żółw");
    assert_eq!(decode(b""), "");
}

#[test]
fn a_marked_file_that_is_not_utf8_after_the_mark_shows_replacement_characters() {
    assert_eq!(decode(&[0xEF, 0xBB, 0xBF, b'a', 0xFF, b'b']), "a\u{FFFD}b");
}

#[test]
fn utf16_with_a_mark_is_read_in_either_order() {
    assert_eq!(decode(&[0xFF, 0xFE, b'h', 0, b'i', 0]), "hi");
    assert_eq!(decode(&[0xFE, 0xFF, 0, b'h', 0, b'i']), "hi");
    // A pair of surrogates is one character; a half of one is not.
    assert_eq!(utf16(&[0x3D, 0xD8, 0x00, 0xDE], false), "\u{1F600}");
    assert_eq!(utf16(&[0x3D, 0xD8, b'a', 0], false), "\u{FFFD}a");
    assert_eq!(utf16(&[0x00, 0xDE], false), "\u{FFFD}");
    // A last odd byte makes no unit.
    assert_eq!(utf16(&[b'a', 0, b'b'], false), "a");
}

#[test]
fn windows_1252_differs_from_latin_1_in_thirty_two_places() {
    assert_eq!(windows_1252(0x80), '€');
    assert_eq!(windows_1252(0x9F), 'Ÿ');
    assert_eq!(windows_1252(0x81), '\u{81}');
    assert_eq!(windows_1252(0xE9), 'é');
    assert_eq!(windows_1252(b'a'), 'a');
}

#[test]
fn a_subtitle_is_named_by_what_the_film_does_not_account_for() {
    let film = "/f/The Long Goodbye (1973).mkv";
    assert_eq!(name_of(film, "/f/The Long Goodbye (1973).en.srt"), "en");
    assert_eq!(
        name_of(film, "/f/The Long Goodbye (1973).pl.forced.srt"),
        "pl.forced"
    );
    // Nothing left over: the file's own name is all there is to say.
    assert_eq!(
        name_of(film, "/f/The Long Goodbye (1973).srt"),
        "The Long Goodbye (1973).srt"
    );
}

#[test]
fn the_film_s_name_is_matched_whatever_its_case() {
    assert_eq!(name_from_parts("Beach", "BEACH.en", "BEACH.en.srt"), "en");
    assert_eq!(name_from_parts("beach", "other", "other.srt"), "other.srt");
    assert_eq!(name_from_parts("", "beach.en", "beach.en.srt"), "beach.en.srt");
}

#[test]
fn no_override_is_left_however_it_is_nested() {
    for text in ["{a{b}c}d", "}}x{", "{\\i1}{\\b1}word{\\b0}", "a{b\nc}d", "{"] {
        let cleaned = clean(text);
        assert!(!cleaned.contains('{') && !cleaned.contains('}'), "{text:?} -> {cleaned:?}");
    }
    assert_eq!(clean("{a{b}c}d"), "d");
    assert_eq!(clean("}}x{"), "x");
}

#[test]
fn utf8_is_read_back_as_itself_and_a_mark_is_not_drawn() {
    for text in ["", "plain", "żółw", "\u{1F600} wide"] {
        assert_eq!(decode(text.as_bytes()), text);
        let mut marked = vec![0xEF, 0xBB, 0xBF];
        marked.extend_from_slice(text.as_bytes());
        assert_eq!(decode(&marked), text);
    }
}

use videonsole::subtitles::offered;

#[test]
fn a_subtitle_file_is_offered_by_its_ending_and_the_films_name() {
    let film = "/f/The Long Goodbye (1973).mkv";
    assert!(offered(film, "/f/The Long Goodbye (1973).en.srt"));
    assert!(offered(film, "/f/THE LONG GOODBYE (1973).ASS"), "folded to lower case");
    assert!(!offered(film, "/f/The Long Goodbye (1973).txt"), "not a subtitle ending");
    assert!(!offered(film, "/f/Another film.srt"), "another film's");
    assert!(!offered(film, "/f/.srt"), "a name that is all ending has none");
    assert!(!offered("/", "/f/x.srt"), "a film with no name has nothing beside it");
}

#[test]
fn a_tag_is_passed_over_through_its_own_end_whatever_it_holds() {
    assert_eq!(clean("<font color=\"röd\">Hej</font> då"), "Hej då");
    assert_eq!(clean("a <b>bold</b> word"), "a bold word");
    assert_eq!(clean("1 < 2, and nothing closes"), "1 < 2, and nothing closes");
}

#[test]
fn clean_text_is_trimmed_and_never_longer() {
    for text in ["  {\\an8}  Hello  \\N  there  ", "plain words ", "<i>x</i>\r\n y \r\n"] {
        let out = clean(text);
        assert_eq!(out, out.trim());
        assert!(out.chars().count() <= text.chars().count());
        assert!(!out.contains('{') && !out.contains('}'));
        for line in out.split('\n') {
            assert_eq!(line, line.trim(), "every line is trimmed too");
        }
    }
    assert_eq!(clean("  one  \n  two  "), "one\ntwo", "plain text is its lines trimmed");
}
