use videonsole::cues::{substation, timed_blocks};

#[test]
fn subrip_is_read() {
    let file = "1\n00:00:01,500 --> 00:00:03,000\nHello\nthere\n\n\
                2\n00:00:04,000 --> 00:00:05,000\nAgain\n";
    let cues = timed_blocks(file);
    assert_eq!(cues.len(), 2);
    assert_eq!(cues[0].from.trim(), "00:00:01,500");
    assert_eq!(cues[0].to, "00:00:03,000");
    assert_eq!(cues[0].text, "Hello\nthere");
    assert_eq!(cues[1].text, "Again");
}

#[test]
fn webvtt_is_the_same_parser() {
    let file = "WEBVTT\n\nNOTE something\n\ncue-1\n\
                00:01.000 --> 00:03.000 line:90% align:center\nWords\n";
    let cues = timed_blocks(file);
    assert_eq!(cues.len(), 1, "{cues:?}");
    assert_eq!(cues[0].from.trim(), "00:01.000");
    assert_eq!(cues[0].to, "00:03.000");
    assert_eq!(cues[0].text, "Words");
}

/// A file with a missing blank line still gives two cues rather than one
/// cue holding the second one's timing as its text.
#[test]
fn a_missing_blank_line_does_not_swallow_the_next_cue() {
    let file = "00:00:01,000 --> 00:00:02,000\nOne\n00:00:03,000 --> 00:00:04,000\nTwo\n";
    let cues = timed_blocks(file);
    assert_eq!(cues.len(), 2);
    assert_eq!(cues[0].text, "One");
    assert_eq!(cues[1].text, "Two");
}

#[test]
fn a_block_with_nothing_to_show_is_not_a_cue() {
    let file = "1\r\n00:00:01,000 --> 00:00:02,000\r\n{\\an8}\r\n\r\n2\r\n00:00:03,000 --> \r\nText\r\n";
    let cues = timed_blocks(file);
    assert_eq!(cues.len(), 1);
    assert_eq!(cues[0].from, "00:00:03,000 ");
    assert_eq!(cues[0].to, " ", "an end with no word is all of what follows the arrow");
    assert_eq!(cues[0].text, "Text");
    assert!(timed_blocks("").is_empty());
    assert!(timed_blocks("just words\nand more").is_empty());
}

#[test]
fn substation_reads_its_fields_off_its_own_format_line() {
    let file = "[Events]\n\
        Format: Layer, Start, End, Style, Name, MarginL, MarginR, MarginV, Effect, Text\n\
        Dialogue: 0,0:00:01.50,0:00:03.00,Default,,0,0,0,,{\\i1}Hello,\\Nthere{\\i0}\n";
    let cues = substation(file);
    assert_eq!(cues.len(), 1);
    assert_eq!(cues[0].from, "0:00:01.50");
    assert_eq!(cues[0].to, "0:00:03.00");
    // The comma inside the text survives, which a fixed field count eats.
    assert_eq!(cues[0].text, "Hello,\nthere");
}

#[test]
fn a_format_line_puts_the_times_where_it_says() {
    let file = "Format: Start, End, Text\n\
        Dialogue: 1:00,2:00,One, two\n\
        Dialogue: too few\n\
        Format: Text, End, Start\n\
        Dialogue: Three,4:00,3:00\n";
    let cues = substation(file);
    assert_eq!(cues.len(), 2);
    assert_eq!((cues[0].from.as_str(), cues[0].to.as_str()), (" 1:00", "2:00"));
    assert_eq!(cues[0].text, "One, two");
    assert_eq!((cues[1].from.as_str(), cues[1].to.as_str()), ("3:00", "4:00"));
    assert_eq!(cues[1].text, "3:00");
}

#[test]
fn without_a_format_line_ten_fields_are_assumed() {
    let file = "Dialogue: 0,0:00:01.00,0:00:02.00,Default,,0,0,0,,Words, with commas\n";
    let cues = substation(file);
    assert_eq!(cues.len(), 1);
    assert_eq!(cues[0].from, "0:00:01.00");
    assert_eq!(cues[0].text, "Words, with commas");
}

use videonsole::cues::read_cues;

#[test]
fn the_ending_says_which_reading_a_file_gets() {
    let ass = "Dialogue: 0,0:00:01.00,0:00:02.00,Default,,0,0,0,,Hi\n";
    assert_eq!(read_cues(ass.as_bytes(), "ASS").len(), 1);
    assert_eq!(read_cues(ass.as_bytes(), "ssa").len(), 1);
    assert!(read_cues(ass.as_bytes(), "srt").is_empty());
    // A SubRip file in Windows-1252 is still read.
    let srt = b"00:00:01,000 --> 00:00:02,000\ncaf\xE9\n";
    let cues = read_cues(srt, "srt");
    assert_eq!(cues.len(), 1);
    assert_eq!(cues[0].text, "café");
}
