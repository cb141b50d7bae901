//! What the program was asked to do, from its arguments and its keyboard.

use vstd::prelude::*;

use vstd::string::StringSliceAdditionalSpecFns;

use crate::view::Mode;

verus! {

/// What a run of the program does, as its arguments decide.
#[derive(Debug, Clone, Copy, PartialEq, Eq, Structural)]
pub enum Run {
    /// Print the version.
    Version,
    /// Print the usage.
    Help,
    /// List what this machine can be driven with.
    Controllers,
    /// Write one settled frame to the file named by the argument at this
    /// place.
    Shot(usize),
    /// `--shot` with no file after it, which is a mistake to say.
    ShotWithoutFile,
    /// Open the window.
    Window,
}

/// Whether any argument is this word.
pub open spec fn any_is(arguments: Seq<String>, word: Seq<char>) -> bool {
    exists|i: int| 0 <= i < arguments.len() && #[trigger] arguments[i]@ == word
}

/// What the arguments ask for, in the order they are asked about: the
/// version, then the usage, then the controllers, then a shot, and the
/// window where none of those is asked for.
pub open spec fn run_of(
    arguments: Seq<String>,
    version: Seq<char>,
    help: Seq<char>,
    short_help: Seq<char>,
    controllers: Seq<char>,
    shot: Seq<char>,
) -> Run {
    if any_is(arguments, version) {
        Run::Version
    } else if any_is(arguments, help) || any_is(arguments, short_help) {
        Run::Help
    } else if any_is(arguments, controllers) {
        Run::Controllers
    } else if any_is(arguments, shot) {
        let at = choose|i: int|
            0 <= i < arguments.len() && #[trigger] arguments[i]@ == shot && forall|j: int|
                0 <= j < i ==> #[trigger] arguments[j]@ != shot;
        if at + 1 < arguments.len() {
            Run::Shot((at + 1) as usize)
        } else {
            Run::ShotWithoutFile
        }
    } else {
        Run::Window
    }
}

/// Whether two pieces of text are the same.
pub fn same_text(a: &str, b: &str) -> (same: bool)
    ensures
        same == (a@ == b@),
{
    let (x, y) = (a.as_bytes(), b.as_bytes());
    if x.len() != y.len() {
        proof {
            if a@ == b@ {
                assert(a.spec_bytes() == b.spec_bytes());
            }
        }
        return false;
    }
    let mut i: usize = 0;
    while i < x.len()
        invariant
            i <= x@.len(),
            x@.len() == y@.len(),
            x@ == a.spec_bytes(),
            y@ == b.spec_bytes(),
            forall|j: int| 0 <= j < i ==> x@[j] == y@[j],
        decreases x@.len() - i,
    {
        if x[i] != y[i] {
            proof {
                if a@ == b@ {
                    assert(a.spec_bytes() == b.spec_bytes());
                }
            }
            return false;
        }
        i += 1;
    }
    proof {
        assert(x@ =~= y@);
        vstd::utf8::encode_utf8_decode_utf8(a@);
        vstd::utf8::encode_utf8_decode_utf8(b@);
    }
    true
}

/// Where the first argument that is this word stands.
fn position_of(arguments: &[String], word: &str) -> (at: Option<usize>)
    ensures
        match at {
            Some(i) => i < arguments@.len() && arguments@[i as int]@ == word@ && forall|j: int|
                0 <= j < i ==> #[trigger] arguments@[j]@ != word@,
            None => !any_is(arguments@, word@),
        },
{
    let mut i: usize = 0;
    while i < arguments.len()
        invariant
            i <= arguments@.len(),
            forall|j: int| 0 <= j < i ==> #[trigger] arguments@[j]@ != word@,
        decreases arguments@.len() - i,
    {
        if same_text(arguments[i].as_str(), word) {
            return Some(i);
        }
        i += 1;
    }
    None
}

/// What the arguments ask for.
pub fn run_for(arguments: &[String]) -> (run: Run)
    ensures
        run == run_of(
            arguments@,
            "--version"@,
            "--help"@,
            "-h"@,
            "--controllers"@,
            "--shot"@,
        ),
{
    if position_of(arguments, "--version").is_some() {
        return Run::Version;
    }
    if position_of(arguments, "--help").is_some() || position_of(arguments, "-h").is_some() {
        return Run::Help;
    }
    if position_of(arguments, "--controllers").is_some() {
        return Run::Controllers;
    }
    match position_of(arguments, "--shot") {
        Some(at) => {
            proof {
                let shot = "--shot"@;
                let first = choose|i: int|
                    0 <= i < arguments@.len() && #[trigger] arguments@[i]@ == shot && forall|j: int|
                        0 <= j < i ==> #[trigger] arguments@[j]@ != shot;
                assert(arguments@[at as int]@ == shot);
                if first < at {
                    assert(arguments@[first]@ != shot);
                }
                if at < first {
                    assert(arguments@[at as int]@ != shot);
                }
                assert(first == at);
            }
            if at < arguments.len() - 1 {
                Run::Shot(at + 1)
            } else {
                Run::ShotWithoutFile
            }
        },
        None => Run::Window,
    }
}

/// Whether an argument is an option rather than a place.
pub open spec fn is_option(argument: Seq<char>) -> bool {
    argument.len() > 0 && argument[0] == '-'
}

/// The first argument that is not an option: where the program was asked
/// to open, if it was asked at all. Whether there is anything there is the
/// caller's to find out.
pub fn opening(arguments: &[String]) -> (at: Option<usize>)
    ensures
        match at {
            Some(i) => i < arguments@.len() && !is_option(arguments@[i as int]@) && forall|j: int|
                0 <= j < i ==> is_option(#[trigger] arguments@[j]@),
            None => forall|j: int| 0 <= j < arguments@.len() ==> is_option(#[trigger] arguments@[j]@),
        },
{
    let mut i: usize = 0;
    while i < arguments.len()
        invariant
            i <= arguments@.len(),
            forall|j: int| 0 <= j < i ==> is_option(#[trigger] arguments@[j]@),
        decreases arguments@.len() - i,
    {
        let text = arguments[i].as_str();
        let bytes = text.as_bytes();
        let option = bytes.len() > 0 && bytes[0] == 45;
        proof {
            if text@.len() > 0 {
                lemma_first_byte(text@);
            } else {
                assert(bytes@.len() == 0);
            }
        }
        if !option {
            return Some(i);
        }
        i += 1;
    }
    None
}

/// What a letter or digit on the keyboard does, where this program binds it
/// for itself.
#[derive(Debug, Clone, Copy, PartialEq, Eq, Structural)]
pub enum Binding {
    /// Go to this many tenths of the way through the film.
    Part(u32),
    /// The volume up a step, or down.
    Louder,
    Quieter,
    Mute,
    /// Fill the screen, or fit to it.
    Fill,
    FromTheStart,
    RunTheFolder,
    NextSubtitles,
    Info,
    /// The film after, or before.
    NextFilm,
    PreviousFilm,
    BackToGrid,
    OpenFolder,
}

proof fn lemma_first_byte(chars: Seq<char>)
    requires
        chars.len() > 0,
    ensures
        (vstd::utf8::encode_utf8(chars)[0] == 45) == (chars[0] == '-'),
{
    let c = chars[0] as u32;
    let head = vstd::utf8::encode_scalar(c);
    let all = vstd::utf8::encode_utf8(chars);
    assert(all == head + vstd::utf8::encode_utf8(chars.drop_first()));
    assert(head.len() >= 1);
    assert(all[0] == head[0]);
    vstd::utf8::char_u32_cast(chars[0], c);
    if c < 0x80 {
        assert((c & 0x7F) as u8 == c) by (bit_vector)
            requires
                c < 0x80,
        ;
        assert(head[0] == c);
        if c == 45 {
            assert(chars[0] == (45u32 as char));
        }
    } else if c < 0x800 {
        assert(0xC0 | ((c >> 6) & 0x1F) as u8 >= 0xC0) by (bit_vector);
        assert(head[0] >= 0xC0);
    } else if c < 0x1_0000 {
        assert(0xE0 | ((c >> 12) & 0x0F) as u8 >= 0xE0) by (bit_vector);
        assert(head[0] >= 0xE0);
    } else {
        assert(0xF0 | ((c >> 18) & 0x7) as u8 >= 0xF0) by (bit_vector);
        assert(head[0] >= 0xF0);
    }
}

/// What a key does: a digit is a tenth of the way through, and only in a
/// film; the letters are bound everywhere, either case alike.
pub open spec fn binding_of(letter: char, mode: Mode) -> Option<Binding> {
    if '0' <= letter <= '9' {
        if mode == Mode::Player {
            Some(Binding::Part((letter as u32 - 48) as u32))
        } else {
            None
        }
    } else if letter == '+' || letter == '=' {
        Some(Binding::Louder)
    } else if letter == '-' || letter == '_' {
        Some(Binding::Quieter)
    } else if letter == 'm' || letter == 'M' {
        Some(Binding::Mute)
    } else if letter == 'f' || letter == 'F' {
        Some(Binding::Fill)
    } else if letter == 'b' || letter == 'B' {
        Some(Binding::FromTheStart)
    } else if letter == 'r' || letter == 'R' {
        Some(Binding::RunTheFolder)
    } else if letter == 'c' || letter == 'C' {
        Some(Binding::NextSubtitles)
    } else if letter == 'i' || letter == 'I' {
        Some(Binding::Info)
    } else if letter == 'n' || letter == 'N' {
        Some(Binding::NextFilm)
    } else if letter == 'p' || letter == 'P' {
        Some(Binding::PreviousFilm)
    } else if letter == 'g' || letter == 'G' {
        Some(Binding::BackToGrid)
    } else if letter == 'o' || letter == 'O' {
        Some(Binding::OpenFolder)
    } else {
        None
    }
}

/// The letters and digits this program binds for itself, clear of the
/// letters that move the light everywhere else on this desktop.
pub fn binding(letter: char, mode: Mode) -> (bound: Option<Binding>)
    ensures
        bound == binding_of(letter, mode),
{
    if '0' <= letter && letter <= '9' {
        if mode == Mode::Player {
            return Some(Binding::Part(letter as u32 - 48));
        }
        return None;
    }
    match letter {
        '+' | '=' => Some(Binding::Louder),
        '-' | '_' => Some(Binding::Quieter),
        'm' | 'M' => Some(Binding::Mute),
        'f' | 'F' => Some(Binding::Fill),
        'b' | 'B' => Some(Binding::FromTheStart),
        'r' | 'R' => Some(Binding::RunTheFolder),
        'c' | 'C' => Some(Binding::NextSubtitles),
        'i' | 'I' => Some(Binding::Info),
        'n' | 'N' => Some(Binding::NextFilm),
        'p' | 'P' => Some(Binding::PreviousFilm),
        'g' | 'G' => Some(Binding::BackToGrid),
        'o' | 'O' => Some(Binding::OpenFolder),
        _ => None,
    }
}

} // verus!
