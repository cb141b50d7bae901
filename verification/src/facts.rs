//! Turning what the filesystem and the container know into what a person
//! reads.
//!
//! Small conversions, kept together because each of them is the sort that is
//! written slightly differently in two places and then disagrees: how long a
//! film runs, when it was written, and how big its picture is. What here
//! starts from a number of seconds starts from a whole one; making a whole
//! number of seconds out of what a container declares is the caller's.

use vstd::prelude::*;

use crate::player::count_of;
use crate::text::{decimal_digits, digit, push_decimal, string_from};

verus! {

/// Whether a year of the proleptic Gregorian calendar has a twenty-ninth of
/// February.
pub open spec fn is_leap(year: int) -> bool {
    (year % 4 == 0 && year % 100 != 0) || year % 400 == 0
}

/// How many days a month has, in a given year.
pub open spec fn month_days(year: int, month: int) -> int {
    if month == 2 {
        if is_leap(year) {
            29
        } else {
            28
        }
    } else if month == 4 || month == 6 || month == 9 || month == 11 {
        30
    } else {
        31
    }
}

/// How many days of a year come before the first of a month.
pub open spec fn days_before_month(year: int, month: int) -> int {
    let plain: int = if month <= 1 {
        0
    } else if month == 2 {
        31
    } else if month == 3 {
        59
    } else if month == 4 {
        90
    } else if month == 5 {
        120
    } else if month == 6 {
        151
    } else if month == 7 {
        181
    } else if month == 8 {
        212
    } else if month == 9 {
        243
    } else if month == 10 {
        273
    } else if month == 11 {
        304
    } else {
        334
    };
    if month > 2 && is_leap(year) {
        plain + 1
    } else {
        plain
    }
}

/// How many leap years there are from year one to `year`, counted the way the
/// calendar counts them; for a year before one, the negative of how many
/// there are after it up to nought.
pub open spec fn leaps_through(year: int) -> int {
    year / 4 - year / 100 + year / 400
}

/// How many days from the first of January 1970 to the first of January of
/// `year` — negative for a year before it.
pub open spec fn days_before_year(year: int) -> int {
    365 * (year - 1970) + leaps_through(year - 1) - leaps_through(1969)
}

/// A day of the calendar, as a number of days since the first of January
/// 1970.
pub open spec fn days_from_civil(year: int, month: int, day: int) -> int {
    days_before_year(year) + days_before_month(year, month) + day - 1
}

/// Whether a year, month and day name a day that exists.
pub open spec fn valid_date(year: int, month: int, day: int) -> bool {
    1 <= month <= 12 && 1 <= day <= month_days(year, month)
}

/// Days before the start of year `y` of a four-hundred-year era that begins on
/// the first of March.
spec fn era_days(y: int) -> int {
    365 * y + y / 4 - y / 100 + y / 400
}

#[verifier::rlimit(40)]
proof fn lemma_year_of_era(doe: int)
    requires
        0 <= doe <= 146096,
    ensures
        ({
            let yoe = (doe - doe / 1460 + doe / 36524 - doe / 146096) / 365;
            0 <= yoe <= 399 && era_days(yoe) <= doe < era_days(yoe + 1)
        }),
{
}

/// The length of year `yoe` of an era that begins on the first of March:
/// 366 where the February at its end is a leap one.
proof fn lemma_length_of_shifted_year(era: int, yoe: int)
    requires
        0 <= yoe <= 399,
    ensures
        era_days(yoe + 1) - era_days(yoe) == if is_leap(400 * era + yoe + 1) {
            366int
        } else {
            365int
        },
{
    vstd::arithmetic::div_mod::lemma_mod_multiples_vanish(100 * era, yoe + 1, 4);
    vstd::arithmetic::div_mod::lemma_mod_multiples_vanish(4 * era, yoe + 1, 100);
    vstd::arithmetic::div_mod::lemma_mod_multiples_vanish(era, yoe + 1, 400);
    assert(4 * (100 * era) == 400 * era);
    assert(100 * (4 * era) == 400 * era);
    assert(400 * era + yoe + 1 == 4 * (100 * era) + (yoe + 1));
    assert(400 * era + yoe + 1 == 100 * (4 * era) + (yoe + 1));
}

/// A day of a year that begins on the first of March, as a month and a day.
proof fn lemma_month_and_day(doy: int, year: int)
    requires
        0 <= doy < if is_leap(year) {
            366int
        } else {
            365int
        },
    ensures
        ({
            let mp = (5 * doy + 2) / 153;
            let day = doy - (153 * mp + 2) / 5 + 1;
            let month = if mp < 10 {
                mp + 3
            } else {
                mp - 9
            };
            &&& 0 <= mp <= 11
            &&& 1 <= day <= month_days(year, month)
            &&& 1 <= month <= 12
        }),
{
}

/// Leap years are counted one at a time.
proof fn lemma_leaps_step(year: int)
    ensures
        leaps_through(year) - leaps_through(year - 1) == if is_leap(year) {
            1int
        } else {
            0int
        },
{
    let (f, h, q) = (year % 4 == 0, year % 100 == 0, year % 400 == 0);
    lemma_quotient_step(year, 4);
    lemma_quotient_step(year, 100);
    lemma_quotient_step(year, 400);
    assert(q ==> h) by {
        if q {
            vstd::arithmetic::div_mod::lemma_fundamental_div_mod(year, 400);
            vstd::arithmetic::div_mod::lemma_mod_multiples_basic(4 * (year / 400), 100);
            assert(year == (4 * (year / 400)) * 100);
        }
    }
    assert(h ==> f) by {
        if h {
            vstd::arithmetic::div_mod::lemma_fundamental_div_mod(year, 100);
            vstd::arithmetic::div_mod::lemma_mod_multiples_basic(25 * (year / 100), 4);
            assert(year == (25 * (year / 100)) * 4);
        }
    }
    assert(is_leap(year) == ((f && !h) || q));
}

/// A quotient grows by one exactly where the next number is a multiple.
proof fn lemma_quotient_step(n: int, d: int)
    requires
        d > 0,
    ensures
        n / d - (n - 1) / d == if n % d == 0 {
            1int
        } else {
            0int
        },
{
    vstd::arithmetic::div_mod::lemma_fundamental_div_mod(n, d);
    vstd::arithmetic::div_mod::lemma_mod_bound(n, d);
    let q = n / d;
    let r = n % d;
    assert(n == q * d + r) by (nonlinear_arith)
        requires
            n == d * (n / d) + n % d,
            q == n / d,
            r == n % d,
    ;
    if r == 0 {
        assert(n - 1 == (q - 1) * d + (d - 1)) by (nonlinear_arith)
            requires
                n == q * d + r,
                r == 0,
        ;
        vstd::arithmetic::div_mod::lemma_fundamental_div_mod_converse(n - 1, d, q - 1, d - 1);
    } else {
        vstd::arithmetic::div_mod::lemma_fundamental_div_mod_converse(n - 1, d, q, r - 1);
    }
}

/// An era's days, counted from its first year, are the calendar's.
proof fn lemma_era_days(era: int, yoe: int)
    requires
        0 <= yoe <= 399,
    ensures
        146_097 * era + era_days(yoe) == 365 * (400 * era + yoe) + (400 * era + yoe) / 4 - (400
            * era + yoe) / 100 + (400 * era + yoe) / 400,
{
    assert((400 * era + yoe) / 4 == 100 * era + yoe / 4);
    assert((400 * era + yoe) / 100 == 4 * era + yoe / 100);
    assert((400 * era + yoe) / 400 == era + yoe / 400);
}

/// Hinnant's steps, over the integers, land on the day they started from.
proof fn lemma_civil_steps(days: int, era: int, doe: int, yoe: int, doy: int, mp: int)
    requires
        era == (days + 719_468) / 146_097,
        doe == days + 719_468 - era * 146_097,
        yoe == (doe - doe / 1460 + doe / 36_524 - doe / 146_096) / 365,
        doy == doe - (365 * yoe + yoe / 4 - yoe / 100),
        mp == (5 * doy + 2) / 153,
    ensures
        ({
            let day = doy - (153 * mp + 2) / 5 + 1;
            let month = if mp < 10 {
                mp + 3
            } else {
                mp - 9
            };
            let year = if month <= 2 {
                yoe + era * 400 + 1
            } else {
                yoe + era * 400
            };
            &&& 0 <= doe <= 146_096
            &&& 0 <= yoe <= 399
            &&& 0 <= doy <= 365
            &&& 0 <= mp <= 11
            &&& valid_date(year, month, day)
            &&& days_from_civil(year, month, day) == days
        }),
{
    vstd::arithmetic::div_mod::lemma_fundamental_div_mod(days + 719_468, 146_097);
    assert(0 <= doe <= 146_096);
    lemma_year_of_era(doe);
    lemma_length_of_shifted_year(era, yoe);
    assert(era_days(yoe) == 365 * yoe + yoe / 4 - yoe / 100);
    lemma_month_and_day(doy, 400 * era + yoe + 1);
    lemma_era_days(era, yoe);
    lemma_leaps_step(400 * era + yoe);
    lemma_leaps_step(400 * era + yoe + 1);
}

/// Days since 1970 to a calendar date.
///
/// Howard Hinnant's `civil_from_days`, which is the standard way of doing this
/// without a table: shift the era so that March is the first month and the
/// leap day falls at the end of the cycle, where it stops being a special
/// case.
#[verifier::spinoff_prover]
pub fn civil(days: i64) -> (date: (i64, u32, u32))
    requires
        days <= i64::MAX - 719_468,
    ensures
        valid_date(date.0 as int, date.1 as int, date.2 as int),
        days_from_civil(date.0 as int, date.1 as int, date.2 as int) == days,
{
    let ghost start = days as int;
    let days = days + 719_468;
    let era = if days >= 0 {
        days
    } else {
        days - 146_096
    } / 146_097;
    assert(era == days as int / 146_097);
    let ghost doe = days - era * 146_097;
    proof {
        vstd::arithmetic::div_mod::lemma_fundamental_div_mod(days as int, 146_097);
    }
    let day_of_era = (days - era * 146_097) as u64;
    let year_of_era = (day_of_era - day_of_era / 1460 + day_of_era / 36_524 - day_of_era / 146_096)
        / 365;
    let ghost yoe = year_of_era as int;
    let day_of_year = day_of_era - (365 * year_of_era + year_of_era / 4 - year_of_era / 100);
    let shifted = (5 * day_of_year + 2) / 153;
    proof {
        lemma_civil_steps(start, era as int, doe, yoe, day_of_year as int, shifted as int);
    }
    let year = year_of_era as i64 + era * 400;
    let day = (day_of_year - (153 * shifted + 2) / 5 + 1) as u32;
    let month = if shifted < 10 {
        shifted + 3
    } else {
        shifted - 9
    } as u32;
    (if month <= 2 {
        year + 1
    } else {
        year
    }, month, day)
}

/// Whether a picture's shape is near enough the ordinary one to go by a
/// standard's name: its longer edge at least four thirds of its shorter, as
/// the narrowest television picture is, and at most three times it, as the
/// widest cinema picture is near. A square, or anything near one, is not a
/// film of any standard, and neither is a strip.
pub open spec fn ordinary_shape(width: u32, height: u32) -> bool {
    let (across, down) = if width >= height {
        (width as int, height as int)
    } else {
        (height as int, width as int)
    };
    3 * across >= 4 * down && across <= 3 * down
}

/// The name a picture's size goes by, where its shape is near enough the
/// ordinary one, matched on its longer edge against each standard's own
/// width: letterboxing takes height away and never adds it, and a
/// telephone's portrait recording is a film stood on its end.
pub open spec fn resolution_name(width: u32, height: u32) -> Option<Seq<char>> {
    let across = if width >= height {
        width
    } else {
        height
    };
    if width == 0 || height == 0 || !ordinary_shape(width, height) {
        None
    } else if across >= 7680 {
        Some(seq!['8', 'K'])
    } else if across >= 3840 {
        Some(seq!['4', 'K'])
    } else if across >= 2560 {
        Some(seq!['1', '4', '4', '0', 'p'])
    } else if across >= 1920 {
        Some(seq!['1', '0', '8', '0', 'p'])
    } else if across >= 1280 {
        Some(seq!['7', '2', '0', 'p'])
    } else if across >= 854 {
        Some(seq!['4', '8', '0', 'p'])
    } else {
        None
    }
}

/// The name somebody would use for a picture of this size, where there is
/// one.
pub fn named_resolution(width: u32, height: u32) -> (name: Option<&'static str>)
    ensures
        match name {
            Some(n) => resolution_name(width, height) == Some(n@),
            None => resolution_name(width, height) is None,
        },
{
    if width == 0 || height == 0 {
        return None;
    }
    let (across, down) = if width >= height {
        (width, height)
    } else {
        (height, width)
    };
    if (across as u64) * 3 < (down as u64) * 4 || (across as u64) > (down as u64) * 3 {
        return None;
    }
    if across >= 7680 {
        proof {
            reveal_strlit("8K");
        }
        assert("8K"@ =~= seq!['8', 'K']);
        Some("8K")
    } else if across >= 3840 {
        proof {
            reveal_strlit("4K");
        }
        assert("4K"@ =~= seq!['4', 'K']);
        Some("4K")
    } else if across >= 2560 {
        proof {
            reveal_strlit("1440p");
        }
        assert("1440p"@ =~= seq!['1', '4', '4', '0', 'p']);
        Some("1440p")
    } else if across >= 1920 {
        proof {
            reveal_strlit("1080p");
        }
        assert("1080p"@ =~= seq!['1', '0', '8', '0', 'p']);
        Some("1080p")
    } else if across >= 1280 {
        proof {
            reveal_strlit("720p");
        }
        assert("720p"@ =~= seq!['7', '2', '0', 'p']);
        Some("720p")
    } else if across >= 854 {
        proof {
            reveal_strlit("480p");
        }
        assert("480p"@ =~= seq!['4', '8', '0', 'p']);
        Some("480p")
    } else {
        None
    }
}

/// The standards by name: a picture of ordinary shape goes by the largest
/// standard whose width its longer edge reaches — 8K from 7680, 4K from
/// 3840, 1440p from 2560, 1080p from 1920, 720p from 1280, 480p from 854 —
/// and by none below that; a picture of no ordinary shape, or with nothing
/// across or down, goes by none. Turned on its side a picture keeps its
/// name, a square never has one, and a sixteen-by-nine picture always has
/// an ordinary shape.
pub proof fn law_standard_names(width: u32, height: u32)
    ensures
        ({
            let across = if width >= height {
                width as int
            } else {
                height as int
            };
            let name = resolution_name(width, height);
            &&& (width == 0 || height == 0 || !ordinary_shape(width, height)) ==> name is None
            &&& (width > 0 && height > 0 && ordinary_shape(width, height)) ==> {
                &&& across >= 7680 ==> name == Some(seq!['8', 'K'])
                &&& 3840 <= across < 7680 ==> name == Some(seq!['4', 'K'])
                &&& 2560 <= across < 3840 ==> name == Some(seq!['1', '4', '4', '0', 'p'])
                &&& 1920 <= across < 2560 ==> name == Some(seq!['1', '0', '8', '0', 'p'])
                &&& 1280 <= across < 1920 ==> name == Some(seq!['7', '2', '0', 'p'])
                &&& 854 <= across < 1280 ==> name == Some(seq!['4', '8', '0', 'p'])
                &&& across < 854 ==> name is None
            }
        }),
        resolution_name(width, height) == resolution_name(height, width),
        width > 0 ==> !ordinary_shape(width, width),
        width <= 0x0FFF_FFFFu32 ==> ordinary_shape((16 * width) as u32, (9 * width) as u32),
{
}

/// How many pixels across and down, and the name somebody would use for it.
pub open spec fn picture_text(width: u32, height: u32) -> Seq<char> {
    let plain = decimal_digits(width as nat) + seq![' ', '\u{D7}', ' '] + decimal_digits(
        height as nat,
    );
    match resolution_name(width, height) {
        Some(name) => plain + seq![' ', ' ', '\u{B7}', ' ', ' '] + name,
        None => plain,
    }
}

/// Push the characters of some text.
fn push_all(out: &mut Vec<char>, text: &str)
    ensures
        final(out)@ == old(out)@ + text@,
{
    let chars = crate::text::chars_of(text);
    let mut i: usize = 0;
    let ghost start = out@;
    while i < chars.len()
        invariant
            i <= chars@.len(),
            out@ == start + chars@.take(i as int),
        decreases chars@.len() - i,
    {
        out.push(chars[i]);
        i += 1;
        assert(out@ =~= start + chars@.take(i as int));
    }
    assert(chars@.take(i as int) =~= chars@);
}

/// How many pixels across and down, with the name somebody would use for it.
///
/// The name and not only the number, because *1080p* is what is written on the
/// file, on the box and in the conversation, and `1920 × 1080` is what the
/// decoder happens to have said. Only where the shape is near enough the
/// ordinary one: a 1920×816 letterboxed film is still 1080p to everybody,
/// and a 1920×1920 square is not.
pub fn picture(width: u32, height: u32) -> (text: String)
    ensures
        text@ == picture_text(width, height),
{
    let mut out: Vec<char> = Vec::new();
    push_decimal(&mut out, width as u64);
    out.push(' ');
    out.push('\u{D7}');
    out.push(' ');
    push_decimal(&mut out, height as u64);
    match named_resolution(width, height) {
        Some(name) => {
            out.push(' ');
            out.push(' ');
            out.push('\u{B7}');
            out.push(' ');
            out.push(' ');
            push_all(&mut out, name);
        },
        None => {},
    }
    assert(out@ =~= picture_text(width, height));
    string_from(&out)
}

/// A number below a hundred, as two digits.
pub open spec fn two_digits(n: nat) -> Seq<char> {
    seq![digit((n / 10) as int), digit((n % 10) as int)]
}

/// A position in a film, as a clock reads it, in a shape its length decides:
/// hours, minutes and seconds where the film runs an hour or more, and
/// minutes and seconds otherwise.
pub open spec fn clock_text(whole: nat, longest: nat) -> Seq<char> {
    if longest >= 3600 {
        decimal_digits(whole / 3600) + seq![':'] + two_digits((whole % 3600) / 60) + seq![':']
            + two_digits(whole % 60)
    } else {
        decimal_digits(whole / 60) + seq![':'] + two_digits(whole % 60)
    }
}

fn push_two_digits(out: &mut Vec<char>, n: u64)
    requires
        n < 100,
    ensures
        final(out)@ == old(out)@ + two_digits(n as nat),
{
    out.push((48 + (n / 10) as u8) as char);
    out.push((48 + (n % 10) as u8) as char);
    assert(out@ =~= old(out)@ + two_digits(n as nat));
}

/// A position or a length in a film, as a clock reads it, given as whole
/// seconds along with the whole seconds of the film it is in.
///
/// The width follows the film, not the number: an hour-long film shows
/// `1:04:12` from the first second to the last, and a short one shows `4:12`
/// throughout, so nothing under it moves as the film plays.
pub fn clock_face(whole: u64, longest: u64) -> (text: String)
    ensures
        text@ == clock_text(whole as nat, longest as nat),
{
    let mut out: Vec<char> = Vec::new();
    if longest >= 3600 {
        push_decimal(&mut out, whole / 3600);
        out.push(':');
        push_two_digits(&mut out, (whole % 3600) / 60);
        out.push(':');
        push_two_digits(&mut out, whole % 60);
    } else {
        push_decimal(&mut out, whole / 60);
        out.push(':');
        push_two_digits(&mut out, whole % 60);
    }
    assert(out@ =~= clock_text(whole as nat, longest as nat));
    string_from(&out)
}

/// How long a film runs, said as a person would say it: hours and minutes,
/// or minutes, or seconds for a film under one.
pub open spec fn length_text(whole: nat) -> Seq<char> {
    let (hours, minutes) = (whole / 3600, (whole % 3600) / 60);
    if hours > 0 {
        decimal_digits(hours) + seq![' ', 'h', ' '] + two_digits(minutes) + seq![
            ' ',
            'm',
            'i',
            'n',
        ]
    } else if minutes > 0 {
        decimal_digits(minutes) + seq![' ', 'm', 'i', 'n']
    } else {
        decimal_digits(whole) + seq![' ', 's']
    }
}

/// How long a film runs, given as whole seconds, said as a person would say
/// it rather than as a clock: `1 h 47 min`, not `1:47:03`.
pub fn length_said(whole: u64) -> (text: String)
    ensures
        text@ == length_text(whole as nat),
{
    let (hours, minutes) = (whole / 3600, (whole % 3600) / 60);
    let mut out: Vec<char> = Vec::new();
    if hours > 0 {
        push_decimal(&mut out, hours);
        out.push(' ');
        out.push('h');
        out.push(' ');
        push_two_digits(&mut out, minutes);
        out.push(' ');
        out.push('m');
        out.push('i');
        out.push('n');
    } else if minutes > 0 {
        push_decimal(&mut out, minutes);
        out.push(' ');
        out.push('m');
        out.push('i');
        out.push('n');
    } else {
        push_decimal(&mut out, whole);
        out.push(' ');
        out.push('s');
    }
    assert(out@ =~= length_text(whole as nat));
    string_from(&out)
}

/// When a moment that many seconds after 1970 began falls, in UTC: its year,
/// month and day, and the hour and minute of that day.
pub fn moment(seconds: u64) -> (at: (i64, u32, u32, u32, u32))
    ensures
        valid_date(at.0 as int, at.1 as int, at.2 as int),
        days_from_civil(at.0 as int, at.1 as int, at.2 as int) == seconds / 86_400,
        at.3 == (seconds % 86_400) / 3600,
        at.4 == (seconds % 3600) / 60,
{
    let days = (seconds / 86_400) as i64;
    let rest = seconds % 86_400;
    let (year, month, day) = civil(days);
    assert((rest % 3600) / 60 == (seconds % 3600) / 60) by (nonlinear_arith)
        requires
            rest == seconds % 86_400,
    ;
    (year, month, day, (rest / 3600) as u32, ((rest % 3600) / 60) as u32)
}

/// How many days a year has.
pub open spec fn year_length(year: int) -> int {
    if is_leap(year) {
        366
    } else {
        365
    }
}

#[verifier::spinoff_prover]
proof fn lemma_next_year(year: int)
    ensures
        days_before_year(year + 1) == days_before_year(year) + year_length(year),
{
    assert(leaps_through(year) - leaps_through(year - 1) == if is_leap(year) {
        1int
    } else {
        0int
    });
}

proof fn lemma_years_apart(early: int, late: int)
    requires
        early < late,
    ensures
        days_before_year(early) + year_length(early) <= days_before_year(late),
    decreases late - early,
{
    lemma_next_year(early);
    if early + 1 < late {
        lemma_years_apart(early + 1, late);
        lemma_next_year(early + 1);
    }
}

proof fn lemma_within_year(year: int, month: int, day: int)
    requires
        valid_date(year, month, day),
    ensures
        0 <= days_before_month(year, month) + day - 1 < year_length(year),
{
}

proof fn lemma_months_apart(year: int, early: int, late: int)
    requires
        1 <= early < late <= 12,
    ensures
        days_before_month(year, early) + month_days(year, early) <= days_before_month(year, late),
{
}

/// One day number is one date: two days that exist and fall the same number
/// of days after the first of January 1970 are the same day. With `civil`'s
/// own contract, this is what makes it the inverse of counting days.
pub proof fn law_one_day_one_date(y1: int, m1: int, d1: int, y2: int, m2: int, d2: int)
    requires
        valid_date(y1, m1, d1),
        valid_date(y2, m2, d2),
        days_from_civil(y1, m1, d1) == days_from_civil(y2, m2, d2),
    ensures
        y1 == y2 && m1 == m2 && d1 == d2,
{
    lemma_within_year(y1, m1, d1);
    lemma_within_year(y2, m2, d2);
    if y1 < y2 {
        lemma_years_apart(y1, y2);
    } else if y2 < y1 {
        lemma_years_apart(y2, y1);
    } else {
        if m1 < m2 {
            lemma_months_apart(y1, m1, m2);
        } else if m2 < m1 {
            lemma_months_apart(y1, m2, m1);
        }
    }
}

proof fn lemma_count_joined(a: Seq<char>, b: Seq<char>, c: char)
    ensures
        count_of(a + b, c) == count_of(a, c) + count_of(b, c),
    decreases a.len(),
{
    if a.len() > 0 {
        assert((a + b).drop_first() =~= a.drop_first() + b);
        lemma_count_joined(a.drop_first(), b, c);
    } else {
        assert(a + b =~= b);
    }
}

proof fn lemma_digit_is_no_colon(d: int)
    requires
        0 <= d <= 9,
    ensures
        digit(d) != ':',
        count_of(seq![digit(d)], ':') == 0,
{
    assert((48 + d) as char as u32 == 48 + d);
    assert(seq![digit(d)].drop_first() =~= Seq::<char>::empty());
    assert(count_of(Seq::<char>::empty(), ':') == 0);
}

proof fn lemma_no_colon_in_digits(n: nat)
    ensures
        count_of(decimal_digits(n), ':') == 0,
    decreases n,
{
    if n >= 10 {
        lemma_no_colon_in_digits(n / 10);
        lemma_count_joined(decimal_digits(n / 10), seq![digit((n % 10) as int)], ':');
        lemma_digit_is_no_colon((n % 10) as int);
    } else {
        lemma_digit_is_no_colon(n as int);
    }
}

proof fn lemma_colons_in_pair(n: nat)
    requires
        n < 100,
    ensures
        count_of(two_digits(n), ':') == 0,
        count_of(seq![':'], ':') == 1,
{
    let t = two_digits(n);
    lemma_digit_is_no_colon((n / 10) as int);
    lemma_digit_is_no_colon((n % 10) as int);
    assert(t.drop_first().drop_first() =~= Seq::<char>::empty());
    assert(count_of(Seq::<char>::empty(), ':') == 0);
    assert(count_of(t.drop_first(), ':') == 0);
    assert(seq![':'].drop_first() =~= Seq::<char>::empty());
}

/// A clock's shape follows the film, not the number: every position in a
/// film an hour long or more is written in three fields, and every position
/// in a shorter one in two, so nothing beside the clock moves as it runs.
pub proof fn law_clock_keeps_its_shape(whole: nat, longest: nat)
    ensures
        count_of(clock_text(whole, longest), ':') == if longest >= 3600 {
            2nat
        } else {
            1nat
        },
{
    let colon = seq![':'];
    lemma_colons_in_pair((whole % 3600) / 60);
    lemma_colons_in_pair(whole % 60);
    if longest >= 3600 {
        let h = decimal_digits(whole / 3600);
        let m = two_digits((whole % 3600) / 60);
        let s = two_digits(whole % 60);
        lemma_no_colon_in_digits(whole / 3600);
        lemma_count_joined(h, colon, ':');
        lemma_count_joined(h + colon, m, ':');
        lemma_count_joined(h + colon + m, colon, ':');
        lemma_count_joined(h + colon + m + colon, s, ':');
    } else {
        let m = decimal_digits(whole / 60);
        let s = two_digits(whole % 60);
        lemma_no_colon_in_digits(whole / 60);
        lemma_count_joined(m, colon, ':');
        lemma_count_joined(m + colon, s, ':');
    }
}

} // verus!
