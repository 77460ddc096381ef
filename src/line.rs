//! Classifying one physical line of a transcript: the start of a message,
//! a notice of the chat platform itself, or the continuation of a body.
use vstd::prelude::*;
use crate::datetime::{all_digits, is_digit, resolve_timestamp, timestamp_of};
use crate::text::chars_of;

verus! {

/// The first position at or after `i` that holds no digit (or the end).
pub open spec fn digit_end(s: Seq<char>, i: int) -> int
    decreases s.len() - i,
{
    if 0 <= i < s.len() && is_digit(s[i]) {
        digit_end(s, i + 1)
    } else {
        i
    }
}

/// `s` holds a colon followed by a space at `i`.
pub open spec fn separator_at(s: Seq<char>, i: int) -> bool {
    0 <= i && i + 1 < s.len() && s[i] == ':' && s[i + 1] == ' '
}

/// The first position at or after `i` where a colon and a space stand
/// (or the end).
pub open spec fn colon_from(s: Seq<char>, i: int) -> int
    decreases s.len() - i,
{
    if 0 <= i < s.len() && !separator_at(s, i) {
        colon_from(s, i + 1)
    } else {
        i
    }
}

pub open spec fn char_at(s: Seq<char>, i: int, c: char) -> bool {
    0 <= i < s.len() && s[i] == c
}

/// Where the fields of a message line end: the day, month, year, hour and
/// minute digit runs, and the colon that closes the author's name.
#[derive(Clone, Copy)]
pub struct LineMarks {
    pub day_end: usize,
    pub month_end: usize,
    pub year_end: usize,
    pub hour_end: usize,
    pub minute_end: usize,
    pub colon: usize,
}

/// `m` holds the field ends that the digit runs and the first colon of `s` give.
pub open spec fn marks_fit(s: Seq<char>, m: LineMarks) -> bool {
    &&& m.day_end == digit_end(s, 0)
    &&& m.month_end == digit_end(s, m.day_end + 1)
    &&& m.year_end == digit_end(s, m.month_end + 1)
    &&& m.hour_end == digit_end(s, m.year_end + 2)
    &&& m.minute_end == digit_end(s, m.hour_end + 1)
    &&& m.colon == colon_from(s, m.minute_end + 3)
}

/// `s` reads `D/D/Y, H:MM - Author: Text`: day, month and hour of one or two
/// digits, a year of two to four, a minute of exactly two, an author that is
/// not empty and runs to the first `": "`, and a text that is not empty.
pub open spec fn is_message_line(s: Seq<char>) -> bool {
    let d = digit_end(s, 0);
    let mo = digit_end(s, d + 1);
    let y = digit_end(s, mo + 1);
    let h = digit_end(s, y + 2);
    let mi = digit_end(s, h + 1);
    let c = colon_from(s, mi + 3);
    &&& 1 <= d <= 2 && char_at(s, d, '/')
    &&& 1 <= mo - (d + 1) <= 2 && char_at(s, mo, '/')
    &&& 2 <= y - (mo + 1) <= 4 && char_at(s, y, ',') && char_at(s, y + 1, ' ')
    &&& 1 <= h - (y + 2) <= 2 && char_at(s, h, ':')
    &&& mi - (h + 1) == 2 && char_at(s, mi, ' ') && char_at(s, mi + 1, '-') && char_at(s, mi + 2, ' ')
    &&& c > mi + 3 && char_at(s, c, ':') && char_at(s, c + 1, ' ') && c + 2 < s.len()
}

/// The minute's end on a message line.
pub open spec fn minute_end_of(s: Seq<char>) -> int {
    digit_end(s, digit_end(s, digit_end(s, digit_end(s, digit_end(s, 0) + 1) + 1) + 2) + 1)
}

/// The author's name on a message line.
pub open spec fn author_of(s: Seq<char>) -> Seq<char> {
    s.subrange(minute_end_of(s) + 3, colon_from(s, minute_end_of(s) + 3))
}

/// The first line of the message's text on a message line.
pub open spec fn text_of(s: Seq<char>) -> Seq<char> {
    s.subrange(colon_from(s, minute_end_of(s) + 3) + 2, s.len() as int)
}

/// The timestamp written at the head of a message line, if it names a real
/// date and time.
pub open spec fn line_timestamp(s: Seq<char>) -> Option<int> {
    let d = digit_end(s, 0);
    let mo = digit_end(s, d + 1);
    let y = digit_end(s, mo + 1);
    let h = digit_end(s, y + 2);
    let mi = digit_end(s, h + 1);
    timestamp_of(
        s.subrange(0, d),
        s.subrange(d + 1, mo),
        s.subrange(mo + 1, y),
        s.subrange(y + 2, h),
        s.subrange(h + 1, mi),
    )
}

/// `pat` occurs in `s`.
pub open spec fn contains(s: Seq<char>, pat: Seq<char>) -> bool {
    exists|i: int| 0 <= i && i + pat.len() <= s.len() && #[trigger] s.subrange(i, i + pat.len()) == pat
}

/// `s` holds one of the phrases that the chat platform writes of itself.
pub open spec fn is_notice(s: Seq<char>) -> bool {
    ||| contains(s, "los mensajes y llamadas están cifrados"@)
    ||| contains(s, "<Multimedia omitido>"@)
    ||| contains(s, "cambió su número de teléfono"@)
    ||| contains(s, "creó el grupo"@)
    ||| contains(s, "Messages and calls are end-to-end encrypted"@)
    ||| contains(s, "<Media omitted>"@)
    ||| contains(s, "changed their phone number"@)
    ||| contains(s, "created group"@)
}

/// What a line is to the parser.
pub enum LineKind {
    Start { author: Seq<char>, text: Seq<char>, timestamp: int },
    Notice,
    Continuation,
}

/// A line that reads as a message line and names a real date and time starts
/// a message; a message line with no such date continues the message in
/// progress; any other line that holds a notice phrase is a notice; the rest
/// continue the message in progress.
#[verifier::opaque]
pub open spec fn kind_of(s: Seq<char>) -> LineKind {
    if is_message_line(s) && line_timestamp(s) is Some {
        LineKind::Start { author: author_of(s), text: text_of(s), timestamp: line_timestamp(s)->0 }
    } else if is_message_line(s) {
        LineKind::Continuation
    } else if is_notice(s) {
        LineKind::Notice
    } else {
        LineKind::Continuation
    }
}

/// The line `day/month/year, hour:minute - author: text`.
pub open spec fn message_line(
    day: Seq<char>,
    month: Seq<char>,
    year: Seq<char>,
    hour: Seq<char>,
    minute: Seq<char>,
    author: Seq<char>,
    text: Seq<char>,
) -> Seq<char> {
    day + seq!['/'] + month + seq!['/'] + year + seq![',', ' '] + hour + seq![':'] + minute + seq![
        ' ',
        '-',
        ' ',
    ] + author + seq![':', ' '] + text
}

proof fn lemma_digit_run(s: Seq<char>, i: int, j: int)
    requires
        0 <= i <= j <= s.len(),
        forall|k: int| i <= k < j ==> is_digit(#[trigger] s[k]),
        j < s.len() ==> !is_digit(s[j]),
    ensures
        digit_end(s, i) == j,
    decreases j - i,
{
    if i < j {
        lemma_digit_run(s, i + 1, j);
    }
}

proof fn lemma_separator_run(s: Seq<char>, i: int, j: int)
    requires
        0 <= i <= j < s.len(),
        forall|k: int| i <= k < j ==> !separator_at(s, k),
        separator_at(s, j),
    ensures
        colon_from(s, i) == j,
    decreases j - i,
{
    if i < j {
        lemma_separator_run(s, i + 1, j);
    }
}

/// Where the fields of a well-formed message line stand.
#[verifier::rlimit(100)]
proof fn lemma_well_formed_line_fields(
    day: Seq<char>,
    month: Seq<char>,
    year: Seq<char>,
    hour: Seq<char>,
    minute: Seq<char>,
    author: Seq<char>,
    text: Seq<char>,
)
    requires
        all_digits(day) && 1 <= day.len() <= 2,
        all_digits(month) && 1 <= month.len() <= 2,
        all_digits(year) && 2 <= year.len() <= 4,
        all_digits(hour) && 1 <= hour.len() <= 2,
        all_digits(minute) && minute.len() == 2,
        author.len() > 0,
        !contains(author, seq![':', ' ']),
        text.len() > 0,
        timestamp_of(day, month, year, hour, minute) is Some,
    ensures
        is_message_line(message_line(day, month, year, hour, minute, author, text)),
        author_of(message_line(day, month, year, hour, minute, author, text)) == author,
        text_of(message_line(day, month, year, hour, minute, author, text)) == text,
        line_timestamp(message_line(day, month, year, hour, minute, author, text)) == timestamp_of(day, month, year, hour, minute),
{
    let s = message_line(day, month, year, hour, minute, author, text);
    let d = day.len() as int;
    let mo = d + 1 + month.len();
    let y = mo + 1 + year.len();
    let h = y + 2 + hour.len();
    let mi = h + 1 + minute.len();
    let a = mi + 3;
    let c = a + author.len();
    assert(s.len() == c + 2 + text.len());
    assert(s.subrange(0, d) =~= day);
    assert(s.subrange(d + 1, mo) =~= month);
    assert(s.subrange(mo + 1, y) =~= year);
    assert(s.subrange(y + 2, h) =~= hour);
    assert(s.subrange(h + 1, mi) =~= minute);
    assert(s.subrange(a, c) =~= author);
    assert(s.subrange(c + 2, s.len() as int) =~= text);
    assert(s[d] == '/' && s[mo] == '/' && s[y] == ',' && s[y + 1] == ' ' && s[h] == ':');
    assert(s[mi] == ' ' && s[mi + 1] == '-' && s[mi + 2] == ' ' && s[c] == ':' && s[c + 1] == ' ');
    assert forall|k: int| 0 <= k < d implies is_digit(#[trigger] s[k]) by {
        assert(s[k] == s.subrange(0, d)[k]);
    }
    lemma_digit_run(s, 0, d);
    assert forall|k: int| d + 1 <= k < mo implies is_digit(#[trigger] s[k]) by {
        assert(s[k] == s.subrange(d + 1, mo)[k - d - 1]);
    }
    lemma_digit_run(s, d + 1, mo);
    assert forall|k: int| mo + 1 <= k < y implies is_digit(#[trigger] s[k]) by {
        assert(s[k] == s.subrange(mo + 1, y)[k - mo - 1]);
    }
    lemma_digit_run(s, mo + 1, y);
    assert forall|k: int| y + 2 <= k < h implies is_digit(#[trigger] s[k]) by {
        assert(s[k] == s.subrange(y + 2, h)[k - y - 2]);
    }
    lemma_digit_run(s, y + 2, h);
    assert forall|k: int| h + 1 <= k < mi implies is_digit(#[trigger] s[k]) by {
        assert(s[k] == s.subrange(h + 1, mi)[k - h - 1]);
    }
    lemma_digit_run(s, h + 1, mi);
    assert forall|k: int| a <= k < c implies !separator_at(s, k) by {
        if separator_at(s, k) {
            if k + 1 < c {
                assert(author.subrange(k - a, k - a + 2) =~= seq![':', ' ']);
            } else {
                assert(s[k + 1] == ':');
            }
        }
    }
    lemma_separator_run(s, a, c);
}

/// A line written as `day/month/year, hour:minute - author: text`, with digit runs of the
/// lengths the format allows and naming a real date and time, a non-empty
/// author without `": "` and a non-empty text, starts a message by exactly
/// that author, with exactly that text.
pub proof fn lemma_well_formed_line_starts(
    day: Seq<char>,
    month: Seq<char>,
    year: Seq<char>,
    hour: Seq<char>,
    minute: Seq<char>,
    author: Seq<char>,
    text: Seq<char>,
)
    requires
        all_digits(day) && 1 <= day.len() <= 2,
        all_digits(month) && 1 <= month.len() <= 2,
        all_digits(year) && 2 <= year.len() <= 4,
        all_digits(hour) && 1 <= hour.len() <= 2,
        all_digits(minute) && minute.len() == 2,
        author.len() > 0,
        !contains(author, seq![':', ' ']),
        text.len() > 0,
        timestamp_of(day, month, year, hour, minute) is Some,
    ensures
        kind_of(message_line(day, month, year, hour, minute, author, text)) == (LineKind::Start {
            author,
            text,
            timestamp: timestamp_of(day, month, year, hour, minute)->0,
        }),
{
    lemma_well_formed_line_fields(day, month, year, hour, minute, author, text);
    reveal(kind_of);
}

pub proof fn lemma_digit_end(s: Seq<char>, i: int)
    requires
        0 <= i <= s.len(),
    ensures
        i <= digit_end(s, i) <= s.len(),
        all_digits(s.subrange(i, digit_end(s, i))),
    decreases s.len() - i,
{
    if i < s.len() && is_digit(s[i]) {
        lemma_digit_end(s, i + 1);
        let e = digit_end(s, i);
        assert forall|k: int| 0 <= k < e - i implies is_digit(#[trigger] s.subrange(i, e)[k]) by {
            if k > 0 {
                assert(s.subrange(i, e)[k] == s.subrange(i + 1, e)[k - 1]);
            }
        }
    }
}

pub proof fn lemma_colon_from(s: Seq<char>, i: int)
    requires
        0 <= i <= s.len(),
    ensures
        i <= colon_from(s, i) <= s.len(),
    decreases s.len() - i,
{
    if i < s.len() && !separator_at(s, i) {
        lemma_colon_from(s, i + 1);
    }
}

fn find_digit_end(s: &Vec<char>, i: usize) -> (r: usize)
    requires
        i <= s.len(),
    ensures
        r == digit_end(s@, i as int),
        i <= r <= s.len(),
{
    let mut j: usize = i;
    while j < s.len() && '0' <= s[j] && s[j] <= '9'
        invariant
            i <= j <= s.len(),
            digit_end(s@, j as int) == digit_end(s@, i as int),
        decreases s.len() - j,
    {
        j = j + 1;
    }
    j
}

fn find_colon(s: &Vec<char>, i: usize) -> (r: usize)
    requires
        i <= s.len(),
    ensures
        r == colon_from(s@, i as int),
        i <= r <= s.len(),
{
    let mut j: usize = i;
    while j < s.len() && !(s[j] == ':' && j + 1 < s.len() && s[j + 1] == ' ')
        invariant
            i <= j <= s.len(),
            colon_from(s@, j as int) == colon_from(s@, i as int),
        decreases s.len() - j,
    {
        j = j + 1;
    }
    j
}

fn char_is(s: &Vec<char>, i: usize, c: char) -> (r: bool)
    ensures
        r == char_at(s@, i as int, c),
{
    i < s.len() && s[i] == c
}

/// The field ends of `s`, where `s` reads as a message line.
pub fn scan_message_line(s: &Vec<char>) -> (r: Option<LineMarks>)
    ensures
        r is Some <==> is_message_line(s@),
        r matches Some(m) ==> marks_fit(s@, m),
{
    let d = find_digit_end(s, 0);
    if !(1 <= d && d <= 2 && char_is(s, d, '/')) {
        return None;
    }
    let mo = find_digit_end(s, d + 1);
    if !(1 <= mo - (d + 1) && mo - (d + 1) <= 2 && char_is(s, mo, '/')) {
        return None;
    }
    let y = find_digit_end(s, mo + 1);
    if !(2 <= y - (mo + 1) && y - (mo + 1) <= 4 && char_is(s, y, ',') && char_is(s, y + 1, ' ')) {
        return None;
    }
    let h = find_digit_end(s, y + 2);
    if !(1 <= h - (y + 2) && h - (y + 2) <= 2 && char_is(s, h, ':')) {
        return None;
    }
    let mi = find_digit_end(s, h + 1);
    if !(mi - (h + 1) == 2 && char_is(s, mi, ' ') && char_is(s, mi + 1, '-') && char_is(s, mi + 2, ' ')) {
        return None;
    }
    let c = find_colon(s, mi + 3);
    if !(c > mi + 3 && char_is(s, c, ':') && char_is(s, c + 1, ' ') && c + 2 < s.len()) {
        return None;
    }
    Some(LineMarks { day_end: d, month_end: mo, year_end: y, hour_end: h, minute_end: mi, colon: c })
}

/// `pat` occurs in `s` at position `i`.
fn occurs_at(s: &Vec<char>, pat: &Vec<char>, i: usize) -> (r: bool)
    requires
        i + pat.len() <= s.len(),
    ensures
        r == (s@.subrange(i as int, i + pat.len()) == pat@),
{
    let mut k: usize = 0;
    while k < pat.len()
        invariant
            k <= pat.len(),
            i + pat.len() <= s.len(),
            s@.subrange(i as int, i + k) == pat@.take(k as int),
        decreases pat.len() - k,
    {
        if s[i + k] != pat[k] {
            proof {
                assert(s@.subrange(i as int, i + pat.len())[k as int] != pat@[k as int]);
            }
            return false;
        }
        k = k + 1;
        proof {
            assert(s@.subrange(i as int, i + k) =~= pat@.take(k as int));
        }
    }
    proof {
        assert(pat@.take(k as int) =~= pat@);
    }
    true
}

/// Whether `pat` occurs in `s`.
pub fn contains_chars(s: &Vec<char>, pat: &Vec<char>) -> (r: bool)
    ensures
        r == contains(s@, pat@),
{
    if pat.len() > s.len() {
        return false;
    }
    let mut i: usize = 0;
    let last: usize = s.len() - pat.len();
    loop
        invariant
            pat.len() <= s.len(),
            last == s.len() - pat.len(),
            i <= last,
            forall|j: int| 0 <= j < i ==> #[trigger] s@.subrange(j, j + pat.len()) != pat@,
        decreases last - i,
    {
        if occurs_at(s, pat, i) {
            return true;
        }
        if i == last {
            return false;
        }
        i = i + 1;
    }
}

fn holds_phrase(s: &Vec<char>, phrase: &str) -> (r: bool)
    ensures
        r == contains(s@, phrase@),
{
    let pat = chars_of(phrase);
    contains_chars(s, &pat)
}

/// Whether `s` holds one of the phrases that the chat platform writes of itself.
pub fn is_notice_line(s: &Vec<char>) -> (r: bool)
    ensures
        r == is_notice(s@),
{
    holds_phrase(s, "los mensajes y llamadas están cifrados")
        || holds_phrase(s, "<Multimedia omitido>")
        || holds_phrase(s, "cambió su número de teléfono")
        || holds_phrase(s, "creó el grupo")
        || holds_phrase(s, "Messages and calls are end-to-end encrypted")
        || holds_phrase(s, "<Media omitted>")
        || holds_phrase(s, "changed their phone number")
        || holds_phrase(s, "created group")
}

/// What a line is to the parser, with the field ends of a message start.
pub enum LineClass {
    Start { marks: LineMarks, timestamp: i64 },
    Notice,
    Continuation,
}

/// Classifies one line; a message start comes with where its author and
/// text stand and with its timestamp.
pub fn classify_line(s: &Vec<char>) -> (r: LineClass)
    ensures
        kind_of(s@) is Notice ==> r is Notice,
        kind_of(s@) is Continuation ==> r is Continuation,
        kind_of(s@) is Start ==> r is Start,
        r matches LineClass::Start { marks, timestamp } ==> {
            &&& kind_of(s@) == LineKind::Start { author: author_of(s@), text: text_of(s@), timestamp: timestamp as int }
            &&& marks.minute_end + 3 <= marks.colon && marks.colon + 2 <= s.len()
            &&& author_of(s@) == s@.subrange(marks.minute_end + 3, marks.colon as int)
            &&& text_of(s@) == s@.subrange(marks.colon + 2, s.len() as int)
        },
{
    proof {
        reveal(kind_of);
    }
    if let Some(m) = scan_message_line(s) {
        proof {
            let v = s@;
            lemma_digit_end(v, 0);
            lemma_digit_end(v, m.day_end + 1);
            lemma_digit_end(v, m.month_end + 1);
            lemma_digit_end(v, m.year_end + 2);
            lemma_digit_end(v, m.hour_end + 1);
            lemma_colon_from(v, m.minute_end + 3);
        }
        let ts = resolve_timestamp(
            s,
            (0, m.day_end),
            (m.day_end + 1, m.month_end),
            (m.month_end + 1, m.year_end),
            (m.year_end + 2, m.hour_end),
            (m.hour_end + 1, m.minute_end),
        );
        match ts {
            Some(t) => {
                return LineClass::Start { marks: m, timestamp: t };
            },
            None => {
                return LineClass::Continuation;
            },
        }
    }
    if is_notice_line(s) {
        LineClass::Notice
    } else {
        LineClass::Continuation
    }
}

} // verus!
