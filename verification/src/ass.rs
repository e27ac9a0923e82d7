//! Advanced SubStation Alpha (ASS) and SubRip text: timestamps, dialogue
//! events, the script header, and the tags that SubRip keeps as HTML.
use vstd::prelude::*;
use vstd::utf8::{decode_utf8, valid_utf8};

use crate::ffi::FFIFfmpegService;
use crate::number::{
    lemma_parse_format_int,
    clamp_i64, div_i64, format_int, parse_i64, parse_i64_range, push_int, rem_i64, saturating_add,
    saturating_mul, saturating_sub, tdiv, trem,
};
use crate::text::{
    free_of, lemma_split_once_at, lemma_trim_unchanged, occurs_at,
    chars_of, contains, copy_range, find, find_str, first_in, first_in_from, lemma_find,
    lemma_first_in_from, lemma_first_in_from_at, line_spans, lines, push_all, push_range, push_str, range_eq, replace,
    replace_chars, split_in, split_spans, starts_with_str, contains_str, utf8_text,
    range_contains, range_starts_with, spans_view, split_once_in, splitn_in, splitn_spans,
    starts_with, string_of, strip_prefix, trim, trim_end_in, trim_end_pos, trim_pos,
    trim_start_in, trim_start_pos, CharClass,
};

verus! {

/// A stream's time base: timestamps count units of `numerator / denominator`
/// seconds.
#[derive(Clone, Copy, Debug, PartialEq, Eq, Structural)]
pub struct Rational {
    pub numerator: i32,
    pub denominator: i32,
}

// ---------------------------------------------------------------------------
// Writing timestamps
// ---------------------------------------------------------------------------
/// `timestamp` in units of `1 / unit` seconds before rounding, with the
/// saturating multiplications that the conversion performs.
pub open spec fn scaled_timestamp(timestamp: int, time_base: Rational, unit: int) -> int {
    clamp_i64(clamp_i64(timestamp * time_base.numerator) * unit)
}

/// The dividend of the rounding division: the scaled timestamp moved half a
/// denominator away from zero, saturating.
pub open spec fn rounding_dividend(timestamp: int, time_base: Rational, unit: int) -> int {
    let scaled = scaled_timestamp(timestamp, time_base, unit);
    let half = tdiv(time_base.denominator as int, 2);
    if scaled >= 0 {
        clamp_i64(scaled + half)
    } else {
        clamp_i64(scaled - half)
    }
}

/// Whether the rounding division is defined: a nonzero denominator, and no
/// `i64::MIN / -1`.
pub open spec fn rounding_defined(timestamp: int, time_base: Rational, unit: int) -> bool {
    &&& time_base.denominator != 0
    &&& !(time_base.denominator == -1 && rounding_dividend(timestamp, time_base, unit)
        == i64::MIN)
}

/// `timestamp` in units of `1 / unit` seconds, rounded half away from zero.
pub open spec fn rounded_timestamp(timestamp: int, time_base: Rational, unit: int) -> int {
    tdiv(rounding_dividend(timestamp, time_base, unit), time_base.denominator as int)
}

fn rounded(timestamp: i64, time_base: Rational, unit: i64) -> (r: i64)
    requires
        rounding_defined(timestamp as int, time_base, unit as int),
    ensures
        r == rounded_timestamp(timestamp as int, time_base, unit as int),
{
    let scaled = saturating_mul(saturating_mul(timestamp, time_base.numerator as i64), unit);
    let denominator = time_base.denominator as i64;
    let half = div_i64(denominator, 2);
    let dividend = if scaled >= 0 {
        saturating_add(scaled, half)
    } else {
        saturating_sub(scaled, half)
    };
    div_i64(dividend, denominator)
}

/// Whether `rounded_timestamp` is defined for these arguments.
pub fn rounding_is_defined(timestamp: i64, time_base: Rational, unit: i64) -> (r: bool)
    ensures
        r == rounding_defined(timestamp as int, time_base, unit as int),
{
    if time_base.denominator == 0 {
        return false;
    }
    if time_base.denominator != -1 {
        return true;
    }
    let scaled = saturating_mul(saturating_mul(timestamp, time_base.numerator as i64), unit);
    let half = div_i64(-1, 2);
    let dividend = if scaled >= 0 {
        saturating_add(scaled, half)
    } else {
        saturating_sub(scaled, half)
    };
    dividend != i64::MIN
}

/// The ASS form `H:MM:SS.CC` of a number of centiseconds, with Rust's
/// truncating division and remainder for negative values.
pub open spec fn ass_clock(centiseconds: int) -> Seq<char> {
    format_int(tdiv(centiseconds, 360_000), 0) + seq![':'] + format_int(
        trem(tdiv(centiseconds, 6_000), 60),
        2,
    ) + seq![':'] + format_int(trem(tdiv(centiseconds, 100), 60), 2) + seq!['.'] + format_int(
        trem(centiseconds, 100),
        2,
    )
}

/// The SubRip form `HH:MM:SS,mmm` of a number of milliseconds.
pub open spec fn srt_clock(milliseconds: int) -> Seq<char> {
    format_int(tdiv(milliseconds, 3_600_000), 2) + seq![':'] + format_int(
        trem(tdiv(milliseconds, 60_000), 60),
        2,
    ) + seq![':'] + format_int(trem(tdiv(milliseconds, 1_000), 60), 2) + seq![','] + format_int(
        trem(milliseconds, 1_000),
        3,
    )
}

/// The ASS text of a timestamp: rounded to the nearest centisecond.
pub open spec fn spec_ass_timestamp(timestamp: int, time_base: Rational) -> Seq<char> {
    ass_clock(rounded_timestamp(timestamp, time_base, 100))
}

/// The SubRip text of a timestamp: rounded to the nearest millisecond and
/// moved one millisecond later, as FFmpeg's SubRip muxer writes it.
pub open spec fn spec_srt_timestamp(timestamp: int, time_base: Rational) -> Seq<char> {
    srt_clock(clamp_i64(rounded_timestamp(timestamp, time_base, 1_000) + 1))
}

/// Appends `ass_clock(centiseconds)` to `out`.
fn push_ass_clock(out: &mut Vec<char>, centiseconds: i64)
    ensures
        final(out)@ == old(out)@ + ass_clock(centiseconds as int),
{
    let hours = div_i64(centiseconds, 360_000);
    let minutes = rem_i64(div_i64(centiseconds, 6_000), 60);
    let seconds = rem_i64(div_i64(centiseconds, 100), 60);
    let fraction = rem_i64(centiseconds, 100);
    push_int(out, hours, 0);
    out.push(':');
    push_int(out, minutes, 2);
    out.push(':');
    push_int(out, seconds, 2);
    out.push('.');
    push_int(out, fraction, 2);
    assert(final(out)@ =~= old(out)@ + ass_clock(centiseconds as int));
}

/// Appends `srt_clock(milliseconds)` to `out`.
fn push_srt_clock(out: &mut Vec<char>, milliseconds: i64)
    ensures
        final(out)@ == old(out)@ + srt_clock(milliseconds as int),
{
    let hours = div_i64(milliseconds, 3_600_000);
    let minutes = rem_i64(div_i64(milliseconds, 60_000), 60);
    let seconds = rem_i64(div_i64(milliseconds, 1_000), 60);
    let fraction = rem_i64(milliseconds, 1_000);
    push_int(out, hours, 2);
    out.push(':');
    push_int(out, minutes, 2);
    out.push(':');
    push_int(out, seconds, 2);
    out.push(',');
    push_int(out, fraction, 3);
    assert(final(out)@ =~= old(out)@ + srt_clock(milliseconds as int));
}

/// Appends the ASS text of `timestamp` to `out`.
pub fn push_ass_timestamp(out: &mut Vec<char>, timestamp: i64, time_base: Rational)
    requires
        rounding_defined(timestamp as int, time_base, 100),
    ensures
        final(out)@ == old(out)@ + spec_ass_timestamp(timestamp as int, time_base),
{
    let centiseconds = rounded(timestamp, time_base, 100);
    push_ass_clock(out, centiseconds);
}

impl FFIFfmpegService {
    /// The ASS text of a timestamp in units of `time_base`, rounded to the
    /// nearest centisecond.
    pub fn ass_timestamp(timestamp: i64, time_base: Rational) -> (r: String)
        requires
            rounding_defined(timestamp as int, time_base, 100),
        ensures
            r@ == spec_ass_timestamp(timestamp as int, time_base),
    {
        let mut out: Vec<char> = Vec::new();
        push_ass_timestamp(&mut out, timestamp, time_base);
        string_of(&out)
    }
}

/// Appends the SubRip text of `timestamp` to `out`.
pub fn push_srt_timestamp(out: &mut Vec<char>, timestamp: i64, time_base: Rational)
    requires
        rounding_defined(timestamp as int, time_base, 1_000),
    ensures
        final(out)@ == old(out)@ + spec_srt_timestamp(timestamp as int, time_base),
{
    let milliseconds = saturating_add(rounded(timestamp, time_base, 1_000), 1);
    push_srt_clock(out, milliseconds);
}

impl FFIFfmpegService {
    /// The SubRip text of a timestamp in units of `time_base`.
    pub fn srt_timestamp(timestamp: i64, time_base: Rational) -> (r: String)
        requires
            rounding_defined(timestamp as int, time_base, 1_000),
        ensures
            r@ == spec_srt_timestamp(timestamp as int, time_base),
    {
        let mut out: Vec<char> = Vec::new();
        push_srt_timestamp(&mut out, timestamp, time_base);
        string_of(&out)
    }
}

// ---------------------------------------------------------------------------
// Reading timestamps
// ---------------------------------------------------------------------------
/// The four numbers of an ASS timestamp `H:MM:SS.CC` once it is trimmed: the
/// text up to the first `:`, to the next `:`, to the first `.` after it, and
/// the rest, each read as an `i64`.
pub open spec fn ass_clock_fields(timestamp: Seq<char>) -> Option<(int, int, int, int)> {
    match split_once_in(trim(timestamp), CharClass::Is(':')) {
        None => None,
        Some((hours, rest)) => match split_once_in(rest, CharClass::Is(':')) {
            None => None,
            Some((minutes, rest)) => match split_once_in(rest, CharClass::Is('.')) {
                None => None,
                Some((seconds, centiseconds)) => {
                    match (
                        parse_i64(hours),
                        parse_i64(minutes),
                        parse_i64(seconds),
                        parse_i64(centiseconds),
                    ) {
                        (Some(h), Some(m), Some(s), Some(c)) => Some((h, m, s, c)),
                        _ => None,
                    }
                },
            },
        },
    }
}

/// The centiseconds of `H:MM:SS.CC`, adding up with saturation.
pub open spec fn total_centiseconds(h: int, m: int, s: int, c: int) -> int {
    clamp_i64(
        clamp_i64(clamp_i64(clamp_i64(h * 360_000) + clamp_i64(m * 6_000)) + clamp_i64(s * 100))
            + c,
    )
}

/// A number of centiseconds as a timestamp in units of `time_base`, rounded
/// half up (toward zero below zero, as Rust's division).
pub open spec fn centiseconds_to_timestamp(total: int, time_base: Rational) -> int {
    tdiv(
        clamp_i64(clamp_i64(total * time_base.denominator) + 50 * time_base.numerator),
        100 * time_base.numerator,
    )
}

pub open spec fn invalid_timestamp_message(timestamp: Seq<char>) -> Seq<char> {
    "ASS 字幕时间格式无效："@ + timestamp
}

/// What reading an ASS timestamp gives: the timestamp in units of
/// `time_base`, or the message of the first check that fails.
pub open spec fn spec_ass_packet_timestamp(timestamp: Seq<char>, time_base: Rational) -> Result<
    int,
    Seq<char>,
> {
    match ass_clock_fields(timestamp) {
        None => Err(invalid_timestamp_message(timestamp)),
        Some((h, m, s, c)) => {
            if m >= 60 || s >= 60 || c >= 100 {
                Err(invalid_timestamp_message(timestamp))
            } else if time_base.numerator <= 0 || time_base.denominator <= 0 {
                Err("ASS 字幕流时间基无效。"@)
            } else {
                Ok(centiseconds_to_timestamp(total_centiseconds(h, m, s, c), time_base))
            }
        },
    }
}

/// Whether `c` is a character of a clock: a digit, `:` or `.`.
pub open spec fn clock_char(c: char) -> bool {
    '0' <= c <= '9' || c == ':' || c == '.'
}

/// Whether `s` is made of the characters of a clock.
pub open spec fn clock_chars(s: Seq<char>) -> bool {
    forall|j: int| 0 <= j < s.len() ==> clock_char(#[trigger] s[j])
}

/// Text made of the characters of a clock holds none of the others.
proof fn lemma_clock_free(s: Seq<char>, x: char)
    requires
        clock_chars(s),
        !clock_char(x),
    ensures
        free_of(s, x),
{
    assert forall|j: int| 0 <= j < s.len() implies s[j] != x by {
        assert(clock_char(s[j]));
    }
}

/// The clock that `ass_clock` writes for a non-negative number of
/// centiseconds reads back as its hours, minutes, seconds and centiseconds.
proof fn lemma_ass_clock_fields(c: int)
    requires
        0 <= c <= i64::MAX,
    ensures
        ass_clock_fields(ass_clock(c)) == Some((c / 360_000, (c / 6_000) % 60, (c / 100) % 60, c % 100)),
        clock_chars(ass_clock(c)),
{
    let h = c / 360_000;
    let m = (c / 6_000) % 60;
    let s = (c / 100) % 60;
    let cc = c % 100;
    assert(tdiv(c, 360_000) == h);
    assert(trem(tdiv(c, 6_000), 60) == m);
    assert(trem(tdiv(c, 100), 60) == s);
    assert(trem(c, 100) == cc);
    let hs = format_int(h, 0);
    let ms = format_int(m, 2);
    let ss = format_int(s, 2);
    let cs = format_int(cc, 2);
    lemma_parse_format_int(h, 0);
    lemma_parse_format_int(m, 2);
    lemma_parse_format_int(s, 2);
    lemma_parse_format_int(cc, 2);
    let rest2 = ss + seq!['.'] + cs;
    let rest1 = ms + seq![':'] + rest2;
    let text = ass_clock(c);
    assert(text =~= hs + seq![':'] + rest1);
    assert('0' <= hs[0] <= '9');
    assert('0' <= cs[cs.len() - 1] <= '9');
    assert(text[0] == hs[0]);
    assert(text.last() == cs[cs.len() - 1]);
    lemma_trim_unchanged(text);
    lemma_split_once_at(hs, ':', rest1, CharClass::Is(':'));
    lemma_split_once_at(ms, ':', rest2, CharClass::Is(':'));
    lemma_split_once_at(ss, '.', cs, CharClass::Is('.'));
    assert forall|j: int| 0 <= j < text.len() implies clock_char(#[trigger] text[j]) by {
        if j < hs.len() {
            assert(text[j] == hs[j]);
        } else if hs.len() < j < hs.len() + 1 + ms.len() {
            assert(text[j] == ms[j - hs.len() - 1]);
        } else if hs.len() + 1 + ms.len() < j < hs.len() + 2 + ms.len() + ss.len() {
            assert(text[j] == ss[j - hs.len() - 2 - ms.len()]);
        } else if hs.len() + 2 + ms.len() + ss.len() < j {
            assert(text[j] == cs[j - hs.len() - 3 - ms.len() - ss.len()]);
        }
    }
}

/// Whether `timestamp` is a whole number of centiseconds in a time base of
/// `1 / (100 k)` seconds, not negative, and small enough to be written and
/// read without saturating.
pub open spec fn whole_centiseconds(timestamp: int, time_base: Rational) -> bool {
    &&& time_base.numerator == 1
    &&& time_base.denominator > 0
    &&& time_base.denominator % 100 == 0
    &&& 0 <= timestamp
    &&& timestamp % (time_base.denominator / 100) == 0
    &&& timestamp * 100 + time_base.denominator <= i64::MAX
}

/// A timestamp that its time base of `1 / (100 k)` seconds holds in whole
/// centiseconds reads back, once written as ASS text, as itself.
pub proof fn lemma_ass_timestamp_roundtrip(timestamp: int, time_base: Rational)
    requires
        whole_centiseconds(timestamp, time_base),
    ensures
        spec_ass_timestamp(timestamp, time_base) == ass_clock(
            timestamp / (time_base.denominator / 100),
        ),
        clock_chars(spec_ass_timestamp(timestamp, time_base)),
        spec_ass_packet_timestamp(spec_ass_timestamp(timestamp, time_base), time_base)
            == Ok::<int, Seq<char>>(timestamp),
{
    let d = time_base.denominator as int;
    let k = d / 100;
    let c = timestamp / k;
    assert(d == 100 * k);
    assert(k > 0);
    assert(timestamp == c * k) by {
        vstd::arithmetic::div_mod::lemma_fundamental_div_mod(timestamp, k);
    }
    assert(c >= 0) by (nonlinear_arith)
        requires
            timestamp == c * k,
            timestamp >= 0,
            k > 0,
    ;
    assert(timestamp * 1 == timestamp);
    assert(scaled_timestamp(timestamp, time_base, 100) == timestamp * 100);
    vstd::arithmetic::div_mod::lemma_fundamental_div_mod_converse(d, 2, 50 * k, 0);
    assert(tdiv(d, 2) == 50 * k);
    assert(rounding_dividend(timestamp, time_base, 100) == timestamp * 100 + 50 * k);
    assert(timestamp * 100 + 50 * k == c * d + 50 * k) by (nonlinear_arith)
        requires
            timestamp == c * k,
            d == 100 * k,
    ;
    assert(c * d + 50 * k == c * d + 50 * k);
    vstd::arithmetic::div_mod::lemma_fundamental_div_mod_converse(c * d + 50 * k, d, c, 50 * k);
    assert(rounded_timestamp(timestamp, time_base, 100) == c);
    assert(c <= timestamp) by (nonlinear_arith)
        requires
            timestamp == c * k,
            c >= 0,
            k >= 1,
    ;
    lemma_ass_clock_fields(c);
    let h = c / 360_000;
    let m = (c / 6_000) % 60;
    let s = (c / 100) % 60;
    let cc = c % 100;
    assert(h * 360_000 + m * 6_000 + s * 100 + cc == c) by {
        vstd::arithmetic::div_mod::lemma_fundamental_div_mod(c, 100);
        vstd::arithmetic::div_mod::lemma_fundamental_div_mod(c / 100, 60);
        vstd::arithmetic::div_mod::lemma_fundamental_div_mod(c / 6_000, 60);
        vstd::arithmetic::div_mod::lemma_div_denominator(c, 100, 60);
        vstd::arithmetic::div_mod::lemma_div_denominator(c, 6_000, 60);
    }
    assert(total_centiseconds(h, m, s, cc) == c);
    assert(c * d == timestamp * 100) by (nonlinear_arith)
        requires
            timestamp == c * k,
            d == 100 * k,
    ;
    vstd::arithmetic::div_mod::lemma_fundamental_div_mod_converse(timestamp * 100 + 50, 100, timestamp, 50);
    assert(centiseconds_to_timestamp(c, time_base) == timestamp);
}

/// The message for an invalid timestamp, quoting it.
fn invalid_timestamp(timestamp: &[char]) -> (r: String)
    ensures
        r@ == invalid_timestamp_message(timestamp@),
{
    let mut out: Vec<char> = Vec::new();
    push_str(&mut out, "ASS 字幕时间格式无效：");
    push_all(&mut out, timestamp);
    string_of(&out)
}

/// The bounds of `split_once_in` applied to `s[lo..hi]`: the position of the
/// separator, if any.
pub fn split_once_pos(s: &[char], k: CharClass, lo: usize, hi: usize) -> (r: Option<usize>)
    requires
        lo <= hi <= s.len(),
    ensures
        match r {
            Some(i) => lo <= i < hi && split_once_in(s@.subrange(lo as int, hi as int), k) == Some(
                (s@.subrange(lo as int, i as int), s@.subrange(i + 1, hi as int)),
            ),
            None => split_once_in(s@.subrange(lo as int, hi as int), k) is None,
        },
{
    let i = first_in(s, k, lo, hi);
    if i < hi {
        assert(s@.subrange(lo as int, hi as int).take(i - lo) =~= s@.subrange(lo as int, i as int));
        assert(s@.subrange(lo as int, hi as int).skip(i - lo + 1) =~= s@.subrange(
            i + 1,
            hi as int,
        ));
        Some(i)
    } else {
        None
    }
}

impl FFIFfmpegService {
    /// Reads an ASS timestamp `H:MM:SS.CC` (surrounding whitespace allowed) as a
    /// timestamp in units of `time_base`.
    pub fn ass_packet_timestamp(timestamp: &[char], time_base: Rational) -> (r: Result<i64, String>)
        ensures
            match r {
                Ok(v) => spec_ass_packet_timestamp(timestamp@, time_base) == Ok::<int, Seq<char>>(
                    v as int,
                ),
                Err(e) => spec_ass_packet_timestamp(timestamp@, time_base) == Err::<int, Seq<char>>(
                    e@,
                ),
            },
    {
        let (lo, hi) = trim_pos(timestamp, 0, timestamp.len());
        assert(timestamp@.subrange(0, timestamp@.len() as int) =~= timestamp@);
        let ghost t = timestamp@.subrange(lo as int, hi as int);
        let first = match split_once_pos(timestamp, CharClass::Is(':'), lo, hi) {
            Some(i) => i,
            None => return Err(invalid_timestamp(timestamp)),
        };
        let second = match split_once_pos(timestamp, CharClass::Is(':'), first + 1, hi) {
            Some(i) => i,
            None => return Err(invalid_timestamp(timestamp)),
        };
        let dot = match split_once_pos(timestamp, CharClass::Is('.'), second + 1, hi) {
            Some(i) => i,
            None => return Err(invalid_timestamp(timestamp)),
        };
        let hours = parse_i64_range(timestamp, lo, first);
        let minutes = parse_i64_range(timestamp, first + 1, second);
        let seconds = parse_i64_range(timestamp, second + 1, dot);
        let centiseconds = parse_i64_range(timestamp, dot + 1, hi);
        let (hours, minutes, seconds, centiseconds) = match (hours, minutes, seconds, centiseconds) {
            (Some(h), Some(m), Some(s), Some(c)) => (h, m, s, c),
            _ => return Err(invalid_timestamp(timestamp)),
        };
        if minutes >= 60 || seconds >= 60 || centiseconds >= 100 {
            return Err(invalid_timestamp(timestamp));
        }
        let total = saturating_add(
            saturating_add(
                saturating_add(saturating_mul(hours, 360_000), saturating_mul(minutes, 6_000)),
                saturating_mul(seconds, 100),
            ),
            centiseconds,
        );
        let numerator = time_base.numerator as i64;
        let denominator = time_base.denominator as i64;
        if numerator <= 0 || denominator <= 0 {
            return Err(string_of(&chars_of("ASS 字幕流时间基无效。")));
        }
        let dividend = saturating_add(saturating_mul(total, denominator), 50 * numerator);
        Ok(div_i64(dividend, 100 * numerator))
    }
}

// ---------------------------------------------------------------------------
// Documents and dialogue events
// ---------------------------------------------------------------------------
/// `pieces` joined with `sep` between them, as `[String]::join`.
pub open spec fn join(pieces: Seq<Seq<char>>, sep: Seq<char>) -> Seq<char>
    decreases pieces.len(),
{
    if pieces.len() == 0 {
        seq![]
    } else if pieces.len() == 1 {
        pieces[0]
    } else {
        join(pieces.drop_last(), sep) + sep + pieces.last()
    }
}

pub proof fn lemma_join_step(pieces: Seq<Seq<char>>, sep: Seq<char>, j: int)
    requires
        0 <= j < pieces.len(),
    ensures
        join(pieces.take(j + 1), sep) == if j == 0 {
            pieces[0]
        } else {
            join(pieces.take(j), sep) + sep + pieces[j]
        },
{
    assert(pieces.take(j + 1).drop_last() =~= pieces.take(j));
}

/// Splits an ASS document into its header (up to the first `Dialogue:`,
/// without the line breaks before it) and its events (from there on).
pub open spec fn spec_ass_document_parts(content: Seq<char>) -> Result<
    (Seq<char>, Seq<char>),
    Seq<char>,
> {
    match find(content, "Dialogue:"@) {
        None => Err("ASS 字幕缺少 Dialogue 事件。"@),
        Some(i) => {
            let header = trim_end_in(content.take(i), CharClass::Either('\r', '\n'));
            if !starts_with(trim_start_in(header, CharClass::Whitespace), "[Script Info]"@)
                || !contains(header, "[Events]"@) {
                Err("ASS 字幕缺少 Script Info 头信息。"@)
            } else {
                Ok((header, content.skip(i)))
            }
        },
    }
}

/// How an ASS document is split: the events start at the first `Dialogue:`,
/// and the header is the text before it with only line breaks taken off its
/// end.
pub proof fn lemma_ass_document_split(content: Seq<char>)
    ensures
        spec_ass_document_parts(content) matches Ok((header, events)) ==> exists|i: int|
            #![trigger content.skip(i)]
            header.len() <= i <= content.len() && events == content.skip(i) && occurs_at(
                content,
                "Dialogue:"@,
                i,
            ) && (forall|j: int| 0 <= j < i ==> !occurs_at(content, "Dialogue:"@, j))
                && header == content.take(header.len() as int) && (forall|p: int|
                header.len() <= p < i ==> #[trigger] content[p] == '\r' || content[p] == '\n'),
{
    lemma_find(content, "Dialogue:"@);
    if let Some(i) = find(content, "Dialogue:"@) {
        let n = crate::text::lemma_trim_end_in(content.take(i), CharClass::Either('\r', '\n'));
        assert(content.take(i).take(n) =~= content.take(n));
        assert forall|p: int| n <= p < i implies #[trigger] content[p] == '\r' || content[p] == '\n' by {
            assert(content.take(i)[p] == content[p]);
        }
        assert(content.skip(i) == content.skip(i));
    }
}

/// The bounds, within `content`, of the header and of the events that
/// `spec_ass_document_parts` gives.
pub fn ass_document_bounds(content: &[char]) -> (r: Result<(usize, usize), String>)
    ensures
        match r {
            Ok((header_end, events_start)) => header_end <= events_start <= content.len()
                && spec_ass_document_parts(content@) == Ok::<_, Seq<char>>(
                (content@.take(header_end as int), content@.skip(events_start as int)),
            ),
            Err(e) => spec_ass_document_parts(content@) == Err::<(Seq<char>, Seq<char>), _>(e@),
        },
{
    let i = match find_str(content, "Dialogue:") {
        Some(i) => i,
        None => return Err(string_of(&chars_of("ASS 字幕缺少 Dialogue 事件。"))),
    };
    proof {
        lemma_find(content@, "Dialogue:"@);
    }
    let e = trim_end_pos(content, CharClass::Either('\r', '\n'), 0, i);
    assert(content@.subrange(0, i as int) =~= content@.take(i as int));
    assert(content@.subrange(0, e as int) =~= content@.take(e as int));
    let b = trim_start_pos(content, CharClass::Whitespace, 0, e);
    if !range_starts_with(content, b, e, "[Script Info]") || !range_contains(
        content,
        0,
        e,
        "[Events]",
    ) {
        return Err(string_of(&chars_of("ASS 字幕缺少 Script Info 头信息。")));
    }
    Ok((e, i))
}

impl FFIFfmpegService {
    /// Splits an ASS document into its header and its events.
    pub fn ass_document_parts(content: &str) -> (r: Result<(&str, &str), String>)
        ensures
            match r {
                Ok((header, events)) => spec_ass_document_parts(content@) == Ok::<_, Seq<char>>(
                    (header@, events@),
                ),
                Err(e) => spec_ass_document_parts(content@) == Err::<(Seq<char>, Seq<char>), _>(e@),
            },
    {
        let c = chars_of(content);
        match ass_document_bounds(&c) {
            Ok((header_end, events_start)) => {
                let header = content.substring_char(0, header_end);
                let events = content.substring_char(events_start, c.len());
                assert(content@.subrange(0, header_end as int) =~= content@.take(header_end as int));
                assert(content@.subrange(events_start as int, c@.len() as int) =~= content@.skip(
                    events_start as int,
                ));
                Ok((header, events))
            },
            Err(e) => Err(e),
        }
    }
}

/// The comma-separated fields of a dialogue event, at most ten: its line
/// ending and any `Dialogue: ` prefix removed.
pub open spec fn dialogue_fields(dialogue: Seq<char>) -> Seq<Seq<char>> {
    let trimmed = trim_end_in(dialogue, CharClass::Either('\r', '\n'));
    let body = match strip_prefix(trimmed, "Dialogue: "@) {
        Some(rest) => rest,
        None => trimmed,
    };
    splitn_in(body, 10, CharClass::Is(','))
}

/// The fields of a dialogue event with its start and end replaced by the
/// packet's times, where it has them.
pub open spec fn timed_fields(dialogue: Seq<char>, pts: int, duration: int, time_base: Rational) -> Seq<
    Seq<char>,
> {
    let fields = dialogue_fields(dialogue);
    if fields.len() >= 3 {
        fields.update(1, spec_ass_timestamp(pts, time_base)).update(
            2,
            spec_ass_timestamp(clamp_i64(pts + duration), time_base),
        )
    } else {
        fields
    }
}

/// A dialogue event with the start and end times of its payload rewritten
/// from the packet's timestamp and duration.
pub open spec fn spec_ass_dialogue(
    dialogue: Seq<char>,
    pts: int,
    duration: int,
    time_base: Rational,
) -> Seq<char> {
    "Dialogue: "@ + join(timed_fields(dialogue, pts, duration, time_base), seq![','])
}

/// Whether the times of `spec_ass_dialogue` can be written: where the event
/// has them, both roundings are defined.
pub open spec fn ass_dialogue_defined(
    dialogue: Seq<char>,
    pts: int,
    duration: int,
    time_base: Rational,
) -> bool {
    dialogue_fields(dialogue).len() >= 3 ==> rounding_defined(pts, time_base, 100)
        && rounding_defined(clamp_i64(pts + duration), time_base, 100)
}

impl FFIFfmpegService {
    /// The dialogue line of a decoded ASS packet, with the start and end fields
    /// set from the packet's timestamp and duration.
    pub fn ass_dialogue(dialogue: &str, pts: i64, duration: i64, time_base: Rational) -> (r: String)
        requires
            ass_dialogue_defined(dialogue@, pts as int, duration as int, time_base),
        ensures
            r@ == spec_ass_dialogue(dialogue@, pts as int, duration as int, time_base),
    {
        let d = chars_of(dialogue);
        let end = trim_end_pos(&d, CharClass::Either('\r', '\n'), 0, d.len());
        assert(d@.subrange(0, d@.len() as int) =~= d@);
        let ghost trimmed = d@.subrange(0, end as int);
        let start = if range_starts_with(&d, 0, end, "Dialogue: ") {
            let p = chars_of("Dialogue: ");
            assert(trimmed.skip(p@.len() as int) =~= d@.subrange(p@.len() as int, end as int));
            p.len()
        } else {
            assert(trimmed =~= d@.subrange(0, end as int));
            0
        };
        let ghost body = d@.subrange(start as int, end as int);
        let fields = splitn_spans(&d, 10, CharClass::Is(','), start, end);
        let ghost pieces = spans_view(d@, fields@);
        let ghost target = if pieces.len() >= 3 {
            pieces.update(1, spec_ass_timestamp(pts as int, time_base)).update(
                2,
                spec_ass_timestamp(clamp_i64(pts + duration), time_base),
            )
        } else {
            pieces
        };
        let end_pts = saturating_add(pts, duration);
        let mut out: Vec<char> = Vec::new();
        push_str(&mut out, "Dialogue: ");
        let ghost prefix = out@;
        let n = fields.len();
        let mut j: usize = 0;
        while j < n
            invariant
                n == fields.len(),
                j <= n,
                pieces == spans_view(d@, fields@),
                crate::text::spans_in(d@, fields@, start as int, end as int),
                end <= d.len(),
                target.len() == n,
                target == if pieces.len() >= 3 {
                    pieces.update(1, spec_ass_timestamp(pts as int, time_base)).update(
                        2,
                        spec_ass_timestamp(clamp_i64(pts + duration), time_base),
                    )
                } else {
                    pieces
                },
                end_pts == clamp_i64(pts + duration),
                n >= 3 ==> rounding_defined(pts as int, time_base, 100) && rounding_defined(
                    end_pts as int,
                    time_base,
                    100,
                ),
                out@ == prefix + join(target.take(j as int), seq![',']),
            decreases n - j,
        {
            proof {
                lemma_join_step(target, seq![','], j as int);
            }
            let ghost before = out@;
            if j > 0 {
                out.push(',');
            }
            if n >= 3 && j == 1 {
                push_ass_timestamp(&mut out, pts, time_base);
            } else if n >= 3 && j == 2 {
                push_ass_timestamp(&mut out, end_pts, time_base);
            } else {
                let span = &fields[j];
                push_range(&mut out, &d, span.lo, span.hi);
            }
            assert(j == 0 ==> join(target.take(0), seq![',']) =~= Seq::<char>::empty());
            assert(out@ =~= prefix + join(target.take(j + 1), seq![',']));
            j = j + 1;
        }
        assert(target.take(n as int) =~= target);
        string_of(&out)
    }
}

/// One packet to write for an edited ASS stream: the dialogue line, its
/// timestamp and its duration.
pub open spec fn packet_view(p: (String, i64, i64)) -> (Seq<char>, int, int) {
    (p.0@, p.1 as int, p.2 as int)
}

pub open spec fn packets_view(v: Seq<(String, i64, i64)>) -> Seq<(Seq<char>, int, int)> {
    v.map_values(|p: (String, i64, i64)| packet_view(p))
}

/// The packet of one `Dialogue:` line: its start and end read as timestamps,
/// the end not before the start.
pub open spec fn spec_ass_packet(line: Seq<char>, time_base: Rational) -> Result<
    (Seq<char>, int, int),
    Seq<char>,
> {
    let fields = splitn_in(line.skip(9), 10, CharClass::Is(','));
    if fields.len() < 3 {
        Err("ASS 字幕事件格式无效："@ + line)
    } else {
        match spec_ass_packet_timestamp(fields[1], time_base) {
            Err(e) => Err(e),
            Ok(pts) => match spec_ass_packet_timestamp(fields[2], time_base) {
                Err(e) => Err(e),
                Ok(end) => if end < pts {
                    Err("ASS 字幕结束时间早于开始时间："@ + line)
                } else {
                    Ok((line, pts, clamp_i64(end - pts)))
                },
            },
        }
    }
}

/// The packets of the `Dialogue:` lines among `lines`, in order, or the
/// first line's error.
pub open spec fn spec_ass_packets_of(lines: Seq<Seq<char>>, time_base: Rational) -> Result<
    Seq<(Seq<char>, int, int)>,
    Seq<char>,
>
    decreases lines.len(),
{
    if lines.len() == 0 {
        Ok(seq![])
    } else {
        let rest = spec_ass_packets_of(lines.drop_last(), time_base);
        let line = lines.last();
        match rest {
            Err(e) => Err(e),
            Ok(packets) => if starts_with(line, "Dialogue:"@) {
                match spec_ass_packet(line, time_base) {
                    Err(e) => Err(e),
                    Ok(p) => Ok(packets.push(p)),
                }
            } else {
                Ok(packets)
            },
        }
    }
}

/// The packets that an ASS document's events become: one per `Dialogue:`
/// line, at least one.
pub open spec fn spec_ass_packets(content: Seq<char>, time_base: Rational) -> Result<
    Seq<(Seq<char>, int, int)>,
    Seq<char>,
> {
    match spec_ass_packets_of(lines(content), time_base) {
        Err(e) => Err(e),
        Ok(packets) => if packets.len() == 0 {
            Err("ASS 字幕不包含 Dialogue 事件。"@)
        } else {
            Ok(packets)
        },
    }
}

/// Once a prefix of the lines fails, the whole fails with the same error.
proof fn lemma_ass_packets_error(lines: Seq<Seq<char>>, k: int, time_base: Rational)
    requires
        0 <= k <= lines.len(),
        spec_ass_packets_of(lines.take(k), time_base) is Err,
    ensures
        spec_ass_packets_of(lines, time_base) == spec_ass_packets_of(lines.take(k), time_base),
    decreases lines.len() - k,
{
    if k < lines.len() {
        assert(lines.take(k + 1).drop_last() =~= lines.take(k));
        lemma_ass_packets_error(lines, k + 1, time_base);
    } else {
        assert(lines.take(k) =~= lines);
    }
}

/// The pieces that `splitn` with at most `n` pieces gives: at least one,
/// none but the last holding the separator, and the last holding none either
/// when there are fewer than `n`.
pub open spec fn splitn_shape(pieces: Seq<Seq<char>>, n: nat, c: char) -> bool {
    &&& 1 <= pieces.len() <= n
    &&& forall|i: int| 0 <= i < pieces.len() - 1 ==> free_of(#[trigger] pieces[i], c)
    &&& pieces.len() < n ==> free_of(pieces.last(), c)
}

proof fn lemma_splitn_shape(s: Seq<char>, n: nat, c: char)
    requires
        n >= 1,
    ensures
        splitn_shape(splitn_in(s, n, CharClass::Is(c)), n, c),
    decreases s.len(),
{
    let k = CharClass::Is(c);
    let p = splitn_in(s, n, k);
    lemma_first_in_from(s, k, 0);
    let i = first_in_from(s, k, 0);
    if n > 1 && i < s.len() {
        let rest = splitn_in(s.skip(i + 1), (n - 1) as nat, k);
        lemma_splitn_shape(s.skip(i + 1), (n - 1) as nat, c);
        assert(p == seq![s.take(i)] + rest);
        assert forall|j: int| 0 <= j < p.len() - 1 implies free_of(#[trigger] p[j], c) by {
            if j == 0 {
                assert forall|m: int| 0 <= m < s.take(i).len() implies s.take(i)[m] != c by {
                    assert(s.take(i)[m] == s[m]);
                }
            } else {
                assert(p[j] == rest[j - 1]);
            }
        }
        assert(p.last() == rest.last());
    }
}

proof fn lemma_join_first(pieces: Seq<Seq<char>>, sep: Seq<char>)
    requires
        pieces.len() >= 2,
    ensures
        join(pieces, sep) == pieces[0] + sep + join(pieces.drop_first(), sep),
    decreases pieces.len(),
{
    if pieces.len() > 2 {
        lemma_join_first(pieces.drop_last(), sep);
        assert(pieces.drop_last().drop_first() =~= pieces.drop_first().drop_last());
        assert(join(pieces, sep) =~= pieces[0] + sep + join(pieces.drop_first(), sep));
    } else {
        assert(pieces.drop_last() =~= seq![pieces[0]]);
        assert(pieces.drop_first() =~= seq![pieces[1]]);
        assert(join(pieces.drop_last(), sep) == pieces[0]);
        assert(join(pieces.drop_first(), sep) == pieces[1]);
        assert(pieces.last() == pieces[1]);
    }
}

proof fn lemma_join_prefix(pieces: Seq<Seq<char>>, x: Seq<char>, sep: Seq<char>)
    requires
        pieces.len() >= 1,
    ensures
        join(pieces.update(0, x + pieces[0]), sep) == x + join(pieces, sep),
    decreases pieces.len(),
{
    let q = pieces.update(0, x + pieces[0]);
    if pieces.len() > 1 {
        lemma_join_prefix(pieces.drop_last(), x, sep);
        assert(q.drop_last() =~= pieces.drop_last().update(0, x + pieces[0]));
        assert(join(q, sep) =~= x + join(pieces, sep));
    }
}

/// Pieces of the shape `splitn` gives, joined with their separator, split
/// back into themselves.
proof fn lemma_splitn_join(pieces: Seq<Seq<char>>, n: nat, c: char)
    requires
        splitn_shape(pieces, n, c),
    ensures
        splitn_in(join(pieces, seq![c]), n, CharClass::Is(c)) == pieces,
    decreases pieces.len(),
{
    let k = CharClass::Is(c);
    let s = join(pieces, seq![c]);
    if pieces.len() == 1 {
        if n > 1 {
            lemma_first_in_from(s, k, 0);
            let i = first_in_from(s, k, 0);
            if i < s.len() {
                assert(free_of(pieces[0], c));
                assert(false);
            }
        }
        assert(seq![s] =~= pieces);
    } else {
        lemma_join_first(pieces, seq![c]);
        let a = pieces[0];
        let rest = pieces.drop_first();
        assert(free_of(a, c));
        assert(splitn_shape(rest, (n - 1) as nat, c)) by {
            assert forall|i: int| 0 <= i < rest.len() - 1 implies free_of(#[trigger] rest[i], c) by {
                assert(rest[i] == pieces[i + 1]);
            }
        }
        lemma_splitn_join(rest, (n - 1) as nat, c);
        assert forall|p: int| 0 <= p < a.len() implies !k.spec_has(#[trigger] s[p]) by {
            assert(s[p] == a[p]);
        }
        assert(s[a.len() as int] == c);
        lemma_first_in_from_at(s, k, 0, a.len() as int);
        assert(s.take(a.len() as int) =~= a);
        assert(s.skip(a.len() as int + 1) =~= join(rest, seq![c]));
        assert(seq![a] + rest =~= pieces);
    }
}

proof fn lemma_trim_end_free(s: Seq<char>, k: CharClass, c: char)
    requires
        free_of(s, c),
    ensures
        free_of(trim_end_in(s, k), c),
    decreases s.len(),
{
    if s.len() > 0 && k.spec_has(s.last()) {
        assert(free_of(s.drop_last(), c)) by {
            assert forall|j: int| 0 <= j < s.drop_last().len() implies s.drop_last()[j] != c by {
                assert(s.drop_last()[j] == s[j]);
            }
        }
        lemma_trim_end_free(s.drop_last(), k, c);
    }
}

proof fn lemma_splitn_free(s: Seq<char>, n: nat, k: CharClass, c: char)
    requires
        free_of(s, c),
    ensures
        forall|i: int| 0 <= i < splitn_in(s, n, k).len() ==> free_of(#[trigger] splitn_in(s, n, k)[i], c),
    decreases s.len(),
{
    let p = splitn_in(s, n, k);
    lemma_first_in_from(s, k, 0);
    let i = first_in_from(s, k, 0);
    if n > 1 && i < s.len() {
        let rest = s.skip(i + 1);
        assert(free_of(rest, c)) by {
            assert forall|j: int| 0 <= j < rest.len() implies rest[j] != c by {
                assert(rest[j] == s[j + i + 1]);
            }
        }
        lemma_splitn_free(rest, (n - 1) as nat, k, c);
        let r = splitn_in(rest, (n - 1) as nat, k);
        assert(p == seq![s.take(i)] + r);
        assert forall|j: int| 0 <= j < p.len() implies free_of(#[trigger] p[j], c) by {
            if j == 0 {
                assert forall|m: int| 0 <= m < s.take(i).len() implies s.take(i)[m] != c by {
                    assert(s.take(i)[m] == s[m]);
                }
            } else {
                assert(p[j] == r[j - 1]);
            }
        }
    }
}

proof fn lemma_join_free(pieces: Seq<Seq<char>>, sep: Seq<char>, c: char)
    requires
        free_of(sep, c),
        forall|i: int| 0 <= i < pieces.len() ==> free_of(#[trigger] pieces[i], c),
    ensures
        free_of(join(pieces, sep), c),
    decreases pieces.len(),
{
    if pieces.len() > 1 {
        let rest = pieces.drop_last();
        assert forall|i: int| 0 <= i < rest.len() implies free_of(#[trigger] rest[i], c) by {
            assert(rest[i] == pieces[i]);
        }
        lemma_join_free(rest, sep, c);
        let a = join(rest, sep);
        let l = pieces.last();
        assert(free_of(l, c)) by {
            assert(pieces[pieces.len() - 1] == l);
        }
        let j = a + sep + l;
        assert forall|m: int| 0 <= m < j.len() implies j[m] != c by {
            if m < a.len() {
                assert(j[m] == a[m]);
            } else if m < a.len() + sep.len() {
                assert(j[m] == sep[m - a.len()]);
            } else {
                assert(j[m] == l[m - a.len() - sep.len()]);
            }
        }
    } else if pieces.len() == 1 {
        assert(pieces[0] == join(pieces, sep));
    }
}

/// The dialogue line written for a packet whose payload holds no `x`, a
/// character of no clock and no comma, holds none either.
proof fn lemma_dialogue_line_free(dialogue: Seq<char>, pts: int, duration: int, time_base: Rational, x: char)
    requires
        free_of(dialogue, x),
        x == '\n' || x == '\r',
        dialogue_fields(dialogue).len() >= 3,
        clock_chars(spec_ass_timestamp(pts, time_base)),
        clock_chars(spec_ass_timestamp(clamp_i64(pts + duration), time_base)),
    ensures
        free_of(spec_ass_dialogue(dialogue, pts, duration, time_base), x),
{
    let k = CharClass::Either('\r', '\n');
    let trimmed = trim_end_in(dialogue, k);
    let prefix = "Dialogue: "@;
    let body = match strip_prefix(trimmed, prefix) {
        Some(rest) => rest,
        None => trimmed,
    };
    lemma_trim_end_free(dialogue, k, x);
    assert(free_of(body, x)) by {
        if strip_prefix(trimmed, prefix) is Some {
            assert forall|j: int| 0 <= j < body.len() implies body[j] != x by {
                assert(body[j] == trimmed[j + prefix.len()]);
            }
        }
    }
    lemma_splitn_free(body, 10, CharClass::Is(','), x);
    lemma_clock_free(spec_ass_timestamp(pts, time_base), x);
    lemma_clock_free(spec_ass_timestamp(clamp_i64(pts + duration), time_base), x);
    let t = timed_fields(dialogue, pts, duration, time_base);
    assert forall|i: int| 0 <= i < t.len() implies free_of(#[trigger] t[i], x) by {
        if i != 1 && i != 2 {
            assert(t[i] == dialogue_fields(dialogue)[i]);
        }
    }
    lemma_join_free(t, seq![','], x);
    let j = join(t, seq![',']);
    let line = spec_ass_dialogue(dialogue, pts, duration, time_base);
    reveal_strlit("Dialogue: ");
    assert(line =~= prefix + j);
    assert forall|m: int| 0 <= m < line.len() implies line[m] != x by {
        if m < 10 {
            assert(line[m] == prefix[m]);
        } else {
            assert(line[m] == j[m - 10]);
        }
    }
}

/// The dialogue line written for a packet without line breaks has none
/// either, and starts with `Dialogue:`.
pub proof fn lemma_dialogue_line(dialogue: Seq<char>, pts: int, duration: int, time_base: Rational)
    requires
        free_of(dialogue, '\n'),
        free_of(dialogue, '\r'),
        dialogue_fields(dialogue).len() >= 3,
        duration >= 0,
        whole_centiseconds(pts, time_base),
        whole_centiseconds(pts + duration, time_base),
    ensures
        free_of(spec_ass_dialogue(dialogue, pts, duration, time_base), '\n'),
        free_of(spec_ass_dialogue(dialogue, pts, duration, time_base), '\r'),
        starts_with(spec_ass_dialogue(dialogue, pts, duration, time_base), "Dialogue:"@),
{
    lemma_ass_timestamp_roundtrip(pts, time_base);
    lemma_ass_timestamp_roundtrip(pts + duration, time_base);
    assert(clamp_i64(pts + duration) == pts + duration);
    lemma_dialogue_line_free(dialogue, pts, duration, time_base, '\n');
    lemma_dialogue_line_free(dialogue, pts, duration, time_base, '\r');
    let line = spec_ass_dialogue(dialogue, pts, duration, time_base);
    reveal_strlit("Dialogue: ");
    reveal_strlit("Dialogue:");
    assert(line.len() >= 10);
    assert(line.subrange(0, 9) =~= "Dialogue:"@);
}

/// A dialogue event written for a packet whose times are whole centiseconds
/// reads back as a packet with the same line, timestamp and duration.
pub proof fn lemma_ass_dialogue_roundtrip(dialogue: Seq<char>, pts: int, duration: int, time_base: Rational)
    requires
        dialogue_fields(dialogue).len() >= 3,
        duration >= 0,
        whole_centiseconds(pts, time_base),
        whole_centiseconds(pts + duration, time_base),
    ensures
        spec_ass_packet(spec_ass_dialogue(dialogue, pts, duration, time_base), time_base) == Ok::<
            _,
            Seq<char>,
        >((spec_ass_dialogue(dialogue, pts, duration, time_base), pts, duration)),
{
    let f = dialogue_fields(dialogue);
    let trimmed = trim_end_in(dialogue, CharClass::Either('\r', '\n'));
    let body = match strip_prefix(trimmed, "Dialogue: "@) {
        Some(rest) => rest,
        None => trimmed,
    };
    lemma_splitn_shape(body, 10, ',');
    assert(clamp_i64(pts + duration) == pts + duration);
    lemma_ass_timestamp_roundtrip(pts, time_base);
    lemma_ass_timestamp_roundtrip(pts + duration, time_base);
    lemma_clock_free(spec_ass_timestamp(pts, time_base), ',');
    lemma_clock_free(spec_ass_timestamp(pts + duration, time_base), ',');
    let t = timed_fields(dialogue, pts, duration, time_base);
    assert(splitn_shape(t, 10, ',')) by {
        assert forall|i: int| 0 <= i < t.len() - 1 implies free_of(#[trigger] t[i], ',') by {
            if i != 1 && i != 2 {
                assert(t[i] == f[i]);
            }
        }
    }
    let u = t.update(0, seq![' '] + t[0]);
    assert(splitn_shape(u, 10, ',')) by {
        assert(free_of(t[0], ','));
        assert forall|i: int| 0 <= i < u.len() - 1 implies free_of(#[trigger] u[i], ',') by {
            if i == 0 {
                assert forall|j: int| 0 <= j < u[0].len() implies u[0][j] != ',' by {
                    if j > 0 {
                        assert(u[0][j] == t[0][j - 1]);
                    }
                }
            } else {
                assert(u[i] == t[i]);
            }
        }
        assert(u.last() == t.last());
    }
    lemma_join_prefix(t, seq![' '], seq![',']);
    lemma_splitn_join(u, 10, ',');
    let line = spec_ass_dialogue(dialogue, pts, duration, time_base);
    assert(line.skip(9) =~= seq![' '] + join(t, seq![','])) by {
        reveal_strlit("Dialogue: ");
    }
    assert(u[1] == spec_ass_timestamp(pts, time_base));
    assert(u[2] == spec_ass_timestamp(pts + duration, time_base));
}

fn message_with_line(message: &str, line: &[char]) -> (r: String)
    ensures
        r@ == message@ + line@,
{
    let mut out = chars_of(message);
    push_all(&mut out, line);
    string_of(&out)
}

fn ass_packet(line: &[char], time_base: Rational) -> (r: Result<(String, i64, i64), String>)
    requires
        starts_with(line@, "Dialogue:"@),
    ensures
        match r {
            Ok(p) => spec_ass_packet(line@, time_base) == Ok::<_, Seq<char>>(packet_view(p)),
            Err(e) => spec_ass_packet(line@, time_base) == Err::<(Seq<char>, int, int), _>(e@),
        },
{
    proof {
        reveal_strlit("Dialogue:");
    }
    assert(line@.subrange(9, line@.len() as int) =~= line@.skip(9));
    let fields = splitn_spans(line, 10, CharClass::Is(','), 9, line.len());
    if fields.len() < 3 {
        return Err(message_with_line("ASS 字幕事件格式无效：", line));
    }
    let start_field = copy_range(line, fields[1].lo, fields[1].hi);
    let end_field = copy_range(line, fields[2].lo, fields[2].hi);
    let pts = match FFIFfmpegService::ass_packet_timestamp(&start_field, time_base) {
        Ok(v) => v,
        Err(e) => return Err(e),
    };
    let end = match FFIFfmpegService::ass_packet_timestamp(&end_field, time_base) {
        Ok(v) => v,
        Err(e) => return Err(e),
    };
    if end < pts {
        return Err(message_with_line("ASS 字幕结束时间早于开始时间：", line));
    }
    Ok((string_of(line), pts, saturating_sub(end, pts)))
}

#[verifier::rlimit(30)]
impl FFIFfmpegService {
    /// The packets to write for the events of an edited ASS stream: for each
    /// `Dialogue:` line, the line, its start as a timestamp in units of
    /// `time_base`, and the time until its end.
    #[verifier::rlimit(40)]
    pub fn ass_packets(content: &str, time_base: Rational) -> (r: Result<Vec<(String, i64, i64)>, String>)
        ensures
            match r {
                Ok(v) => spec_ass_packets(content@, time_base) == Ok::<_, Seq<char>>(packets_view(v@)),
                Err(e) => spec_ass_packets(content@, time_base) == Err::<Seq<(Seq<char>, int, int)>, _>(
                    e@,
                ),
            },
    {
        let c = chars_of(content);
        let spans = line_spans(&c);
        let ghost all = spans_view(c@, spans@);
        let mut packets: Vec<(String, i64, i64)> = Vec::new();
        let mut j: usize = 0;
        assert(all.take(0) =~= Seq::<Seq<char>>::empty());
        assert(packets_view(packets@) =~= Seq::<(Seq<char>, int, int)>::empty());
        while j < spans.len()
            invariant
                j <= spans.len(),
                all == spans_view(c@, spans@),
                all == lines(c@),
                c@ == content@,
                crate::text::spans_in(c@, spans@, 0, c@.len() as int),
                spec_ass_packets_of(all.take(j as int), time_base) == Ok::<_, Seq<char>>(
                    packets_view(packets@),
                ),
            decreases spans.len() - j,
        {
            let line = copy_range(&c, spans[j].lo, spans[j].hi);
            assert(all.take(j + 1).drop_last() =~= all.take(j as int));
            assert(all.take(j + 1).last() == line@);
            if starts_with_str(&line, "Dialogue:") {
                match ass_packet(&line, time_base) {
                    Ok(p) => {
                        let ghost before = packets@;
                        packets.push(p);
                        assert(packets_view(packets@) =~= packets_view(before).push(packet_view(p)));
                    },
                    Err(e) => {
                        proof {
                            lemma_ass_packets_error(all, j + 1, time_base);
                        }
                        assert(all == lines(c@));
                        return Err(e);
                    },
                }
            }
            j = j + 1;
        }
        assert(all.take(spans.len() as int) =~= all);
        assert(all == lines(c@));
        if packets.len() == 0 {
            return Err(string_of(&chars_of("ASS 字幕不包含 Dialogue 事件。")));
        }
        Ok(packets)
    }
}

// ---------------------------------------------------------------------------
// ASS override tags as SubRip HTML
// ---------------------------------------------------------------------------
/// The HTML that one ASS override tag (the text between two backslashes of a
/// `{...}` block) becomes: bold, italic, underline and strike-out toggles,
/// font face and size; other tags become nothing.
pub open spec fn tag_html(tag: Seq<char>) -> Seq<char> {
    if tag == "b1"@ {
        "<b>"@
    } else if tag == "b0"@ {
        "</b>"@
    } else if tag == "i1"@ {
        "<i>"@
    } else if tag == "i0"@ {
        "</i>"@
    } else if tag == "u1"@ {
        "<u>"@
    } else if tag == "u0"@ {
        "</u>"@
    } else if tag == "s1"@ {
        "<s>"@
    } else if tag == "s0"@ {
        "</s>"@
    } else if tag == "fn"@ || tag == "fs"@ {
        "</font>"@
    } else if starts_with(tag, "fn"@) {
        "<font face=\""@ + tag.skip(2) + "\">"@
    } else if starts_with(tag, "fs"@) {
        "<font size=\""@ + tag.skip(2) + "\">"@
    } else {
        seq![]
    }
}

/// The HTML of the non-empty tags among `tags`, in order.
pub open spec fn tags_html(tags: Seq<Seq<char>>) -> Seq<char>
    decreases tags.len(),
{
    if tags.len() == 0 {
        seq![]
    } else if tags.last().len() == 0 {
        tags_html(tags.drop_last())
    } else {
        tags_html(tags.drop_last()) + tag_html(tags.last())
    }
}

/// The text with each `{...}` block replaced by the HTML of its tags. Where a
/// `{` has no `}` after it, the text from the last block on is written out
/// whole and then once more.
pub open spec fn html_from(rem: Seq<char>) -> Seq<char>
    decreases rem.len(),
{
    let ts = first_in_from(rem, CharClass::Is('{'), 0);
    if ts >= rem.len() {
        rem
    } else {
        proof {
            lemma_first_in_from(rem, CharClass::Is('{'), 0);
        }
        let after = rem.skip(ts + 1);
        let te = first_in_from(after, CharClass::Is('}'), 0);
        if te >= after.len() {
            rem.take(ts) + rem.skip(ts) + rem
        } else {
            proof {
                lemma_first_in_from(after, CharClass::Is('}'), 0);
            }
            rem.take(ts) + tags_html(split_in(after.take(te), CharClass::Is('\\'))) + html_from(
                after.skip(te + 1),
            )
        }
    }
}

/// The text of an ASS dialogue payload: its tenth comma-separated field once
/// trailing line breaks are removed, or the payload as it is when it has no
/// such field.
pub open spec fn dialogue_text(dialogue: Seq<char>) -> Seq<char> {
    let fields = splitn_in(
        trim_end_in(dialogue, CharClass::Either('\r', '\n')),
        10,
        CharClass::Is(','),
    );
    if fields.len() > 9 {
        fields[9]
    } else {
        dialogue
    }
}

/// The SubRip text of an ASS dialogue payload: the tags as HTML, and `\N`
/// and `\n` as line breaks.
pub open spec fn spec_ass_text_as_html(dialogue: Seq<char>) -> Seq<char> {
    replace(replace(html_from(dialogue_text(dialogue)), "\\N"@, "\n"@), "\\n"@, "\n"@)
}

/// Appends the HTML of one tag, `s[lo..hi]`, to `out`.
fn push_tag_html(out: &mut Vec<char>, s: &[char], lo: usize, hi: usize)
    requires
        lo <= hi <= s.len(),
    ensures
        final(out)@ == old(out)@ + tag_html(s@.subrange(lo as int, hi as int)),
{
    let ghost tag = s@.subrange(lo as int, hi as int);
    if range_eq(s, lo, hi, "b1") {
        push_str(out, "<b>");
    } else if range_eq(s, lo, hi, "b0") {
        push_str(out, "</b>");
    } else if range_eq(s, lo, hi, "i1") {
        push_str(out, "<i>");
    } else if range_eq(s, lo, hi, "i0") {
        push_str(out, "</i>");
    } else if range_eq(s, lo, hi, "u1") {
        push_str(out, "<u>");
    } else if range_eq(s, lo, hi, "u0") {
        push_str(out, "</u>");
    } else if range_eq(s, lo, hi, "s1") {
        push_str(out, "<s>");
    } else if range_eq(s, lo, hi, "s0") {
        push_str(out, "</s>");
    } else if range_eq(s, lo, hi, "fn") || range_eq(s, lo, hi, "fs") {
        push_str(out, "</font>");
    } else if range_starts_with(s, lo, hi, "fn") {
        proof {
            reveal_strlit("fn");
        }
        push_str(out, "<font face=\"");
        push_range(out, s, lo + 2, hi);
        push_str(out, "\">");
        assert(tag.skip(2) =~= s@.subrange(lo + 2, hi as int));
    } else if range_starts_with(s, lo, hi, "fs") {
        proof {
            reveal_strlit("fs");
        }
        push_str(out, "<font size=\"");
        push_range(out, s, lo + 2, hi);
        push_str(out, "\">");
        assert(tag.skip(2) =~= s@.subrange(lo + 2, hi as int));
    } else {
        assert(out@ =~= old(out)@ + Seq::<char>::empty());
    }
}

/// Appends the HTML of the text `s[lo..hi]` to `out`.
fn push_html(out: &mut Vec<char>, s: &[char], lo: usize, hi: usize)
    requires
        lo <= hi <= s.len(),
    ensures
        final(out)@ == old(out)@ + html_from(s@.subrange(lo as int, hi as int)),
{
    let ghost whole = s@.subrange(lo as int, hi as int);
    let mut pos: usize = lo;
    loop
        invariant
            lo <= pos <= hi <= s.len(),
            whole == s@.subrange(lo as int, hi as int),
            out@ + html_from(s@.subrange(pos as int, hi as int)) == old(out)@ + html_from(whole),
        decreases hi - pos,
    {
        let ghost rem = s@.subrange(pos as int, hi as int);
        let ghost before = out@;
        let ts = first_in(s, CharClass::Is('{'), pos, hi);
        if ts >= hi {
            push_range(out, s, pos, hi);
            return;
        }
        let te = first_in(s, CharClass::Is('}'), ts + 1, hi);
        assert(rem.skip(ts - pos + 1) =~= s@.subrange(ts + 1, hi as int));
        if te >= hi {
            push_range(out, s, pos, ts);
            push_range(out, s, ts, hi);
            push_range(out, s, pos, hi);
            assert(rem.take(ts - pos) =~= s@.subrange(pos as int, ts as int));
            assert(rem.skip(ts - pos) =~= s@.subrange(ts as int, hi as int));
            assert(out@ =~= before + html_from(rem));
            return;
        }
        push_range(out, s, pos, ts);
        let tags = split_spans(s, CharClass::Is('\\'), ts + 1, te);
        let ghost tag_texts = spans_view(s@, tags@);
        let ghost after = rem.skip(ts - pos + 1);
        assert(after.take(te - ts - 1) =~= s@.subrange(ts + 1, te as int));
        assert(after.skip(te - ts) =~= s@.subrange(te + 1, hi as int));
        assert(rem.take(ts - pos) =~= s@.subrange(pos as int, ts as int));
        let ghost mid = out@;
        let mut j: usize = 0;
        while j < tags.len()
            invariant
                j <= tags.len(),
                tag_texts == spans_view(s@, tags@),
                crate::text::spans_in(s@, tags@, ts + 1, te as int),
                te <= s.len(),
                out@ == mid + tags_html(tag_texts.take(j as int)),
            decreases tags.len() - j,
        {
            let span = &tags[j];
            assert(tag_texts.take(j + 1).drop_last() =~= tag_texts.take(j as int));
            if span.lo < span.hi {
                push_tag_html(out, s, span.lo, span.hi);
            }
            j = j + 1;
        }
        assert(tag_texts.take(tags.len() as int) =~= tag_texts);
        assert(tags_html(tag_texts.take(0)) =~= Seq::<char>::empty());
        pos = te + 1;
        assert(before + html_from(rem) =~= out@ + html_from(s@.subrange(pos as int, hi as int)));
    }
}

impl FFIFfmpegService {
    /// The SubRip text of an ASS dialogue payload: its text field with override
    /// tags as HTML and `\N` and `\n` as line breaks.
    pub fn ass_text_as_html(dialogue: &str) -> (r: String)
        ensures
            r@ == spec_ass_text_as_html(dialogue@),
    {
        let d = chars_of(dialogue);
        let end = trim_end_pos(&d, CharClass::Either('\r', '\n'), 0, d.len());
        assert(d@.subrange(0, d@.len() as int) =~= d@);
        let fields = splitn_spans(&d, 10, CharClass::Is(','), 0, end);
        let (lo, hi) = if fields.len() > 9 {
            (fields[9].lo, fields[9].hi)
        } else {
            (0, d.len())
        };
        let mut html: Vec<char> = Vec::new();
        push_html(&mut html, &d, lo, hi);
        let back_upper = chars_of("\\N");
        let back_lower = chars_of("\\n");
        let newline = chars_of("\n");
        proof {
            reveal_strlit("\\N");
            reveal_strlit("\\n");
        }
        let once = replace_chars(&html, &back_upper, &newline);
        let twice = replace_chars(&once, &back_lower, &newline);
        string_of(&twice)
    }
}

// ---------------------------------------------------------------------------
// The script header of an ASS stream
// ---------------------------------------------------------------------------
/// The `[Script Info]` header that an ASS stream carries as its codec's extra
/// data: empty extra data is no header; otherwise it must be UTF-8, and it
/// keeps its line-ending style, with trailing NULs and line breaks replaced
/// by one line ending.
pub open spec fn spec_ass_header(extradata: Seq<u8>) -> Result<Seq<char>, Seq<char>> {
    if extradata.len() == 0 {
        Err("ASS 字幕流缺少 Script Info 头信息。"@)
    } else if !valid_utf8(extradata) {
        Err("ASS 字幕头不是 UTF-8 文本，暂时无法在编辑器中打开。"@)
    } else {
        let header = decode_utf8(extradata);
        let line_ending = if contains(header, "\r\n"@) {
            "\r\n"@
        } else {
            "\n"@
        };
        Ok(trim_end_in(header, CharClass::OneOf('\0', '\r', '\n')) + line_ending)
    }
}

impl FFIFfmpegService {
    /// The header of an ASS stream from its codec's extra data (empty where the
    /// stream has none).
    pub fn ass_header(extradata: &[u8]) -> (r: Result<String, String>)
        ensures
            match r {
                Ok(h) => spec_ass_header(extradata@) == Ok::<_, Seq<char>>(h@),
                Err(e) => spec_ass_header(extradata@) == Err::<Seq<char>, _>(e@),
            },
    {
        if extradata.len() == 0 {
            return Err(string_of(&chars_of("ASS 字幕流缺少 Script Info 头信息。")));
        }
        let text = match utf8_text(extradata) {
            Some(t) => t,
            None => return Err(string_of(&chars_of("ASS 字幕头不是 UTF-8 文本，暂时无法在编辑器中打开。"))),
        };
        let h = chars_of(text.as_str());
        let crlf = contains_str(&h, "\r\n");
        let end = trim_end_pos(&h, CharClass::OneOf('\0', '\r', '\n'), 0, h.len());
        assert(h@.subrange(0, h@.len() as int) =~= h@);
        let mut out = copy_range(&h, 0, end);
        if crlf {
            push_str(&mut out, "\r\n");
        } else {
            push_str(&mut out, "\n");
        }
        Ok(string_of(&out))
    }
}

} // verus!
