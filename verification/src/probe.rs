//! The FFmpeg command-line back end: what `ffmpeg -i` prints about an input
//! read back as streams, and the checks and arguments of its commands.
use vstd::prelude::*;

use crate::media::{
    canonical_codec_name, editable, media_name, media_streams_view, normalize_srt_line_endings,
    spec_canonical_codec_name, spec_editable, spec_media_name, spec_normalize_srt_line_endings,
    spec_subtitle_specification, subtitle_specification, MediaFile, MediaStream, MediaStreamModel,
    MediaStreamType, SubtitleDocument, SubtitleDocumentModel,
};
use crate::number::{decimal, push_u64};
use crate::media::{spec_subtitle_codec_id, subtitle_codec_id, SubtitleEdit};
use vstd::utf8::{decode_utf8, valid_utf8};
use crate::number::{parse_u32, parse_u32_range};
use crate::text::{
    chars_of, contains, contains_str, first_in, first_in_from, last_in, range_eq, rsplit_once_in,
    split_once_in, string_of_range, strip_prefix, strip_suffix, trim, trim_pos, CharClass,
};
use crate::text::{is_ascii_alphanumeric, lemma_first_in_from, lemma_last_in_before};

verus! {

/// The tags of a stream that the probe reads.
#[derive(Debug, Clone, PartialEq, Default)]
pub struct StreamTags {
    pub title: Option<String>,
    pub filename: Option<String>,
    pub language: Option<String>,
}

/// The disposition flags of a stream, `1` when set.
#[derive(Debug, Clone, Copy, PartialEq, Eq, Default, Structural)]
pub struct Disposition {
    pub default: Option<u8>,
    pub forced: Option<u8>,
}

/// One stream as the probe describes it.
#[derive(Debug, Clone, PartialEq)]
pub struct ProbeStream {
    pub index: u32,
    pub codec_type: MediaStreamType,
    pub codec_name: Option<String>,
    pub codec_long_name: Option<String>,
    pub tags: Option<StreamTags>,
    pub disposition: Option<Disposition>,
}

/// The container's duration, in seconds.
#[derive(Debug, Clone, PartialEq)]
pub struct ProbeFormat {
    pub duration: Option<String>,
}

/// What a probe of an input found.
#[derive(Debug, Clone, PartialEq)]
pub struct ProbeResult {
    pub streams: Vec<ProbeStream>,
    pub format: Option<ProbeFormat>,
}

/// The tags of a stream, as text.
pub struct StreamTagsModel {
    pub title: Option<Seq<char>>,
    pub filename: Option<Seq<char>>,
    pub language: Option<Seq<char>>,
}

/// A probed stream, with its text as sequences of characters.
pub struct ProbeStreamModel {
    pub index: u32,
    pub codec_type: MediaStreamType,
    pub codec_name: Option<Seq<char>>,
    pub codec_long_name: Option<Seq<char>>,
    pub tags: Option<StreamTagsModel>,
    pub disposition: Option<Disposition>,
}

impl View for StreamTags {
    type V = StreamTagsModel;

    open spec fn view(&self) -> StreamTagsModel {
        StreamTagsModel {
            title: self.title.deep_view(),
            filename: self.filename.deep_view(),
            language: self.language.deep_view(),
        }
    }
}

pub open spec fn tags_view(t: Option<StreamTags>) -> Option<StreamTagsModel> {
    match t {
        Some(t) => Some(t@),
        None => None,
    }
}

impl View for ProbeStream {
    type V = ProbeStreamModel;

    open spec fn view(&self) -> ProbeStreamModel {
        ProbeStreamModel {
            index: self.index,
            codec_type: self.codec_type,
            codec_name: self.codec_name.deep_view(),
            codec_long_name: self.codec_long_name.deep_view(),
            tags: tags_view(self.tags),
            disposition: self.disposition,
        }
    }
}

/// The streams of a probe, as models.
pub open spec fn streams_view(v: Seq<ProbeStream>) -> Seq<ProbeStreamModel> {
    v.map_values(|s: ProbeStream| s@)
}

/// An FFmpeg back end that runs the `ffmpeg` program.
#[derive(Debug, Clone, PartialEq)]
pub struct CliFfmpegService {
    pub executable: String,
}

/// The kind of stream that `ffmpeg -i` names in a stream line.
pub open spec fn spec_ffmpeg_stream_type(value: Seq<char>) -> Option<MediaStreamType> {
    if value == "Video"@ {
        Some(MediaStreamType::Video)
    } else if value == "Audio"@ {
        Some(MediaStreamType::Audio)
    } else if value == "Subtitle"@ {
        Some(MediaStreamType::Subtitle)
    } else if value == "Attachment"@ {
        Some(MediaStreamType::Attachment)
    } else if value == "Data"@ {
        Some(MediaStreamType::Data)
    } else {
        None
    }
}

/// Whether a language tag holds only ASCII letters, digits, `-` and `_`.
pub open spec fn language_chars(l: Seq<char>) -> bool {
    forall|i: int|
        0 <= i < l.len() ==> is_ascii_alphanumeric(#[trigger] l[i]) || l[i] == '-' || l[i]
            == '_'
}

/// The language of a stream line: the text between its last `(` and a `)`
/// that ends it, when that is a non-empty language tag.
pub open spec fn stream_language(stream_tags: Seq<char>) -> Option<Seq<char>> {
    match rsplit_once_in(stream_tags, CharClass::Is('(')) {
        None => None,
        Some((_, rest)) => match strip_suffix(rest, ")"@) {
            None => None,
            Some(l) => if l.len() > 0 && language_chars(l) {
                Some(l)
            } else {
                None
            },
        },
    }
}

/// The first piece of `s` before a character of `k`: `split(k).next()`.
pub open spec fn first_piece(s: Seq<char>, k: CharClass) -> Seq<char> {
    s.take(first_in_from(s, k, 0))
}

/// The codec name of a stream description: its first word before a comma or
/// ASCII whitespace, when not empty.
pub open spec fn description_codec_name(description: Seq<char>) -> Option<Seq<char>> {
    let name = trim(first_piece(description, CharClass::CommaOrAsciiWhitespace));
    if name.len() > 0 {
        Some(name)
    } else {
        None
    }
}

pub open spec fn flag(set: bool) -> u8 {
    if set {
        1
    } else {
        0
    }
}

/// The stream that a line `Stream #F:I(lang): Kind: codec ...` of
/// `ffmpeg -i` describes.
pub open spec fn spec_parse_ffmpeg_stream_line(line: Seq<char>) -> Option<ProbeStreamModel> {
    match strip_prefix(line, "Stream #"@) {
        None => None,
        Some(stream) => match split_once_in(stream, CharClass::Is(':')) {
            None => None,
            Some((_, stream)) => {
                let index_end = first_in_from(stream, CharClass::NotAsciiDigit, 0);
                if index_end >= stream.len() {
                    None
                } else {
                    match parse_u32(stream.take(index_end)) {
                        None => None,
                        Some(index) => match split_once_in(
                            stream.skip(index_end),
                            CharClass::Is(':'),
                        ) {
                            None => None,
                            Some((stream_tags, description)) => match split_once_in(
                                trim(description),
                                CharClass::Is(':'),
                            ) {
                                None => None,
                                Some((codec_type, codec_description)) => {
                                    let codec_description = trim(codec_description);
                                    match spec_ffmpeg_stream_type(trim(codec_type)) {
                                        None => None,
                                        Some(kind) => Some(
                                            ProbeStreamModel {
                                                index: index as u32,
                                                codec_type: kind,
                                                codec_name: description_codec_name(
                                                    codec_description,
                                                ),
                                                codec_long_name: Some(codec_description),
                                                tags: match stream_language(stream_tags) {
                                                    Some(l) => Some(
                                                        StreamTagsModel {
                                                            title: None,
                                                            filename: None,
                                                            language: Some(l),
                                                        },
                                                    ),
                                                    None => None,
                                                },
                                                disposition: Some(
                                                    Disposition {
                                                        default: Some(
                                                            flag(contains(line, "(default)"@)),
                                                        ),
                                                        forced: Some(
                                                            flag(contains(line, "(forced)"@)),
                                                        ),
                                                    },
                                                ),
                                            },
                                        ),
                                    }
                                },
                            },
                        },
                    }
                }
            },
        },
    }
}

fn stream_type_of(s: &[char], lo: usize, hi: usize) -> (r: Option<MediaStreamType>)
    requires
        lo <= hi <= s.len(),
    ensures
        r == spec_ffmpeg_stream_type(s@.subrange(lo as int, hi as int)),
{
    if range_eq(s, lo, hi, "Video") {
        Some(MediaStreamType::Video)
    } else if range_eq(s, lo, hi, "Audio") {
        Some(MediaStreamType::Audio)
    } else if range_eq(s, lo, hi, "Subtitle") {
        Some(MediaStreamType::Subtitle)
    } else if range_eq(s, lo, hi, "Attachment") {
        Some(MediaStreamType::Attachment)
    } else if range_eq(s, lo, hi, "Data") {
        Some(MediaStreamType::Data)
    } else {
        None
    }
}

/// The language of the stream tags `s[lo..hi]`.
fn language_of(s: &[char], lo: usize, hi: usize) -> (r: Option<String>)
    requires
        lo <= hi <= s.len(),
    ensures
        r.deep_view() == stream_language(s@.subrange(lo as int, hi as int)),
{
    let ghost t = s@.subrange(lo as int, hi as int);
    let open = match last_in(s, CharClass::Is('('), lo, hi) {
        Some(i) => i,
        None => return None,
    };
    proof {
        lemma_last_in_before(t, CharClass::Is('('), t.len() as int);
        assert(t.skip(open - lo + 1) =~= s@.subrange(open + 1, hi as int));
    }
    if hi == open + 1 || s[hi - 1] != ')' {
        proof {
            reveal_strlit(")");
            let rest = s@.subrange(open + 1, hi as int);
            if rest.len() >= 1 {
                assert(rest.subrange(rest.len() - 1, rest.len() as int)[0] == rest.last());
            }
        }
        return None;
    }
    proof {
        reveal_strlit(")");
        let rest = s@.subrange(open + 1, hi as int);
        assert(rest.subrange(rest.len() - 1, rest.len() as int) =~= ")"@);
        assert(rest.take(rest.len() - 1) =~= s@.subrange(open + 1, hi - 1));
    }
    let lang_lo = open + 1;
    let lang_hi = hi - 1;
    if lang_lo == lang_hi {
        return None;
    }
    let mut i = lang_lo;
    while i < lang_hi
        invariant
            lang_lo <= i <= lang_hi < hi <= s.len(),
            !language_chars(s@.subrange(lang_lo as int, lang_hi as int)) ==> stream_language(
                s@.subrange(lo as int, hi as int),
            ) is None,
            forall|j: int|
                lang_lo <= j < i ==> is_ascii_alphanumeric(#[trigger] s@[j]) || s@[j] == '-'
                    || s@[j] == '_',
        decreases lang_hi - i,
    {
        let c = s[i];
        if !(crate::text::ascii_alphanumeric(c) || c == '-' || c == '_') {
            assert(s@.subrange(lang_lo as int, lang_hi as int)[i - lang_lo] == c);
            return None;
        }
        i = i + 1;
    }
    assert(language_chars(s@.subrange(lang_lo as int, lang_hi as int)));
    Some(string_of_range(s, lang_lo, lang_hi))
}

/// The first of the candidate programs that is a file.
pub open spec fn first_file(candidates: Seq<(String, bool)>) -> Option<int>
    decreases candidates.len(),
{
    if candidates.len() == 0 {
        None
    } else {
        match first_file(candidates.drop_last()) {
            Some(k) => Some(k),
            None => if candidates.last().1 {
                Some(candidates.len() - 1)
            } else {
                None
            },
        }
    }
}

/// Where the first file among the candidates stands: every candidate
/// before it is no file.
pub proof fn lemma_first_file(candidates: Seq<(String, bool)>)
    ensures
        match first_file(candidates) {
            Some(k) => 0 <= k < candidates.len() && candidates[k].1 && forall|j: int|
                0 <= j < k ==> !(#[trigger] candidates[j]).1,
            None => forall|j: int| 0 <= j < candidates.len() ==> !(#[trigger] candidates[j]).1,
        },
    decreases candidates.len(),
{
    if candidates.len() > 0 {
        lemma_first_file(candidates.drop_last());
        assert forall|j: int| 0 <= j < candidates.len() - 1 implies #[trigger] candidates[j]
            == candidates.drop_last()[j] by {}
    }
}

/// A file found among the first `n` candidates is the first among all.
proof fn lemma_first_file_prefix(candidates: Seq<(String, bool)>, n: int)
    requires
        0 <= n <= candidates.len(),
        first_file(candidates.take(n)) is Some,
    ensures
        first_file(candidates) == first_file(candidates.take(n)),
    decreases candidates.len() - n,
{
    if n < candidates.len() {
        assert(candidates.take(n + 1).drop_last() =~= candidates.take(n));
        lemma_first_file_prefix(candidates, n + 1);
    } else {
        assert(candidates.take(n) =~= candidates);
    }
}

impl CliFfmpegService {
    /// The service that runs the `ffmpeg` program found next to this one, or
    /// the one on the search path when there is none.
    pub fn new(detected_executable: Option<String>) -> (r: Self)
        ensures
            r.executable@ == match detected_executable {
                Some(e) => e@,
                None => "ffmpeg"@,
            },
    {
        match detected_executable {
            Some(executable) => CliFfmpegService { executable },
            None => CliFfmpegService { executable: crate::text::string_of(&chars_of("ffmpeg")) },
        }
    }

    /// The `ffmpeg` program shipped next to this one: the first of the
    /// candidates (`ffmpeg`, then `ffmpeg.exe`, in the application's
    /// directory, each with whether it is a file) that is a file, if any.
    pub fn detect(candidates: &[(String, bool)]) -> (r: Option<Self>)
        ensures
            match first_file(candidates@) {
                Some(k) => r matches Some(cli) && cli.executable@ == candidates@[k].0@,
                None => r is None,
            },
    {
        let mut i: usize = 0;
        assert(candidates@.take(0) =~= Seq::<(String, bool)>::empty());
        while i < candidates.len()
            invariant
                i <= candidates.len(),
                first_file(candidates@.take(i as int)) is None,
            decreases candidates.len() - i,
        {
            assert(candidates@.take(i + 1).drop_last() =~= candidates@.take(i as int));
            if candidates[i].1 {
                proof {
                    lemma_first_file_prefix(candidates@, i as int + 1);
                }
                return Some(CliFfmpegService { executable: candidates[i].0.clone() });
            }
            i = i + 1;
        }
        assert(candidates@.take(candidates.len() as int) =~= candidates@);
        None
    }

    /// The stream kind that `ffmpeg -i` names `value`.
    pub fn ffmpeg_stream_type(&self, value: &str) -> (r: Option<MediaStreamType>)
        ensures
            r == spec_ffmpeg_stream_type(value@),
    {
        let v = chars_of(value);
        assert(v@.subrange(0, v@.len() as int) =~= v@);
        stream_type_of(&v, 0, v.len())
    }

    /// The stream that a `Stream #...` line of `ffmpeg -i` describes.
    pub fn parse_ffmpeg_stream_line(&self, line: &str) -> (r: Option<ProbeStream>)
        ensures
            match r {
                Some(s) => spec_parse_ffmpeg_stream_line(line@) == Some(s@),
                None => spec_parse_ffmpeg_stream_line(line@) is None,
            },
    {
        let l = chars_of(line);
        assert(l@.subrange(0, l@.len() as int) =~= l@);
        parse_stream_line_range(&l, 0, l.len())
    }
}

/// The stream that the line `s[lo..hi]` describes.
pub fn parse_stream_line_range(s: &[char], lo: usize, hi: usize) -> (r: Option<ProbeStream>)
    requires
        lo <= hi <= s.len(),
    ensures
        match r {
            Some(st) => spec_parse_ffmpeg_stream_line(s@.subrange(lo as int, hi as int)) == Some(
                st@,
            ),
            None => spec_parse_ffmpeg_stream_line(s@.subrange(lo as int, hi as int)) is None,
        },
{
    let ghost line = s@.subrange(lo as int, hi as int);
    if !crate::text::range_starts_with(s, lo, hi, "Stream #") {
        return None;
    }
    proof {
        reveal_strlit("Stream #");
    }
    let p0 = lo + 8;
    assert(line.skip(8) =~= s@.subrange(p0 as int, hi as int));
    let colon = match crate::ass::split_once_pos(s, CharClass::Is(':'), p0, hi) {
        Some(i) => i,
        None => return None,
    };
    let p1 = colon + 1;
    let ghost stream = s@.subrange(p1 as int, hi as int);
    let index_end = first_in(s, CharClass::NotAsciiDigit, p1, hi);
    if index_end >= hi {
        return None;
    }
    assert(stream.take(index_end - p1) =~= s@.subrange(p1 as int, index_end as int));
    assert(stream.skip(index_end - p1) =~= s@.subrange(index_end as int, hi as int));
    let index = match parse_u32_range(s, p1, index_end) {
        Some(i) => i,
        None => return None,
    };
    let colon2 = match crate::ass::split_once_pos(s, CharClass::Is(':'), index_end, hi) {
        Some(i) => i,
        None => return None,
    };
    let (dlo, dhi) = trim_pos(s, colon2 + 1, hi);
    let colon3 = match crate::ass::split_once_pos(s, CharClass::Is(':'), dlo, dhi) {
        Some(i) => i,
        None => return None,
    };
    let (tlo, thi) = trim_pos(s, dlo, colon3);
    let kind = match stream_type_of(s, tlo, thi) {
        Some(k) => k,
        None => return None,
    };
    let (clo, chi) = trim_pos(s, colon3 + 1, dhi);
    let word_end = first_in(s, CharClass::CommaOrAsciiWhitespace, clo, chi);
    assert(s@.subrange(clo as int, chi as int).take(word_end - clo) =~= s@.subrange(
        clo as int,
        word_end as int,
    ));
    let (wlo, whi) = trim_pos(s, clo, word_end);
    let codec_name = if wlo < whi {
        Some(string_of_range(s, wlo, whi))
    } else {
        None
    };
    let language = language_of(s, index_end, colon2);
    let tags = match language {
        Some(l) => Some(StreamTags { title: None, filename: None, language: Some(l) }),
        None => None,
    };
    let default = range_contains_flag(s, lo, hi, "(default)");
    let forced = range_contains_flag(s, lo, hi, "(forced)");
    let r = ProbeStream {
        index,
        codec_type: kind,
        codec_name,
        codec_long_name: Some(string_of_range(s, clo, chi)),
        tags,
        disposition: Some(Disposition { default: Some(default), forced: Some(forced) }),
    };
    assert(r@.tags == tags_view(tags));
    Some(r)
}

fn range_contains_flag(s: &[char], lo: usize, hi: usize, pat: &str) -> (r: u8)
    requires
        lo <= hi <= s.len(),
    ensures
        r == flag(contains(s@.subrange(lo as int, hi as int), pat@)),
{
    if crate::text::range_contains(s, lo, hi, pat) {
        1
    } else {
        0
    }
}

// ---------------------------------------------------------------------------
// The whole description of an input
// ---------------------------------------------------------------------------
/// What reading the lines of `ffmpeg -i` has gathered so far: the streams,
/// and the text of the last `Duration:` line's duration.
pub struct ProbeModel {
    pub streams: Seq<ProbeStreamModel>,
    pub duration: Option<Seq<char>>,
}

/// The tags of a stream with `key` (`title`, `filename` or `language`) set
/// to `value`; other keys change nothing.
pub open spec fn with_tag(tags: Option<StreamTagsModel>, key: Seq<char>, value: Seq<char>) -> Option<
    StreamTagsModel,
> {
    let t = match tags {
        Some(t) => t,
        None => StreamTagsModel { title: None, filename: None, language: None },
    };
    if key == "title"@ {
        Some(StreamTagsModel { title: Some(value), ..t })
    } else if key == "filename"@ {
        Some(StreamTagsModel { filename: Some(value), ..t })
    } else if key == "language"@ {
        Some(StreamTagsModel { language: Some(value), ..t })
    } else {
        tags
    }
}

/// The duration text of a `Duration: ...` line's rest: up to the first comma,
/// trimmed.
pub open spec fn duration_text(rest: Seq<char>) -> Seq<char> {
    trim(first_piece(rest, CharClass::Is(',')))
}

/// One line of `ffmpeg -i`, trimmed: a `Duration:` line sets the duration; a
/// stream line adds a stream; a `key: value` line with a non-empty value,
/// after the first stream, sets a tag of the last stream.
pub open spec fn probe_step(m: ProbeModel, line: Seq<char>) -> ProbeModel {
    let t = trim(line);
    match strip_prefix(t, "Duration: "@) {
        Some(rest) => ProbeModel { duration: Some(duration_text(rest)), ..m },
        None => match spec_parse_ffmpeg_stream_line(t) {
            Some(st) => ProbeModel { streams: m.streams.push(st), ..m },
            None => if m.streams.len() == 0 {
                m
            } else {
                match split_once_in(t, CharClass::Is(':')) {
                    None => m,
                    Some((key, value)) => {
                        let value = trim(value);
                        if value.len() == 0 {
                            m
                        } else {
                            let last = m.streams.last();
                            let tags = with_tag(last.tags, trim(key), value);
                            ProbeModel {
                                streams: m.streams.update(
                                    m.streams.len() - 1,
                                    ProbeStreamModel { tags, ..last },
                                ),
                                ..m
                            }
                        }
                    },
                }
            },
        },
    }
}

/// The lines of `ffmpeg -i`, read in order.
pub open spec fn probe_lines(lines: Seq<Seq<char>>) -> ProbeModel
    decreases lines.len(),
{
    if lines.len() == 0 {
        ProbeModel { streams: seq![], duration: None }
    } else {
        probe_step(probe_lines(lines.drop_last()), lines.last())
    }
}

/// The description of an input that `ffmpeg -i` wrote to its error output.
pub open spec fn probe_model(stderr: Seq<u8>) -> ProbeModel {
    probe_lines(crate::text::lines(crate::text::spec_utf8_lossy(stderr)))
}

/// The streams that the stream lines among `lines` describe, in order.
pub open spec fn stream_lines(lines: Seq<Seq<char>>) -> Seq<ProbeStreamModel>
    decreases lines.len(),
{
    if lines.len() == 0 {
        seq![]
    } else {
        let rest = stream_lines(lines.drop_last());
        let t = trim(lines.last());
        if strip_prefix(t, "Duration: "@) is Some {
            rest
        } else {
            match spec_parse_ffmpeg_stream_line(t) {
                Some(st) => rest.push(st),
                None => rest,
            }
        }
    }
}

/// The duration text of the last `Duration: ` line among `lines`.
pub open spec fn last_duration(lines: Seq<Seq<char>>) -> Option<Seq<char>>
    decreases lines.len(),
{
    if lines.len() == 0 {
        None
    } else {
        match strip_prefix(trim(lines.last()), "Duration: "@) {
            Some(rest) => Some(duration_text(rest)),
            None => last_duration(lines.drop_last()),
        }
    }
}

/// Whether two streams differ at most in their tags.
pub open spec fn same_but_tags(a: ProbeStreamModel, b: ProbeStreamModel) -> bool {
    &&& a.index == b.index
    &&& a.codec_type == b.codec_type
    &&& a.codec_name == b.codec_name
    &&& a.codec_long_name == b.codec_long_name
    &&& a.disposition == b.disposition
}

/// What reading the lines of `ffmpeg -i` gives: one stream for each stream
/// line, in order, as that line describes it but for the tags that later
/// lines set; and the duration of the last `Duration: ` line.
pub proof fn lemma_probe_lines(lines: Seq<Seq<char>>)
    ensures
        probe_lines(lines).streams.len() == stream_lines(lines).len(),
        forall|i: int|
            0 <= i < stream_lines(lines).len() ==> same_but_tags(
                #[trigger] probe_lines(lines).streams[i],
                stream_lines(lines)[i],
            ),
        probe_lines(lines).duration == last_duration(lines),
    decreases lines.len(),
{
    if lines.len() > 0 {
        lemma_probe_lines(lines.drop_last());
        let m = probe_lines(lines.drop_last());
        let r = probe_lines(lines);
        assert forall|i: int| 0 <= i < stream_lines(lines).len() implies same_but_tags(
            #[trigger] r.streams[i],
            stream_lines(lines)[i],
        ) by {
            if i < m.streams.len() {
                assert(same_but_tags(m.streams[i], stream_lines(lines.drop_last())[i]));
            }
        }
    }
}

/// What a line that is neither a stream line nor a `Duration: ` line does:
/// before the first stream, nothing; after it, at most one tag of the stream
/// listed last changes, set by a `key: value` line with a value (trimmed,
/// further colons kept in it).
pub proof fn lemma_probe_tag_line(lines: Seq<Seq<char>>, line: Seq<char>)
    requires
        strip_prefix(trim(line), "Duration: "@) is None,
        spec_parse_ffmpeg_stream_line(trim(line)) is None,
    ensures
        ({
            let before = probe_lines(lines);
            let after = probe_lines(lines.push(line));
            &&& after.duration == before.duration
            &&& after.streams.len() == before.streams.len()
            &&& before.streams.len() == 0 ==> after == before
            &&& forall|i: int|
                0 <= i < before.streams.len() - 1 ==> #[trigger] after.streams[i] == before.streams[i]
            &&& before.streams.len() > 0 ==> after.streams.last() == (ProbeStreamModel {
                tags: match split_once_in(trim(line), CharClass::Is(':')) {
                    Some((key, value)) => if trim(value).len() > 0 {
                        with_tag(before.streams.last().tags, trim(key), trim(value))
                    } else {
                        before.streams.last().tags
                    },
                    None => before.streams.last().tags,
                },
                ..before.streams.last()
            })
        }),
{
    assert(lines.push(line).drop_last() =~= lines);
}

/// The tags `tags` after one line that is no stream line: a `key: value`
/// line with a value sets a tag (value trimmed, further colons kept); a
/// `Duration: ` line and any other line change nothing.
pub open spec fn tag_line(tags: Option<StreamTagsModel>, line: Seq<char>) -> Option<StreamTagsModel> {
    let t = trim(line);
    if strip_prefix(t, "Duration: "@) is Some {
        tags
    } else {
        match split_once_in(t, CharClass::Is(':')) {
            Some((key, value)) => if trim(value).len() > 0 {
                with_tag(tags, trim(key), trim(value))
            } else {
                tags
            },
            None => tags,
        }
    }
}

/// The tags `tags` after the lines `post`, in order.
pub open spec fn fold_tags(tags: Option<StreamTagsModel>, post: Seq<Seq<char>>) -> Option<StreamTagsModel>
    decreases post.len(),
{
    if post.len() == 0 {
        tags
    } else {
        tag_line(fold_tags(tags, post.drop_last()), post.last())
    }
}

/// Whether a line adds no stream: it is a `Duration: ` line or no stream
/// line.
pub open spec fn adds_no_stream(line: Seq<char>) -> bool {
    strip_prefix(trim(line), "Duration: "@) is Some || spec_parse_ffmpeg_stream_line(trim(line)) is None
}

/// A stream line adds the stream it describes after those before it, and
/// changes none of them.
pub proof fn lemma_probe_stream_line(lines: Seq<Seq<char>>, line: Seq<char>)
    requires
        strip_prefix(trim(line), "Duration: "@) is None,
        spec_parse_ffmpeg_stream_line(trim(line)) is Some,
    ensures
        probe_lines(lines.push(line)).streams == probe_lines(lines).streams.push(
            spec_parse_ffmpeg_stream_line(trim(line)).unwrap(),
        ),
{
    assert(lines.push(line).drop_last() =~= lines);
}

/// The tags of the stream listed last are those its line gave, set in
/// turn by the key lines that follow it up to the next stream line; the
/// streams before it keep theirs, and key lines before the first stream set
/// nothing.
pub proof fn lemma_probe_tags_after(lines: Seq<Seq<char>>, post: Seq<Seq<char>>)
    requires
        forall|j: int| 0 <= j < post.len() ==> adds_no_stream(#[trigger] post[j]),
    ensures
        ({
            let before = probe_lines(lines);
            let after = probe_lines(lines + post);
            &&& after.streams.len() == before.streams.len()
            &&& forall|i: int|
                0 <= i < before.streams.len() - 1 ==> #[trigger] after.streams[i] == before.streams[i]
            &&& before.streams.len() > 0 ==> after.streams.last() == (ProbeStreamModel {
                tags: fold_tags(before.streams.last().tags, post),
                ..before.streams.last()
            })
        }),
    decreases post.len(),
{
    if post.len() == 0 {
        assert(lines + post =~= lines);
    } else {
        let shorter = post.drop_last();
        assert forall|j: int| 0 <= j < shorter.len() implies adds_no_stream(#[trigger] shorter[j]) by {
            assert(shorter[j] == post[j]);
        }
        lemma_probe_tags_after(lines, shorter);
        assert((lines + post).drop_last() =~= lines + shorter);
        assert((lines + post).last() == post.last());
        assert(adds_no_stream(post[post.len() - 1]));
    }
}

/// The disposition of a stream line follows the `(default)` and
/// `(forced)` marks in it.
pub proof fn lemma_stream_line_disposition(line: Seq<char>)
    ensures
        spec_parse_ffmpeg_stream_line(line) matches Some(st) ==> st.disposition == Some(
            Disposition {
                default: Some(flag(contains(line, "(default)"@))),
                forced: Some(flag(contains(line, "(forced)"@))),
            },
        ),
{
}

/// Whether `duration` is what `duration_seconds` may return for the text
/// `text`.
pub open spec fn duration_from<F: Fn(&str) -> Option<String>>(
    duration_seconds: F,
    text: Seq<char>,
    duration: Option<String>,
) -> bool {
    exists|s: &str| s@ == text && call_ensures(duration_seconds, (s,), duration)
}

/// The tags of `tags` with `key` set, when it is one of the three.
fn set_tag(tags: Option<StreamTags>, s: &[char], klo: usize, khi: usize, vlo: usize, vhi: usize) -> (r:
    Option<StreamTags>)
    requires
        klo <= khi <= s.len(),
        vlo <= vhi <= s.len(),
    ensures
        tags_view(r) == with_tag(
            tags_view(tags),
            s@.subrange(klo as int, khi as int),
            s@.subrange(vlo as int, vhi as int),
        ),
{
    let is_title = range_eq(s, klo, khi, "title");
    let is_filename = range_eq(s, klo, khi, "filename");
    let is_language = range_eq(s, klo, khi, "language");
    if !is_title && !is_filename && !is_language {
        return tags;
    }
    let mut t = match tags {
        Some(t) => t,
        None => StreamTags { title: None, filename: None, language: None },
    };
    let value = string_of_range(s, vlo, vhi);
    if is_title {
        t.title = Some(value);
    } else if is_filename {
        t.filename = Some(value);
    } else {
        t.language = Some(value);
    }
    Some(t)
}

impl CliFfmpegService {
    /// Reads what `ffmpeg -i` wrote to its error output: the streams, with
    /// the tags listed under each, and the duration, which
    /// `duration_seconds` turns from `HH:MM:SS.ss` into seconds. `None` when
    /// no stream is listed.
    pub fn parse_ffmpeg_probe_output<F: Fn(&str) -> Option<String>>(
        &self,
        stderr: &[u8],
        duration_seconds: &F,
    ) -> (r: Option<ProbeResult>)
        requires
            forall|s: &str| call_requires(*duration_seconds, (s,)),
        ensures
            match r {
                Some(p) => {
                    &&& probe_model(stderr@).streams.len() > 0
                    &&& streams_view(p.streams@) == probe_model(stderr@).streams
                    &&& match p.format {
                        Some(f) => probe_model(stderr@).duration matches Some(text) && duration_from(
                            *duration_seconds,
                            text,
                            f.duration,
                        ),
                        None => probe_model(stderr@).duration is None,
                    }
                },
                None => probe_model(stderr@).streams.len() == 0,
            },
    {
        let text = crate::text::utf8_lossy(stderr);
        let c = chars_of(text.as_str());
        let spans = crate::text::line_spans(&c);
        let ghost all = crate::text::spans_view(c@, spans@);
        let mut streams: Vec<ProbeStream> = Vec::new();
        let mut format: Option<ProbeFormat> = None;
        let mut j: usize = 0;
        assert(all.take(0) =~= Seq::<Seq<char>>::empty());
        assert(streams_view(streams@) =~= Seq::<ProbeStreamModel>::empty());
        while j < spans.len()
            invariant
                j <= spans.len(),
                all == crate::text::spans_view(c@, spans@),
                crate::text::spans_in(c@, spans@, 0, c@.len() as int),
                forall|s: &str| call_requires(*duration_seconds, (s,)),
                streams_view(streams@) == probe_lines(all.take(j as int)).streams,
                match format {
                    Some(f) => probe_lines(all.take(j as int)).duration matches Some(text)
                        && duration_from(*duration_seconds, text, f.duration),
                    None => probe_lines(all.take(j as int)).duration is None,
                },
            decreases spans.len() - j,
        {
            let ghost m = probe_lines(all.take(j as int));
            assert(all.take(j + 1).drop_last() =~= all.take(j as int));
            let (lo, hi) = trim_pos(&c, spans[j].lo, spans[j].hi);
            let ghost t = c@.subrange(lo as int, hi as int);
            if crate::text::range_starts_with(&c, lo, hi, "Duration: ") {
                proof {
                    reveal_strlit("Duration: ");
                }
                let rest = lo + 10;
                assert(t.skip(10) =~= c@.subrange(rest as int, hi as int));
                let comma = first_in(&c, CharClass::Is(','), rest, hi);
                assert(c@.subrange(rest as int, hi as int).take(comma - rest) =~= c@.subrange(
                    rest as int,
                    comma as int,
                ));
                let (dlo, dhi) = trim_pos(&c, rest, comma);
                let d = string_of_range(&c, dlo, dhi);
                let seconds = duration_seconds(d.as_str());
                format = Some(ProbeFormat { duration: seconds });
                assert(duration_from(*duration_seconds, d@, seconds));
            } else {
                match parse_stream_line_range(&c, lo, hi) {
                    Some(st) => {
                        let ghost before = streams@;
                        streams.push(st);
                        assert(streams_view(streams@) =~= streams_view(before).push(st@));
                    },
                    None => {
                        if streams.len() > 0 {
                            match crate::ass::split_once_pos(&c, CharClass::Is(':'), lo, hi) {
                                None => {},
                                Some(colon) => {
                                    let (vlo, vhi) = trim_pos(&c, colon + 1, hi);
                                    if vlo < vhi {
                                        let (klo, khi) = trim_pos(&c, lo, colon);
                                        let ghost before = streams@;
                                        let mut last = streams.pop().unwrap();
                                        let tags = set_tag(last.tags, &c, klo, khi, vlo, vhi);
                                        last.tags = tags;
                                        streams.push(last);
                                        assert(streams_view(streams@) =~= streams_view(
                                            before,
                                        ).update(before.len() - 1, last@));
                                    }
                                },
                            }
                        }
                    },
                }
            }
            j = j + 1;
        }
        assert(all.take(spans.len() as int) =~= all);
        if streams.len() == 0 {
            None
        } else {
            Some(ProbeResult { streams, format })
        }
    }
}

// ---------------------------------------------------------------------------
// Probing, and the streams of a probe as media streams
// ---------------------------------------------------------------------------
/// The message for a failed `command`: its error output, trimmed, when there
/// is any.
pub open spec fn spec_command_error(command: Seq<char>, stderr: Seq<u8>) -> Seq<char> {
    let detail = trim(crate::text::spec_utf8_lossy(stderr));
    if detail.len() == 0 {
        command + " 执行失败。"@
    } else {
        command + " 执行失败："@ + detail
    }
}

/// The first stream of `streams` with index `index`.
pub open spec fn stream_position(streams: Seq<ProbeStream>, index: u32) -> Option<int> {
    if exists|i: int| 0 <= i < streams.len() && streams[i].index == index {
        let i = choose|i: int|
            0 <= i < streams.len() && streams[i].index == index && forall|j: int|
                0 <= j < i ==> streams[j].index != index;
        Some(i)
    } else {
        None
    }
}

/// Finds the first stream of `streams` with index `index`.
pub fn find_stream(streams: &Vec<ProbeStream>, index: u32) -> (r: Option<usize>)
    ensures
        match r {
            Some(i) => i < streams.len() && streams@[i as int].index == index && forall|j: int|
                0 <= j < i ==> streams@[j].index != index,
            None => forall|j: int| 0 <= j < streams.len() ==> streams@[j].index != index,
        },
        r matches Some(i) ==> stream_position(streams@, index) == Some(i as int),
        r is None ==> stream_position(streams@, index) is None,
{
    let mut i: usize = 0;
    while i < streams.len()
        invariant
            i <= streams.len(),
            forall|j: int| 0 <= j < i ==> streams@[j].index != index,
        decreases streams.len() - i,
    {
        if streams[i].index == index {
            proof {
                let k = choose|k: int|
                    0 <= k < streams@.len() && streams@[k].index == index && forall|j: int|
                        0 <= j < k ==> streams@[j].index != index;
                if k < i {
                } else if k > i {
                    assert(streams@[i as int].index == index);
                }
            }
            return Some(i);
        }
        i = i + 1;
    }
    None
}

/// Which stream an edit may replace: it must exist, have a codec name, and
/// be a subtitle stream of an editable codec.
pub open spec fn spec_editable_stream(streams: Seq<ProbeStream>, stream_index: u32) -> Result<
    int,
    Seq<char>,
> {
    match stream_position(streams, stream_index) {
        None => Err("未找到所选字幕流。"@),
        Some(i) => match streams[i].codec_name {
            None => Err("所选字幕流没有可识别的编码。"@),
            Some(codec_name) => if streams[i].codec_type != MediaStreamType::Subtitle
                || crate::media::spec_subtitle_specification(codec_name@) is None {
                Err("目前可编辑 SRT、ASS/SSA 和 WebVTT 字幕流；图形字幕会保留但不可编辑。"@)
            } else {
                Ok(i)
            },
        },
    }
}

impl CliFfmpegService {
    /// The message for a failed run of `command`, quoting its error output.
    pub fn command_error(&self, command: &str, stderr: &[u8]) -> (r: String)
        ensures
            r@ == spec_command_error(command@, stderr@),
    {
        let detail = crate::text::utf8_lossy(stderr);
        let d = chars_of(detail.as_str());
        let (lo, hi) = trim_pos(&d, 0, d.len());
        assert(d@.subrange(0, d@.len() as int) =~= d@);
        let mut out = chars_of(command);
        if lo == hi {
            crate::text::push_str(&mut out, " 执行失败。");
        } else {
            crate::text::push_str(&mut out, " 执行失败：");
            crate::text::push_range(&mut out, &d, lo, hi);
        }
        crate::text::string_of(&out)
    }

    /// The result of probing an input with `ffmpeg -i`, from its error
    /// output: `ffmpeg -i` always fails for want of an output, so the input
    /// description is what tells success.
    pub fn probe<F: Fn(&str) -> Option<String>>(
        &self,
        stderr: &[u8],
        duration_seconds: &F,
    ) -> (r: Result<ProbeResult, String>)
        requires
            forall|s: &str| call_requires(*duration_seconds, (s,)),
        ensures
            match r {
                Ok(p) => {
                    &&& probe_model(stderr@).streams.len() > 0
                    &&& streams_view(p.streams@) == probe_model(stderr@).streams
                    &&& match p.format {
                        Some(f) => probe_model(stderr@).duration matches Some(text) && duration_from(
                            *duration_seconds,
                            text,
                            f.duration,
                        ),
                        None => probe_model(stderr@).duration is None,
                    }
                },
                Err(e) => probe_model(stderr@).streams.len() == 0 && e@ == spec_command_error(
                    "ffmpeg"@,
                    stderr@,
                ),
            },
    {
        match self.parse_ffmpeg_probe_output(stderr, duration_seconds) {
            Some(p) => Ok(p),
            None => Err(self.command_error("ffmpeg", stderr)),
        }
    }

    /// The stream that an edit of stream `stream_index` replaces.
    pub fn editable_stream<'a>(&self, probe: &'a ProbeResult, stream_index: u32) -> (r: Result<
        &'a ProbeStream,
        String,
    >)
        ensures
            match r {
                Ok(s) => spec_editable_stream(probe.streams@, stream_index) matches Ok(i)
                    && probe.streams@[i] == *s,
                Err(e) => spec_editable_stream(probe.streams@, stream_index) == Err::<int, _>(e@),
            },
    {
        let i = match find_stream(&probe.streams, stream_index) {
            Some(i) => i,
            None => return Err("未找到所选字幕流。".to_owned()),
        };
        let stream = &probe.streams[i];
        let codec_name = match &stream.codec_name {
            Some(c) => c,
            None => return Err("所选字幕流没有可识别的编码。".to_owned()),
        };
        if stream.codec_type != MediaStreamType::Subtitle || crate::media::subtitle_specification(
            codec_name.as_str(),
        ).is_none() {
            return Err("目前可编辑 SRT、ASS/SSA 和 WebVTT 字幕流；图形字幕会保留但不可编辑。".to_owned());
        }
        Ok(stream)
    }
}

/// The media stream that a probed stream becomes: its codec name made
/// canonical, its tags and disposition flags read out.
pub open spec fn spec_cli_media_stream(p: ProbeStreamModel) -> MediaStreamModel {
    let codec_name = match p.codec_name {
        Some(n) => Some(spec_canonical_codec_name(n)),
        None => None,
    };
    let disposition = match p.disposition {
        Some(d) => d,
        None => Disposition { default: None, forced: None },
    };
    MediaStreamModel {
        index: p.index,
        stream_type: p.codec_type,
        codec_name,
        codec_description: p.codec_long_name,
        title: match p.tags {
            Some(t) => t.title,
            None => None,
        },
        filename: match p.tags {
            Some(t) => t.filename,
            None => None,
        },
        language: match p.tags {
            Some(t) => t.language,
            None => None,
        },
        default_stream: match disposition.default {
            Some(v) => v != 0,
            None => false,
        },
        forced: match disposition.forced {
            Some(v) => v != 0,
            None => false,
        },
        editable: spec_editable(p.codec_type, codec_name),
        subtitle: None,
    }
}

fn clone_text(s: &Option<String>) -> (r: Option<String>)
    ensures
        r.deep_view() == s.deep_view(),
{
    match s {
        Some(t) => Some(t.clone()),
        None => None,
    }
}

fn media_stream_of(stream: &ProbeStream) -> (r: MediaStream)
    ensures
        r@ == spec_cli_media_stream(stream@),
{
    let codec_name = match &stream.codec_name {
        Some(name) => Some(canonical_codec_name(name.as_str())),
        None => None,
    };
    let is_editable = editable(stream.codec_type, &codec_name);
    let (title, filename, language) = match &stream.tags {
        Some(t) => (clone_text(&t.title), clone_text(&t.filename), clone_text(&t.language)),
        None => (None, None, None),
    };
    let disposition = match stream.disposition {
        Some(d) => d,
        None => Disposition { default: None, forced: None },
    };
    let r = MediaStream {
        index: stream.index,
        stream_type: stream.codec_type,
        codec_name,
        codec_description: clone_text(&stream.codec_long_name),
        title,
        filename,
        language,
        default_stream: match disposition.default {
            Some(v) => v != 0,
            None => false,
        },
        forced: match disposition.forced {
            Some(v) => v != 0,
            None => false,
        },
        editable: is_editable,
        subtitle: None,
    };
    assert(r@.codec_name == (match stream@.codec_name {
        Some(n) => Some(spec_canonical_codec_name(n)),
        None => None::<Seq<char>>,
    }));
    r
}

/// The media file that a probe of `path` describes.
pub open spec fn spec_cli_media_file(path: Seq<char>, streams: Seq<ProbeStreamModel>, format: Option<
    Option<Seq<char>>,
>) -> (Seq<char>, Seq<char>, Option<Seq<char>>, Seq<MediaStreamModel>) {
    (
        path,
        spec_media_name(path),
        match format {
            Some(d) => d,
            None => None,
        },
        cli_media_streams(streams),
    )
}

pub open spec fn cli_media_streams(streams: Seq<ProbeStreamModel>) -> Seq<MediaStreamModel> {
    streams.map_values(|p: ProbeStreamModel| spec_cli_media_stream(p))
}

/// A probe's format, as text.
pub open spec fn format_view(f: Option<ProbeFormat>) -> Option<Option<Seq<char>>> {
    match f {
        Some(f) => Some(f.duration.deep_view()),
        None => None,
    }
}

/// A stream to read from an editable subtitle stream with `ffmpeg`: the
/// arguments to run it with, the format it writes, and the canonical codec.
pub struct SubtitleRead {
    pub arguments: Vec<String>,
    pub format: &'static str,
    pub codec_name: String,
}

/// The arguments of the `ffmpeg` run that writes stream `stream_index` of the
/// input at `path` to its output in the text format `format`.
pub open spec fn spec_read_arguments(path: Seq<char>, stream_index: u32, format: Seq<char>) -> Seq<
    Seq<char>,
> {
    seq![
        "-v"@,
        "error"@,
        "-i"@,
        path,
        "-map"@,
        "0:"@ + decimal(stream_index as nat),
        "-f"@,
        format,
        "-"@,
    ]
}

/// What reading subtitle stream `stream_index` of a probed input needs:
/// the stream must be editable.
pub open spec fn spec_read_subtitle_plan(
    streams: Seq<ProbeStream>,
    path: Seq<char>,
    stream_index: u32,
) -> Result<(Seq<Seq<char>>, Seq<char>, Seq<char>), Seq<char>> {
    match spec_editable_stream(streams, stream_index) {
        Err(e) => Err(e),
        Ok(i) => {
            let codec_name = spec_canonical_codec_name(streams[i].codec_name.unwrap()@);
            let format = spec_subtitle_specification(codec_name).unwrap().0;
            Ok((spec_read_arguments(path, stream_index, format), format, codec_name))
        },
    }
}

/// Reading a subtitle stream runs `ffmpeg -v error -i <path> -map
/// 0:<index> -f <format> -`, with the format it reports: `ass` for ASS and
/// SSA streams, `srt` for SubRip, `webvtt` for WebVTT.
pub proof fn lemma_read_plan_format(streams: Seq<ProbeStream>, path: Seq<char>, stream_index: u32)
    ensures
        spec_read_subtitle_plan(streams, path, stream_index) matches Ok((args, format, codec)) ==> {
            &&& args == seq![
                "-v"@,
                "error"@,
                "-i"@,
                path,
                "-map"@,
                "0:"@ + decimal(stream_index as nat),
                "-f"@,
                format,
                "-"@,
            ]
            &&& (codec == "ass"@ || codec == "ssa"@) ==> format == "ass"@
            &&& (codec == "srt"@ || codec == "subrip"@) ==> format == "srt"@
            &&& codec == "webvtt"@ ==> format == "webvtt"@
        },
{
    reveal_strlit("subrip");
    reveal_strlit("srt");
    reveal_strlit("ass");
    reveal_strlit("ssa");
    reveal_strlit("webvtt");
    assert("webvtt"@.len() == 6 && "subrip"@.len() == 6 && "srt"@.len() == 3);
    assert("ass"@.len() == 3 && "ssa"@.len() == 3);
    assert("webvtt"@[0] == 'w' && "subrip"@[0] == 's' && "ssa"@[1] == 's' && "srt"@[1] == 'r');
    assert("ass"@[0] == 'a' && "srt"@[0] == 's');
}

/// What inspecting with `ffmpeg` marks editable is what can be read: for
/// the first probed stream with its index, the plan to read it succeeds
/// exactly when the media stream made of it is editable.
pub proof fn lemma_editable_readable(streams: Seq<ProbeStream>, k: int, path: Seq<char>)
    requires
        0 <= k < streams.len(),
        forall|j: int| 0 <= j < k ==> streams[j].index != streams[k].index,
    ensures
        spec_read_subtitle_plan(streams, path, streams[k].index) is Ok
            <==> spec_cli_media_stream(streams[k]@).editable,
{
    let index = streams[k].index;
    assert(exists|i: int| 0 <= i < streams.len() && streams[i].index == index);
    let i = choose|i: int|
        0 <= i < streams.len() && streams[i].index == index && forall|j: int|
            0 <= j < i ==> streams[j].index != index;
    assert(0 <= k < streams.len() && streams[k].index == index && forall|j: int|
        0 <= j < k ==> streams[j].index != index);
    if i < k {
        assert(streams[i].index != index);
    }
    if k < i {
        assert(streams[k].index != index);
    }
    assert(stream_position(streams, index) == Some(k));
    match streams[k].codec_name {
        Some(name) => crate::media::lemma_canonical_codec_name(name@),
        None => {},
    }
}

/// The document that a successful run writes: UTF-8 text, SubRip with Unix
/// line endings.
pub open spec fn spec_read_subtitle_output(
    format: Seq<char>,
    codec_name: Seq<char>,
    success: bool,
    stdout: Seq<u8>,
    stderr: Seq<u8>,
) -> Result<SubtitleDocumentModel, Seq<char>> {
    if !success {
        Err(spec_command_error("ffmpeg"@, stderr))
    } else if !valid_utf8(stdout) {
        Err("字幕不是 UTF-8 文本，暂时无法在编辑器中打开。"@)
    } else {
        let content = decode_utf8(stdout);
        Ok(
            SubtitleDocumentModel {
                content: if format == "srt"@ {
                    spec_normalize_srt_line_endings(content)
                } else {
                    content
                },
                format,
                codec_name,
            },
        )
    }
}

fn text_vec(v: &[char]) -> (r: String)
    ensures
        r@ == v@,
{
    crate::text::string_of(v)
}

/// `prefix` followed by the decimal digits of `n`.
fn with_number(prefix: &str, n: u64) -> (r: String)
    ensures
        r@ == prefix@ + decimal(n as nat),
{
    let mut out = chars_of(prefix);
    push_u64(&mut out, n);
    text_vec(&out)
}

impl CliFfmpegService {
    /// The media file at `path` that a probe describes.
    pub fn media_file(&self, path: &str, probe: ProbeResult) -> (r: MediaFile)
        ensures
            (r.path@, r.name@, r.duration.deep_view(), media_streams_view(r.streams@))
                == spec_cli_media_file(path@, streams_view(probe.streams@), format_view(probe.format)),
    {
        let mut streams: Vec<MediaStream> = Vec::new();
        let mut i: usize = 0;
        while i < probe.streams.len()
            invariant
                i <= probe.streams.len(),
                streams.len() == i,
                forall|j: int|
                    0 <= j < i ==> (#[trigger] streams@[j])@ == spec_cli_media_stream(
                        probe.streams@[j]@,
                    ),
            decreases probe.streams.len() - i,
        {
            streams.push(media_stream_of(&probe.streams[i]));
            i = i + 1;
        }
        assert(media_streams_view(streams@) =~= cli_media_streams(streams_view(probe.streams@)));
        let duration = match probe.format {
            Some(f) => f.duration,
            None => None,
        };
        MediaFile { path: path.to_owned(), name: media_name(path), duration, streams }
    }

    /// What reading subtitle stream `stream_index` of the input at `path`
    /// runs: the stream must be editable; `ffmpeg` then writes it in its text
    /// format to its output.
    pub fn read_subtitle_arguments(&self, probe: &ProbeResult, path: &str, stream_index: u32) -> (r:
        Result<SubtitleRead, String>)
        ensures
            match r {
                Ok(read) => spec_read_subtitle_plan(probe.streams@, path@, stream_index) == Ok::<
                    _,
                    Seq<char>,
                >((read.arguments@.map_values(|a: String| a@), read.format@, read.codec_name@)),
                Err(e) => spec_read_subtitle_plan(probe.streams@, path@, stream_index) == Err::<
                    (Seq<Seq<char>>, Seq<char>, Seq<char>),
                    _,
                >(e@),
            },
    {
        let stream = match self.editable_stream(probe, stream_index) {
            Ok(s) => s,
            Err(e) => return Err(e),
        };
        let source_codec_name = match &stream.codec_name {
            Some(c) => c.as_str(),
            None => "",
        };
        let codec_name = canonical_codec_name(source_codec_name);
        proof {
            crate::media::lemma_canonical_codec_name(source_codec_name@);
        }
        let format = match subtitle_specification(codec_name.as_str()) {
            Some((f, _)) => f,
            None => return Err("目前可编辑 SRT、ASS/SSA 和 WebVTT 字幕流；图形字幕会保留但不可编辑。".to_owned()),
        };
        let mut arguments: Vec<String> = Vec::new();
        arguments.push("-v".to_owned());
        arguments.push("error".to_owned());
        arguments.push("-i".to_owned());
        arguments.push(path.to_owned());
        arguments.push("-map".to_owned());
        arguments.push(with_number("0:", stream_index as u64));
        arguments.push("-f".to_owned());
        arguments.push(format.to_owned());
        arguments.push("-".to_owned());
        assert(arguments@.map_values(|a: String| a@) =~= spec_read_arguments(
            path@,
            stream_index,
            format@,
        ));
        Ok(SubtitleRead { arguments, format, codec_name })
    }

    /// The subtitle document that a run of `read_subtitle_arguments` gives,
    /// from its exit status and outputs.
    pub fn read_subtitle_document(
        &self,
        format: &str,
        codec_name: String,
        success: bool,
        stdout: &[u8],
        stderr: &[u8],
    ) -> (r: Result<SubtitleDocument, String>)
        ensures
            match r {
                Ok(d) => spec_read_subtitle_output(format@, codec_name@, success, stdout@, stderr@)
                    == Ok::<_, Seq<char>>(d@),
                Err(e) => spec_read_subtitle_output(format@, codec_name@, success, stdout@, stderr@)
                    == Err::<SubtitleDocumentModel, _>(e@),
            },
    {
        if !success {
            return Err(self.command_error("ffmpeg", stderr));
        }
        let content = match crate::text::utf8_text(stdout) {
            Some(c) => c,
            None => return Err("字幕不是 UTF-8 文本，暂时无法在编辑器中打开。".to_owned()),
        };
        let content = if crate::text::str_eq(format, "srt") {
            normalize_srt_line_endings(content)
        } else {
            content
        };
        Ok(SubtitleDocument { content, format: format.to_owned(), codec_name })
    }
}

// ---------------------------------------------------------------------------
// Remuxing with the `ffmpeg` program
// ---------------------------------------------------------------------------
/// A list of strings, as text.
pub open spec fn strings_view(v: Seq<String>) -> Seq<Seq<char>> {
    v.map_values(|a: String| a@)
}

/// The first edit of stream `index`.
pub open spec fn first_edit(edits: Seq<SubtitleEdit>, index: u32) -> Option<int> {
    if exists|k: int| 0 <= k < edits.len() && edits[k].stream_index == index {
        Some(
            choose|k: int|
                0 <= k < edits.len() && edits[k].stream_index == index && forall|j: int|
                    0 <= j < k ==> edits[j].stream_index != index,
        )
    } else {
        None
    }
}

/// Finds the first edit of stream `index`.
pub fn find_edit(edits: &[SubtitleEdit], index: u32) -> (r: Option<usize>)
    ensures
        match r {
            Some(k) => k < edits.len() && edits@[k as int].stream_index == index && forall|j: int|
                0 <= j < k ==> edits@[j].stream_index != index,
            None => forall|j: int| 0 <= j < edits.len() ==> edits@[j].stream_index != index,
        },
        r matches Some(k) ==> first_edit(edits@, index) == Some(k as int),
        r is None ==> first_edit(edits@, index) is None,
{
    let mut k: usize = 0;
    while k < edits.len()
        invariant
            k <= edits.len(),
            forall|j: int| 0 <= j < k ==> edits@[j].stream_index != index,
        decreases edits.len() - k,
    {
        if edits[k].stream_index == index {
            proof {
                let c = choose|c: int|
                    0 <= c < edits@.len() && edits@[c].stream_index == index && forall|j: int|
                        0 <= j < c ==> edits@[j].stream_index != index;
                if c > k {
                    assert(edits@[k as int].stream_index == index);
                }
            }
            return Some(k);
        }
        k = k + 1;
    }
    None
}

pub open spec fn duplicate_message(index: u32) -> Seq<char> {
    "字幕流 #"@ + decimal(index as nat) + " 被重复提交。"@
}

/// The output format of one edit, given the edits before it: no stream may
/// be edited twice, the edited stream must be editable, and the format, the
/// edit's or else the source's, must be `ass` or `srt`.
#[verifier::opaque]
pub open spec fn edit_format(streams: Seq<ProbeStream>, prior: Seq<SubtitleEdit>, edit: SubtitleEdit) -> Result<
    Seq<char>,
    Seq<char>,
> {
    if first_edit(prior, edit.stream_index) is Some {
        Err(duplicate_message(edit.stream_index))
    } else {
        match spec_editable_stream(streams, edit.stream_index) {
            Err(e) => Err(e),
            Ok(i) => {
                let source_format = spec_subtitle_specification(
                    streams[i].codec_name.unwrap()@,
                ).unwrap().0;
                let format = match edit.format {
                    Some(f) => f@,
                    None => source_format,
                };
                if spec_subtitle_codec_id(format) is None {
                    Err("字幕格式只能是 ass 或 srt。"@)
                } else {
                    Ok(format)
                }
            },
        }
    }
}

/// The output format of each edit, or the first edit's error.
pub open spec fn edit_formats(streams: Seq<ProbeStream>, edits: Seq<SubtitleEdit>) -> Result<
    Seq<Seq<char>>,
    Seq<char>,
>
    decreases edits.len(),
{
    if edits.len() == 0 {
        Ok(seq![])
    } else {
        match edit_formats(streams, edits.drop_last()) {
            Err(e) => Err(e),
            Ok(formats) => match edit_format(streams, edits.drop_last(), edits.last()) {
                Err(e) => Err(e),
                Ok(f) => Ok(formats.push(f)),
            },
        }
    }
}

/// Whether some stream of `streams` is subtitle stream `index`.
pub open spec fn has_subtitle_stream(streams: Seq<ProbeStream>, index: u32) -> bool {
    exists|i: int|
        0 <= i < streams.len() && streams[i].index == index && streams[i].codec_type
            == MediaStreamType::Subtitle
}

/// The checks before remuxing with `ffmpeg`, in order: some stream selected;
/// the default subtitle, if any, selected and a subtitle stream; then the
/// edits, each giving its output format.
pub open spec fn spec_cli_remux_formats(
    streams: Seq<ProbeStream>,
    edits: Seq<SubtitleEdit>,
    selected: Seq<u32>,
    default_subtitle: Option<u32>,
) -> Result<Seq<Seq<char>>, Seq<char>> {
    if selected.len() == 0 {
        Err("请至少选择一条要导出的流。"@)
    } else if default_subtitle matches Some(d) && (!selected.contains(d) || !has_subtitle_stream(
        streams,
        d,
    )) {
        Err("默认字幕必须是要导出的字幕流。"@)
    } else {
        edit_formats(streams, edits)
    }
}

fn contains_u32(v: &[u32], x: u32) -> (r: bool)
    ensures
        r == v@.contains(x),
{
    let mut i: usize = 0;
    while i < v.len()
        invariant
            i <= v.len(),
            forall|j: int| 0 <= j < i ==> v@[j] != x,
        decreases v.len() - i,
    {
        if v[i] == x {
            assert(v@[i as int] == x);
            return true;
        }
        i = i + 1;
    }
    false
}

fn has_subtitle(streams: &Vec<ProbeStream>, index: u32) -> (r: bool)
    ensures
        r == has_subtitle_stream(streams@, index),
{
    let mut i: usize = 0;
    while i < streams.len()
        invariant
            i <= streams.len(),
            forall|j: int|
                0 <= j < i ==> !(streams@[j].index == index && streams@[j].codec_type
                    == MediaStreamType::Subtitle),
        decreases streams.len() - i,
    {
        if streams[i].index == index && streams[i].codec_type == MediaStreamType::Subtitle {
            return true;
        }
        i = i + 1;
    }
    false
}

/// One font to attach with `ffmpeg -attach`: the file to attach, and the
/// file name and MIME type to record for it.
pub struct CliAttachment {
    pub path: String,
    pub filename: String,
    pub mime_type: &'static str,
}

impl CliFfmpegService {
    /// The checks before remuxing, in the order they are made, and the
    /// output format of each edit.
    pub fn remux_formats(
        &self,
        probe: &ProbeResult,
        edits: &[SubtitleEdit],
        selected_stream_indices: &[u32],
        default_subtitle_stream_index: Option<u32>,
    ) -> (r: Result<Vec<&'static str>, String>)
        ensures
            match r {
                Ok(formats) => spec_cli_remux_formats(
                    probe.streams@,
                    edits@,
                    selected_stream_indices@,
                    default_subtitle_stream_index,
                ) == Ok::<_, Seq<char>>(formats@.map_values(|f: &'static str| f@)),
                Err(e) => spec_cli_remux_formats(
                    probe.streams@,
                    edits@,
                    selected_stream_indices@,
                    default_subtitle_stream_index,
                ) == Err::<Seq<Seq<char>>, _>(e@),
            },
    {
        if selected_stream_indices.len() == 0 {
            return Err("请至少选择一条要导出的流。".to_owned());
        }
        if let Some(d) = default_subtitle_stream_index {
            if !contains_u32(selected_stream_indices, d) || !has_subtitle(&probe.streams, d) {
                return Err("默认字幕必须是要导出的字幕流。".to_owned());
            }
        }
        let mut formats: Vec<&'static str> = Vec::new();
        let mut k: usize = 0;
        assert(edits@.take(0) =~= Seq::<SubtitleEdit>::empty());
        assert(formats@.map_values(|f: &'static str| f@) =~= Seq::<Seq<char>>::empty());
        while k < edits.len()
            invariant
                k <= edits.len(),
                spec_cli_remux_formats(
                    probe.streams@,
                    edits@,
                    selected_stream_indices@,
                    default_subtitle_stream_index,
                ) == edit_formats(probe.streams@, edits@),
                edit_formats(probe.streams@, edits@.take(k as int)) == Ok::<_, Seq<char>>(
                    formats@.map_values(|f: &'static str| f@),
                ),
            decreases edits.len() - k,
        {
            let ghost prefix = edits@.take(k as int);
            assert(edits@.take(k + 1).drop_last() =~= prefix);
            assert(edits@.subrange(0, k as int) =~= prefix);
            match self.edit_format(probe, &edits[0..k], &edits[k]) {
                Ok(format) => {
                    let ghost before = formats@;
                    formats.push(format);
                    assert(formats@.map_values(|f: &'static str| f@) =~= before.map_values(
                        |f: &'static str| f@,
                    ).push(format@));
                },
                Err(e) => {
                    proof {
                        lemma_edit_formats_error(probe.streams@, edits@, k as int + 1);
                    }
                    return Err(e);
                },
            }
            k = k + 1;
        }
        assert(edits@.take(edits.len() as int) =~= edits@);
        Ok(formats)
    }
}

impl CliFfmpegService {
    /// The output format of `edit`, given the edits before it.
    pub fn edit_format(&self, probe: &ProbeResult, prior: &[SubtitleEdit], edit: &SubtitleEdit) -> (r:
        Result<&'static str, String>)
        ensures
            match r {
                Ok(f) => edit_format(probe.streams@, prior@, *edit) == Ok::<_, Seq<char>>(f@),
                Err(e) => edit_format(probe.streams@, prior@, *edit) == Err::<Seq<char>, _>(e@),
            },
    {
        reveal(edit_format);
        if find_edit(prior, edit.stream_index).is_some() {
            let mut m = crate::text::chars_of("字幕流 #");
            push_u64(&mut m, edit.stream_index as u64);
            crate::text::push_str(&mut m, " 被重复提交。");
            return Err(text_vec(&m));
        }
        let stream = match self.editable_stream(probe, edit.stream_index) {
            Ok(s) => s,
            Err(e) => return Err(e),
        };
        let codec_name = match &stream.codec_name {
            Some(c) => c.as_str(),
            None => "",
        };
        let source_format = match subtitle_specification(codec_name) {
            Some((f, _)) => f,
            None => "",
        };
        proof {
            reveal_strlit("srt");
            reveal_strlit("ass");
        }
        match &edit.format {
            Some(f) => match subtitle_codec_id(f.as_str()) {
                Some(crate::media::SubtitleCodecId::Subrip) => Ok("srt"),
                Some(crate::media::SubtitleCodecId::Ass) => Ok("ass"),
                None => Err("字幕格式只能是 ass 或 srt。".to_owned()),
            },
            None => {
                if subtitle_codec_id(source_format).is_none() {
                    return Err("字幕格式只能是 ass 或 srt。".to_owned());
                }
                Ok(source_format)
            },
        }
    }
}

/// Once the checks of a prefix of the edits fail, those of all edits fail
/// with the same error.
proof fn lemma_edit_formats_error(streams: Seq<ProbeStream>, edits: Seq<SubtitleEdit>, k: int)
    requires
        0 <= k <= edits.len(),
        edit_formats(streams, edits.take(k)) is Err,
    ensures
        edit_formats(streams, edits) == edit_formats(streams, edits.take(k)),
    decreases edits.len() - k,
{
    if k < edits.len() {
        assert(edits.take(k + 1).drop_last() =~= edits.take(k));
        lemma_edit_formats_error(streams, edits, k + 1);
    } else {
        assert(edits.take(k) =~= edits);
    }
}

/// A list of string slices, as text.
pub open spec fn strs_view(v: Seq<&str>) -> Seq<Seq<char>> {
    v.map_values(|a: &str| a@)
}

/// The address at which the subtitle server serves the text of stream
/// `index`.
pub open spec fn url_of(base_url: Seq<char>, index: u32) -> Seq<char> {
    base_url + "/"@ + decimal(index as nat)
}

/// The inputs that the edits add: each edited text, read from the subtitle
/// server in its output format.
pub open spec fn edit_inputs(edits: Seq<SubtitleEdit>, formats: Seq<Seq<char>>, base_url: Seq<char>) -> Seq<
    Seq<char>,
>
    decreases edits.len(),
{
    if edits.len() == 0 {
        seq![]
    } else {
        edit_inputs(edits.drop_last(), formats, base_url) + seq![
            "-f"@,
            formats[edits.len() - 1],
            "-i"@,
            url_of(base_url, edits.last().stream_index),
        ]
    }
}

/// The source of one output stream: the input of its first edit, or the
/// stream itself in the first input.
pub open spec fn map_target(edits: Seq<SubtitleEdit>, stream: ProbeStream) -> Seq<char> {
    match first_edit(edits, stream.index) {
        Some(k) => decimal((k + 1) as nat) + ":0"@,
        None => "0:"@ + decimal(stream.index as nat),
    }
}

/// The `-map` arguments: the selected streams in their order in the input, an
/// edited stream taken from its edit's input.
pub open spec fn stream_maps(streams: Seq<ProbeStream>, edits: Seq<SubtitleEdit>, selected: Seq<u32>) -> Seq<
    Seq<char>,
>
    decreases streams.len(),
{
    if streams.len() == 0 {
        seq![]
    } else {
        let rest = stream_maps(streams.drop_last(), edits, selected);
        if selected.contains(streams.last().index) {
            rest + seq!["-map"@, map_target(edits, streams.last())]
        } else {
            rest
        }
    }
}

/// The selected streams, in order.
pub open spec fn selected_streams(streams: Seq<ProbeStream>, selected: Seq<u32>) -> Seq<ProbeStream>
    decreases streams.len(),
{
    if streams.len() == 0 {
        seq![]
    } else {
        let rest = selected_streams(streams.drop_last(), selected);
        if selected.contains(streams.last().index) {
            rest.push(streams.last())
        } else {
            rest
        }
    }
}

/// How many streams of `streams` are of type `kind`.
pub open spec fn count_kind(streams: Seq<ProbeStream>, kind: MediaStreamType) -> nat
    decreases streams.len(),
{
    if streams.len() == 0 {
        0
    } else {
        count_kind(streams.drop_last(), kind) + if streams.last().codec_type == kind {
            1nat
        } else {
            0nat
        }
    }
}

/// The metadata arguments of one output stream: number `output_index` among
/// the outputs and `subtitle_index` among the output subtitles.
pub open spec fn metadata_for(
    stream: ProbeStream,
    output_index: nat,
    subtitle_index: nat,
    edits: Seq<SubtitleEdit>,
    default_subtitle: Option<u32>,
) -> Seq<Seq<char>> {
    let edit = first_edit(edits, stream.index);
    let language = match edit {
        Some(k) => edits[k].language.deep_view(),
        None => None,
    };
    let title = match edit {
        Some(k) => edits[k].title.deep_view(),
        None => None,
    };
    seq!["-map_metadata:s:"@ + decimal(output_index), "0:s:"@ + decimal(stream.index as nat)]
        + match language {
        Some(l) => seq!["-metadata:s:"@ + decimal(output_index), "language="@ + l],
        None => seq![],
    } + match title {
        Some(t) => seq!["-metadata:s:"@ + decimal(output_index), "title="@ + t],
        None => seq![],
    } + if stream.codec_type == MediaStreamType::Subtitle {
        seq![
            "-disposition:s:"@ + decimal(subtitle_index),
            if default_subtitle == Some(stream.index) {
                "+default"@
            } else {
                "-default"@
            },
        ]
    } else {
        seq![]
    }
}

/// The metadata arguments of the output streams `outputs`, in order.
pub open spec fn stream_metadata(
    outputs: Seq<ProbeStream>,
    edits: Seq<SubtitleEdit>,
    default_subtitle: Option<u32>,
) -> Seq<Seq<char>>
    decreases outputs.len(),
{
    if outputs.len() == 0 {
        seq![]
    } else {
        stream_metadata(outputs.drop_last(), edits, default_subtitle) + metadata_for(
            outputs.last(),
            (outputs.len() - 1) as nat,
            count_kind(outputs.drop_last(), MediaStreamType::Subtitle),
            edits,
            default_subtitle,
        )
    }
}

/// The arguments that attach the fonts, numbered after the `first`
/// attachments already selected.
pub open spec fn attachment_args(attachments: Seq<CliAttachment>, first: nat) -> Seq<Seq<char>>
    decreases attachments.len(),
{
    if attachments.len() == 0 {
        seq![]
    } else {
        let n = (first + attachments.len() - 1) as nat;
        let a = attachments.last();
        attachment_args(attachments.drop_last(), first) + seq![
            "-attach"@,
            a.path@,
            "-metadata:s:t:"@ + decimal(n),
            "filename="@ + a.filename@,
            "-metadata:s:t:"@ + decimal(n),
            "mimetype="@ + a.mime_type@,
        ]
    }
}

/// The metadata key of attachment stream `n`.
pub open spec fn attachment_key(n: nat) -> Seq<char> {
    "-metadata:s:t:"@ + decimal(n)
}

/// Different attachment streams have different metadata keys.
pub proof fn lemma_attachment_key_distinct(x: nat, y: nat)
    ensures
        attachment_key(x) == attachment_key(y) <==> x == y,
{
    if attachment_key(x) == attachment_key(y) {
        let p = "-metadata:s:t:"@;
        assert(attachment_key(x).skip(p.len() as int) =~= decimal(x));
        assert(attachment_key(y).skip(p.len() as int) =~= decimal(y));
        crate::number::lemma_decimal(x);
        crate::number::lemma_decimal(y);
    }
}

/// Whether the six arguments of `s` from `6 * k` attach the font `a` as
/// attachment stream `n`: its path, then its file name and MIME type set on
/// that stream.
pub open spec fn attaches_at(s: Seq<Seq<char>>, k: int, a: CliAttachment, n: nat) -> bool {
    &&& s[6 * k] == "-attach"@
    &&& s[6 * k + 1] == a.path@
    &&& s[6 * k + 2] == attachment_key(n)
    &&& s[6 * k + 3] == "filename="@ + a.filename@
    &&& s[6 * k + 4] == attachment_key(n)
    &&& s[6 * k + 5] == "mimetype="@ + a.mime_type@
}

/// The fonts are attached in order, six arguments each: the `k`-th font
/// (from 0) is attached from its path, and its file name and MIME type are
/// set on attachment stream `first + k`, after the `first` attachment
/// streams already selected.
pub proof fn lemma_attachment_args(attachments: Seq<CliAttachment>, first: nat)
    ensures
        attachment_args(attachments, first).len() == 6 * attachments.len(),
        forall|k: int|
            0 <= k < attachments.len() ==> attaches_at(
                attachment_args(attachments, first),
                k,
                #[trigger] attachments[k],
                (first + k) as nat,
            ),
    decreases attachments.len(),
{
    let s = attachment_args(attachments, first);
    if attachments.len() > 0 {
        let rest = attachments.drop_last();
        lemma_attachment_args(rest, first);
        let r = attachment_args(rest, first);
        let a = attachments.last();
        let key = "-metadata:s:t:"@ + decimal((first + attachments.len() - 1) as nat);
        let six = seq![
            "-attach"@,
            a.path@,
            key,
            "filename="@ + a.filename@,
            key,
            "mimetype="@ + a.mime_type@,
        ];
        assert(s == r + six);
        assert forall|k: int| 0 <= k < attachments.len() implies attaches_at(
            s,
            k,
            #[trigger] attachments[k],
            (first + k) as nat,
        ) by {
            if k < rest.len() {
                assert(rest[k] == attachments[k]);
                assert(attaches_at(r, k, rest[k], (first + k) as nat));
                assert(s[6 * k] == r[6 * k]);
                assert(s[6 * k + 1] == r[6 * k + 1]);
                assert(s[6 * k + 2] == r[6 * k + 2]);
                assert(s[6 * k + 3] == r[6 * k + 3]);
                assert(s[6 * k + 4] == r[6 * k + 4]);
                assert(s[6 * k + 5] == r[6 * k + 5]);
            } else {
                assert(k == rest.len());
                assert(key == attachment_key((first + k) as nat));
                assert(s[6 * k] == six[0]);
                assert(s[6 * k + 1] == six[1]);
                assert(s[6 * k + 2] == six[2]);
                assert(s[6 * k + 3] == six[3]);
                assert(s[6 * k + 4] == six[4]);
                assert(s[6 * k + 5] == six[5]);
            }
        }
    }
}

/// Two different fonts have their file names and MIME types set on two
/// different attachment streams.
pub proof fn lemma_attachment_streams_differ(attachments: Seq<CliAttachment>, first: nat, j: int, k: int)
    requires
        0 <= j < attachments.len(),
        0 <= k < attachments.len(),
        j != k,
    ensures
        attachment_args(attachments, first)[6 * j + 2] != attachment_args(attachments, first)[6 * k
            + 2],
        attachment_args(attachments, first)[6 * j + 4] != attachment_args(attachments, first)[6 * k
            + 4],
{
    lemma_attachment_args(attachments, first);
    let s = attachment_args(attachments, first);
    assert(attaches_at(s, j, attachments[j], (first + j) as nat));
    assert(attaches_at(s, k, attachments[k], (first + k) as nat));
    lemma_attachment_key_distinct((first + j) as nat, (first + k) as nat);
}

/// The arguments of the `ffmpeg` run that remuxes `input` into `output`:
/// the input, each edit's text as one more input, the selected streams in
/// their order with edited ones replaced, their metadata and the edits'
/// languages and titles, the default subtitle flag, the fonts, and a stream
/// copy that keeps the chapters.
pub open spec fn spec_cli_remux_arguments(
    input: Seq<char>,
    output: Seq<char>,
    streams: Seq<ProbeStream>,
    edits: Seq<SubtitleEdit>,
    formats: Seq<Seq<char>>,
    selected: Seq<u32>,
    default_subtitle: Option<u32>,
    base_url: Seq<char>,
    attachments: Seq<CliAttachment>,
) -> Seq<Seq<char>> {
    let outputs = selected_streams(streams, selected);
    seq!["-v"@, "error"@, "-i"@, input] + edit_inputs(edits, formats, base_url) + stream_maps(
        streams,
        edits,
        selected,
    ) + seq!["-map_metadata"@, "0"@] + stream_metadata(outputs, edits, default_subtitle)
        + attachment_args(attachments, count_kind(outputs, MediaStreamType::Attachment)) + seq![
        "-map_chapters"@,
        "0"@,
        "-c"@,
        "copy"@,
        "-y"@,
        output,
    ]
}

/// The remux run ends by attaching the fonts, in order, and then copying
/// the streams with the chapters into `output`: the `k`-th font's file name
/// and MIME type go to attachment stream `c + k`, `c` being the number of
/// attachment streams among the selected ones.
pub proof fn lemma_remux_attaches_fonts(
    input: Seq<char>,
    output: Seq<char>,
    streams: Seq<ProbeStream>,
    edits: Seq<SubtitleEdit>,
    formats: Seq<Seq<char>>,
    selected: Seq<u32>,
    default_subtitle: Option<u32>,
    base_url: Seq<char>,
    attachments: Seq<CliAttachment>,
)
    ensures
        ({
            let a = spec_cli_remux_arguments(
                input,
                output,
                streams,
                edits,
                formats,
                selected,
                default_subtitle,
                base_url,
                attachments,
            );
            let c = count_kind(selected_streams(streams, selected), MediaStreamType::Attachment);
            let base = a.len() - 6 - 6 * attachments.len();
            &&& base >= 0
            &&& a.skip(a.len() - 6) == seq!["-map_chapters"@, "0"@, "-c"@, "copy"@, "-y"@, output]
            &&& forall|k: int|
                0 <= k < attachments.len() ==> attaches_at(
                    a.skip(base),
                    k,
                    #[trigger] attachments[k],
                    (c + k) as nat,
                )
        }),
{
    let outputs = selected_streams(streams, selected);
    let c = count_kind(outputs, MediaStreamType::Attachment);
    let prefix = seq!["-v"@, "error"@, "-i"@, input] + edit_inputs(edits, formats, base_url) + stream_maps(
        streams,
        edits,
        selected,
    ) + seq!["-map_metadata"@, "0"@] + stream_metadata(outputs, edits, default_subtitle);
    let fonts = attachment_args(attachments, c);
    let tail = seq!["-map_chapters"@, "0"@, "-c"@, "copy"@, "-y"@, output];
    let a = spec_cli_remux_arguments(
        input,
        output,
        streams,
        edits,
        formats,
        selected,
        default_subtitle,
        base_url,
        attachments,
    );
    assert(a == prefix + fonts + tail);
    lemma_attachment_args(attachments, c);
    let base = a.len() - 6 - 6 * attachments.len();
    assert(base == prefix.len());
    assert(a.skip(a.len() - 6) =~= tail);
    assert(a.skip(base) =~= fonts + tail);
    assert forall|k: int| 0 <= k < attachments.len() implies attaches_at(
        a.skip(base),
        k,
        #[trigger] attachments[k],
        (c + k) as nat,
    ) by {
        assert(attaches_at(fonts, k, attachments[k], (c + k) as nat));
        assert(a.skip(base)[6 * k] == fonts[6 * k]);
        assert(a.skip(base)[6 * k + 1] == fonts[6 * k + 1]);
        assert(a.skip(base)[6 * k + 2] == fonts[6 * k + 2]);
        assert(a.skip(base)[6 * k + 3] == fonts[6 * k + 3]);
        assert(a.skip(base)[6 * k + 4] == fonts[6 * k + 4]);
        assert(a.skip(base)[6 * k + 5] == fonts[6 * k + 5]);
    }
}

fn push_arg(args: &mut Vec<String>, a: String)
    ensures
        strings_view(final(args)@) == strings_view(old(args)@).push(a@),
{
    args.push(a);
    assert(strings_view(args@) =~= strings_view(old(args)@).push(a@));
}

fn concat(a: &str, b: &str) -> (r: String)
    ensures
        r@ == a@ + b@,
{
    let mut out = chars_of(a);
    crate::text::push_str(&mut out, b);
    text_vec(&out)
}

fn number_then(n: u64, suffix: &str) -> (r: String)
    ensures
        r@ == decimal(n as nat) + suffix@,
{
    let mut out: Vec<char> = Vec::new();
    push_u64(&mut out, n);
    crate::text::push_str(&mut out, suffix);
    text_vec(&out)
}

fn url(base_url: &str, index: u32) -> (r: String)
    ensures
        r@ == url_of(base_url@, index),
{
    let mut out = chars_of(base_url);
    out.push('/');
    push_u64(&mut out, index as u64);
    proof {
        reveal_strlit("/");
    }
    assert(out@ =~= url_of(base_url@, index));
    text_vec(&out)
}

fn push_edit_inputs(args: &mut Vec<String>, edits: &[SubtitleEdit], formats: &[&str], base_url: &str)
    requires
        formats.len() == edits.len(),
    ensures
        strings_view(final(args)@) == strings_view(old(args)@) + edit_inputs(
            edits@,
            strs_view(formats@),
            base_url@,
        ),
{
    let ghost f = strs_view(formats@);
    let mut k: usize = 0;
    assert(edits@.take(0) =~= Seq::<SubtitleEdit>::empty());
    assert(strings_view(args@) =~= strings_view(old(args)@) + Seq::<Seq<char>>::empty());
    while k < edits.len()
        invariant
            k <= edits.len() == formats.len(),
            f == strs_view(formats@),
            strings_view(args@) == strings_view(old(args)@) + edit_inputs(
                edits@.take(k as int),
                f,
                base_url@,
            ),
        decreases edits.len() - k,
    {
        let ghost before = strings_view(args@);
        assert(edits@.take(k + 1).drop_last() =~= edits@.take(k as int));
        push_arg(args, "-f".to_owned());
        push_arg(args, formats[k].to_owned());
        push_arg(args, "-i".to_owned());
        push_arg(args, url(base_url, edits[k].stream_index));
        assert(strings_view(args@) =~= strings_view(old(args)@) + edit_inputs(
            edits@.take(k + 1),
            f,
            base_url@,
        ));
        k = k + 1;
    }
    assert(edits@.take(edits.len() as int) =~= edits@);
}

fn push_stream_maps(args: &mut Vec<String>, streams: &Vec<ProbeStream>, edits: &[SubtitleEdit], selected: &[u32])
    ensures
        strings_view(final(args)@) == strings_view(old(args)@) + stream_maps(
            streams@,
            edits@,
            selected@,
        ),
{
    let mut i: usize = 0;
    assert(streams@.take(0) =~= Seq::<ProbeStream>::empty());
    assert(strings_view(args@) =~= strings_view(old(args)@) + Seq::<Seq<char>>::empty());
    while i < streams.len()
        invariant
            i <= streams.len(),
            strings_view(args@) == strings_view(old(args)@) + stream_maps(
                streams@.take(i as int),
                edits@,
                selected@,
            ),
        decreases streams.len() - i,
    {
        assert(streams@.take(i + 1).drop_last() =~= streams@.take(i as int));
        let stream = &streams[i];
        if contains_u32(selected, stream.index) {
            push_arg(args, "-map".to_owned());
            let target = match find_edit(edits, stream.index) {
                Some(k) => number_then(k as u64 + 1, ":0"),
                None => with_number("0:", stream.index as u64),
            };
            push_arg(args, target);
        }
        assert(strings_view(args@) =~= strings_view(old(args)@) + stream_maps(
            streams@.take(i + 1),
            edits@,
            selected@,
        ));
        i = i + 1;
    }
    assert(streams@.take(streams.len() as int) =~= streams@);
}

fn push_metadata_for(
    args: &mut Vec<String>,
    stream: &ProbeStream,
    output_index: u64,
    subtitle_index: u64,
    edits: &[SubtitleEdit],
    default_subtitle: Option<u32>,
)
    ensures
        strings_view(final(args)@) == strings_view(old(args)@) + metadata_for(
            *stream,
            output_index as nat,
            subtitle_index as nat,
            edits@,
            default_subtitle,
        ),
{
    push_arg(args, with_number("-map_metadata:s:", output_index));
    push_arg(args, with_number("0:s:", stream.index as u64));
    let edit = find_edit(edits, stream.index);
    let ghost after_map = strings_view(args@);
    if let Some(k) = edit {
        if let Some(language) = &edits[k].language {
            push_arg(args, with_number("-metadata:s:", output_index));
            push_arg(args, concat("language=", language.as_str()));
        }
    }
    let ghost after_language = strings_view(args@);
    if let Some(k) = edit {
        if let Some(title) = &edits[k].title {
            push_arg(args, with_number("-metadata:s:", output_index));
            push_arg(args, concat("title=", title.as_str()));
        }
    }
    let ghost after_title = strings_view(args@);
    if stream.codec_type == MediaStreamType::Subtitle {
        push_arg(args, with_number("-disposition:s:", subtitle_index));
        if default_subtitle == Some(stream.index) {
            push_arg(args, "+default".to_owned());
        } else {
            push_arg(args, "-default".to_owned());
        }
    }
    assert(strings_view(args@) =~= strings_view(old(args)@) + metadata_for(
        *stream,
        output_index as nat,
        subtitle_index as nat,
        edits@,
        default_subtitle,
    ));
}

fn push_stream_metadata(
    args: &mut Vec<String>,
    streams: &Vec<ProbeStream>,
    edits: &[SubtitleEdit],
    selected: &[u32],
    default_subtitle: Option<u32>,
) -> (attachments: u64)
    ensures
        strings_view(final(args)@) == strings_view(old(args)@) + stream_metadata(
            selected_streams(streams@, selected@),
            edits@,
            default_subtitle,
        ),
        attachments == count_kind(selected_streams(streams@, selected@), MediaStreamType::Attachment),
{
    let mut i: usize = 0;
    let mut output_index: u64 = 0;
    let mut subtitle_index: u64 = 0;
    let mut attachments: u64 = 0;
    assert(streams@.take(0) =~= Seq::<ProbeStream>::empty());
    assert(strings_view(args@) =~= strings_view(old(args)@) + Seq::<Seq<char>>::empty());
    while i < streams.len()
        invariant
            i <= streams.len(),
            output_index == selected_streams(streams@.take(i as int), selected@).len(),
            subtitle_index == count_kind(
                selected_streams(streams@.take(i as int), selected@),
                MediaStreamType::Subtitle,
            ),
            attachments == count_kind(
                selected_streams(streams@.take(i as int), selected@),
                MediaStreamType::Attachment,
            ),
            output_index <= i,
            subtitle_index <= output_index,
            attachments <= output_index,
            strings_view(args@) == strings_view(old(args)@) + stream_metadata(
                selected_streams(streams@.take(i as int), selected@),
                edits@,
                default_subtitle,
            ),
        decreases streams.len() - i,
    {
        let ghost outputs = selected_streams(streams@.take(i as int), selected@);
        assert(streams@.take(i + 1).drop_last() =~= streams@.take(i as int));
        let stream = &streams[i];
        if contains_u32(selected, stream.index) {
            proof {
                lemma_count_kind_bound(outputs, MediaStreamType::Subtitle);
                lemma_count_kind_bound(outputs, MediaStreamType::Attachment);
                assert(outputs.push(*stream).drop_last() =~= outputs);
            }
            push_metadata_for(args, stream, output_index, subtitle_index, edits, default_subtitle);
            output_index = output_index + 1;
            if stream.codec_type == MediaStreamType::Subtitle {
                subtitle_index = subtitle_index + 1;
            }
            if stream.codec_type == MediaStreamType::Attachment {
                attachments = attachments + 1;
            }
        }
        i = i + 1;
    }
    assert(streams@.take(streams.len() as int) =~= streams@);
    attachments
}

proof fn lemma_count_kind_bound(streams: Seq<ProbeStream>, kind: MediaStreamType)
    ensures
        count_kind(streams, kind) <= streams.len(),
    decreases streams.len(),
{
    if streams.len() > 0 {
        lemma_count_kind_bound(streams.drop_last(), kind);
    }
}

fn push_attachment_args(args: &mut Vec<String>, attachments: &[CliAttachment], first: u64)
    ensures
        strings_view(final(args)@) == strings_view(old(args)@) + attachment_args(
            attachments@,
            first as nat,
        ),
{
    let mut k: usize = 0;
    assert(attachments@.take(0) =~= Seq::<CliAttachment>::empty());
    assert(strings_view(args@) =~= strings_view(old(args)@) + Seq::<Seq<char>>::empty());
    while k < attachments.len()
        invariant
            k <= attachments.len(),
            strings_view(args@) == strings_view(old(args)@) + attachment_args(
                attachments@.take(k as int),
                first as nat,
            ),
        decreases attachments.len() - k,
    {
        assert(attachments@.take(k + 1).drop_last() =~= attachments@.take(k as int));
        let a = &attachments[k];
        let n: u128 = first as u128 + k as u128;
        let mut number: Vec<char> = Vec::new();
        crate::number::push_decimal(&mut number, n);
        let mut key = chars_of("-metadata:s:t:");
        crate::text::push_all(&mut key, &number);
        push_arg(args, "-attach".to_owned());
        push_arg(args, a.path.clone());
        push_arg(args, text_vec(&key));
        push_arg(args, concat("filename=", a.filename.as_str()));
        push_arg(args, text_vec(&key));
        push_arg(args, concat("mimetype=", a.mime_type));
        assert(strings_view(args@) =~= strings_view(old(args)@) + attachment_args(
            attachments@.take(k + 1),
            first as nat,
        ));
        k = k + 1;
    }
    assert(attachments@.take(attachments.len() as int) =~= attachments@);
}

impl CliFfmpegService {
    /// The arguments of the `ffmpeg` run that remuxes `input` into `output`,
    /// once `remux_formats` has checked the request and given `formats`;
    /// `base_url` is where the subtitle server serves the edited texts.
    pub fn remux_arguments(
        &self,
        input: &str,
        output: &str,
        probe: &ProbeResult,
        edits: &[SubtitleEdit],
        formats: &[&str],
        selected_stream_indices: &[u32],
        default_subtitle_stream_index: Option<u32>,
        base_url: &str,
        attachments: &[CliAttachment],
    ) -> (r: Vec<String>)
        requires
            formats.len() == edits.len(),
        ensures
            strings_view(r@) == spec_cli_remux_arguments(
                input@,
                output@,
                probe.streams@,
                edits@,
                strs_view(formats@),
                selected_stream_indices@,
                default_subtitle_stream_index,
                base_url@,
                attachments@,
            ),
    {
        let mut args: Vec<String> = Vec::new();
        push_arg(&mut args, "-v".to_owned());
        push_arg(&mut args, "error".to_owned());
        push_arg(&mut args, "-i".to_owned());
        push_arg(&mut args, input.to_owned());
        push_edit_inputs(&mut args, edits, formats, base_url);
        push_stream_maps(&mut args, &probe.streams, edits, selected_stream_indices);
        push_arg(&mut args, "-map_metadata".to_owned());
        push_arg(&mut args, "0".to_owned());
        let attachment_count = push_stream_metadata(
            &mut args,
            &probe.streams,
            edits,
            selected_stream_indices,
            default_subtitle_stream_index,
        );
        push_attachment_args(&mut args, attachments, attachment_count);
        push_arg(&mut args, "-map_chapters".to_owned());
        push_arg(&mut args, "0".to_owned());
        push_arg(&mut args, "-c".to_owned());
        push_arg(&mut args, "copy".to_owned());
        push_arg(&mut args, "-y".to_owned());
        push_arg(&mut args, output.to_owned());
        assert(strings_view(args@) =~= spec_cli_remux_arguments(
            input@,
            output@,
            probe.streams@,
            edits@,
            strs_view(formats@),
            selected_stream_indices@,
            default_subtitle_stream_index,
            base_url@,
            attachments@,
        ));
        args
    }
}

} // verus!
