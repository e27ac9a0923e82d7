//! The FFmpeg library back end: what it decides about streams, the subtitle
//! text it assembles from decoded packets, and how it plans a remux. The
//! library calls themselves are made by the caller, which hands over what
//! they return.
use vstd::prelude::*;

use crate::ass::{
    ass_dialogue_defined, dialogue_fields, lemma_ass_dialogue_roundtrip, lemma_dialogue_line,
    packets_view, push_srt_timestamp, rounding_defined, rounding_is_defined, spec_ass_dialogue,
    spec_ass_document_parts, spec_ass_header, spec_ass_packet, spec_ass_packets,
    spec_ass_packets_of, spec_ass_text_as_html, spec_srt_timestamp, whole_centiseconds, Rational,
};
use crate::media::{
    canonical_codec_name, document_view, editable, media_streams_view, normalize_srt_line_endings,
    spec_canonical_codec_name, spec_editable, spec_normalize_srt_line_endings,
    spec_subtitle_codec_id, spec_subtitle_specification, subtitle_codec_id, subtitle_specification,
    MediaStream, MediaStreamModel, MediaStreamType, SubtitleCodecId, SubtitleDocument,
    SubtitleDocumentModel, SubtitleEdit,
};
use crate::number::{clamp_i64, decimal, push_u64, saturating_add};
use crate::text::{
    chars_of, contains, contains_str, find, free_of, lemma_find, lemma_first_occurrence_at,
    lemma_lines_append, lemma_lines_single, lines, occurs_at, push_all, push_str, replace,
    replace_chars, starts_with, str_eq, string_of, trim_end_in, trim_end_pos, trim_start_in,
    CharClass,
};

verus! {

/// An FFmpeg back end that uses the FFmpeg libraries.
#[derive(Debug, Clone, Copy, PartialEq, Eq, Structural)]
pub struct FFIFfmpegService;

/// What the FFmpeg libraries tell of one stream of an input.
#[derive(Debug, Clone, PartialEq)]
pub struct FfiStreamInfo {
    pub index: u32,
    pub stream_type: MediaStreamType,
    /// The name of the decoder found for the stream's codec, if any.
    pub decoder_name: Option<String>,
    /// The description of that decoder.
    pub decoder_description: Option<String>,
    /// The name of the stream's codec id (`none` for none).
    pub codec_id_name: String,
    pub title: Option<String>,
    pub filename: Option<String>,
    pub language: Option<String>,
    pub default_stream: bool,
    pub forced: bool,
}

/// The codec name of a stream: its decoder's name, or else its codec id's
/// name unless that is `none`; made canonical.
pub open spec fn ffi_codec_name(decoder_name: Option<Seq<char>>, codec_id_name: Seq<char>) -> Option<
    Seq<char>,
> {
    match decoder_name {
        Some(n) => Some(spec_canonical_codec_name(n)),
        None => if codec_id_name != "none"@ {
            Some(spec_canonical_codec_name(codec_id_name))
        } else {
            None
        },
    }
}

/// The media stream that a stream of the FFmpeg libraries becomes.
pub open spec fn spec_ffi_media_stream(info: FfiStreamInfo) -> MediaStreamModel {
    let codec_name = ffi_codec_name(info.decoder_name.deep_view(), info.codec_id_name@);
    MediaStreamModel {
        index: info.index,
        stream_type: info.stream_type,
        codec_name,
        codec_description: match info.decoder_description {
            Some(d) => if d@.len() > 0 {
                Some(d@)
            } else {
                None
            },
            None => None,
        },
        title: info.title.deep_view(),
        filename: info.filename.deep_view(),
        language: info.language.deep_view(),
        default_stream: info.default_stream,
        forced: info.forced,
        editable: spec_editable(info.stream_type, codec_name),
        subtitle: None,
    }
}

impl FFIFfmpegService {
    pub fn new() -> (r: Self) {
        FFIFfmpegService
    }

    /// The media stream that a stream of the FFmpeg libraries becomes.
    pub fn media_stream(info: FfiStreamInfo) -> (r: MediaStream)
        ensures
            r@ == spec_ffi_media_stream(info),
    {
        let codec_name = match &info.decoder_name {
            Some(n) => Some(canonical_codec_name(n.as_str())),
            None => if !str_eq(info.codec_id_name.as_str(), "none") {
                Some(canonical_codec_name(info.codec_id_name.as_str()))
            } else {
                None
            },
        };
        let is_editable = editable(info.stream_type, &codec_name);
        let codec_description = match info.decoder_description {
            Some(d) => if !d.as_str().is_empty() {
                Some(d)
            } else {
                None
            },
            None => None,
        };
        let r = MediaStream {
            index: info.index,
            stream_type: info.stream_type,
            codec_name,
            codec_description,
            title: info.title,
            filename: info.filename,
            language: info.language,
            default_stream: info.default_stream,
            forced: info.forced,
            editable: is_editable,
            subtitle: None,
        };
        r
    }
}

// ---------------------------------------------------------------------------
// Subtitle text from decoded packets
// ---------------------------------------------------------------------------
/// The subtitle text being assembled for one stream while its packets are
/// decoded.
#[derive(Debug, Clone, PartialEq)]
pub struct FfiSubtitleReader {
    pub stream_index: u32,
    pub document: SubtitleDocument,
    pub ass_uses_crlf: bool,
    pub time_base: Rational,
    pub subtitle_number: u64,
}

/// The text a reader starts with: an ASS stream starts from its header; an
/// editable stream of another codec starts empty; other streams cannot be
/// read.
pub open spec fn spec_reader_start(source_codec_name: Seq<char>, extradata: Seq<u8>) -> Result<
    SubtitleDocumentModel,
    Seq<char>,
> {
    let codec_name = spec_canonical_codec_name(source_codec_name);
    match spec_subtitle_specification(codec_name) {
        None => Err("目前可编辑 SRT、ASS/SSA 和 WebVTT 字幕流。"@),
        Some((format, _)) => if codec_name == "ass"@ {
            match spec_ass_header(extradata) {
                Err(e) => Err(e),
                Ok(header) => Ok(
                    SubtitleDocumentModel { content: header, format, codec_name },
                ),
            }
        } else {
            Ok(SubtitleDocumentModel { content: seq![], format, codec_name })
        },
    }
}

/// The text that one decoded ASS rectangle adds: for an ASS stream, the
/// dialogue line with its times from the packet and the stream's line
/// ending; for SubRip, a numbered cue with the text as HTML; otherwise the
/// payload as it is.
pub open spec fn ass_rect_text(
    document: SubtitleDocumentModel,
    uses_crlf: bool,
    number: nat,
    payload: Seq<char>,
    pts: int,
    duration: int,
    time_base: Rational,
) -> Seq<char> {
    if document.codec_name == "ass"@ {
        spec_ass_dialogue(payload, pts, duration, time_base) + if uses_crlf {
            "\r\n"@
        } else {
            "\n"@
        }
    } else if document.format == "srt"@ {
        decimal(number) + "\n"@ + spec_srt_timestamp(pts, time_base) + " --> "@
            + spec_srt_timestamp(clamp_i64(pts + duration), time_base) + "\n"@
            + spec_ass_text_as_html(payload) + "\n\n"@
    } else {
        payload
    }
}

/// The content after an ASS rectangle: its text added, and then, outside
/// ASS streams, a line feed if the content does not end with one.
pub open spec fn after_ass_rect(document: SubtitleDocumentModel, added: Seq<char>) -> Seq<char> {
    let content = document.content + added;
    if document.codec_name != "ass"@ && !(content.len() > 0 && content.last() == '\n') {
        content.push('\n')
    } else {
        content
    }
}

/// Whether the times of an ASS rectangle can be written.
pub open spec fn ass_rect_defined(
    document: SubtitleDocumentModel,
    number: nat,
    payload: Seq<char>,
    pts: int,
    duration: int,
    time_base: Rational,
) -> bool {
    if document.codec_name == "ass"@ {
        ass_dialogue_defined(payload, pts, duration, time_base)
    } else if document.format == "srt"@ {
        &&& rounding_defined(pts, time_base, 1_000)
        &&& rounding_defined(clamp_i64(pts + duration), time_base, 1_000)
        &&& number < u64::MAX
    } else {
        true
    }
}

/// Whether the times of a rectangle of a packet with timestamp `pts` and
/// duration `duration` can be written, whatever its payload: for ASS, both
/// roundings to centiseconds; for SubRip, both roundings to milliseconds
/// and a next cue number; otherwise always.
pub open spec fn rect_times_defined(
    document: SubtitleDocumentModel,
    number: nat,
    pts: int,
    duration: int,
    time_base: Rational,
) -> bool {
    if document.codec_name == "ass"@ {
        rounding_defined(pts, time_base, 100) && rounding_defined(clamp_i64(pts + duration), time_base, 100)
    } else if document.format == "srt"@ {
        &&& rounding_defined(pts, time_base, 1_000)
        &&& rounding_defined(clamp_i64(pts + duration), time_base, 1_000)
        &&& number < u64::MAX
    } else {
        true
    }
}

/// The document a reader ends with: SubRip gets Unix line endings; an empty
/// text is an error.
pub open spec fn spec_reader_finish(document: SubtitleDocumentModel) -> Result<
    SubtitleDocumentModel,
    Seq<char>,
> {
    let content = if document.format == "srt"@ {
        spec_normalize_srt_line_endings(document.content)
    } else {
        document.content
    };
    if content.len() == 0 {
        Err("字幕流不包含可编辑的文本事件。"@)
    } else {
        Ok(SubtitleDocumentModel { content, ..document })
    }
}

/// The dialogue line written for one packet (payload, timestamp,
/// duration).
#[verifier::opaque]
pub open spec fn dialogue_of(packet: (Seq<char>, int, int), time_base: Rational) -> Seq<char> {
    spec_ass_dialogue(packet.0, packet.1, packet.2, time_base)
}

/// The dialogue line an ASS reader writes for one packet, with its line
/// ending.
#[verifier::opaque]
pub open spec fn event_line(packet: (Seq<char>, int, int), uses_crlf: bool, time_base: Rational) -> Seq<char> {
    dialogue_of(packet, time_base) + if uses_crlf {
        "\r\n"@
    } else {
        "\n"@
    }
}

/// The dialogue lines an ASS reader writes for `packets`, in order.
pub open spec fn ass_event_lines(packets: Seq<(Seq<char>, int, int)>, uses_crlf: bool, time_base: Rational) -> Seq<
    char,
>
    decreases packets.len(),
{
    if packets.len() == 0 {
        seq![]
    } else {
        ass_event_lines(packets.drop_last(), uses_crlf, time_base) + event_line(
            packets.last(),
            uses_crlf,
            time_base,
        )
    }
}

/// An ASS reader that holds `header` and the lines of `packets` holds, after
/// one more packet, `header` and the lines of all.
pub proof fn lemma_ass_reader_step(
    document: SubtitleDocumentModel,
    header: Seq<char>,
    packets: Seq<(Seq<char>, int, int)>,
    packet: (Seq<char>, int, int),
    uses_crlf: bool,
    number: nat,
    time_base: Rational,
)
    requires
        document.codec_name == "ass"@,
        document.content == header + ass_event_lines(packets, uses_crlf, time_base),
    ensures
        after_ass_rect(
            document,
            ass_rect_text(document, uses_crlf, number, packet.0, packet.1, packet.2, time_base),
        ) == header + ass_event_lines(packets.push(packet), uses_crlf, time_base),
{
    reveal(event_line);
    reveal(dialogue_of);
    let all = packets.push(packet);
    assert(all.drop_last() =~= packets);
    assert(all.last() == packet);
    assert(after_ass_rect(
        document,
        ass_rect_text(document, uses_crlf, number, packet.0, packet.1, packet.2, time_base),
    ) =~= header + ass_event_lines(all, uses_crlf, time_base));
}

/// The dialogue lines of `packets`.
pub open spec fn dialogue_lines(packets: Seq<(Seq<char>, int, int)>, time_base: Rational) -> Seq<Seq<char>> {
    packets.map_values(|p: (Seq<char>, int, int)| dialogue_of(p, time_base))
}

/// The packets that the dialogue lines of `packets` are read back as.
pub open spec fn reread_packets(packets: Seq<(Seq<char>, int, int)>, time_base: Rational) -> Seq<
    (Seq<char>, int, int),
> {
    packets.map_values(|p: (Seq<char>, int, int)| (dialogue_of(p, time_base), p.1, p.2))
}

/// Whether a packet's dialogue line can be written and read back: a
/// payload without line breaks, with start and end fields, and times in
/// whole centiseconds.
#[verifier::opaque]
pub open spec fn rereadable(packet: (Seq<char>, int, int), time_base: Rational) -> bool {
    &&& free_of(packet.0, '\n')
    &&& free_of(packet.0, '\r')
    &&& dialogue_fields(packet.0).len() >= 3
    &&& packet.2 >= 0
    &&& whole_centiseconds(packet.1, time_base)
    &&& whole_centiseconds(packet.1 + packet.2, time_base)
}

/// Whether `header` can stand before the dialogue lines: a script header
/// with an `[Events]` section, no `Dialogue:` of its own, ending a line.
pub open spec fn script_header(header: Seq<char>) -> bool {
    let h = trim_end_in(header, CharClass::Either('\r', '\n'));
    &&& starts_with(trim_start_in(h, CharClass::Whitespace), "[Script Info]"@)
    &&& contains(h, "[Events]"@)
    &&& !contains(header, "Dialogue:"@)
    &&& header.len() > 0
    &&& header.last() == '\n'
}

/// The line ending an ASS reader writes: a line feed, after a carriage
/// return where the stream's header has them.
proof fn lemma_line_ending(uses_crlf: bool)
    ensures
        (if uses_crlf {
            "\r\n"@
        } else {
            "\n"@
        }) == seq!['\n'] || (if uses_crlf {
            "\r\n"@
        } else {
            "\n"@
        }) == seq!['\r', '\n'],
{
    reveal_strlit("\r\n");
    reveal_strlit("\n");
    assert("\r\n"@ =~= seq!['\r', '\n']);
    assert("\n"@ =~= seq!['\n']);
}

/// What the line of one packet that can be read back is: its dialogue
/// line, which starts with `Dialogue:`, then its line ending.
proof fn lemma_event_line(packet: (Seq<char>, int, int), uses_crlf: bool, time_base: Rational)
    requires
        rereadable(packet, time_base),
    ensures
        lines(event_line(packet, uses_crlf, time_base)) == seq![dialogue_of(packet, time_base)],
        event_line(packet, uses_crlf, time_base).last() == '\n',
        starts_with(event_line(packet, uses_crlf, time_base), "Dialogue:"@),
{
    reveal(event_line);
    reveal(dialogue_of);
    reveal(rereadable);
    lemma_dialogue_line(packet.0, packet.1, packet.2, time_base);
    let l = dialogue_of(packet, time_base);
    let ending = if uses_crlf {
        "\r\n"@
    } else {
        "\n"@
    };
    lemma_line_ending(uses_crlf);
    lemma_lines_single(l, ending);
    let e = event_line(packet, uses_crlf, time_base);
    assert(e.last() == ending.last());
    reveal_strlit("Dialogue:");
    assert(e.subrange(0, 9) =~= l.subrange(0, 9));
}

proof fn lemma_event_lines(packets: Seq<(Seq<char>, int, int)>, uses_crlf: bool, time_base: Rational)
    requires
        forall|i: int| 0 <= i < packets.len() ==> rereadable(#[trigger] packets[i], time_base),
    ensures
        lines(ass_event_lines(packets, uses_crlf, time_base)) == dialogue_lines(packets, time_base),
        ass_event_lines(packets, uses_crlf, time_base).len() == 0 || ass_event_lines(
            packets,
            uses_crlf,
            time_base,
        ).last() == '\n',
        packets.len() > 0 ==> starts_with(ass_event_lines(packets, uses_crlf, time_base), "Dialogue:"@),
    decreases packets.len(),
{
    let e = ass_event_lines(packets, uses_crlf, time_base);
    if packets.len() == 0 {
        assert(lines(e) =~= dialogue_lines(packets, time_base));
    } else {
        let rest = packets.drop_last();
        assert forall|i: int| 0 <= i < rest.len() implies rereadable(#[trigger] rest[i], time_base) by {
            assert(rest[i] == packets[i]);
        }
        lemma_event_lines(rest, uses_crlf, time_base);
        let p = packets.last();
        assert(rereadable(packets[packets.len() - 1], time_base));
        lemma_event_line(p, uses_crlf, time_base);
        let line = event_line(p, uses_crlf, time_base);
        let before = ass_event_lines(rest, uses_crlf, time_base);
        assert(e == before + line);
        lemma_lines_append(before, line);
        assert(dialogue_lines(packets, time_base) =~= dialogue_lines(rest, time_base).push(
            dialogue_of(p, time_base),
        ));
        assert(lines(e) =~= dialogue_lines(packets, time_base));
        assert(e.last() == line.last());
        reveal_strlit("Dialogue:");
        if rest.len() == 0 {
            assert(before =~= Seq::<char>::empty());
            assert(e =~= line);
        } else {
            assert(e.subrange(0, 9) =~= before.subrange(0, 9));
        }
    }
}

/// The dialogue line of a packet that can be read back is a `Dialogue:`
/// line read back as that packet.
proof fn lemma_reread_one(packet: (Seq<char>, int, int), time_base: Rational)
    requires
        rereadable(packet, time_base),
    ensures
        starts_with(dialogue_of(packet, time_base), "Dialogue:"@),
        spec_ass_packet(dialogue_of(packet, time_base), time_base) == Ok::<_, Seq<char>>(
            (dialogue_of(packet, time_base), packet.1, packet.2),
        ),
{
    reveal(dialogue_of);
    reveal(rereadable);
    lemma_dialogue_line(packet.0, packet.1, packet.2, time_base);
    lemma_ass_dialogue_roundtrip(packet.0, packet.1, packet.2, time_base);
}

proof fn lemma_reread_packets(packets: Seq<(Seq<char>, int, int)>, time_base: Rational)
    requires
        forall|i: int| 0 <= i < packets.len() ==> rereadable(#[trigger] packets[i], time_base),
    ensures
        spec_ass_packets_of(dialogue_lines(packets, time_base), time_base) == Ok::<_, Seq<char>>(
            reread_packets(packets, time_base),
        ),
    decreases packets.len(),
{
    let ls = dialogue_lines(packets, time_base);
    if packets.len() == 0 {
        assert(reread_packets(packets, time_base) =~= Seq::<(Seq<char>, int, int)>::empty());
    } else {
        let rest = packets.drop_last();
        assert forall|i: int| 0 <= i < rest.len() implies rereadable(#[trigger] rest[i], time_base) by {
            assert(rest[i] == packets[i]);
        }
        lemma_reread_packets(rest, time_base);
        let p = packets.last();
        assert(rereadable(packets[packets.len() - 1], time_base));
        lemma_reread_one(p, time_base);
        assert(ls.drop_last() =~= dialogue_lines(rest, time_base));
        assert(ls.last() == dialogue_of(p, time_base));
        assert(reread_packets(packets, time_base) =~= reread_packets(rest, time_base).push(
            (dialogue_of(p, time_base), p.1, p.2),
        ));
    }
}

/// The text of an ASS stream as its reader assembles it, its header and
/// then a dialogue line per packet, is taken apart by a remux into that
/// header and the same packets: each packet's dialogue line, timestamp and
/// duration.
pub proof fn lemma_ass_text_reread(
    header: Seq<char>,
    packets: Seq<(Seq<char>, int, int)>,
    uses_crlf: bool,
    time_base: Rational,
)
    requires
        script_header(header),
        packets.len() > 0,
        forall|i: int| 0 <= i < packets.len() ==> rereadable(#[trigger] packets[i], time_base),
    ensures
        spec_ass_document_parts(header + ass_event_lines(packets, uses_crlf, time_base)) == Ok::<
            _,
            Seq<char>,
        >(
            (
                trim_end_in(header, CharClass::Either('\r', '\n')),
                ass_event_lines(packets, uses_crlf, time_base),
            ),
        ),
        spec_ass_packets(ass_event_lines(packets, uses_crlf, time_base), time_base) == Ok::<
            _,
            Seq<char>,
        >(reread_packets(packets, time_base)),
{
    let e = ass_event_lines(packets, uses_crlf, time_base);
    let text = header + e;
    let pat = "Dialogue:"@;
    reveal_strlit("Dialogue:");
    lemma_event_lines(packets, uses_crlf, time_base);
    lemma_reread_packets(packets, time_base);
    lemma_find(header, pat);
    let n = header.len() as int;
    assert(text.subrange(n, n + 9) =~= e.subrange(0, 9));
    assert(occurs_at(text, pat, n));
    assert forall|p: int| 0 <= p < n implies !occurs_at(text, pat, p) by {
        if occurs_at(text, pat, p) {
            if p + 9 <= n {
                assert(header.subrange(p, p + 9) =~= text.subrange(p, p + 9));
                assert(occurs_at(header, pat, p));
            } else {
                assert(text.subrange(p, p + 9)[n - 1 - p] == text[n - 1]);
                assert(text[n - 1] == header.last());
                assert(pat[n - 1 - p] != '\n');
            }
        }
    }
    lemma_first_occurrence_at(text, pat, 0, n);
    assert(find(text, pat) == Some(n));
    assert(text.take(n) =~= header);
    assert(text.skip(n) =~= e);
}

fn ass_line(payload: &str, pts: i64, duration: i64, time_base: Rational, uses_crlf: bool) -> (r: Vec<
    char,
>)
    requires
        ass_dialogue_defined(payload@, pts as int, duration as int, time_base),
    ensures
        r@ == spec_ass_dialogue(payload@, pts as int, duration as int, time_base) + if uses_crlf {
            "\r\n"@
        } else {
            "\n"@
        },
{
    let line = FFIFfmpegService::ass_dialogue(payload, pts, duration, time_base);
    let mut out = chars_of(line.as_str());
    if uses_crlf {
        push_str(&mut out, "\r\n");
    } else {
        push_str(&mut out, "\n");
    }
    out
}

fn srt_cue(number: u64, payload: &str, pts: i64, duration: i64, time_base: Rational) -> (r: Vec<char>)
    requires
        rounding_defined(pts as int, time_base, 1_000),
        rounding_defined(clamp_i64(pts + duration), time_base, 1_000),
    ensures
        r@ == decimal(number as nat) + "\n"@ + spec_srt_timestamp(pts as int, time_base) + " --> "@
            + spec_srt_timestamp(clamp_i64(pts + duration), time_base) + "\n"@
            + spec_ass_text_as_html(payload@) + "\n\n"@,
{
    let mut out: Vec<char> = Vec::new();
    push_u64(&mut out, number);
    push_str(&mut out, "\n");
    push_srt_timestamp(&mut out, pts, time_base);
    push_str(&mut out, " --> ");
    push_srt_timestamp(&mut out, saturating_add(pts, duration), time_base);
    push_str(&mut out, "\n");
    let html = FFIFfmpegService::ass_text_as_html(payload);
    push_str(&mut out, html.as_str());
    push_str(&mut out, "\n\n");
    out
}

impl FfiSubtitleReader {
    /// A reader for stream `stream_index`, whose codec id is named
    /// `source_codec_name` and whose codec carries `extradata`.
    pub fn new(stream_index: u32, source_codec_name: &str, extradata: &[u8], time_base: Rational) -> (r:
        Result<Self, String>)
        ensures
            match r {
                Ok(reader) => {
                    &&& spec_reader_start(source_codec_name@, extradata@) == Ok::<_, Seq<char>>(
                        reader.document@,
                    )
                    &&& reader.stream_index == stream_index
                    &&& reader.ass_uses_crlf == contains(reader.document.content@, "\r\n"@)
                    &&& reader.time_base == time_base
                    &&& reader.subtitle_number == 1
                },
                Err(e) => spec_reader_start(source_codec_name@, extradata@) == Err::<
                    SubtitleDocumentModel,
                    _,
                >(e@),
            },
    {
        let codec_name = canonical_codec_name(source_codec_name);
        let format = match subtitle_specification(codec_name.as_str()) {
            Some((f, _)) => f,
            None => return Err("目前可编辑 SRT、ASS/SSA 和 WebVTT 字幕流。".to_owned()),
        };
        let content = if str_eq(codec_name.as_str(), "ass") {
            match FFIFfmpegService::ass_header(extradata) {
                Ok(h) => h,
                Err(e) => return Err(e),
            }
        } else {
            String::new()
        };
        let c = chars_of(content.as_str());
        let ass_uses_crlf = contains_str(&c, "\r\n");
        Ok(
            FfiSubtitleReader {
                stream_index,
                ass_uses_crlf,
                document: SubtitleDocument { content, format: format.to_owned(), codec_name },
                time_base,
                subtitle_number: 1,
            },
        )
    }

    /// Whether the times of a rectangle from a packet with timestamp `pts`
    /// and duration `duration` can be written, whatever its payload.
    pub fn times_defined(&self, pts: i64, duration: i64) -> (r: bool)
        ensures
            r == rect_times_defined(
                self.document@,
                self.subtitle_number as nat,
                pts as int,
                duration as int,
                self.time_base,
            ),
            r ==> forall|payload: Seq<char>|
                #[trigger] ass_rect_defined(
                    self.document@,
                    self.subtitle_number as nat,
                    payload,
                    pts as int,
                    duration as int,
                    self.time_base,
                ),
    {
        let start = pts;
        let end = saturating_add(start, duration);
        if str_eq(self.document.codec_name.as_str(), "ass") {
            rounding_is_defined(start, self.time_base, 100) && rounding_is_defined(end, self.time_base, 100)
        } else if str_eq(self.document.format.as_str(), "srt") {
            rounding_is_defined(start, self.time_base, 1_000) && rounding_is_defined(
                end,
                self.time_base,
                1_000,
            ) && self.subtitle_number < u64::MAX
        } else {
            true
        }
    }

    /// Adds the text of a decoded ASS rectangle, from a packet with
    /// timestamp `pts` (zero when it has none) and duration `duration`.
    pub fn push_ass_rect(&mut self, payload: &str, pts: Option<i64>, duration: i64)
        requires
            ass_rect_defined(
                old(self).document@,
                old(self).subtitle_number as nat,
                payload@,
                match pts {
                    Some(p) => p as int,
                    None => 0,
                },
                duration as int,
                old(self).time_base,
            ),
        ensures
            final(self).document.content@ == after_ass_rect(
                old(self).document@,
                ass_rect_text(
                    old(self).document@,
                    old(self).ass_uses_crlf,
                    old(self).subtitle_number as nat,
                    payload@,
                    match pts {
                        Some(p) => p as int,
                        None => 0,
                    },
                    duration as int,
                    old(self).time_base,
                ),
            ),
            final(self).document.format == old(self).document.format,
            final(self).document.codec_name == old(self).document.codec_name,
            final(self).stream_index == old(self).stream_index,
            final(self).ass_uses_crlf == old(self).ass_uses_crlf,
            final(self).time_base == old(self).time_base,
            final(self).subtitle_number == if old(self).document.codec_name@ != "ass"@
                && old(self).document.format@ == "srt"@ {
                old(self).subtitle_number + 1
            } else {
                old(self).subtitle_number as int
            },
    {
        let pts = match pts {
            Some(p) => p,
            None => 0,
        };
        let is_ass = str_eq(self.document.codec_name.as_str(), "ass");
        let is_srt = str_eq(self.document.format.as_str(), "srt");
        let added = if is_ass {
            ass_line(payload, pts, duration, self.time_base, self.ass_uses_crlf)
        } else if is_srt {
            srt_cue(self.subtitle_number, payload, pts, duration, self.time_base)
        } else {
            chars_of(payload)
        };
        if !is_ass && is_srt {
            self.subtitle_number = self.subtitle_number + 1;
        }
        let mut content = chars_of(self.document.content.as_str());
        push_all(&mut content, &added);
        if !is_ass && !(content.len() > 0 && content[content.len() - 1] == '\n') {
            content.push('\n');
        }
        self.document.content = string_of(&content);
    }

    /// Adds the text of a decoded text rectangle: without its trailing line
    /// breaks, and then one line feed.
    pub fn push_text_rect(&mut self, text: &str)
        ensures
            final(self).document.content@ == old(self).document.content@ + trim_end_in(
                text@,
                CharClass::Either('\r', '\n'),
            ) + "\n"@,
            final(self).document.format == old(self).document.format,
            final(self).document.codec_name == old(self).document.codec_name,
            final(self).stream_index == old(self).stream_index,
            final(self).ass_uses_crlf == old(self).ass_uses_crlf,
            final(self).time_base == old(self).time_base,
            final(self).subtitle_number == old(self).subtitle_number,
    {
        let t = chars_of(text);
        let end = trim_end_pos(&t, CharClass::Either('\r', '\n'), 0, t.len());
        assert(t@.subrange(0, t@.len() as int) =~= t@);
        let mut content = chars_of(self.document.content.as_str());
        crate::text::push_range(&mut content, &t, 0, end);
        push_str(&mut content, "\n");
        self.document.content = string_of(&content);
    }

    /// The document that the reader has assembled.
    pub fn finish(self) -> (r: Result<SubtitleDocument, String>)
        ensures
            match r {
                Ok(d) => spec_reader_finish(self.document@) == Ok::<_, Seq<char>>(d@),
                Err(e) => spec_reader_finish(self.document@) == Err::<SubtitleDocumentModel, _>(
                    e@,
                ),
            },
    {
        let document = self.document;
        let content = if str_eq(document.format.as_str(), "srt") {
            normalize_srt_line_endings(document.content)
        } else {
            document.content
        };
        if content.as_str().is_empty() {
            return Err("字幕流不包含可编辑的文本事件。".to_owned());
        }
        Ok(SubtitleDocument { content, format: document.format, codec_name: document.codec_name })
    }
}

// ---------------------------------------------------------------------------
// Inspecting a file
// ---------------------------------------------------------------------------
/// The indices of the editable streams, in order.
pub open spec fn editable_indices(streams: Seq<MediaStream>) -> Seq<u32>
    decreases streams.len(),
{
    if streams.len() == 0 {
        seq![]
    } else {
        let rest = editable_indices(streams.drop_last());
        if streams.last().editable {
            rest.push(streams.last().index)
        } else {
            rest
        }
    }
}

/// The document of stream `index` among `documents`, if any.
pub open spec fn document_of(documents: Seq<(u32, SubtitleDocument)>, index: u32) -> Option<
    SubtitleDocumentModel,
> {
    if exists|k: int| 0 <= k < documents.len() && documents[k].0 == index {
        let k = choose|k: int|
            0 <= k < documents.len() && documents[k].0 == index && forall|j: int|
                0 <= j < k ==> documents[j].0 != index;
        Some(documents[k].1@)
    } else {
        None
    }
}

fn find_document(documents: &[(u32, SubtitleDocument)], index: u32) -> (r: Option<usize>)
    ensures
        match r {
            Some(k) => k < documents.len() && document_of(documents@, index) == Some(
                documents@[k as int].1@,
            ),
            None => document_of(documents@, index) is None,
        },
{
    let mut k: usize = 0;
    while k < documents.len()
        invariant
            k <= documents.len(),
            forall|j: int| 0 <= j < k ==> documents@[j].0 != index,
        decreases documents.len() - k,
    {
        if documents[k].0 == index {
            proof {
                let c = choose|c: int|
                    0 <= c < documents@.len() && documents@[c].0 == index && forall|j: int|
                        0 <= j < c ==> documents@[j].0 != index;
                if c > k {
                    assert(documents@[k as int].0 == index);
                }
            }
            return Some(k);
        }
        k = k + 1;
    }
    None
}

fn clone_document(d: &SubtitleDocument) -> (r: SubtitleDocument)
    ensures
        r@ == d@,
{
    SubtitleDocument {
        content: d.content.clone(),
        format: d.format.clone(),
        codec_name: d.codec_name.clone(),
    }
}

impl FFIFfmpegService {
    /// The indices of the editable streams, whose subtitles an inspection
    /// reads.
    pub fn subtitle_indices(streams: &Vec<MediaStream>) -> (r: Vec<u32>)
        ensures
            r@ == editable_indices(streams@),
    {
        let mut r: Vec<u32> = Vec::new();
        let mut i: usize = 0;
        assert(streams@.take(0) =~= Seq::<MediaStream>::empty());
        while i < streams.len()
            invariant
                i <= streams.len(),
                r@ == editable_indices(streams@.take(i as int)),
            decreases streams.len() - i,
        {
            assert(streams@.take(i + 1).drop_last() =~= streams@.take(i as int));
            if streams[i].editable {
                r.push(streams[i].index);
            }
            i = i + 1;
        }
        assert(streams@.take(streams.len() as int) =~= streams@);
        r
    }

    /// Gives each stream the document read for it, if any.
    pub fn attach_subtitles(streams: &mut Vec<MediaStream>, documents: &[(u32, SubtitleDocument)])
        ensures
            final(streams)@.len() == old(streams)@.len(),
            forall|i: int|
                0 <= i < old(streams)@.len() ==> (#[trigger] final(streams)@[i])@ == (MediaStreamModel {
                    subtitle: document_of(documents@, old(streams)@[i].index),
                    ..old(streams)@[i]@
                }),
    {
        let ghost initial = streams@;
        let mut i: usize = 0;
        while i < streams.len()
            invariant
                i <= streams.len() == initial.len(),
                forall|j: int|
                    0 <= j < i ==> (#[trigger] streams@[j])@ == (MediaStreamModel {
                        subtitle: document_of(documents@, initial[j].index),
                        ..initial[j]@
                    }),
                forall|j: int| i <= j < streams.len() ==> #[trigger] streams@[j] == initial[j],
            decreases streams.len() - i,
        {
            let subtitle = match find_document(documents, streams[i].index) {
                Some(k) => Some(clone_document(&documents[k].1)),
                None => None,
            };
            let mut stream = streams.remove(i);
            stream.subtitle = subtitle;
            streams.insert(i, stream);
            i = i + 1;
        }
    }

    /// The error of an inspection where some requested stream was not found.
    pub fn check_requested(requested: &[u32], found: &[u32]) -> (r: Result<(), String>)
        ensures
            r is Ok <==> forall|k: int| 0 <= k < requested.len() ==> found@.contains(requested@[k]),
            r matches Err(e) ==> e@ == "未找到所选字幕流。"@,
    {
        let mut k: usize = 0;
        while k < requested.len()
            invariant
                k <= requested.len(),
                forall|j: int| 0 <= j < k ==> found@.contains(requested@[j]),
            decreases requested.len() - k,
        {
            let mut present = false;
            let mut j: usize = 0;
            while j < found.len()
                invariant
                    j <= found.len(),
                    k < requested.len(),
                    present <==> exists|m: int| 0 <= m < j && found@[m] == requested@[k as int],
                decreases found.len() - j,
            {
                if found[j] == requested[k] {
                    present = true;
                }
                j = j + 1;
            }
            if !present {
                assert(!found@.contains(requested@[k as int]));
                return Err("未找到所选字幕流。".to_owned());
            }
            k = k + 1;
        }
        Ok(())
    }
}

// ---------------------------------------------------------------------------
// Planning a remux
// ---------------------------------------------------------------------------
/// What a remux needs to know of one input stream.
#[derive(Debug, Clone, PartialEq)]
pub struct FfiRemuxStream {
    pub index: u32,
    pub stream_type: MediaStreamType,
    /// The name of the stream's codec id.
    pub codec_id_name: String,
    pub time_base: Rational,
}

/// The first stream of `streams` with index `index`.
pub open spec fn remux_stream_position(streams: Seq<FfiRemuxStream>, index: u32) -> Option<int> {
    if exists|i: int| 0 <= i < streams.len() && streams[i].index == index {
        Some(
            choose|i: int|
                0 <= i < streams.len() && streams[i].index == index && forall|j: int|
                    0 <= j < i ==> streams[j].index != index,
        )
    } else {
        None
    }
}

fn find_remux_stream(streams: &[FfiRemuxStream], index: u32) -> (r: Option<usize>)
    ensures
        match r {
            Some(i) => i < streams.len() && remux_stream_position(streams@, index) == Some(
                i as int,
            ),
            None => remux_stream_position(streams@, index) is None,
        },
{
    let mut i: usize = 0;
    while i < streams.len()
        invariant
            i <= streams.len(),
            forall|j: int| 0 <= j < i ==> streams@[j].index != index,
        decreases streams.len() - i,
    {
        if streams[i].index == index {
            proof {
                let c = choose|c: int|
                    0 <= c < streams@.len() && streams@[c].index == index && forall|j: int|
                        0 <= j < c ==> streams@[j].index != index;
                if c > i {
                    assert(streams@[i as int].index == index);
                }
            }
            return Some(i);
        }
        i = i + 1;
    }
    None
}

/// The check of one edit, given the edits before it: no stream edited
/// twice, and the stream found and an editable subtitle stream.
#[verifier::opaque]
pub open spec fn ffi_edit_check(streams: Seq<FfiRemuxStream>, prior: Seq<SubtitleEdit>, edit: SubtitleEdit) -> Result<
    (),
    Seq<char>,
> {
    if crate::probe::first_edit(prior, edit.stream_index) is Some {
        Err(crate::probe::duplicate_message(edit.stream_index))
    } else {
        match remux_stream_position(streams, edit.stream_index) {
            None => Err("未找到所选字幕流。"@),
            Some(i) => if streams[i].stream_type != MediaStreamType::Subtitle
                || spec_subtitle_specification(streams[i].codec_id_name@) is None {
                Err("目前可编辑 SRT、ASS/SSA 和 WebVTT 字幕流；图形字幕会保留但不可编辑。"@)
            } else {
                Ok(())
            },
        }
    }
}

/// The checks of the edits, in order.
pub open spec fn ffi_edit_checks(streams: Seq<FfiRemuxStream>, edits: Seq<SubtitleEdit>) -> Result<
    (),
    Seq<char>,
>
    decreases edits.len(),
{
    if edits.len() == 0 {
        Ok(())
    } else {
        match ffi_edit_checks(streams, edits.drop_last()) {
            Err(e) => Err(e),
            Ok(_) => ffi_edit_check(streams, edits.drop_last(), edits.last()),
        }
    }
}

/// The checks before a remux, in order: some stream selected, the edits,
/// then the default subtitle, which must exist, be selected and be a
/// subtitle stream.
pub open spec fn spec_ffi_remux_checks(
    streams: Seq<FfiRemuxStream>,
    edits: Seq<SubtitleEdit>,
    selected: Seq<u32>,
    default_subtitle: Option<u32>,
) -> Result<(), Seq<char>> {
    if selected.len() == 0 {
        Err("请至少选择一条要导出的流。"@)
    } else {
        match ffi_edit_checks(streams, edits) {
            Err(e) => Err(e),
            Ok(_) => match default_subtitle {
                None => Ok(()),
                Some(d) => match remux_stream_position(streams, d) {
                    None => Err("未找到要设为默认的字幕流。"@),
                    Some(i) => if !selected.contains(d) || streams[i].stream_type
                        != MediaStreamType::Subtitle {
                        Err("默认字幕必须是要导出的字幕流。"@)
                    } else {
                        Ok(())
                    },
                },
            },
        }
    }
}

proof fn lemma_ffi_edit_checks_error(streams: Seq<FfiRemuxStream>, edits: Seq<SubtitleEdit>, k: int)
    requires
        0 <= k <= edits.len(),
        ffi_edit_checks(streams, edits.take(k)) is Err,
    ensures
        ffi_edit_checks(streams, edits) == ffi_edit_checks(streams, edits.take(k)),
    decreases edits.len() - k,
{
    if k < edits.len() {
        assert(edits.take(k + 1).drop_last() =~= edits.take(k));
        lemma_ffi_edit_checks_error(streams, edits, k + 1);
    } else {
        assert(edits.take(k) =~= edits);
    }
}

fn contains_u32(v: &[u32], x: u32) -> (r: bool)
    ensures
        r == v@.contains(x),
{
    let mut i: usize = 0;
    while i < v.len()
        invariant
            i <= v.len(),
            forall|j: int| 0 <= j < i ==> v@[j] != x,
        decreases v.len() - i,
    {
        if v[i] == x {
            assert(v@[i as int] == x);
            return true;
        }
        i = i + 1;
    }
    false
}

/// How one selected stream is written out: its codec, when an edit changes
/// the format; the ASS header to give it, when it becomes ASS; the edit's
/// language and title; and, for subtitle streams, whether it is the default.
#[derive(Debug, Clone, PartialEq)]
pub struct OutputStreamPlan {
    pub codec: Option<SubtitleCodecId>,
    pub ass_header: Option<String>,
    pub language: Option<String>,
    pub title: Option<String>,
    pub default_subtitle: Option<bool>,
}

/// The plan of one output stream, as text: codec, header, language, title,
/// default flag.
pub open spec fn plan_view(p: OutputStreamPlan) -> (
    Option<SubtitleCodecId>,
    Option<Seq<char>>,
    Option<Seq<char>>,
    Option<Seq<char>>,
    Option<bool>,
) {
    (p.codec, p.ass_header.deep_view(), p.language.deep_view(), p.title.deep_view(), p.default_subtitle)
}

/// An ASS header with CRLF line endings, as Matroska stores it.
pub open spec fn crlf_header(header: Seq<char>) -> Seq<char> {
    replace(replace(header, "\r\n"@, "\n"@), "\n"@, "\r\n"@)
}

/// How one selected stream is written out, given its edit, if any.
pub open spec fn spec_output_stream_plan(
    stream: FfiRemuxStream,
    edit: Option<SubtitleEdit>,
    default_subtitle: Option<u32>,
) -> Result<
    (Option<SubtitleCodecId>, Option<Seq<char>>, Option<Seq<char>>, Option<Seq<char>>, Option<bool>),
    Seq<char>,
> {
    let source_codec_name = spec_canonical_codec_name(stream.codec_id_name@);
    let default = if stream.stream_type == MediaStreamType::Subtitle {
        Some(default_subtitle == Some(stream.index))
    } else {
        None
    };
    match edit {
        None => Ok((None, None, None, None, default)),
        Some(e) => {
            let language = e.language.deep_view();
            let title = e.title.deep_view();
            match e.format {
                None => Ok((None, None, language, title, default)),
                Some(f) => match spec_subtitle_codec_id(f@) {
                    None => Err("字幕格式只能是 ass 或 srt。"@),
                    Some(codec) => if f@ == "ass"@ && source_codec_name != "ass"@ {
                        match spec_ass_document_parts(e.content@) {
                            Err(err) => Err(err),
                            Ok((header, _)) => Ok(
                                (Some(codec), Some(crlf_header(header)), language, title, default),
                            ),
                        }
                    } else {
                        Ok((Some(codec), None, language, title, default))
                    },
                },
            }
        },
    }
}

/// A remuxed stream takes the language and the title of its edit, where the
/// edit gives them, and keeps its own metadata otherwise; a stream without
/// an edit keeps all of its own. An edit that keeps its stream's format is
/// always written.
pub proof fn lemma_edit_metadata(stream: FfiRemuxStream, edit: Option<SubtitleEdit>, default_subtitle: Option<u32>)
    ensures
        spec_output_stream_plan(stream, edit, default_subtitle) matches Ok(plan) ==> match edit {
            Some(e) => plan.2 == e.language.deep_view() && plan.3 == e.title.deep_view(),
            None => plan.2 is None && plan.3 is None && plan.0 is None && plan.1 is None,
        },
        edit is None ==> spec_output_stream_plan(stream, edit, default_subtitle) is Ok,
        edit matches Some(e) && e.format is None ==> spec_output_stream_plan(
            stream,
            edit,
            default_subtitle,
        ) is Ok,
{
}

/// Of the streams a remux writes, a subtitle stream is marked default
/// exactly when it is the requested default subtitle; other streams get no
/// default flag.
pub proof fn lemma_default_subtitle(stream: FfiRemuxStream, edit: Option<SubtitleEdit>, default_subtitle: Option<u32>)
    ensures
        spec_output_stream_plan(stream, edit, default_subtitle) matches Ok(plan) ==> (plan.4 == Some(true)
            <==> stream.stream_type == MediaStreamType::Subtitle && default_subtitle == Some(stream.index)),
        spec_output_stream_plan(stream, edit, default_subtitle) matches Ok(plan) ==> (plan.4 is None
            <==> stream.stream_type != MediaStreamType::Subtitle),
{
}

/// The packets that replace an edited stream's packets: for ASS, one per
/// dialogue line of the edit's events; otherwise the whole text as one
/// packet at time zero lasting one unit.
pub open spec fn spec_replacement_packets(
    edit: SubtitleEdit,
    source_codec_id_name: Seq<char>,
    time_base: Rational,
) -> Result<Seq<(Seq<char>, int, int)>, Seq<char>> {
    let target = match edit.format {
        Some(f) => f@,
        None => if spec_canonical_codec_name(source_codec_id_name) == "ass"@ {
            "ass"@
        } else {
            "srt"@
        },
    };
    if target == "ass"@ {
        match spec_ass_document_parts(edit.content@) {
            Err(e) => Err(e),
            Ok((_, events)) => spec_ass_packets(events, time_base),
        }
    } else {
        Ok(seq![(edit.content@, 0, 1)])
    }
}

fn clone_text(s: &Option<String>) -> (r: Option<String>)
    ensures
        r.deep_view() == s.deep_view(),
{
    match s {
        Some(t) => Some(t.clone()),
        None => None,
    }
}

impl FFIFfmpegService {
    /// The checks of one edit, given the edits before it.
    pub fn check_edit(streams: &[FfiRemuxStream], prior: &[SubtitleEdit], edit: &SubtitleEdit) -> (r:
        Result<(), String>)
        ensures
            match r {
                Ok(_) => ffi_edit_check(streams@, prior@, *edit) == Ok::<(), Seq<char>>(()),
                Err(e) => ffi_edit_check(streams@, prior@, *edit) == Err::<(), _>(e@),
            },
    {
        reveal(ffi_edit_check);
        if crate::probe::find_edit(prior, edit.stream_index).is_some() {
            let mut m = chars_of("字幕流 #");
            push_u64(&mut m, edit.stream_index as u64);
            push_str(&mut m, " 被重复提交。");
            return Err(string_of(&m));
        }
        let i = match find_remux_stream(streams, edit.stream_index) {
            Some(i) => i,
            None => return Err("未找到所选字幕流。".to_owned()),
        };
        if streams[i].stream_type != MediaStreamType::Subtitle || subtitle_specification(
            streams[i].codec_id_name.as_str(),
        ).is_none() {
            return Err("目前可编辑 SRT、ASS/SSA 和 WebVTT 字幕流；图形字幕会保留但不可编辑。".to_owned());
        }
        Ok(())
    }

    /// The checks before a remux, in the order they are made.
    pub fn remux_checks(
        streams: &[FfiRemuxStream],
        edits: &[SubtitleEdit],
        selected_stream_indices: &[u32],
        default_subtitle_stream_index: Option<u32>,
    ) -> (r: Result<(), String>)
        ensures
            match r {
                Ok(_) => spec_ffi_remux_checks(
                    streams@,
                    edits@,
                    selected_stream_indices@,
                    default_subtitle_stream_index,
                ) == Ok::<(), Seq<char>>(()),
                Err(e) => spec_ffi_remux_checks(
                    streams@,
                    edits@,
                    selected_stream_indices@,
                    default_subtitle_stream_index,
                ) == Err::<(), _>(e@),
            },
    {
        if selected_stream_indices.len() == 0 {
            return Err("请至少选择一条要导出的流。".to_owned());
        }
        let mut k: usize = 0;
        assert(edits@.take(0) =~= Seq::<SubtitleEdit>::empty());
        while k < edits.len()
            invariant
                k <= edits.len(),
                selected_stream_indices.len() > 0,
                ffi_edit_checks(streams@, edits@.take(k as int)) == Ok::<(), Seq<char>>(()),
            decreases edits.len() - k,
        {
            assert(edits@.take(k + 1).drop_last() =~= edits@.take(k as int));
            assert(edits@.subrange(0, k as int) =~= edits@.take(k as int));
            match Self::check_edit(streams, &edits[0..k], &edits[k]) {
                Ok(_) => {},
                Err(e) => {
                    proof {
                        lemma_ffi_edit_checks_error(streams@, edits@, k + 1);
                    }
                    return Err(e);
                },
            }
            k = k + 1;
        }
        assert(edits@.take(edits.len() as int) =~= edits@);
        if let Some(d) = default_subtitle_stream_index {
            let i = match find_remux_stream(streams, d) {
                Some(i) => i,
                None => return Err("未找到要设为默认的字幕流。".to_owned()),
            };
            if !contains_u32(selected_stream_indices, d) || streams[i].stream_type
                != MediaStreamType::Subtitle {
                return Err("默认字幕必须是要导出的字幕流。".to_owned());
            }
        }
        Ok(())
    }

    /// How one selected stream is written out, given its edit, if any.
    pub fn output_stream_plan(
        stream: &FfiRemuxStream,
        edit: Option<&SubtitleEdit>,
        default_subtitle_stream_index: Option<u32>,
    ) -> (r: Result<OutputStreamPlan, String>)
        ensures
            match r {
                Ok(p) => spec_output_stream_plan(
                    *stream,
                    match edit {
                        Some(e) => Some(*e),
                        None => None,
                    },
                    default_subtitle_stream_index,
                ) == Ok::<_, Seq<char>>(plan_view(p)),
                Err(e) => spec_output_stream_plan(
                    *stream,
                    match edit {
                        Some(e) => Some(*e),
                        None => None,
                    },
                    default_subtitle_stream_index,
                ) == Err::<
                    (
                        Option<SubtitleCodecId>,
                        Option<Seq<char>>,
                        Option<Seq<char>>,
                        Option<Seq<char>>,
                        Option<bool>,
                    ),
                    _,
                >(e@),
            },
    {
        let default_subtitle = if stream.stream_type == MediaStreamType::Subtitle {
            Some(default_subtitle_stream_index == Some(stream.index))
        } else {
            None
        };
        let e = match edit {
            None => {
                return Ok(
                    OutputStreamPlan {
                        codec: None,
                        ass_header: None,
                        language: None,
                        title: None,
                        default_subtitle,
                    },
                );
            },
            Some(e) => e,
        };
        let language = clone_text(&e.language);
        let title = clone_text(&e.title);
        let format = match &e.format {
            None => {
                return Ok(
                    OutputStreamPlan {
                        codec: None,
                        ass_header: None,
                        language,
                        title,
                        default_subtitle,
                    },
                );
            },
            Some(f) => f,
        };
        let codec = match subtitle_codec_id(format.as_str()) {
            Some(c) => c,
            None => return Err("字幕格式只能是 ass 或 srt。".to_owned()),
        };
        let source_codec_name = canonical_codec_name(stream.codec_id_name.as_str());
        let ass_header = if str_eq(format.as_str(), "ass") && !str_eq(
            source_codec_name.as_str(),
            "ass",
        ) {
            let header = match FFIFfmpegService::ass_document_parts(e.content.as_str()) {
                Ok((h, _)) => h,
                Err(err) => return Err(err),
            };
            let h = chars_of(header);
            let crlf = chars_of("\r\n");
            let lf = chars_of("\n");
            proof {
                reveal_strlit("\r\n");
                reveal_strlit("\n");
            }
            let once = replace_chars(&h, &crlf, &lf);
            let twice = replace_chars(&once, &lf, &crlf);
            Some(string_of(&twice))
        } else {
            None
        };
        Ok(OutputStreamPlan { codec: Some(codec), ass_header, language, title, default_subtitle })
    }

    /// The packets that replace an edited stream's packets, made when the
    /// stream's first packet comes.
    pub fn replacement_packets(
        edit: &SubtitleEdit,
        source_codec_id_name: &str,
        time_base: Rational,
    ) -> (r: Result<Vec<(String, i64, i64)>, String>)
        ensures
            match r {
                Ok(v) => spec_replacement_packets(*edit, source_codec_id_name@, time_base) == Ok::<
                    _,
                    Seq<char>,
                >(packets_view(v@)),
                Err(e) => spec_replacement_packets(*edit, source_codec_id_name@, time_base) == Err::<
                    Seq<(Seq<char>, int, int)>,
                    _,
                >(e@),
            },
    {
        let target_is_ass = match &edit.format {
            Some(f) => str_eq(f.as_str(), "ass"),
            None => str_eq(canonical_codec_name(source_codec_id_name).as_str(), "ass"),
        };
        proof {
            reveal_strlit("ass");
            reveal_strlit("srt");
            assert("srt"@[0] != "ass"@[0]);
        }
        assert(target_is_ass == (match edit.format {
            Some(f) => f@,
            None => if spec_canonical_codec_name(source_codec_id_name@) == "ass"@ {
                "ass"@
            } else {
                "srt"@
            },
        } == "ass"@));
        if target_is_ass {
            let events = match FFIFfmpegService::ass_document_parts(edit.content.as_str()) {
                Ok((_, events)) => events,
                Err(e) => return Err(e),
            };
            let r = FFIFfmpegService::ass_packets(events, time_base);
            r
        } else {
            let mut v: Vec<(String, i64, i64)> = Vec::new();
            v.push((edit.content.clone(), 0, 1));
            assert(packets_view(v@) =~= seq![(edit.content@, 0int, 1int)]);
            Ok(v)
        }
    }
}

} // verus!
