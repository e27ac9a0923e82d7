//! The media model: streams, subtitle documents and edits, and the rules on
//! subtitle codecs shared by both FFmpeg back ends.
use vstd::prelude::*;

use crate::text::{chars_of, chars_eq_str, replace, replace_chars, string_of};

verus! {

/// The kind of a stream in a media file.
#[derive(Clone, Copy, Debug, PartialEq, Eq, Structural)]
pub enum MediaStreamType {
    Video,
    Audio,
    Subtitle,
    Attachment,
    Data,
    Unknown,
}

/// The text of a subtitle stream, as an editor shows it.
#[derive(Debug, Clone, PartialEq)]
pub struct SubtitleDocument {
    pub content: String,
    pub format: String,
    pub codec_name: String,
}

/// One stream of a media file.
#[derive(Debug, Clone, PartialEq)]
pub struct MediaStream {
    pub index: u32,
    pub stream_type: MediaStreamType,
    pub codec_name: Option<String>,
    pub codec_description: Option<String>,
    pub title: Option<String>,
    pub filename: Option<String>,
    pub language: Option<String>,
    pub default_stream: bool,
    pub forced: bool,
    pub editable: bool,
    pub subtitle: Option<SubtitleDocument>,
}

/// A media file and its streams.
#[derive(Debug, Clone, PartialEq)]
pub struct MediaFile {
    pub path: String,
    pub name: String,
    pub duration: Option<String>,
    pub streams: Vec<MediaStream>,
}

/// New text, and optionally a new format, language or title, for one
/// subtitle stream.
#[derive(Debug, Clone, PartialEq)]
pub struct SubtitleEdit {
    pub stream_index: u32,
    pub content: String,
    pub format: Option<String>,
    pub language: Option<String>,
    pub title: Option<String>,
}

/// A font file to attach to the output, with its bytes once they are known.
#[derive(Debug, Clone, PartialEq)]
pub struct FontAttachment {
    pub path: String,
    pub content: Option<Vec<u8>>,
}

/// A subtitle document's text, format and codec, as sequences of characters.
pub struct SubtitleDocumentModel {
    pub content: Seq<char>,
    pub format: Seq<char>,
    pub codec_name: Seq<char>,
}

impl View for SubtitleDocument {
    type V = SubtitleDocumentModel;

    open spec fn view(&self) -> SubtitleDocumentModel {
        SubtitleDocumentModel {
            content: self.content@,
            format: self.format@,
            codec_name: self.codec_name@,
        }
    }
}

pub open spec fn document_view(d: Option<SubtitleDocument>) -> Option<SubtitleDocumentModel> {
    match d {
        Some(d) => Some(d@),
        None => None,
    }
}

/// A media stream, with its text as sequences of characters.
pub struct MediaStreamModel {
    pub index: u32,
    pub stream_type: MediaStreamType,
    pub codec_name: Option<Seq<char>>,
    pub codec_description: Option<Seq<char>>,
    pub title: Option<Seq<char>>,
    pub filename: Option<Seq<char>>,
    pub language: Option<Seq<char>>,
    pub default_stream: bool,
    pub forced: bool,
    pub editable: bool,
    pub subtitle: Option<SubtitleDocumentModel>,
}

impl View for MediaStream {
    type V = MediaStreamModel;

    open spec fn view(&self) -> MediaStreamModel {
        MediaStreamModel {
            index: self.index,
            stream_type: self.stream_type,
            codec_name: self.codec_name.deep_view(),
            codec_description: self.codec_description.deep_view(),
            title: self.title.deep_view(),
            filename: self.filename.deep_view(),
            language: self.language.deep_view(),
            default_stream: self.default_stream,
            forced: self.forced,
            editable: self.editable,
            subtitle: document_view(self.subtitle),
        }
    }
}

pub open spec fn media_streams_view(v: Seq<MediaStream>) -> Seq<MediaStreamModel> {
    v.map_values(|s: MediaStream| s@)
}

/// Whether a stream can be edited: a subtitle stream whose (canonical)
/// codec has a subtitle specification.
pub open spec fn spec_editable(stream_type: MediaStreamType, codec_name: Option<Seq<char>>) -> bool {
    stream_type == MediaStreamType::Subtitle && match codec_name {
        Some(name) => spec_subtitle_specification(name) is Some,
        None => false,
    }
}

/// Whether a stream of type `stream_type` and codec `codec_name` is editable.
pub fn editable(stream_type: MediaStreamType, codec_name: &Option<String>) -> (r: bool)
    ensures
        r == spec_editable(stream_type, codec_name.deep_view()),
{
    stream_type == MediaStreamType::Subtitle && match codec_name {
        Some(name) => subtitle_specification(name.as_str()).is_some(),
        None => false,
    }
}

/// The name of a media file: its file name, or `未知文件` when it has none
/// that is valid Unicode.
pub open spec fn spec_media_name(path: Seq<char>) -> Seq<char> {
    match crate::paths::spec_file_name(path) {
        Some(name) => name,
        None => "未知文件"@,
    }
}

/// The name that a media file at `path` is shown under.
pub fn media_name(path: &str) -> (r: String)
    ensures
        r@ == spec_media_name(path@),
{
    match crate::paths::file_name(path) {
        Some(name) => name,
        None => "未知文件".to_owned(),
    }
}

/// The subtitle codecs that an edited stream can be written as.
#[derive(Clone, Copy, Debug, PartialEq, Eq, Structural)]
pub enum SubtitleCodecId {
    Subrip,
    Ass,
}

/// For an editable subtitle codec, its text format and its canonical name.
pub open spec fn spec_subtitle_specification(codec_name: Seq<char>) -> Option<
    (Seq<char>, Seq<char>),
> {
    if codec_name == "subrip"@ || codec_name == "srt"@ {
        Some(("srt"@, "srt"@))
    } else if codec_name == "ass"@ || codec_name == "ssa"@ {
        Some(("ass"@, "ass"@))
    } else if codec_name == "webvtt"@ {
        Some(("webvtt"@, "webvtt"@))
    } else {
        None
    }
}

/// The text format and the canonical name of an editable subtitle codec:
/// SubRip, ASS/SSA and WebVTT; `None` for any other codec.
pub fn subtitle_specification(codec_name: &str) -> (r: Option<(&'static str, &'static str)>)
    ensures
        match r {
            Some((format, canonical)) => spec_subtitle_specification(codec_name@) == Some(
                (format@, canonical@),
            ),
            None => spec_subtitle_specification(codec_name@) is None,
        },
{
    let name = chars_of(codec_name);
    if chars_eq_str(&name, "subrip") || chars_eq_str(&name, "srt") {
        let s = "srt";
        Some((s, s))
    } else if chars_eq_str(&name, "ass") || chars_eq_str(&name, "ssa") {
        let s = "ass";
        Some((s, s))
    } else if chars_eq_str(&name, "webvtt") {
        let s = "webvtt";
        Some((s, s))
    } else {
        None
    }
}

/// The codec that a target format names.
pub open spec fn spec_subtitle_codec_id(format: Seq<char>) -> Option<SubtitleCodecId> {
    if format == "srt"@ {
        Some(SubtitleCodecId::Subrip)
    } else if format == "ass"@ {
        Some(SubtitleCodecId::Ass)
    } else {
        None
    }
}

/// The codec for an output subtitle format: `srt` or `ass`.
pub fn subtitle_codec_id(format: &str) -> (r: Option<SubtitleCodecId>)
    ensures
        r == spec_subtitle_codec_id(format@),
{
    let f = chars_of(format);
    if chars_eq_str(&f, "srt") {
        Some(SubtitleCodecId::Subrip)
    } else if chars_eq_str(&f, "ass") {
        Some(SubtitleCodecId::Ass)
    } else {
        None
    }
}

/// The canonical name of a codec: that of its subtitle specification, or the
/// name itself.
pub open spec fn spec_canonical_codec_name(codec_name: Seq<char>) -> Seq<char> {
    match spec_subtitle_specification(codec_name) {
        Some((_, canonical)) => canonical,
        None => codec_name,
    }
}

/// The canonical name of a codec (`subrip` becomes `srt`, `ssa` becomes
/// `ass`); any other name is kept.
pub fn canonical_codec_name(codec_name: &str) -> (r: String)
    ensures
        r@ == spec_canonical_codec_name(codec_name@),
{
    match subtitle_specification(codec_name) {
        Some((_, canonical)) => string_of(&chars_of(canonical)),
        None => string_of(&chars_of(codec_name)),
    }
}

/// SubRip text with every `\r\n`, then every remaining `\r`, turned into `\n`.
pub open spec fn spec_normalize_srt_line_endings(content: Seq<char>) -> Seq<char> {
    replace(replace(content, "\r\n"@, "\n"@), "\r"@, "\n"@)
}

/// SubRip text with Unix line endings.
pub fn normalize_srt_line_endings(content: String) -> (r: String)
    ensures
        r@ == spec_normalize_srt_line_endings(content@),
{
    let c = chars_of(content.as_str());
    let crlf = chars_of("\r\n");
    let lf = chars_of("\n");
    let cr = chars_of("\r");
    proof {
        reveal_strlit("\r\n");
        reveal_strlit("\r");
    }
    let once = replace_chars(&c, &crlf, &lf);
    let twice = replace_chars(&once, &cr, &lf);
    string_of(&twice)
}

/// Canonical names are their own canonical names, and name the same
/// subtitle specification as the codec they come from.
pub proof fn lemma_canonical_codec_name(codec_name: Seq<char>)
    ensures
        spec_subtitle_specification(spec_canonical_codec_name(codec_name))
            == spec_subtitle_specification(codec_name),
        spec_canonical_codec_name(spec_canonical_codec_name(codec_name))
            == spec_canonical_codec_name(codec_name),
{
    reveal_strlit("subrip");
    reveal_strlit("srt");
    reveal_strlit("ass");
    reveal_strlit("ssa");
    reveal_strlit("webvtt");
    assert("webvtt"@.len() == 6 && "subrip"@.len() == 6 && "srt"@.len() == 3);
    assert("ass"@.len() == 3 && "ssa"@.len() == 3);
    assert("webvtt"@[0] == 'w' && "subrip"@[0] == 's');
    assert("ass"@[0] == 'a' && "srt"@[0] == 's');
}

proof fn lemma_replace_no_char(s: Seq<char>, pat: Seq<char>, rep: Seq<char>, c: char)
    requires
        pat.len() > 0,
        pat[0] == c,
        !s.contains(c),
    ensures
        replace(s, pat, rep) == s,
    decreases s.len(),
{
    if s.len() > 0 {
        if crate::text::starts_with(s, pat) {
            assert(s.subrange(0, pat.len() as int)[0] == s[0]);
        }
        assert(!s.drop_first().contains(c)) by {
            if s.drop_first().contains(c) {
                let j = choose|j: int| 0 <= j < s.drop_first().len() && s.drop_first()[j] == c;
                assert(s[j + 1] == c);
            }
        }
        lemma_replace_no_char(s.drop_first(), pat, rep, c);
        assert(seq![s[0]] + s.drop_first() =~= s);
    }
}

proof fn lemma_replace_removes_char(s: Seq<char>, rep: Seq<char>, c: char)
    requires
        !rep.contains(c),
    ensures
        !replace(s, seq![c], rep).contains(c),
    decreases s.len(),
{
    if s.len() > 0 {
        if crate::text::starts_with(s, seq![c]) {
            lemma_replace_removes_char(s.skip(1), rep, c);
            let r = replace(s.skip(1), seq![c], rep);
            assert forall|j: int| 0 <= j < (rep + r).len() implies (rep + r)[j] != c by {
                if j < rep.len() {
                    assert(rep[j] == (rep + r)[j]);
                } else {
                    assert(r[j - rep.len()] == (rep + r)[j]);
                }
            }
        } else {
            assert(s.subrange(0, 1) =~= seq![s[0]]);
            lemma_replace_removes_char(s.drop_first(), rep, c);
            let r = replace(s.drop_first(), seq![c], rep);
            assert forall|j: int| 0 <= j < (seq![s[0]] + r).len() implies (seq![s[0]] + r)[j]
                != c by {
                if j > 0 {
                    assert(r[j - 1] == (seq![s[0]] + r)[j]);
                }
            }
        }
    }
}

/// How many times `c` occurs in `s`.
pub open spec fn count_char(s: Seq<char>, c: char) -> nat
    decreases s.len(),
{
    if s.len() == 0 {
        0
    } else {
        (if s[0] == c {
            1nat
        } else {
            0nat
        }) + count_char(s.drop_first(), c)
    }
}

/// The line breaks of `s`: each `\r\n`, lone `\r` and lone `\n` counts once.
pub open spec fn line_breaks(s: Seq<char>) -> nat
    decreases s.len(),
{
    if s.len() == 0 {
        0
    } else if s.len() >= 2 && s[0] == '\r' && s[1] == '\n' {
        1 + line_breaks(s.skip(2))
    } else if s[0] == '\r' || s[0] == '\n' {
        1 + line_breaks(s.drop_first())
    } else {
        line_breaks(s.drop_first())
    }
}

proof fn lemma_count_concat(a: Seq<char>, b: Seq<char>, c: char)
    ensures
        count_char(a + b, c) == count_char(a, c) + count_char(b, c),
    decreases a.len(),
{
    if a.len() > 0 {
        assert((a + b).drop_first() =~= a.drop_first() + b);
        lemma_count_concat(a.drop_first(), b, c);
    } else {
        assert(a + b =~= b);
    }
}

proof fn lemma_replace_cr_count(a: Seq<char>)
    requires
        "\r"@ == seq!['\r'],
        "\n"@ == seq!['\n'],
    ensures
        count_char(replace(a, "\r"@, "\n"@), '\n') == count_char(a, '\n') + count_char(a, '\r'),
    decreases a.len(),
{
    if a.len() > 0 {
        lemma_replace_cr_count(a.drop_first());
        let rest = replace(a.drop_first(), "\r"@, "\n"@);
        assert(a.subrange(0, 1) =~= seq![a[0]]);
        assert(a.skip(1) =~= a.drop_first());
        assert(seq!['\n'].drop_first() =~= Seq::<char>::empty());
        assert(seq![a[0]].drop_first() =~= Seq::<char>::empty());
        assert(count_char(Seq::<char>::empty(), '\n') == 0);
        assert(crate::text::starts_with(a, "\r"@) == (a[0] == '\r')) by {
            if a[0] == '\r' {
                assert(a.subrange(0, 1) =~= "\r"@);
            } else if crate::text::starts_with(a, "\r"@) {
                assert(a.subrange(0, 1)[0] == "\r"@[0]);
            }
        }
        if a[0] == '\r' {
            assert(replace(a, "\r"@, "\n"@) == seq!['\n'] + rest);
            lemma_count_concat(seq!['\n'], rest, '\n');
        } else {
            assert(replace(a, "\r"@, "\n"@) == seq![a[0]] + rest);
            lemma_count_concat(seq![a[0]], rest, '\n');
        }
    }
}

proof fn lemma_replace_crlf_count(s: Seq<char>)
    requires
        "\r\n"@ == seq!['\r', '\n'],
        "\n"@ == seq!['\n'],
    ensures
        count_char(replace(s, "\r\n"@, "\n"@), '\n') + count_char(replace(s, "\r\n"@, "\n"@), '\r')
            == line_breaks(s),
    decreases s.len(),
{
    if s.len() > 0 {
        assert(seq!['\n'].drop_first() =~= Seq::<char>::empty());
        assert(seq![s[0]].drop_first() =~= Seq::<char>::empty());
        if s.len() >= 2 && s[0] == '\r' && s[1] == '\n' {
            assert(s.subrange(0, 2) =~= seq!['\r', '\n']);
            lemma_replace_crlf_count(s.skip(2));
            let rest = replace(s.skip(2), "\r\n"@, "\n"@);
            assert(replace(s, "\r\n"@, "\n"@) == seq!['\n'] + rest);
            assert(count_char(Seq::<char>::empty(), '\n') == 0);
            assert(count_char(Seq::<char>::empty(), '\r') == 0);
            lemma_count_concat(seq!['\n'], rest, '\n');
            lemma_count_concat(seq!['\n'], rest, '\r');
        } else {
            assert(!crate::text::starts_with(s, "\r\n"@)) by {
                if crate::text::starts_with(s, "\r\n"@) {
                    assert(s.subrange(0, 2)[0] == s[0] && s.subrange(0, 2)[1] == s[1]);
                }
            }
            lemma_replace_crlf_count(s.drop_first());
            let rest = replace(s.drop_first(), "\r\n"@, "\n"@);
            assert(replace(s, "\r\n"@, "\n"@) == seq![s[0]] + rest);
            assert(count_char(Seq::<char>::empty(), '\n') == 0);
            assert(count_char(Seq::<char>::empty(), '\r') == 0);
            lemma_count_concat(seq![s[0]], rest, '\n');
            lemma_count_concat(seq![s[0]], rest, '\r');
        }
    }
}

/// Normalised SubRip text holds no carriage return, normalising it again
/// changes nothing, text without a carriage return comes back as it was,
/// and it holds one line feed for each line break of the text.
pub proof fn lemma_normalize_srt_line_endings(content: Seq<char>)
    ensures
        !spec_normalize_srt_line_endings(content).contains('\r'),
        spec_normalize_srt_line_endings(spec_normalize_srt_line_endings(content))
            == spec_normalize_srt_line_endings(content),
        !content.contains('\r') ==> spec_normalize_srt_line_endings(content) == content,
        count_char(spec_normalize_srt_line_endings(content), '\n') == line_breaks(content),
{
    reveal_strlit("\r\n");
    reveal_strlit("\r");
    reveal_strlit("\n");
    assert("\r"@ =~= seq!['\r']);
    assert(!"\n"@.contains('\r')) by {
        if "\n"@.contains('\r') {
            let j = choose|j: int| 0 <= j < "\n"@.len() && "\n"@[j] == '\r';
        }
    }
    let once = replace(content, "\r\n"@, "\n"@);
    lemma_replace_removes_char(once, "\n"@, '\r');
    let n = spec_normalize_srt_line_endings(content);
    lemma_replace_no_char(n, "\r\n"@, "\n"@, '\r');
    lemma_replace_no_char(n, "\r"@, "\n"@, '\r');
    assert("\r\n"@ =~= seq!['\r', '\n']);
    assert("\n"@ =~= seq!['\n']);
    lemma_replace_crlf_count(content);
    lemma_replace_cr_count(once);
    if !content.contains('\r') {
        lemma_replace_no_char(content, "\r\n"@, "\n"@, '\r');
        lemma_replace_no_char(content, "\r"@, "\n"@, '\r');
    }
}

} // verus!
