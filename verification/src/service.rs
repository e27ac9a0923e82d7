//! What the application decides around the two FFmpeg back ends: which one
//! to use, what a plain remux keeps, the subtitle text that font subsets are
//! cut to, and which paths it accepts.
use vstd::prelude::*;

use crate::ffi::{spec_ffi_media_stream, FFIFfmpegService, FfiStreamInfo};
use crate::media::{FontAttachment, MediaFile, MediaStream, MediaStreamModel, MediaStreamType, SubtitleEdit};
use crate::probe::{find_edit, first_edit, spec_cli_media_stream, CliFfmpegService, ProbeStreamModel};
use crate::text::{chars_of, push_str, string_of};

verus! {

/// The FFmpeg back end in use: the `ffmpeg` program when one ships next to
/// the application, the FFmpeg libraries otherwise.
#[derive(Debug, Clone, PartialEq)]
pub enum ActiveFfmpegService {
    Ffi(FFIFfmpegService),
    Cli(CliFfmpegService),
}

impl ActiveFfmpegService {
    /// The back end to use, given the `ffmpeg` program found next to the
    /// application, if any.
    pub fn new(detected: Option<CliFfmpegService>) -> (r: Self)
        ensures
            match detected {
                Some(cli) => r == ActiveFfmpegService::Cli(cli),
                None => r is Ffi,
            },
    {
        match detected {
            Some(cli) => ActiveFfmpegService::Cli(cli),
            None => ActiveFfmpegService::Ffi(FFIFfmpegService::new()),
        }
    }
}

/// The two back ends describe a stream alike: from the same index, kind,
/// codec name, tags and flags they make the same stream, but for the codec
/// description, which each takes from its own source.
pub proof fn lemma_back_ends_agree(info: FfiStreamInfo, probe: ProbeStreamModel)
    requires
        info.index == probe.index,
        info.stream_type == probe.codec_type,
        info.decoder_name is Some,
        info.decoder_name.deep_view() == probe.codec_name,
        info.title.deep_view() == match probe.tags {
            Some(t) => t.title,
            None => None,
        },
        info.filename.deep_view() == match probe.tags {
            Some(t) => t.filename,
            None => None,
        },
        info.language.deep_view() == match probe.tags {
            Some(t) => t.language,
            None => None,
        },
        info.default_stream == (probe.disposition matches Some(d) && d.default matches Some(v) && v != 0),
        info.forced == (probe.disposition matches Some(d) && d.forced matches Some(v) && v != 0),
    ensures
        spec_ffi_media_stream(info) == (MediaStreamModel {
            codec_description: spec_ffi_media_stream(info).codec_description,
            ..spec_cli_media_stream(probe)
        }),
{
}

/// The indices of `streams`, in order.
pub open spec fn stream_indices(streams: Seq<MediaStream>) -> Seq<u32> {
    streams.map_values(|s: MediaStream| s.index)
}

/// The first subtitle stream marked default, if any.
pub open spec fn default_subtitle_of(streams: Seq<MediaStream>) -> Option<u32>
    decreases streams.len(),
{
    if streams.len() == 0 {
        None
    } else if streams[0].stream_type == MediaStreamType::Subtitle && streams[0].default_stream {
        Some(streams[0].index)
    } else {
        default_subtitle_of(streams.drop_first())
    }
}

/// What a remux of all streams keeps: every stream, in order, and the
/// default subtitle as it was.
pub fn remux_selection(streams: &Vec<MediaStream>) -> (r: (Vec<u32>, Option<u32>))
    ensures
        r.0@ == stream_indices(streams@),
        r.1 == default_subtitle_of(streams@),
{
    let mut indices: Vec<u32> = Vec::new();
    let mut default: Option<u32> = None;
    let mut i: usize = 0;
    let mut k: usize = streams.len();
    while k > 0
        invariant
            k <= streams.len(),
            default == default_subtitle_of(streams@.skip(k as int)),
        decreases k,
    {
        assert(streams@.skip(k - 1).drop_first() =~= streams@.skip(k as int));
        if streams[k - 1].stream_type == MediaStreamType::Subtitle && streams[k - 1].default_stream {
            default = Some(streams[k - 1].index);
        }
        k = k - 1;
    }
    assert(streams@.skip(0) =~= streams@);
    while i < streams.len()
        invariant
            i <= streams.len(),
            indices@ == stream_indices(streams@.take(i as int)),
        decreases streams.len() - i,
    {
        indices.push(streams[i].index);
        assert(stream_indices(streams@.take(i + 1)) =~= stream_indices(streams@.take(i as int)).push(
            streams@[i as int].index,
        ));
        i = i + 1;
    }
    assert(streams@.take(streams.len() as int) =~= streams@);
    (indices, default)
}

/// The editable streams whose text must be read for a font subset: those
/// without an edit and without text already at hand.
pub open spec fn subtitles_to_read_of(streams: Seq<MediaStream>, edits: Seq<SubtitleEdit>) -> Seq<u32>
    decreases streams.len(),
{
    if streams.len() == 0 {
        seq![]
    } else {
        let rest = subtitles_to_read_of(streams.drop_last(), edits);
        let s = streams.last();
        if s.editable && first_edit(edits, s.index) is None && s.subtitle is None {
            rest.push(s.index)
        } else {
            rest
        }
    }
}

/// The streams whose text must be read before a font subset can be cut.
pub fn subtitles_to_read(media: &MediaFile, edits: &[SubtitleEdit]) -> (r: Vec<u32>)
    ensures
        r@ == subtitles_to_read_of(media.streams@, edits@),
{
    let mut r: Vec<u32> = Vec::new();
    let mut i: usize = 0;
    assert(media.streams@.take(0) =~= Seq::<MediaStream>::empty());
    while i < media.streams.len()
        invariant
            i <= media.streams.len(),
            r@ == subtitles_to_read_of(media.streams@.take(i as int), edits@),
        decreases media.streams.len() - i,
    {
        assert(media.streams@.take(i + 1).drop_last() =~= media.streams@.take(i as int));
        let s = &media.streams[i];
        if s.editable && find_edit(edits, s.index).is_none() && s.subtitle.is_none() {
            r.push(s.index);
        }
        i = i + 1;
    }
    assert(media.streams@.take(media.streams.len() as int) =~= media.streams@);
    r
}

/// The text read for stream `index`: the first entry of `reads` for it.
pub open spec fn read_text(reads: Seq<(u32, String)>, index: u32) -> Seq<char> {
    let k = choose|k: int|
        0 <= k < reads.len() && reads[k].0 == index && forall|j: int| 0 <= j < k ==> reads[j].0 != index;
    reads[k].1@
}

/// The text of one editable stream: its edit's, else the text at hand,
/// else the text read for it.
pub open spec fn stream_text(stream: MediaStream, edits: Seq<SubtitleEdit>, reads: Seq<(u32, String)>) -> Seq<
    char,
> {
    match first_edit(edits, stream.index) {
        Some(k) => edits[k].content@,
        None => match stream.subtitle {
            Some(d) => d.content@,
            None => read_text(reads, stream.index),
        },
    }
}

/// The subtitle text that a font subset is cut to: the text of each
/// editable stream, in order, each followed by a line feed.
pub open spec fn font_subset_text(
    streams: Seq<MediaStream>,
    edits: Seq<SubtitleEdit>,
    reads: Seq<(u32, String)>,
) -> Seq<char>
    decreases streams.len(),
{
    if streams.len() == 0 {
        seq![]
    } else {
        let rest = font_subset_text(streams.drop_last(), edits, reads);
        let s = streams.last();
        if s.editable {
            rest + stream_text(s, edits, reads) + seq!['\n']
        } else {
            rest
        }
    }
}

/// Whether `reads` holds a text for each stream that must be read.
pub open spec fn reads_cover(reads: Seq<(u32, String)>, needed: Seq<u32>) -> bool {
    forall|j: int|
        0 <= j < needed.len() ==> exists|k: int| 0 <= k < reads.len() && reads[k].0 == #[trigger] needed[j]
}

fn find_read(reads: &[(u32, String)], index: u32) -> (r: usize)
    requires
        exists|k: int| 0 <= k < reads.len() && reads@[k].0 == index,
    ensures
        r < reads.len(),
        reads@[r as int].1@ == read_text(reads@, index),
{
    let mut k: usize = 0;
    while k < reads.len()
        invariant
            k <= reads.len(),
            forall|j: int| 0 <= j < k ==> reads@[j].0 != index,
            exists|m: int| 0 <= m < reads.len() && reads@[m].0 == index,
        decreases reads.len() - k,
    {
        if reads[k].0 == index {
            proof {
                let c = choose|c: int|
                    0 <= c < reads@.len() && reads@[c].0 == index && forall|j: int|
                        0 <= j < c ==> reads@[j].0 != index;
                assert(exists|c: int|
                    0 <= c < reads@.len() && reads@[c].0 == index && forall|j: int|
                        0 <= j < c ==> reads@[j].0 != index) by {
                    assert(forall|j: int| 0 <= j < k ==> reads@[j].0 != index);
                }
                let c = choose|c: int|
                    0 <= c < reads@.len() && reads@[c].0 == index && forall|j: int|
                        0 <= j < c ==> reads@[j].0 != index;
                if c > k {
                    assert(reads@[k as int].0 == index);
                }
            }
            return k;
        }
        k = k + 1;
    }
    proof {
        let m = choose|m: int| 0 <= m < reads@.len() && reads@[m].0 == index;
    }
    0
}

/// The subtitle text that font subsets are cut to, with `reads` holding
/// the texts read for the streams of `subtitles_to_read`.
pub fn subtitle_text_for_font_subset(media: &MediaFile, edits: &[SubtitleEdit], reads: &[(u32, String)]) -> (r:
    String)
    requires
        reads_cover(reads@, subtitles_to_read_of(media.streams@, edits@)),
    ensures
        r@ == font_subset_text(media.streams@, edits@, reads@),
{
    let mut text: Vec<char> = Vec::new();
    let mut i: usize = 0;
    assert(media.streams@.take(0) =~= Seq::<MediaStream>::empty());
    while i < media.streams.len()
        invariant
            i <= media.streams.len(),
            reads_cover(reads@, subtitles_to_read_of(media.streams@, edits@)),
            text@ == font_subset_text(media.streams@.take(i as int), edits@, reads@),
        decreases media.streams.len() - i,
    {
        assert(media.streams@.take(i + 1).drop_last() =~= media.streams@.take(i as int));
        let s = &media.streams[i];
        if s.editable {
            match find_edit(edits, s.index) {
                Some(k) => push_str(&mut text, edits[k].content.as_str()),
                None => match &s.subtitle {
                    Some(d) => push_str(&mut text, d.content.as_str()),
                    None => {
                        proof {
                            lemma_needed_read(media.streams@, edits@, i as int);
                            let needed = subtitles_to_read_of(media.streams@, edits@);
                            let j = choose|j: int| 0 <= j < needed.len() && needed[j] == s.index;
                            assert(exists|k: int| 0 <= k < reads.len() && reads@[k].0 == needed[j]);
                        }
                        let k = find_read(reads, s.index);
                        push_str(&mut text, reads[k].1.as_str());
                    },
                },
            }
            text.push('\n');
        }
        i = i + 1;
    }
    assert(media.streams@.take(media.streams.len() as int) =~= media.streams@);
    string_of(&text)
}

/// Every editable stream without an edit or text at hand is among those to
/// read.
proof fn lemma_needed_read(streams: Seq<MediaStream>, edits: Seq<SubtitleEdit>, i: int)
    requires
        0 <= i < streams.len(),
        streams[i].editable,
        first_edit(edits, streams[i].index) is None,
        streams[i].subtitle is None,
    ensures
        exists|j: int|
            0 <= j < subtitles_to_read_of(streams, edits).len() && subtitles_to_read_of(
                streams,
                edits,
            )[j] == streams[i].index,
    decreases streams.len(),
{
    let rest = subtitles_to_read_of(streams.drop_last(), edits);
    if i == streams.len() - 1 {
        assert(subtitles_to_read_of(streams, edits)[rest.len() as int] == streams[i].index);
    } else {
        lemma_needed_read(streams.drop_last(), edits, i);
        let j = choose|j: int| 0 <= j < rest.len() && rest[j] == streams[i].index;
        assert(subtitles_to_read_of(streams, edits)[j] == streams[i].index);
    }
}

/// Whether the fonts are to be cut down before they are attached.
pub fn needs_font_subset(subset_fonts: bool, font_attachments: &[FontAttachment]) -> (r: bool)
    ensures
        r == (subset_fonts && font_attachments.len() > 0),
{
    subset_fonts && font_attachments.len() > 0
}

/// The subset of a font cut to `text`, from the bytes of its file (`None`
/// where the file could not be read or the font cannot be cut).
pub open spec fn font_subset(file: Option<Vec<u8>>, text: Seq<char>) -> Option<Seq<u8>> {
    match file {
        None => None,
        Some(data) => crate::fonts::spec_subset_text(data@, text),
    }
}

/// Whether a font holds, as its bytes, the subset `subset`.
pub open spec fn holds_subset(font: FontAttachment, subset: Option<Seq<u8>>) -> bool {
    match (font.content, subset) {
        (Some(c), Some(s)) => c@ == s,
        _ => false,
    }
}

/// The error for a font that cannot be cut down.
pub open spec fn subset_error(path: Seq<char>) -> Seq<char> {
    "无法子集化字体文件 "@ + path + "。"@
}

/// Replaces each font's bytes, in order, by its subset cut to `text`, made
/// from the bytes of its file (`None` where it could not be read). At the
/// first font that cannot be cut, stops with an error that names its path:
/// the fonts before it hold their subsets, it and those after it are left
/// as they were.
pub fn prepare_font_attachments(
    font_attachments: &mut Vec<FontAttachment>,
    font_files: &[Option<Vec<u8>>],
    text: &str,
) -> (r: Result<(), String>)
    requires
        font_files.len() == old(font_attachments).len(),
    ensures
        final(font_attachments).len() == old(font_attachments).len(),
        forall|i: int|
            0 <= i < old(font_attachments).len() ==> (#[trigger] final(font_attachments)@[i]).path
                == old(font_attachments)@[i].path,
        match r {
            Ok(()) => forall|i: int|
                0 <= i < old(font_attachments).len() ==> holds_subset(
                    #[trigger] final(font_attachments)@[i],
                    font_subset(font_files@[i], text@),
                ),
            Err(e) => exists|k: int|
                0 <= k < old(font_attachments).len() && font_subset(font_files@[k], text@) is None
                    && e@ == subset_error(#[trigger] old(font_attachments)@[k].path@) && (forall|
                    j: int,
                | 0 <= j < k ==> holds_subset(
                    #[trigger] final(font_attachments)@[j],
                    font_subset(font_files@[j], text@),
                )) && (forall|j: int|
                    k <= j < old(font_attachments).len() ==> #[trigger] final(font_attachments)@[j]
                        == old(font_attachments)@[j]),
        },
{
    let ghost initial = font_attachments@;
    let mut i: usize = 0;
    while i < font_attachments.len()
        invariant
            i <= font_attachments.len() == initial.len() == font_files.len(),
            initial == old(font_attachments)@,
            forall|j: int| 0 <= j < initial.len() ==> (#[trigger] font_attachments@[j]).path == initial[j].path,
            forall|j: int|
                0 <= j < i ==> holds_subset(
                    #[trigger] font_attachments@[j],
                    font_subset(font_files@[j], text@),
                ),
            forall|j: int| i <= j < initial.len() ==> #[trigger] font_attachments@[j] == initial[j],
        decreases font_attachments.len() - i,
    {
        let subset = match &font_files[i] {
            Some(data) => crate::fonts::subset_text(data.as_slice(), text),
            None => None,
        };
        match subset {
            Some(bytes) => {
                let ghost before = font_attachments@;
                let mut font = font_attachments.remove(i);
                font.content = Some(bytes);
                font_attachments.insert(i, font);
                assert(font_attachments@ =~= before.update(i as int, font));
            },
            None => {
                let mut m = chars_of("无法子集化字体文件 ");
                push_str(&mut m, font_attachments[i].path.as_str());
                push_str(&mut m, "。");
                assert(font_attachments@[i as int] == initial[i as int]);
                return Err(string_of(&m));
            },
        }
        i = i + 1;
    }
    Ok(())
}

/// Which input paths are accepted: a file, with the extension `mkv` in any
/// case.
pub open spec fn spec_mkv_path(path: Seq<char>, is_file: bool) -> Result<Seq<char>, Seq<char>> {
    if !is_file {
        Err("所选路径不是可读取的文件。"@)
    } else {
        match crate::paths::spec_extension(path) {
            Some(e) => if crate::fonts::to_ascii_lowercase(e) == "mkv"@ {
                Ok(path)
            } else {
                Err("请选择 MKV 文件。"@)
            },
            None => Err("请选择 MKV 文件。"@),
        }
    }
}

/// An input path is accepted, as it is, exactly when it names a file whose
/// extension is `mkv` in any ASCII case.
pub proof fn lemma_mkv_path_accepted(path: Seq<char>, is_file: bool)
    ensures
        spec_mkv_path(path, is_file) is Ok <==> (is_file && (crate::paths::spec_extension(path) matches Some(
            e,
        ) && crate::fonts::to_ascii_lowercase(e) == "mkv"@)),
        spec_mkv_path(path, is_file) matches Ok(p) ==> p == path,
{
}

/// The path of an input MKV file, given whether it names a file.
pub fn mkv_path(path: &str, is_file: bool) -> (r: Result<String, String>)
    ensures
        match r {
            Ok(p) => spec_mkv_path(path@, is_file) == Ok::<_, Seq<char>>(p@),
            Err(e) => spec_mkv_path(path@, is_file) == Err::<Seq<char>, _>(e@),
        },
{
    if !is_file {
        return Err("所选路径不是可读取的文件。".to_owned());
    }
    let extension = match crate::paths::extension(path) {
        Some(e) => e,
        None => return Err("请选择 MKV 文件。".to_owned()),
    };
    let lower = crate::fonts::lowercase_ascii(extension.as_str());
    if crate::text::chars_eq_str(&lower, "mkv") {
        Ok(path.to_owned())
    } else {
        Err("请选择 MKV 文件。".to_owned())
    }
}

/// Which output paths are accepted: non-empty, with the extension `mkv`.
pub open spec fn spec_output_path_accepted(path: Seq<char>) -> bool {
    path.len() > 0 && crate::paths::spec_extension(path) == Some("mkv"@)
}

/// Checks the path that a remux writes to.
pub fn check_output_path(path: &str) -> (r: Result<(), String>)
    ensures
        r is Ok <==> spec_output_path_accepted(path@),
        r matches Err(e) ==> e@ == "输出文件必须使用 .mkv 扩展名。"@,
{
    let accepted = !path.is_empty() && match crate::paths::extension(path) {
        Some(e) => crate::text::str_eq(e.as_str(), "mkv"),
        None => false,
    };
    if accepted {
        Ok(())
    } else {
        Err("输出文件必须使用 .mkv 扩展名。".to_owned())
    }
}

} // verus!
