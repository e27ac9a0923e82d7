use mkv_lib::ass::Rational;
use mkv_lib::ffi::{FFIFfmpegService, FfiRemuxStream, FfiStreamInfo, FfiSubtitleReader};
use mkv_lib::media::{MediaStream, MediaStreamType, SubtitleCodecId, SubtitleDocument, SubtitleEdit};

fn millis() -> Rational {
    Rational { numerator: 1, denominator: 1000 }
}

fn info(index: u32, stream_type: MediaStreamType, decoder: Option<&str>, codec_id: &str) -> FfiStreamInfo {
    FfiStreamInfo {
        index,
        stream_type,
        decoder_name: decoder.map(|d| d.to_string()),
        decoder_description: Some(String::new()),
        codec_id_name: codec_id.to_string(),
        title: None,
        filename: None,
        language: None,
        default_stream: false,
        forced: false,
    }
}

fn remux_stream(index: u32, stream_type: MediaStreamType, codec_id: &str) -> FfiRemuxStream {
    FfiRemuxStream { index, stream_type, codec_id_name: codec_id.to_string(), time_base: millis() }
}

fn edit(stream_index: u32, content: &str, format: Option<&str>) -> SubtitleEdit {
    SubtitleEdit {
        stream_index,
        content: content.to_string(),
        format: format.map(|f| f.to_string()),
        language: None,
        title: None,
    }
}

fn streams() -> Vec<FfiRemuxStream> {
    vec![
        remux_stream(0, MediaStreamType::Video, "h264"),
        remux_stream(1, MediaStreamType::Subtitle, "subrip"),
        remux_stream(2, MediaStreamType::Subtitle, "hdmv_pgs_subtitle"),
        remux_stream(3, MediaStreamType::Subtitle, "ass"),
    ]
}

const ASS_DOCUMENT: &str = "[Script Info]\nScriptType: v4.00+\n\n[Events]\nFormat: Layer, Start, End, Style, Name, MarginL, MarginR, MarginV, Effect, Text\nDialogue: 0,0:00:00.00,0:00:01.00,Default,,0,0,0,,第一条字幕\nDialogue: 0,0:00:02.00,0:00:03.00,Default,,0,0,0,,第二条字幕\n";

#[test]
fn describes_library_streams() {
    let mut subtitle = info(1, MediaStreamType::Subtitle, Some("subrip"), "subrip");
    subtitle.decoder_description = Some("SubRip subtitle".to_string());
    subtitle.language = Some("eng".to_string());
    subtitle.default_stream = true;
    let stream = FFIFfmpegService::media_stream(subtitle);
    assert_eq!(stream.codec_name.as_deref(), Some("srt"));
    assert_eq!(stream.codec_description.as_deref(), Some("SubRip subtitle"));
    assert_eq!(stream.language.as_deref(), Some("eng"));
    assert!(stream.default_stream);
    assert!(stream.editable);
    assert!(stream.subtitle.is_none());

    let unknown = FFIFfmpegService::media_stream(info(5, MediaStreamType::Data, None, "none"));
    assert_eq!(unknown.codec_name, None);
    assert_eq!(unknown.codec_description, None);
    assert!(!unknown.editable);

    let by_id = FFIFfmpegService::media_stream(info(6, MediaStreamType::Subtitle, None, "ssa"));
    assert_eq!(by_id.codec_name.as_deref(), Some("ass"));
    assert!(by_id.editable);
}

#[test]
fn reads_subrip_from_decoded_rectangles() {
    let mut reader = FfiSubtitleReader::new(1, "subrip", &[], millis()).expect("an editable stream");
    assert_eq!(reader.document.format, "srt");
    assert_eq!(reader.document.codec_name, "srt");
    assert_eq!(reader.subtitle_number, 1);
    reader.push_ass_rect("1,0,Default,,0,0,0,,,{\\i1}Hi{\\i0}", Some(1_000), 1_500);
    reader.push_ass_rect("2,0,Default,,0,0,0,,,Bye", None, 500);
    assert_eq!(reader.subtitle_number, 3);
    let document = reader.finish().expect("some text");
    assert_eq!(
        document.content,
        "1\n00:00:01,001 --> 00:00:02,501\n<i>Hi</i>\n\n2\n00:00:00,001 --> 00:00:00,501\nBye\n\n"
    );
}

#[test]
fn reads_ass_after_its_header() {
    let mut reader = FfiSubtitleReader::new(3, "ass", b"[Script Info]\r\nTitle: x\r\n\r\n", millis())
        .expect("an ASS stream");
    assert!(reader.ass_uses_crlf);
    assert_eq!(reader.document.content, "[Script Info]\r\nTitle: x\r\n");
    reader.push_ass_rect("0,0,Default,,0,0,0,,Hi", Some(0), 1_000);
    let document = reader.finish().expect("some text");
    assert_eq!(
        document.content,
        "[Script Info]\r\nTitle: x\r\nDialogue: 0,0:00:00.00,0:00:01.00,,0,0,0,,Hi\r\n"
    );
    assert_eq!(document.format, "ass");
}

#[test]
fn reads_plain_text_rectangles() {
    let mut reader = FfiSubtitleReader::new(4, "webvtt", &[], millis()).expect("a WebVTT stream");
    reader.push_text_rect("Hello\r\n\n");
    reader.push_ass_rect("raw", Some(0), 1);
    let document = reader.finish().expect("some text");
    assert_eq!(document.content, "Hello\nraw\n");
    assert_eq!(document.format, "webvtt");
}

#[test]
fn refuses_what_cannot_be_read() {
    assert_eq!(
        FfiSubtitleReader::new(2, "hdmv_pgs_subtitle", &[], millis()).map(|r| r.stream_index),
        Err("目前可编辑 SRT、ASS/SSA 和 WebVTT 字幕流。".to_string())
    );
    assert_eq!(
        FfiSubtitleReader::new(3, "ass", &[], millis()).map(|r| r.stream_index),
        Err("ASS 字幕流缺少 Script Info 头信息。".to_string())
    );
    let empty = FfiSubtitleReader::new(1, "srt", &[], millis()).expect("an editable stream");
    assert_eq!(empty.finish(), Err("字幕流不包含可编辑的文本事件。".to_string()));
}

#[test]
fn attaches_read_documents_to_streams() {
    let mut media: Vec<MediaStream> = vec![
        FFIFfmpegService::media_stream(info(0, MediaStreamType::Video, Some("h264"), "h264")),
        FFIFfmpegService::media_stream(info(1, MediaStreamType::Subtitle, Some("subrip"), "subrip")),
        FFIFfmpegService::media_stream(info(2, MediaStreamType::Subtitle, Some("ass"), "ass")),
    ];
    assert_eq!(FFIFfmpegService::subtitle_indices(&media), vec![1, 2]);
    let document = SubtitleDocument {
        content: "1\n".to_string(),
        format: "srt".to_string(),
        codec_name: "srt".to_string(),
    };
    FFIFfmpegService::attach_subtitles(&mut media, &[(1, document.clone())]);
    assert_eq!(media[1].subtitle, Some(document));
    assert_eq!(media[0].subtitle, None);
    assert_eq!(media[2].subtitle, None);
    assert_eq!(FFIFfmpegService::check_requested(&[1, 2], &[1, 2]), Ok(()));
    assert_eq!(
        FFIFfmpegService::check_requested(&[1, 7], &[1, 2]),
        Err("未找到所选字幕流。".to_string())
    );
}

#[test]
fn checks_remux_requests_in_order() {
    let streams = streams();
    assert_eq!(
        FFIFfmpegService::remux_checks(&streams, &[], &[], None),
        Err("请至少选择一条要导出的流。".to_string())
    );
    assert_eq!(
        FFIFfmpegService::remux_checks(&streams, &[edit(1, "a", None), edit(1, "b", None)], &[1], None),
        Err("字幕流 #1 被重复提交。".to_string())
    );
    assert_eq!(
        FFIFfmpegService::remux_checks(&streams, &[edit(9, "a", None)], &[1], None),
        Err("未找到所选字幕流。".to_string())
    );
    assert_eq!(
        FFIFfmpegService::remux_checks(&streams, &[edit(2, "a", None)], &[2], None),
        Err("目前可编辑 SRT、ASS/SSA 和 WebVTT 字幕流；图形字幕会保留但不可编辑。".to_string())
    );
    assert_eq!(
        FFIFfmpegService::remux_checks(&streams, &[], &[0, 1], Some(8)),
        Err("未找到要设为默认的字幕流。".to_string())
    );
    assert_eq!(
        FFIFfmpegService::remux_checks(&streams, &[], &[0, 1], Some(3)),
        Err("默认字幕必须是要导出的字幕流。".to_string())
    );
    assert_eq!(
        FFIFfmpegService::remux_checks(&streams, &[], &[0, 1], Some(0)),
        Err("默认字幕必须是要导出的字幕流。".to_string())
    );
    assert_eq!(
        FFIFfmpegService::remux_checks(&streams, &[edit(1, "a", None), edit(3, "b", None)], &[0, 1, 3], Some(1)),
        Ok(())
    );
}

#[test]
fn plans_srt_stream_written_as_ass() {
    let streams = streams();
    let mut converted = edit(1, ASS_DOCUMENT, Some("ass"));
    converted.language = Some("chi".to_string());
    let plan = FFIFfmpegService::output_stream_plan(&streams[1], Some(&converted), Some(1))
        .expect("a plan");
    assert_eq!(plan.codec, Some(SubtitleCodecId::Ass));
    assert_eq!(
        plan.ass_header.as_deref(),
        Some("[Script Info]\r\nScriptType: v4.00+\r\n\r\n[Events]\r\nFormat: Layer, Start, End, Style, Name, MarginL, MarginR, MarginV, Effect, Text")
    );
    assert_eq!(plan.language.as_deref(), Some("chi"));
    assert_eq!(plan.title, None);
    assert_eq!(plan.default_subtitle, Some(true));
}

#[test]
fn marks_only_the_requested_default_subtitle() {
    let streams = streams();
    let mut defaults = Vec::new();
    for stream in &streams {
        let plan = FFIFfmpegService::output_stream_plan(stream, None, Some(3)).expect("a plan");
        defaults.push(plan.default_subtitle);
    }
    assert_eq!(defaults, vec![None, Some(false), Some(false), Some(true)]);
}

#[test]
fn plan_refuses_unknown_formats_and_bad_documents() {
    let streams = streams();
    assert_eq!(
        FFIFfmpegService::output_stream_plan(&streams[1], Some(&edit(1, "x", Some("vtt"))), None).map(|p| p.codec),
        Err("字幕格式只能是 ass 或 srt。".to_string())
    );
    assert_eq!(
        FFIFfmpegService::output_stream_plan(&streams[1], Some(&edit(1, "Dialogue: x", Some("ass"))), None)
            .map(|p| p.codec),
        Err("ASS 字幕缺少 Script Info 头信息。".to_string())
    );
    let same = FFIFfmpegService::output_stream_plan(&streams[3], Some(&edit(3, "x", Some("ass"))), None)
        .expect("an ASS stream kept as ASS");
    assert_eq!(same.codec, Some(SubtitleCodecId::Ass));
    assert_eq!(same.ass_header, None);
}

#[test]
fn builds_replacement_packets() {
    assert_eq!(
        FFIFfmpegService::replacement_packets(&edit(1, "1\n00:00:01,000 --> 00:00:02,000\nHi\n", None), "subrip", millis()),
        Ok(vec![("1\n00:00:01,000 --> 00:00:02,000\nHi\n".to_string(), 0, 1)])
    );
    assert_eq!(
        FFIFfmpegService::replacement_packets(&edit(1, ASS_DOCUMENT, Some("ass")), "subrip", millis()),
        Ok(vec![
            ("Dialogue: 0,0:00:00.00,0:00:01.00,Default,,0,0,0,,第一条字幕".to_string(), 0, 1_000),
            ("Dialogue: 0,0:00:02.00,0:00:03.00,Default,,0,0,0,,第二条字幕".to_string(), 2_000, 1_000),
        ])
    );
    assert_eq!(
        FFIFfmpegService::replacement_packets(&edit(3, "no events", None), "ass", millis()),
        Err("ASS 字幕缺少 Dialogue 事件。".to_string())
    );
}

#[test]
fn ass_text_read_is_remuxed_into_the_same_packets() {
    let header = b"[Script Info]\nScriptType: v4.00+\n\n[Events]\nFormat: Layer, Start, End, Style, Name, MarginL, MarginR, MarginV, Effect, Text\n";
    let mut reader = FfiSubtitleReader::new(3, "ass", header, millis()).expect("an ASS stream");
    let packets = [
        ("0,0:00:00.00,0:00:00.00,Default,,0,0,0,,First", 1_000_i64, 1_500_i64),
        ("0,0:00:00.00,0:00:00.00,Default,,0,0,0,,Second, with comma", 4_000, 0),
    ];
    let mut lines = Vec::new();
    for (payload, pts, duration) in packets {
        lines.push(FFIFfmpegService::ass_dialogue(payload, pts, duration, millis()));
        reader.push_ass_rect(payload, Some(pts), duration);
    }
    let document = reader.finish().expect("some text");
    let (header_part, _) = FFIFfmpegService::ass_document_parts(&document.content).expect("a document");
    assert_eq!(
        header_part,
        "[Script Info]\nScriptType: v4.00+\n\n[Events]\nFormat: Layer, Start, End, Style, Name, MarginL, MarginR, MarginV, Effect, Text"
    );
    let remuxed = FFIFfmpegService::replacement_packets(&edit(3, &document.content, None), "ass", millis())
        .expect("dialogue packets");
    assert_eq!(
        remuxed,
        vec![(lines[0].clone(), 1_000, 1_500), (lines[1].clone(), 4_000, 0)]
    );
}

#[test]
fn stream_converted_to_ass_reads_back_with_script_info() {
    let streams = streams();
    let converted = edit(1, ASS_DOCUMENT, Some("ass"));
    let plan = FFIFfmpegService::output_stream_plan(&streams[1], Some(&converted), Some(1)).expect("a plan");
    let header = plan.ass_header.expect("a header for the converted stream");
    let mut reader = FfiSubtitleReader::new(1, "ass", header.as_bytes(), millis()).expect("an ASS stream");
    assert!(reader.ass_uses_crlf);
    for (pts, duration) in [(0_i64, 1_000_i64), (2_000, 1_000)] {
        reader.push_ass_rect("0,0:00:00.00,0:00:00.00,Default,,0,0,0,,x", Some(pts), duration);
    }
    let document = reader.finish().expect("some text");
    assert_eq!(document.format, "ass");
    assert!(document.content.starts_with("[Script Info]"));
    assert!(document.content.ends_with("Dialogue: 0,0:00:02.00,0:00:03.00,Default,,0,0,0,,x\r\n"));
}
