use mkv_lib::media::{MediaStreamType, SubtitleEdit};
use mkv_lib::probe::{
    find_edit, CliAttachment, CliFfmpegService, Disposition, ProbeFormat, ProbeResult, ProbeStream,
    StreamTags,
};

/// `HH:MM:SS.ss` in seconds, as the application turns FFmpeg's durations.
fn duration_seconds(value: &str) -> Option<String> {
    let mut parts = value.split(':');
    let hours: f64 = parts.next()?.parse().ok()?;
    let minutes: f64 = parts.next()?.parse().ok()?;
    let seconds: f64 = parts.next()?.parse().ok()?;
    if parts.next().is_some() {
        return None;
    }
    Some((hours * 3600.0 + minutes * 60.0 + seconds).to_string())
}

fn probe_stream(index: u32, codec_type: MediaStreamType, codec_name: Option<&str>) -> ProbeStream {
    ProbeStream {
        index,
        codec_type,
        codec_name: codec_name.map(|c| c.to_string()),
        codec_long_name: codec_name.map(|c| c.to_string()),
        tags: None,
        disposition: None,
    }
}

fn sample_probe() -> ProbeResult {
    ProbeResult {
        streams: vec![
            probe_stream(0, MediaStreamType::Video, Some("h264")),
            probe_stream(1, MediaStreamType::Subtitle, Some("subrip")),
            probe_stream(2, MediaStreamType::Subtitle, Some("hdmv_pgs_subtitle")),
            probe_stream(3, MediaStreamType::Attachment, Some("ttf")),
            probe_stream(4, MediaStreamType::Subtitle, Some("ass")),
        ],
        format: Some(ProbeFormat { duration: Some("10".to_string()) }),
    }
}

fn edit(stream_index: u32, content: &str, format: Option<&str>) -> SubtitleEdit {
    SubtitleEdit {
        stream_index,
        content: content.to_string(),
        format: format.map(|f| f.to_string()),
        language: None,
        title: None,
    }
}

#[test]
fn parses_ffmpeg_input_description() {
    let output = br#"
Input #0, matroska,webm, from 'sample.mkv':
  Duration: 01:02:03.500, start: 0.000000, bitrate: 800 kb/s
  Stream #0:0: Video: h264 (High), yuv420p
  Stream #0:1(eng): Subtitle: ass (default) (forced)
    Metadata:
      title           : English subtitles
"#;

    let probe = CliFfmpegService::new(None)
        .parse_ffmpeg_probe_output(output, &duration_seconds)
        .expect("FFmpeg output should parse");
    assert_eq!(
        probe.format.and_then(|format| format.duration),
        Some("3723.5".to_string())
    );
    assert_eq!(probe.streams.len(), 2);

    let subtitle = &probe.streams[1];
    assert_eq!(subtitle.index, 1);
    assert_eq!(subtitle.codec_type, MediaStreamType::Subtitle);
    assert_eq!(subtitle.codec_name.as_deref(), Some("ass"));
    assert_eq!(
        subtitle
            .tags
            .as_ref()
            .and_then(|tags| tags.language.as_deref()),
        Some("eng")
    );
    assert_eq!(
        subtitle
            .tags
            .as_ref()
            .and_then(|tags| tags.title.as_deref()),
        Some("English subtitles")
    );
    assert_eq!(
        subtitle
            .disposition
            .as_ref()
            .and_then(|value| value.default),
        Some(1)
    );
    assert_eq!(
        subtitle.disposition.as_ref().and_then(|value| value.forced),
        Some(1)
    );
}

#[test]
fn new_uses_detected_executable_or_path_lookup() {
    assert_eq!(CliFfmpegService::new(None).executable, "ffmpeg");
    assert_eq!(
        CliFfmpegService::new(Some("/opt/app/ffmpeg".to_string())).executable,
        "/opt/app/ffmpeg"
    );
}

#[test]
fn detect_takes_the_first_candidate_that_is_a_file() {
    let candidates = vec![
        ("/opt/app/ffmpeg".to_string(), false),
        ("/opt/app/ffmpeg.exe".to_string(), true),
    ];
    assert_eq!(
        CliFfmpegService::detect(&candidates).map(|cli| cli.executable),
        Some("/opt/app/ffmpeg.exe".to_string())
    );
    let both = vec![
        ("/opt/app/ffmpeg".to_string(), true),
        ("/opt/app/ffmpeg.exe".to_string(), true),
    ];
    assert_eq!(
        CliFfmpegService::detect(&both).map(|cli| cli.executable),
        Some("/opt/app/ffmpeg".to_string())
    );
    let none = vec![
        ("/opt/app/ffmpeg".to_string(), false),
        ("/opt/app/ffmpeg.exe".to_string(), false),
    ];
    assert!(CliFfmpegService::detect(&none).is_none());
}

#[test]
fn names_stream_types() {
    let cli = CliFfmpegService::new(None);
    assert_eq!(cli.ffmpeg_stream_type("Video"), Some(MediaStreamType::Video));
    assert_eq!(cli.ffmpeg_stream_type("Audio"), Some(MediaStreamType::Audio));
    assert_eq!(cli.ffmpeg_stream_type("Subtitle"), Some(MediaStreamType::Subtitle));
    assert_eq!(cli.ffmpeg_stream_type("Attachment"), Some(MediaStreamType::Attachment));
    assert_eq!(cli.ffmpeg_stream_type("Data"), Some(MediaStreamType::Data));
    assert_eq!(cli.ffmpeg_stream_type("video"), None);
    assert_eq!(cli.ffmpeg_stream_type(""), None);
}

#[test]
fn parses_video_stream_line() {
    let cli = CliFfmpegService::new(None);
    let stream = cli
        .parse_ffmpeg_stream_line("Stream #0:0: Video: h264 (High), yuv420p")
        .expect("a video stream line");
    assert_eq!(stream.index, 0);
    assert_eq!(stream.codec_type, MediaStreamType::Video);
    assert_eq!(stream.codec_name.as_deref(), Some("h264"));
    assert_eq!(stream.codec_long_name.as_deref(), Some("h264 (High), yuv420p"));
    assert!(stream.tags.is_none());
    assert_eq!(
        stream.disposition,
        Some(Disposition { default: Some(0), forced: Some(0) })
    );
}

#[test]
fn parses_stream_line_with_language_and_flags() {
    let cli = CliFfmpegService::new(None);
    let stream = cli
        .parse_ffmpeg_stream_line("Stream #0:12(zh-Hans): Subtitle: subrip (default)")
        .expect("a subtitle stream line");
    assert_eq!(stream.index, 12);
    assert_eq!(stream.codec_name.as_deref(), Some("subrip"));
    assert_eq!(
        stream.tags,
        Some(StreamTags { title: None, filename: None, language: Some("zh-Hans".to_string()) })
    );
    assert_eq!(
        stream.disposition,
        Some(Disposition { default: Some(1), forced: Some(0) })
    );
}

#[test]
fn rejects_lines_that_are_no_stream() {
    let cli = CliFfmpegService::new(None);
    assert!(cli.parse_ffmpeg_stream_line("Duration: 00:00:01.00").is_none());
    assert!(cli.parse_ffmpeg_stream_line("Stream #0").is_none());
    assert!(cli.parse_ffmpeg_stream_line("Stream #0:x: Video: h264").is_none());
    assert!(cli.parse_ffmpeg_stream_line("Stream #0:1: Teletext: dvb").is_none());
    assert!(cli.parse_ffmpeg_stream_line("Stream #0:1: Video").is_none());
}

#[test]
fn ignores_language_with_other_characters() {
    let cli = CliFfmpegService::new(None);
    let stream = cli
        .parse_ffmpeg_stream_line("Stream #0:2(e n): Audio: aac, 48000 Hz")
        .expect("an audio stream line");
    assert!(stream.tags.is_none());
    assert_eq!(stream.codec_name.as_deref(), Some("aac"));
}

#[test]
fn probe_output_without_streams_is_none() {
    let cli = CliFfmpegService::new(None);
    let output = b"sample.mkv: No such file or directory\n";
    assert!(cli.parse_ffmpeg_probe_output(output, &duration_seconds).is_none());
}

#[test]
fn probe_output_reads_filename_tags_and_bad_duration() {
    let cli = CliFfmpegService::new(None);
    let output = b"  Duration: N/A, bitrate: N/A\n  Stream #0:3: Attachment: ttf\n    Metadata:\n      filename        : Font.ttf\n      mimetype        : font/ttf\n      title           :   \n";
    let probe = cli
        .parse_ffmpeg_probe_output(output, &duration_seconds)
        .expect("one stream");
    assert_eq!(probe.format, Some(ProbeFormat { duration: None }));
    assert_eq!(probe.streams.len(), 1);
    assert_eq!(
        probe.streams[0].tags,
        Some(StreamTags { title: None, filename: Some("Font.ttf".to_string()), language: None })
    );
}

#[test]
fn command_error_quotes_trimmed_error_output() {
    let cli = CliFfmpegService::new(None);
    assert_eq!(cli.command_error("ffmpeg", b"  \n"), "ffmpeg 执行失败。");
    assert_eq!(
        cli.command_error("ffmpeg", b"  bad input\n"),
        "ffmpeg 执行失败：bad input"
    );
}

#[test]
fn probe_fails_with_command_error_when_nothing_is_listed() {
    let cli = CliFfmpegService::new(None);
    assert_eq!(
        cli.probe(b"missing.mkv: No such file\n", &duration_seconds),
        Err("ffmpeg 执行失败：missing.mkv: No such file".to_string())
    );
    let probe = cli
        .probe(b"Stream #0:0: Audio: flac\n", &duration_seconds)
        .expect("one stream");
    assert_eq!(probe.streams.len(), 1);
    assert!(probe.format.is_none());
}

#[test]
fn editable_stream_checks_kind_and_codec() {
    let cli = CliFfmpegService::new(None);
    let mut probe = sample_probe();
    probe.streams.push(probe_stream(5, MediaStreamType::Subtitle, None));
    assert_eq!(cli.editable_stream(&probe, 1).map(|s| s.index), Ok(1));
    assert_eq!(
        cli.editable_stream(&probe, 9).map(|s| s.index),
        Err("未找到所选字幕流。".to_string())
    );
    assert_eq!(
        cli.editable_stream(&probe, 5).map(|s| s.index),
        Err("所选字幕流没有可识别的编码。".to_string())
    );
    assert_eq!(
        cli.editable_stream(&probe, 2).map(|s| s.index),
        Err("目前可编辑 SRT、ASS/SSA 和 WebVTT 字幕流；图形字幕会保留但不可编辑。".to_string())
    );
    assert_eq!(
        cli.editable_stream(&probe, 0).map(|s| s.index),
        Err("目前可编辑 SRT、ASS/SSA 和 WebVTT 字幕流；图形字幕会保留但不可编辑。".to_string())
    );
}

#[test]
fn media_file_describes_probed_streams() {
    let cli = CliFfmpegService::new(None);
    let mut probe = sample_probe();
    probe.streams[1].tags = Some(StreamTags {
        title: Some("Chinese".to_string()),
        filename: None,
        language: Some("chi".to_string()),
    });
    probe.streams[1].disposition = Some(Disposition { default: Some(1), forced: Some(0) });
    let media = cli.media_file("/videos/show.mkv", probe);
    assert_eq!(media.path, "/videos/show.mkv");
    assert_eq!(media.name, "show.mkv");
    assert_eq!(media.duration.as_deref(), Some("10"));
    assert_eq!(media.streams.len(), 5);
    let subtitle = &media.streams[1];
    assert_eq!(subtitle.codec_name.as_deref(), Some("srt"));
    assert_eq!(subtitle.title.as_deref(), Some("Chinese"));
    assert_eq!(subtitle.language.as_deref(), Some("chi"));
    assert!(subtitle.default_stream);
    assert!(!subtitle.forced);
    assert!(subtitle.editable);
    assert!(!media.streams[0].editable);
    assert!(!media.streams[2].editable);
    assert!(media.streams[4].editable);
    assert_eq!(media.streams[4].codec_name.as_deref(), Some("ass"));
}

#[test]
fn read_subtitle_arguments_select_stream_and_format() {
    let cli = CliFfmpegService::new(None);
    let probe = sample_probe();
    let read = cli
        .read_subtitle_arguments(&probe, "in.mkv", 1)
        .expect("an editable stream");
    assert_eq!(
        read.arguments,
        vec!["-v", "error", "-i", "in.mkv", "-map", "0:1", "-f", "srt", "-"]
    );
    assert_eq!(read.format, "srt");
    assert_eq!(read.codec_name, "srt");
    assert!(cli.read_subtitle_arguments(&probe, "in.mkv", 2).is_err());
}

#[test]
fn read_subtitle_document_checks_run_and_text() {
    let cli = CliFfmpegService::new(None);
    let document = cli
        .read_subtitle_document("srt", "srt".to_string(), true, b"1\r\n00:00:01,000 --> 00:00:02,000\r\nHi\r\n", b"")
        .expect("text output");
    assert_eq!(document.content, "1\n00:00:01,000 --> 00:00:02,000\nHi\n");
    assert_eq!(document.format, "srt");
    let ass = cli
        .read_subtitle_document("ass", "ass".to_string(), true, b"[Script Info]\r\n", b"")
        .expect("text output");
    assert_eq!(ass.content, "[Script Info]\r\n");
    assert_eq!(
        cli.read_subtitle_document("srt", "srt".to_string(), false, b"", b"broken\n"),
        Err("ffmpeg 执行失败：broken".to_string())
    );
    assert_eq!(
        cli.read_subtitle_document("srt", "srt".to_string(), true, &[0xff, 0xfe], b""),
        Err("字幕不是 UTF-8 文本，暂时无法在编辑器中打开。".to_string())
    );
}

#[test]
fn find_edit_finds_first_edit_of_stream() {
    let edits = vec![edit(1, "a", None), edit(4, "b", None), edit(1, "c", None)];
    assert_eq!(find_edit(&edits, 1), Some(0));
    assert_eq!(find_edit(&edits, 4), Some(1));
    assert_eq!(find_edit(&edits, 3), None);
}

#[test]
fn remux_formats_checks_request() {
    let cli = CliFfmpegService::new(None);
    let probe = sample_probe();
    assert_eq!(
        cli.remux_formats(&probe, &[], &[], None),
        Err("请至少选择一条要导出的流。".to_string())
    );
    assert_eq!(
        cli.remux_formats(&probe, &[], &[0, 1], Some(4)),
        Err("默认字幕必须是要导出的字幕流。".to_string())
    );
    assert_eq!(
        cli.remux_formats(&probe, &[], &[0, 1], Some(0)),
        Err("默认字幕必须是要导出的字幕流。".to_string())
    );
    assert_eq!(
        cli.remux_formats(&probe, &[edit(1, "x", None), edit(1, "y", None)], &[0, 1], Some(1)),
        Err("字幕流 #1 被重复提交。".to_string())
    );
    assert_eq!(
        cli.remux_formats(&probe, &[edit(1, "x", Some("vtt"))], &[0, 1], None),
        Err("字幕格式只能是 ass 或 srt。".to_string())
    );
    assert_eq!(
        cli.remux_formats(&probe, &[edit(2, "x", None)], &[0, 2], None),
        Err("目前可编辑 SRT、ASS/SSA 和 WebVTT 字幕流；图形字幕会保留但不可编辑。".to_string())
    );
    assert_eq!(
        cli.remux_formats(&probe, &[edit(1, "x", None), edit(4, "y", Some("srt"))], &[0, 1, 4], Some(4)),
        Ok(vec!["srt", "srt"])
    );
}

#[test]
fn remux_arguments_replace_edited_streams_in_place() {
    let cli = CliFfmpegService::new(None);
    let probe = sample_probe();
    let mut edited = edit(4, "[Script Info]", None);
    edited.language = Some("eng".to_string());
    edited.title = Some("English".to_string());
    let edits = vec![edited];
    let attachments = vec![CliAttachment {
        path: "/tmp/font.ttf".to_string(),
        filename: "font.ttf".to_string(),
        mime_type: "application/x-truetype-font",
    }];
    let arguments = cli.remux_arguments(
        "in.mkv",
        "out.mkv",
        &probe,
        &edits,
        &["ass"],
        &[0, 1, 3, 4],
        Some(4),
        "http://127.0.0.1:8000",
        &attachments,
    );
    let expected: Vec<&str> = vec![
        "-v", "error", "-i", "in.mkv",
        "-f", "ass", "-i", "http://127.0.0.1:8000/4",
        "-map", "0:0", "-map", "0:1", "-map", "0:3", "-map", "1:0",
        "-map_metadata", "0",
        "-map_metadata:s:0", "0:s:0",
        "-map_metadata:s:1", "0:s:1",
        "-disposition:s:0", "-default",
        "-map_metadata:s:2", "0:s:3",
        "-map_metadata:s:3", "0:s:4",
        "-metadata:s:3", "language=eng",
        "-metadata:s:3", "title=English",
        "-disposition:s:1", "+default",
        "-attach", "/tmp/font.ttf",
        "-metadata:s:t:1", "filename=font.ttf",
        "-metadata:s:t:1", "mimetype=application/x-truetype-font",
        "-map_chapters", "0", "-c", "copy", "-y", "out.mkv",
    ];
    assert_eq!(arguments, expected);
}

#[test]
fn what_is_editable_can_be_read() {
    let cli = CliFfmpegService::new(None);
    let probe = sample_probe();
    let media = cli.media_file("in.mkv", probe.clone());
    for stream in &media.streams {
        assert_eq!(
            cli.read_subtitle_arguments(&probe, "in.mkv", stream.index).is_ok(),
            stream.editable,
            "stream #{}",
            stream.index
        );
    }
}

#[test]
fn error_output_that_is_no_utf8_is_replaced() {
    let cli = CliFfmpegService::new(None);
    assert_eq!(
        cli.command_error("ffmpeg", &[0x62, 0x61, 0x64, 0xff, 0x21]),
        "ffmpeg 执行失败：bad\u{FFFD}!"
    );
    let probe = cli
        .parse_ffmpeg_probe_output(b"Stream #0:0(\xffx): Audio: flac\n", &duration_seconds)
        .expect("one stream");
    assert!(probe.streams[0].tags.is_none());
}
