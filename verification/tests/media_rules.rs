use mkv_lib::media::{
    canonical_codec_name, editable, media_name, normalize_srt_line_endings, subtitle_codec_id,
    subtitle_specification, MediaStreamType, SubtitleCodecId,
};

#[test]
fn knows_the_editable_subtitle_codecs() {
    assert_eq!(subtitle_specification("subrip"), Some(("srt", "srt")));
    assert_eq!(subtitle_specification("srt"), Some(("srt", "srt")));
    assert_eq!(subtitle_specification("ass"), Some(("ass", "ass")));
    assert_eq!(subtitle_specification("ssa"), Some(("ass", "ass")));
    assert_eq!(subtitle_specification("webvtt"), Some(("webvtt", "webvtt")));
    assert_eq!(subtitle_specification("hdmv_pgs_subtitle"), None);
    assert_eq!(subtitle_specification("SRT"), None);
}

#[test]
fn canonical_names_are_stable() {
    assert_eq!(canonical_codec_name("subrip"), "srt");
    assert_eq!(canonical_codec_name("ssa"), "ass");
    assert_eq!(canonical_codec_name("webvtt"), "webvtt");
    assert_eq!(canonical_codec_name("dvd_subtitle"), "dvd_subtitle");
    for name in ["subrip", "srt", "ssa", "ass", "webvtt", "h264", ""] {
        let once = canonical_codec_name(name);
        assert_eq!(canonical_codec_name(&once), once);
        assert_eq!(
            subtitle_specification(&once).map(|(format, _)| format),
            subtitle_specification(name).map(|(format, _)| format)
        );
    }
}

#[test]
fn only_srt_and_ass_can_be_written() {
    assert_eq!(subtitle_codec_id("srt"), Some(SubtitleCodecId::Subrip));
    assert_eq!(subtitle_codec_id("ass"), Some(SubtitleCodecId::Ass));
    assert_eq!(subtitle_codec_id("webvtt"), None);
    assert_eq!(subtitle_codec_id("subrip"), None);
}

#[test]
fn normalizing_keeps_one_line_feed_per_line_break() {
    let text = "1\r\n2\r3\n\n4\r\n";
    let normalized = normalize_srt_line_endings(text.to_string());
    assert_eq!(normalized.matches('\n').count(), 5);
    assert_eq!(normalize_srt_line_endings("plain\ntext\n".to_string()), "plain\ntext\n");
}

#[test]
fn normalizes_srt_line_endings() {
    assert_eq!(normalize_srt_line_endings("a\r\nb\rc\n\r\n".to_string()), "a\nb\nc\n\n");
    assert_eq!(normalize_srt_line_endings("\r\r\n".to_string()), "\n\n");
    let once = normalize_srt_line_endings("1\r\n00:00:01,000\r\rx".to_string());
    assert!(!once.contains('\r'));
    assert_eq!(normalize_srt_line_endings(once.clone()), once);
}

#[test]
fn editable_streams_are_text_subtitles() {
    assert!(editable(MediaStreamType::Subtitle, &Some("srt".to_string())));
    assert!(editable(MediaStreamType::Subtitle, &Some("ssa".to_string())));
    assert!(!editable(MediaStreamType::Subtitle, &Some("hdmv_pgs_subtitle".to_string())));
    assert!(!editable(MediaStreamType::Subtitle, &None));
    assert!(!editable(MediaStreamType::Data, &Some("srt".to_string())));
}

#[test]
fn names_media_by_file_name() {
    assert_eq!(media_name("/videos/show.mkv"), "show.mkv");
    assert_eq!(media_name("show.mkv"), "show.mkv");
    assert_eq!(media_name("/"), "未知文件");
    assert_eq!(media_name(""), "未知文件");
}
