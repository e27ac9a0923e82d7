use mkv_lib::ffi::{FFIFfmpegService, FfiStreamInfo};
use mkv_lib::media::MediaStreamType;
use mkv_lib::number::{
    div_i64, parse_i64_range, parse_u32_range, push_int, rem_i64, saturating_add, saturating_mul,
    saturating_sub,
};
use mkv_lib::probe::{CliFfmpegService, Disposition, ProbeResult, ProbeStream, StreamTags};
use mkv_lib::text::{line_spans, split_spans, trim_pos, CharClass};

fn chars(s: &str) -> Vec<char> {
    s.chars().collect()
}

fn written(n: i64, width: usize) -> String {
    let mut out = Vec::new();
    push_int(&mut out, n, width);
    out.into_iter().collect()
}

#[test]
fn writes_integers_as_format_does() {
    assert_eq!(written(7, 2), format!("{:02}", 7));
    assert_eq!(written(-7, 3), format!("{:03}", -7));
    assert_eq!(written(-7, 0), "-7");
    assert_eq!(written(123, 2), "123");
    assert_eq!(written(i64::MIN, 0), i64::MIN.to_string());
}

#[test]
fn integers_written_read_back() {
    for n in [0_i64, 5, -5, 59, 1_000_000, i64::MAX, i64::MIN] {
        for width in [0_usize, 2, 25] {
            let text = chars(&written(n, width));
            assert_eq!(parse_i64_range(&text, 0, text.len()), Some(n));
        }
    }
}

#[test]
fn parses_integers_as_str_parse_does() {
    let text = chars("+12|-0|x1|9223372036854775808|-9223372036854775808|4294967296|");
    assert_eq!(parse_i64_range(&text, 0, 3), Some(12));
    assert_eq!(parse_i64_range(&text, 4, 6), Some(0));
    assert_eq!(parse_i64_range(&text, 7, 9), None);
    assert_eq!(parse_i64_range(&text, 10, 29), None);
    assert_eq!(parse_i64_range(&text, 30, 50), Some(i64::MIN));
    assert_eq!(parse_i64_range(&text, 0, 0), None);
    assert_eq!(parse_u32_range(&text, 51, 61), None);
    assert_eq!(parse_u32_range(&text, 0, 3), Some(12));
    assert_eq!(parse_u32_range(&text, 4, 6), None);
}

#[test]
fn saturating_and_truncating_arithmetic() {
    assert_eq!(saturating_mul(i64::MAX, 2), i64::MAX);
    assert_eq!(saturating_mul(i64::MIN, 2), i64::MIN);
    assert_eq!(saturating_add(i64::MAX, 1), i64::MAX);
    assert_eq!(saturating_sub(i64::MIN, 1), i64::MIN);
    assert_eq!(div_i64(-7, 2), -3);
    assert_eq!(rem_i64(-7, 2), -1);
    assert_eq!(div_i64(7, -2), -3);
}

#[test]
fn splits_lines_and_words() {
    let text = chars("a b\r\n\nc");
    let lines = line_spans(&text);
    let pieces: Vec<String> = lines.iter().map(|s| text[s.lo..s.hi].iter().collect()).collect();
    assert_eq!(pieces, vec!["a b", "", "c"]);
    let words = split_spans(&text, CharClass::Whitespace, 0, 3);
    let words: Vec<String> = words.iter().map(|s| text[s.lo..s.hi].iter().collect()).collect();
    assert_eq!(words, vec!["a", "b"]);
    let padded = chars("  x y \t");
    assert_eq!(trim_pos(&padded, 0, padded.len()), (2, 5));
}

#[test]
fn back_ends_describe_a_stream_alike() {
    let info = FfiStreamInfo {
        index: 2,
        stream_type: MediaStreamType::Subtitle,
        decoder_name: Some("subrip".to_string()),
        decoder_description: Some("SubRip subtitle".to_string()),
        codec_id_name: "subrip".to_string(),
        title: Some("Signs".to_string()),
        filename: None,
        language: Some("eng".to_string()),
        default_stream: true,
        forced: false,
    };
    let probe = ProbeResult {
        streams: vec![ProbeStream {
            index: 2,
            codec_type: MediaStreamType::Subtitle,
            codec_name: Some("subrip".to_string()),
            codec_long_name: Some("subrip".to_string()),
            tags: Some(StreamTags {
                title: Some("Signs".to_string()),
                filename: None,
                language: Some("eng".to_string()),
            }),
            disposition: Some(Disposition { default: Some(1), forced: Some(0) }),
        }],
        format: None,
    };
    let from_library = FFIFfmpegService::media_stream(info);
    let mut from_program = CliFfmpegService::new(None).media_file("x.mkv", probe).streams.remove(0);
    from_program.codec_description = from_library.codec_description.clone();
    assert_eq!(from_library, from_program);
}
