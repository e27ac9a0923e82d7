use mkv_lib::ass::Rational;
use mkv_lib::ffi::FFIFfmpegService;

fn millis() -> Rational {
    Rational { numerator: 1, denominator: 1000 }
}

fn centis() -> Rational {
    Rational { numerator: 1, denominator: 100 }
}

fn chars(s: &str) -> Vec<char> {
    s.chars().collect()
}

#[test]
fn writes_ass_timestamps() {
    assert_eq!(FFIFfmpegService::ass_timestamp(0, millis()), "0:00:00.00");
    assert_eq!(FFIFfmpegService::ass_timestamp(3_723_450, millis()), "1:02:03.45");
    // Half a centisecond rounds away from zero.
    assert_eq!(FFIFfmpegService::ass_timestamp(1_005, millis()), "0:00:01.01");
    assert_eq!(FFIFfmpegService::ass_timestamp(1_004, millis()), "0:00:01.00");
    assert_eq!(FFIFfmpegService::ass_timestamp(-1_005, millis()), "0:00:-1.-1");
    assert_eq!(FFIFfmpegService::ass_timestamp(36_000_000, millis()), "10:00:00.00");
}

#[test]
fn writes_srt_timestamps_one_millisecond_late() {
    assert_eq!(FFIFfmpegService::srt_timestamp(0, millis()), "00:00:00,001");
    assert_eq!(FFIFfmpegService::srt_timestamp(3_723_450, millis()), "01:02:03,451");
    assert_eq!(FFIFfmpegService::srt_timestamp(150, centis()), "00:00:01,501");
}

#[test]
fn reads_ass_timestamps() {
    assert_eq!(FFIFfmpegService::ass_packet_timestamp(&chars("1:02:03.45"), millis()), Ok(3_723_450));
    assert_eq!(FFIFfmpegService::ass_packet_timestamp(&chars(" 0:00:01.50 "), centis()), Ok(150));
    assert_eq!(
        FFIFfmpegService::ass_packet_timestamp(&chars("0:00:01.50"), Rational { numerator: 1, denominator: 90_000 }),
        Ok(135_000)
    );
}

#[test]
fn rejects_invalid_ass_timestamps() {
    let invalid = |t: &str| Err(format!("ASS 字幕时间格式无效：{t}"));
    for t in ["0:00:01", "0:00.01", "x:00:01.00", "0:60:00.00", "0:00:60.00", "0:00:00.100", "0:00:01.a"] {
        assert_eq!(FFIFfmpegService::ass_packet_timestamp(&chars(t), millis()), invalid(t));
    }
    assert_eq!(
        FFIFfmpegService::ass_packet_timestamp(&chars("0:00:01.00"), Rational { numerator: 0, denominator: 1000 }),
        Err("ASS 字幕流时间基无效。".to_string())
    );
    assert_eq!(
        FFIFfmpegService::ass_packet_timestamp(&chars("0:00:01.00"), Rational { numerator: 1, denominator: -1 }),
        Err("ASS 字幕流时间基无效。".to_string())
    );
}

#[test]
fn timestamp_written_reads_back() {
    for timestamp in [0_i64, 10, 1_230, 3_723_450, 359_999_990] {
        let text = FFIFfmpegService::ass_timestamp(timestamp, millis());
        assert_eq!(FFIFfmpegService::ass_packet_timestamp(&chars(&text), millis()), Ok(timestamp));
    }
    // Off the centisecond grid the text keeps only whole centiseconds.
    let text = FFIFfmpegService::ass_timestamp(1_234, millis());
    assert_eq!(FFIFfmpegService::ass_packet_timestamp(&chars(&text), millis()), Ok(1_230));
}

#[test]
fn splits_ass_documents() {
    let document = "[Script Info]\nTitle: x\n[Events]\nFormat: Layer, Start\n\r\nDialogue: 0,0:00:00.00,0:00:01.00,Default,,0,0,0,,Hi\n";
    assert_eq!(
        FFIFfmpegService::ass_document_parts(document),
        Ok((
            "[Script Info]\nTitle: x\n[Events]\nFormat: Layer, Start",
            "Dialogue: 0,0:00:00.00,0:00:01.00,Default,,0,0,0,,Hi\n"
        ))
    );
    assert_eq!(
        FFIFfmpegService::ass_document_parts("[Script Info]\n[Events]\n"),
        Err("ASS 字幕缺少 Dialogue 事件。".to_string())
    );
    assert_eq!(
        FFIFfmpegService::ass_document_parts("[Events]\nDialogue: 0,a,b"),
        Err("ASS 字幕缺少 Script Info 头信息。".to_string())
    );
    assert_eq!(
        FFIFfmpegService::ass_document_parts("  [Script Info]\nDialogue: 0,a,b"),
        Err("ASS 字幕缺少 Script Info 头信息。".to_string())
    );
}

#[test]
fn rewrites_dialogue_times() {
    assert_eq!(
        FFIFfmpegService::ass_dialogue("0,0:00:00.00,0:00:00.00,Default,,0,0,0,,Hello, world\r\n", 1_000, 2_500, millis()),
        "Dialogue: 0,0:00:01.00,0:00:03.50,Default,,0,0,0,,Hello, world"
    );
    assert_eq!(
        FFIFfmpegService::ass_dialogue("Dialogue: 0,x,y,Default,,0,0,0,,Hi", 0, 100, centis()),
        "Dialogue: 0,0:00:00.00,0:00:01.00,Default,,0,0,0,,Hi"
    );
    assert_eq!(FFIFfmpegService::ass_dialogue("only,two", 0, 100, centis()), "Dialogue: only,two");
}

#[test]
fn dialogue_written_reads_back_as_packet() {
    let line = FFIFfmpegService::ass_dialogue("0,0,Default,,0,0,0,,Hi", 12_340, 1_500, millis());
    let packets = FFIFfmpegService::ass_packets(&line, millis()).expect("one dialogue");
    assert_eq!(packets, vec![(line.clone(), 12_340, 1_500)]);
}

#[test]
fn reads_dialogue_packets() {
    let events = "Dialogue: 0,0:00:01.00,0:00:02.50,Default,,0,0,0,,One\r\nComment: 0,0:00:00.00,0:00:09.00,,,0,0,0,,x\nDialogue: 0,0:00:03.00,0:00:03.00,Default,,0,0,0,,Two\n";
    assert_eq!(
        FFIFfmpegService::ass_packets(events, millis()),
        Ok(vec![
            ("Dialogue: 0,0:00:01.00,0:00:02.50,Default,,0,0,0,,One".to_string(), 1_000, 1_500),
            ("Dialogue: 0,0:00:03.00,0:00:03.00,Default,,0,0,0,,Two".to_string(), 3_000, 0),
        ])
    );
}

#[test]
fn rejects_invalid_dialogue_packets() {
    assert_eq!(
        FFIFfmpegService::ass_packets("Comment: only\n", millis()),
        Err("ASS 字幕不包含 Dialogue 事件。".to_string())
    );
    assert_eq!(
        FFIFfmpegService::ass_packets("Dialogue: 0,0:00:01.00\n", millis()),
        Err("ASS 字幕事件格式无效：Dialogue: 0,0:00:01.00".to_string())
    );
    assert_eq!(
        FFIFfmpegService::ass_packets("Dialogue: 0,0:00:02.00,0:00:01.00,,,0,0,0,,x\n", millis()),
        Err("ASS 字幕结束时间早于开始时间：Dialogue: 0,0:00:02.00,0:00:01.00,,,0,0,0,,x".to_string())
    );
    assert_eq!(
        FFIFfmpegService::ass_packets("Dialogue: 0,0:00:0x.00,0:00:01.00,,,0,0,0,,x\n", millis()),
        Err("ASS 字幕时间格式无效：0:00:0x.00".to_string())
    );
}

#[test]
fn turns_ass_tags_into_html() {
    assert_eq!(
        FFIFfmpegService::ass_text_as_html("0,0:00:00.00,0:00:01.00,Default,,0,0,0,,{\\b1\\i1}Bold{\\b0\\i0}\\Nnext\\nline\r\n"),
        "<b><i>Bold</b></i>\nnext\nline"
    );
    assert_eq!(
        FFIFfmpegService::ass_text_as_html("0,0:00:00.00,0:00:01.00,Default,,0,0,0,,{\\fnArial\\fs20}x{\\fn}{\\u1\\s1}y{\\u0\\s0\\pos(1,2)}"),
        "<font face=\"Arial\"><font size=\"20\">x</font><u><s>y</u></s>"
    );
    assert_eq!(FFIFfmpegService::ass_text_as_html("plain text"), "plain text");
    // An unclosed brace keeps the rest twice, as the editor always has.
    assert_eq!(
        FFIFfmpegService::ass_text_as_html("0,0:00:00.00,0:00:01.00,Default,,0,0,0,,a{b"),
        "a{ba{b"
    );
}

#[test]
fn reads_ass_headers() {
    assert_eq!(
        FFIFfmpegService::ass_header(b"[Script Info]\r\nTitle: x\r\n\r\n\0"),
        Ok("[Script Info]\r\nTitle: x\r\n".to_string())
    );
    assert_eq!(
        FFIFfmpegService::ass_header(b"[Script Info]\nTitle: x"),
        Ok("[Script Info]\nTitle: x\n".to_string())
    );
    assert_eq!(
        FFIFfmpegService::ass_header(b""),
        Err("ASS 字幕流缺少 Script Info 头信息。".to_string())
    );
    assert_eq!(
        FFIFfmpegService::ass_header(&[0x5b, 0xff]),
        Err("ASS 字幕头不是 UTF-8 文本，暂时无法在编辑器中打开。".to_string())
    );
}
