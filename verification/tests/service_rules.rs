use mkv_lib::ffi::FFIFfmpegService;
use mkv_lib::media::{FontAttachment, MediaFile, MediaStream, MediaStreamType, SubtitleDocument, SubtitleEdit};
use mkv_lib::probe::CliFfmpegService;
use mkv_lib::service::{
    check_output_path, mkv_path, needs_font_subset, prepare_font_attachments, remux_selection,
    subtitle_text_for_font_subset, subtitles_to_read, ActiveFfmpegService,
};

fn stream(index: u32, stream_type: MediaStreamType, editable: bool, default_stream: bool) -> MediaStream {
    MediaStream {
        index,
        stream_type,
        codec_name: None,
        codec_description: None,
        title: None,
        filename: None,
        language: None,
        default_stream,
        forced: false,
        editable,
        subtitle: None,
    }
}

fn media() -> MediaFile {
    let mut with_text = stream(3, MediaStreamType::Subtitle, true, true);
    with_text.subtitle = Some(SubtitleDocument {
        content: "held".to_string(),
        format: "srt".to_string(),
        codec_name: "srt".to_string(),
    });
    MediaFile {
        path: "in.mkv".to_string(),
        name: "in.mkv".to_string(),
        duration: None,
        streams: vec![
            stream(0, MediaStreamType::Video, false, true),
            stream(1, MediaStreamType::Subtitle, true, false),
            stream(2, MediaStreamType::Subtitle, false, true),
            with_text,
            stream(4, MediaStreamType::Subtitle, true, true),
        ],
    }
}

fn edit(stream_index: u32, content: &str) -> SubtitleEdit {
    SubtitleEdit {
        stream_index,
        content: content.to_string(),
        format: None,
        language: None,
        title: None,
    }
}

#[test]
fn picks_the_program_when_one_ships_with_the_application() {
    let cli = CliFfmpegService::new(Some("/app/ffmpeg".to_string()));
    assert_eq!(ActiveFfmpegService::new(Some(cli.clone())), ActiveFfmpegService::Cli(cli));
    assert_eq!(ActiveFfmpegService::new(None), ActiveFfmpegService::Ffi(FFIFfmpegService::new()));
}

#[test]
fn remux_of_all_streams_keeps_default_subtitle() {
    let media = media();
    assert_eq!(remux_selection(&media.streams), (vec![0, 1, 2, 3, 4], Some(2)));
    assert_eq!(remux_selection(&vec![stream(0, MediaStreamType::Video, false, true)]), (vec![0], None));
}

#[test]
fn reads_only_what_is_not_at_hand() {
    let media = media();
    assert_eq!(subtitles_to_read(&media, &[]), vec![1, 4]);
    assert_eq!(subtitles_to_read(&media, &[edit(4, "x")]), vec![1]);
}

#[test]
fn font_subset_text_takes_edits_then_held_then_read_text() {
    let media = media();
    let edits = vec![edit(4, "edited"), edit(4, "ignored")];
    let reads = vec![(1, "read one".to_string()), (1, "second read".to_string())];
    assert_eq!(
        subtitle_text_for_font_subset(&media, &edits, &reads),
        "read one\nheld\nedited\n"
    );
    let no_subtitles = MediaFile { streams: vec![stream(0, MediaStreamType::Video, false, false)], ..media };
    assert_eq!(subtitle_text_for_font_subset(&no_subtitles, &[], &[]), "");
}

#[test]
fn subsets_only_when_asked_and_fonts_are_given() {
    let font = FontAttachment { path: "a.ttf".to_string(), content: None };
    assert!(needs_font_subset(true, &[font.clone()]));
    assert!(!needs_font_subset(false, &[font]));
    assert!(!needs_font_subset(true, &[]));
}

#[test]
fn font_that_cannot_be_cut_is_named() {
    let mut fonts = vec![
        FontAttachment { path: "/fonts/a.ttf".to_string(), content: None },
        FontAttachment { path: "/fonts/b.ttf".to_string(), content: None },
    ];
    let files = vec![Some(b"not a font".to_vec()), None];
    assert_eq!(
        prepare_font_attachments(&mut fonts, &files, "abc"),
        Err("无法子集化字体文件 /fonts/a.ttf。".to_string())
    );
    assert_eq!(fonts[0].path, "/fonts/a.ttf");
    assert_eq!(fonts[0].content, None);
    assert_eq!(fonts[1].content, None);
    let mut unread = vec![FontAttachment { path: "/fonts/b.ttf".to_string(), content: None }];
    assert_eq!(
        prepare_font_attachments(&mut unread, &[None], "abc"),
        Err("无法子集化字体文件 /fonts/b.ttf。".to_string())
    );
    let mut none: Vec<FontAttachment> = Vec::new();
    assert_eq!(prepare_font_attachments(&mut none, &[], "abc"), Ok(()));
}

#[test]
fn accepts_only_mkv_files() {
    assert_eq!(mkv_path("/v/show.mkv", true), Ok("/v/show.mkv".to_string()));
    assert_eq!(mkv_path("/v/show.MKV", true), Ok("/v/show.MKV".to_string()));
    assert_eq!(mkv_path("/v/show.mkv", false), Err("所选路径不是可读取的文件。".to_string()));
    assert_eq!(mkv_path("/v/show.mp4", true), Err("请选择 MKV 文件。".to_string()));
    assert_eq!(mkv_path("/v/show", true), Err("请选择 MKV 文件。".to_string()));
}

#[test]
fn output_must_be_mkv() {
    assert_eq!(check_output_path("/v/out.mkv"), Ok(()));
    let refused = Err("输出文件必须使用 .mkv 扩展名。".to_string());
    assert_eq!(check_output_path(""), refused);
    assert_eq!(check_output_path("/v/out.MKV"), refused);
    assert_eq!(check_output_path("/v/out"), refused);
}
