use mkv_lib::fonts::{
    dump, font_attachment_data, font_attachment_name, font_codec_id, full_name, glyph_ids_to_keep,
    lcg, name_from_table, read_font_name, remove_duplicate_chars, shown_font_name, subset_chars,
    subset_text, FontCodecId, NameRecordInfo,
};

/// A `name` table with the given records (platform, encoding, language,
/// name id, text bytes), its strings stored one after another.
fn name_table(records: &[(u16, u16, u16, u16, &[u8])]) -> Vec<u8> {
    let mut table = Vec::new();
    let count = records.len() as u16;
    let storage_offset = 6 + 12 * count;
    for value in [0u16, count, storage_offset] {
        table.extend_from_slice(&value.to_be_bytes());
    }
    let mut offset = 0u16;
    for (platform, encoding, language, name_id, bytes) in records {
        for value in [*platform, *encoding, *language, *name_id, bytes.len() as u16, offset] {
            table.extend_from_slice(&value.to_be_bytes());
        }
        offset += bytes.len() as u16;
    }
    for (_, _, _, _, bytes) in records {
        table.extend_from_slice(bytes);
    }
    table
}

fn utf16(text: &str) -> Vec<u8> {
    text.encode_utf16().flat_map(|unit| unit.to_be_bytes()).collect()
}

#[test]
fn removes_duplicate_characters_keeping_first_order() {
    assert_eq!(remove_duplicate_chars("hello world"), "helo wrd");
    assert_eq!(remove_duplicate_chars(""), "");
    assert_eq!(remove_duplicate_chars("字幕字幕a"), "字幕a");
    let once = remove_duplicate_chars("abracadabra");
    assert_eq!(once, "abrcd");
    assert_eq!(remove_duplicate_chars(&once), once);
}

#[test]
fn subset_keeps_placeholders_once() {
    assert_eq!(subset_chars("ab?a"), "ab?◻");
    assert_eq!(subset_chars(""), "?◻");
    assert_eq!(subset_chars("◻x"), "◻x?");
}

#[test]
fn lcg_steps() {
    assert_eq!(lcg(0), 1_013_904_223);
    assert_eq!(lcg(1), 1_015_568_748);
    assert_eq!(lcg(u32::MAX), 1_012_239_698);
}

#[test]
fn keeps_sorted_distinct_glyphs_with_notdef() {
    assert_eq!(glyph_ids_to_keep(&[Some(5), None, Some(3), Some(5), Some(0)]), vec![0, 3, 5]);
    assert_eq!(glyph_ids_to_keep(&[]), vec![0]);
    assert_eq!(glyph_ids_to_keep(&[None, Some(65535), Some(1)]), vec![0, 1, 65535]);
}

#[test]
fn names_font_attachments() {
    assert_eq!(
        font_attachment_name("/fonts/Title.TTF"),
        Ok(("Title.TTF".to_string(), "application/x-truetype-font"))
    );
    assert_eq!(
        font_attachment_name("Collection.ttc"),
        Ok(("Collection.ttc".to_string(), "application/x-truetype-font"))
    );
    assert_eq!(
        font_attachment_name("/fonts/Body.otf"),
        Ok(("Body.otf".to_string(), "application/vnd.ms-opentype"))
    );
    let extension = Err("字体文件必须使用 .ttf、.ttc 或 .otf 扩展名。".to_string());
    assert_eq!(font_attachment_name("/fonts/Web.woff"), extension);
    assert_eq!(font_attachment_name("/fonts/NoExtension"), extension);
    assert_eq!(font_attachment_name(""), extension);
}

#[test]
fn font_data_needs_readable_non_empty_bytes() {
    let ok = font_attachment_data("a.ttf".to_string(), "application/x-truetype-font", Ok(vec![1, 2]))
        .expect("bytes");
    assert_eq!(ok.filename, "a.ttf");
    assert_eq!(ok.mime_type, "application/x-truetype-font");
    assert_eq!(ok.content, vec![1, 2]);
    assert_eq!(
        font_attachment_data("a.ttf".to_string(), "application/x-truetype-font", Err("permission denied".to_string()))
            .map(|d| d.content),
        Err("无法读取字体文件 a.ttf：permission denied".to_string())
    );
    assert_eq!(
        font_attachment_data("a.ttf".to_string(), "application/x-truetype-font", Ok(Vec::new())).map(|d| d.content),
        Err("字体文件 a.ttf 为空。".to_string())
    );
}

#[test]
fn font_codec_follows_mime_type() {
    assert_eq!(font_codec_id("application/vnd.ms-opentype"), FontCodecId::Otf);
    assert_eq!(font_codec_id("application/x-truetype-font"), FontCodecId::Ttf);
}

#[test]
fn reads_full_name_from_name_table() {
    let family = utf16("Family");
    let full = utf16("Family Bold");
    let table = name_table(&[(3, 1, 0x409, 1, &family), (3, 1, 0x409, 4, &full)]);
    assert_eq!(name_from_table(&table), "Family Bold");

    let mac = name_table(&[(1, 0, 0, 4, b"Caf\x8e")]);
    assert_eq!(name_from_table(&mac), "Café");

    let unknown = name_table(&[(2, 7, 3, 4, b"xx")]);
    assert_eq!(name_from_table(&unknown), "(unknown platform=2 encoding=7 language=3)");

    let no_full_name = name_table(&[(3, 1, 0x409, 1, &family)]);
    assert_eq!(name_from_table(&no_full_name), "");
    assert_eq!(name_from_table(b"\x00"), "");
}

#[test]
fn full_name_stops_at_records_out_of_storage() {
    let storage = utf16("Name");
    let record = |name_id: u16, length: u16, offset: u16| NameRecordInfo {
        platform_id: 0,
        encoding_id: 3,
        language_id: 0,
        name_id,
        length,
        offset,
    };
    assert_eq!(full_name(&vec![record(4, 8, 0)], &storage), "Name");
    assert_eq!(full_name(&vec![record(4, 4, 4)], &storage), "me");
    assert_eq!(full_name(&vec![record(1, 9, 0), record(4, 8, 0)], &storage), "");
    assert_eq!(full_name(&vec![], &storage), "");
}

#[test]
fn unreadable_fonts_give_nothing() {
    assert_eq!(dump(b"not a font at all"), "");
    assert_eq!(read_font_name(b"not a font at all"), None);
    assert_eq!(subset_text(b"not a font at all", "abc"), None);
}

#[test]
fn blank_names_are_not_shown() {
    assert_eq!(shown_font_name(" \t".to_string()), None);
    assert_eq!(shown_font_name(String::new()), None);
    assert_eq!(shown_font_name(" Sans ".to_string()), Some(" Sans ".to_string()));
}
