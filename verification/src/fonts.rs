//! Fonts: attaching font files, cutting a font down to the glyphs that
//! subtitles use, and reading a font's full name. Parsing and subsetting
//! are allsorts' work; text in name tables is decoded by encoding_rs.
use vstd::prelude::*;

use allsorts::binary::read::ReadScope;
use allsorts::font_data::FontData;
use allsorts::tables::cmap::{Cmap, CmapSubtable};
use allsorts::tables::{FontTableProvider, NameTable, OffsetTable, OpenTypeData};

use crate::number::{decimal, push_u64};
use crate::text::{chars_of, push_all, push_str, string_of, trim, trim_pos};

verus! {

// ---------------------------------------------------------------------------
// Font attachments
// ---------------------------------------------------------------------------
pub open spec fn ascii_lower(c: char) -> char {
    if 'A' <= c <= 'Z' {
        ((c as u32) + 32) as char
    } else {
        c
    }
}

/// `str::to_ascii_lowercase`.
pub open spec fn to_ascii_lowercase(s: Seq<char>) -> Seq<char> {
    s.map_values(|c: char| ascii_lower(c))
}

pub open spec fn extension_message() -> Seq<char> {
    "字体文件必须使用 .ttf、.ttc 或 .otf 扩展名。"@
}

/// The file name and MIME type under which a font file is attached: its
/// extension must be `ttf`, `ttc` or `otf` in any case, and it must have a
/// non-empty file name.
pub open spec fn spec_font_attachment_name(path: Seq<char>) -> Result<(Seq<char>, Seq<char>), Seq<char>> {
    match crate::paths::spec_extension(path) {
        None => Err(extension_message()),
        Some(e) => {
            let e = to_ascii_lowercase(e);
            if e != "ttf"@ && e != "ttc"@ && e != "otf"@ {
                Err(extension_message())
            } else {
                let mime = if e == "otf"@ {
                    "application/vnd.ms-opentype"@
                } else {
                    "application/x-truetype-font"@
                };
                match crate::paths::spec_file_name(path) {
                    None => Err("无法确定字体文件名。"@),
                    Some(name) => if name.len() == 0 {
                        Err("无法确定字体文件名。"@)
                    } else {
                        Ok((name, mime))
                    },
                }
            }
        },
    }
}

pub(crate) fn lowercase_ascii(s: &str) -> (r: Vec<char>)
    ensures
        r@ == to_ascii_lowercase(s@),
{
    let v = chars_of(s);
    let mut r: Vec<char> = Vec::new();
    let mut i: usize = 0;
    while i < v.len()
        invariant
            i <= v.len(),
            r@ == to_ascii_lowercase(v@.take(i as int)),
        decreases v.len() - i,
    {
        let c = v[i];
        let l = if 'A' <= c && c <= 'Z' {
            let u = ((c as u32) + 32) as u8;
            u as char
        } else {
            c
        };
        r.push(l);
        assert(to_ascii_lowercase(v@.take(i + 1)) =~= to_ascii_lowercase(v@.take(i as int)).push(
            ascii_lower(c),
        ));
        i = i + 1;
    }
    assert(v@.take(v.len() as int) =~= v@);
    r
}

/// The file name and MIME type under which the font file at `path` is
/// attached.
pub fn font_attachment_name(path: &str) -> (r: Result<(String, &'static str), String>)
    ensures
        match r {
            Ok((name, mime)) => spec_font_attachment_name(path@) == Ok::<_, Seq<char>>(
                (name@, mime@),
            ),
            Err(e) => spec_font_attachment_name(path@) == Err::<(Seq<char>, Seq<char>), _>(e@),
        },
{
    let extension = match crate::paths::extension(path) {
        Some(e) => e,
        None => return Err("字体文件必须使用 .ttf、.ttc 或 .otf 扩展名。".to_owned()),
    };
    let e = lowercase_ascii(extension.as_str());
    let mime: &'static str = if crate::text::chars_eq_str(&e, "ttf") || crate::text::chars_eq_str(
        &e,
        "ttc",
    ) {
        "application/x-truetype-font"
    } else if crate::text::chars_eq_str(&e, "otf") {
        "application/vnd.ms-opentype"
    } else {
        return Err("字体文件必须使用 .ttf、.ttc 或 .otf 扩展名。".to_owned());
    };
    proof {
        reveal_strlit("ttf");
        reveal_strlit("ttc");
        reveal_strlit("otf");
        assert("ttf"@[0] != "otf"@[0] && "ttc"@[0] != "otf"@[0]);
    }
    let name = match crate::paths::file_name(path) {
        Some(n) => n,
        None => return Err("无法确定字体文件名。".to_owned()),
    };
    if name.as_str().is_empty() {
        return Err("无法确定字体文件名。".to_owned());
    }
    Ok((name, mime))
}

/// A font ready to attach: its file name, MIME type and bytes.
#[derive(Debug, Clone, PartialEq)]
pub struct FontAttachmentData {
    pub filename: String,
    pub mime_type: &'static str,
    pub content: Vec<u8>,
}

/// A font to attach, from its name and the outcome of getting its bytes
/// (the bytes already held, or the error text of reading its file): a read
/// error or an empty file is an error.
pub open spec fn spec_font_attachment_data(
    filename: Seq<char>,
    content: Result<Seq<u8>, Seq<char>>,
) -> Result<Seq<u8>, Seq<char>> {
    match content {
        Err(error) => Err("无法读取字体文件 "@ + filename + "："@ + error),
        Ok(bytes) => if bytes.len() == 0 {
            Err("字体文件 "@ + filename + " 为空。"@)
        } else {
            Ok(bytes)
        },
    }
}

/// A font to attach, from its file name, MIME type and the outcome of
/// getting its bytes.
pub fn font_attachment_data(filename: String, mime_type: &'static str, content: Result<
    Vec<u8>,
    String,
>) -> (r: Result<FontAttachmentData, String>)
    ensures
        match r {
            Ok(d) => spec_font_attachment_data(
                filename@,
                match content {
                    Ok(b) => Ok(b@),
                    Err(e) => Err(e@),
                },
            ) == Ok::<_, Seq<char>>(d.content@) && d.filename@ == filename@ && d.mime_type
                == mime_type,
            Err(e) => spec_font_attachment_data(
                filename@,
                match content {
                    Ok(b) => Ok(b@),
                    Err(e) => Err(e@),
                },
            ) == Err::<Seq<u8>, _>(e@),
        },
{
    match content {
        Err(error) => {
            let mut m = chars_of("无法读取字体文件 ");
            push_str(&mut m, filename.as_str());
            push_str(&mut m, "：");
            push_str(&mut m, error.as_str());
            Err(string_of(&m))
        },
        Ok(bytes) => {
            if bytes.len() == 0 {
                let mut m = chars_of("字体文件 ");
                push_str(&mut m, filename.as_str());
                push_str(&mut m, " 为空。");
                Err(string_of(&m))
            } else {
                Ok(FontAttachmentData { filename, mime_type, content: bytes })
            }
        },
    }
}

/// The codec of an attached font stream.
#[derive(Clone, Copy, Debug, PartialEq, Eq, Structural)]
pub enum FontCodecId {
    Ttf,
    Otf,
}

/// The codec of an attached font: OpenType for its MIME type, TrueType
/// otherwise.
pub fn font_codec_id(mime_type: &str) -> (r: FontCodecId)
    ensures
        r == if mime_type@ == "application/vnd.ms-opentype"@ {
            FontCodecId::Otf
        } else {
            FontCodecId::Ttf
        },
{
    if crate::text::str_eq(mime_type, "application/vnd.ms-opentype") {
        FontCodecId::Otf
    } else {
        FontCodecId::Ttf
    }
}

// ---------------------------------------------------------------------------
// The characters to keep
// ---------------------------------------------------------------------------
/// `s` with every character after its first occurrence removed.
pub open spec fn dedup_chars(s: Seq<char>) -> Seq<char>
    decreases s.len(),
{
    if s.len() == 0 {
        seq![]
    } else {
        let rest = dedup_chars(s.drop_last());
        if rest.contains(s.last()) {
            rest
        } else {
            rest.push(s.last())
        }
    }
}

/// Whether no character occurs twice in `s`.
pub open spec fn distinct_chars(s: Seq<char>) -> bool {
    forall|i: int, j: int| 0 <= i < j < s.len() ==> s[i] != s[j]
}

/// A text without repeated characters is kept as it is.
proof fn lemma_dedup_distinct(s: Seq<char>)
    requires
        distinct_chars(s),
    ensures
        dedup_chars(s) == s,
    decreases s.len(),
{
    if s.len() > 0 {
        let rest = s.drop_last();
        assert(distinct_chars(rest)) by {
            assert forall|i: int, j: int| 0 <= i < j < rest.len() implies rest[i] != rest[j] by {
                assert(rest[i] == s[i] && rest[j] == s[j]);
            }
        }
        lemma_dedup_distinct(rest);
        if rest.contains(s.last()) {
            let i = choose|i: int| 0 <= i < rest.len() && rest[i] == s.last();
            assert(s[i] == s[s.len() - 1]);
        }
        assert(rest.push(s.last()) =~= s);
    }
}

/// What `remove_duplicate_chars` keeps: each character of its input, once,
/// and nothing else; keeping it again changes nothing.
pub proof fn lemma_dedup_chars(s: Seq<char>)
    ensures
        forall|c: char| dedup_chars(s).contains(c) <==> s.contains(c),
        distinct_chars(dedup_chars(s)),
        dedup_chars(dedup_chars(s)) == dedup_chars(s),
    decreases s.len(),
{
    if s.len() > 0 {
        let rest = s.drop_last();
        lemma_dedup_chars(rest);
        let r = dedup_chars(rest);
        assert forall|c: char| dedup_chars(s).contains(c) <==> s.contains(c) by {
            if s.contains(c) {
                let i = choose|i: int| 0 <= i < s.len() && s[i] == c;
                if i < s.len() - 1 {
                    assert(rest[i] == c);
                    assert(rest.contains(c));
                }
                if r.contains(c) {
                    let j = choose|j: int| 0 <= j < r.len() && r[j] == c;
                    assert(dedup_chars(s)[j] == c);
                } else {
                    assert(c == s.last());
                    assert(dedup_chars(s)[r.len() as int] == c);
                }
            }
            if dedup_chars(s).contains(c) {
                let i = choose|i: int| 0 <= i < dedup_chars(s).len() && dedup_chars(s)[i] == c;
                if i < r.len() {
                    assert(r[i] == c);
                    assert(r.contains(c));
                    assert(rest.contains(c));
                    let j = choose|j: int| 0 <= j < rest.len() && rest[j] == c;
                    assert(s[j] == c);
                } else {
                    assert(s[s.len() - 1] == c);
                }
            }
        }
        if !r.contains(s.last()) {
            let t = r.push(s.last());
            assert forall|i: int, j: int| 0 <= i < j < t.len() implies t[i] != t[j] by {
                if j == r.len() {
                    assert(t[i] == r[i]);
                    if t[i] == t[j] {
                        assert(r.contains(s.last()));
                    }
                } else {
                    assert(t[i] == r[i] && t[j] == r[j]);
                }
            }
        }
    }
    lemma_dedup_distinct(dedup_chars(s));
}

/// Whether `p` is where `c` first occurs in `s`.
pub open spec fn first_occurrence(s: Seq<char>, c: char, p: int) -> bool {
    0 <= p < s.len() && s[p] == c && !s.take(p).contains(c)
}

/// `remove_duplicate_chars` keeps the characters in the order in which they
/// first occur in its input.
pub proof fn lemma_dedup_order(s: Seq<char>, i: int, j: int, p: int, q: int)
    requires
        0 <= i < j < dedup_chars(s).len(),
        first_occurrence(s, dedup_chars(s)[i], p),
        first_occurrence(s, dedup_chars(s)[j], q),
    ensures
        p < q,
    decreases s.len(),
{
    let rest = s.drop_last();
    let r = dedup_chars(rest);
    lemma_dedup_chars(rest);
    let last = s.len() - 1;
    assert(r.contains(dedup_chars(s)[i])) by {
        assert(dedup_chars(s)[i] == r[i]);
    }
    assert(rest.contains(dedup_chars(s)[i]));
    assert(p < last) by {
        if p == last {
            assert(s.take(p) =~= rest);
        }
    }
    if j < r.len() {
        assert(dedup_chars(s)[j] == r[j]);
        assert(rest.contains(r[j]));
        assert(q < last) by {
            if q == last {
                assert(s.take(q) =~= rest);
            }
        }
        assert(rest.take(p) =~= s.take(p));
        assert(rest.take(q) =~= s.take(q));
        lemma_dedup_order(rest, i, j, p, q);
    } else {
        assert(!r.contains(s.last()));
        assert(dedup_chars(s)[j] == s.last());
        assert(q == last) by {
            if q < last {
                assert(rest[q] == s.last());
                assert(rest.contains(s.last()));
                assert(r.contains(s.last()));
            }
        }
    }
}

fn contains_char(v: &Vec<char>, c: char) -> (r: bool)
    ensures
        r == v@.contains(c),
{
    let mut i: usize = 0;
    while i < v.len()
        invariant
            i <= v.len(),
            forall|j: int| 0 <= j < i ==> v@[j] != c,
        decreases v.len() - i,
    {
        if v[i] == c {
            assert(v@[i as int] == c);
            return true;
        }
        i = i + 1;
    }
    false
}

/// The characters of `input`, each once, in the order they first appear.
pub fn remove_duplicate_chars(input: &str) -> (r: String)
    ensures
        r@ == dedup_chars(input@),
{
    let v = chars_of(input);
    let mut result: Vec<char> = Vec::new();
    let mut i: usize = 0;
    while i < v.len()
        invariant
            i <= v.len(),
            result@ == dedup_chars(v@.take(i as int)),
        decreases v.len() - i,
    {
        assert(v@.take(i + 1).drop_last() =~= v@.take(i as int));
        let c = v[i];
        if !contains_char(&result, c) {
            result.push(c);
        }
        i = i + 1;
    }
    assert(v@.take(v.len() as int) =~= v@);
    string_of(&result)
}

/// The linear congruential step `(1664525 * seed + 1013904223) mod 2^32`.
pub fn lcg(seed: u32) -> (r: u32)
    ensures
        r == (1664525 * seed + 1013904223) % 0x1_0000_0000,
{
    let a: u64 = 1664525;
    let c: u64 = 1013904223;
    let m: u64 = 0x1_0000_0000;
    assert(a * seed <= 1664525 * 0xffff_ffff) by (nonlinear_arith)
        requires
            a == 1664525,
            seed <= 0xffff_ffff,
    ;
    ((a * seed as u64 + c) % m) as u32
}

/// The text whose characters a subset keeps: the subtitles, then `?` and
/// `◻` for characters the font lacks, each character once.
pub open spec fn spec_subset_chars(text: Seq<char>) -> Seq<char> {
    dedup_chars(text + "?◻"@)
}

/// Whether `ids` is strictly increasing.
pub open spec fn strictly_increasing(ids: Seq<u16>) -> bool {
    forall|i: int, j: int| 0 <= i < j < ids.len() ==> ids[i] < ids[j]
}

/// Whether `glyph` is the glyph of some character in `glyphs`.
pub open spec fn mapped(glyphs: Seq<Option<u16>>, glyph: u16) -> bool {
    exists|k: int| 0 <= k < glyphs.len() && glyphs[k] == Some(glyph)
}

/// Inserts `g` into the strictly increasing `ids`, keeping them so.
fn insert_sorted(ids: &mut Vec<u16>, g: u16)
    requires
        strictly_increasing(old(ids)@),
    ensures
        strictly_increasing(final(ids)@),
        forall|x: u16| final(ids)@.contains(x) <==> (old(ids)@.contains(x) || x == g),
{
    let mut i: usize = 0;
    while i < ids.len() && ids[i] < g
        invariant
            i <= ids.len(),
            ids@ == old(ids)@,
            forall|j: int| 0 <= j < i ==> ids@[j] < g,
        decreases ids.len() - i,
    {
        i = i + 1;
    }
    if i < ids.len() && ids[i] == g {
        return;
    }
    ids.insert(i, g);
    assert forall|x: u16| ids@.contains(x) <==> (old(ids)@.contains(x) || x == g) by {
        if old(ids)@.contains(x) {
            let k = choose|k: int| 0 <= k < old(ids)@.len() && old(ids)@[k] == x;
            if k < i {
                assert(ids@[k] == x);
            } else {
                assert(ids@[k + 1] == x);
            }
        }
        if x == g {
            assert(ids@[i as int] == g);
        }
    }
}

/// The glyphs a subset keeps: glyph 0 (`.notdef`) and each glyph that a
/// character maps to, in increasing order. Only one sequence is so
/// (`lemma_increasing_unique`).
pub open spec fn spec_kept_glyph_ids(glyphs: Seq<Option<u16>>) -> Seq<u16> {
    choose|ids: Seq<u16>|
        strictly_increasing(ids) && forall|x: u16| #[trigger] ids.contains(x) <==> (x == 0 || mapped(glyphs, x))
}

/// Two strictly increasing sequences with the same elements are equal.
proof fn lemma_increasing_unique(s: Seq<u16>, t: Seq<u16>)
    requires
        strictly_increasing(s),
        strictly_increasing(t),
        forall|x: u16| s.contains(x) <==> t.contains(x),
    ensures
        s == t,
    decreases s.len(),
{
    if s.len() == 0 {
        if t.len() > 0 {
            assert(t.contains(t[0]));
            assert(s.contains(t[0]));
        }
        assert(s =~= t);
    } else {
        if t.len() == 0 {
            assert(s.contains(s[0]));
            assert(t.contains(s[0]));
        }
        assert(s.contains(s[0]));
        assert(t.contains(s[0]));
        assert(t.contains(t[0]));
        assert(s.contains(t[0]));
        let j = choose|j: int| 0 <= j < t.len() && t[j] == s[0];
        let i = choose|i: int| 0 <= i < s.len() && s[i] == t[0];
        assert(t[0] <= t[j]);
        assert(s[0] <= s[i]);
        let s1 = s.drop_first();
        let t1 = t.drop_first();
        assert forall|x: u16| s1.contains(x) <==> t1.contains(x) by {
            if s1.contains(x) {
                let k = choose|k: int| 0 <= k < s1.len() && s1[k] == x;
                assert(s[k + 1] == x);
                assert(s.contains(x));
                assert(t.contains(x));
                let m = choose|m: int| 0 <= m < t.len() && t[m] == x;
                assert(m != 0);
                assert(t1[m - 1] == x);
            }
            if t1.contains(x) {
                let k = choose|k: int| 0 <= k < t1.len() && t1[k] == x;
                assert(t[k + 1] == x);
                assert(t.contains(x));
                assert(s.contains(x));
                let m = choose|m: int| 0 <= m < s.len() && s[m] == x;
                assert(m != 0);
                assert(s1[m - 1] == x);
            }
        }
        assert(strictly_increasing(s1));
        assert(strictly_increasing(t1));
        lemma_increasing_unique(s1, t1);
        assert(s =~= seq![s[0]] + s1);
        assert(t =~= seq![t[0]] + t1);
    }
}

/// The glyphs a subset keeps, in increasing order: glyph 0 (`.notdef`) and
/// each glyph that a character maps to.
pub fn glyph_ids_to_keep(glyphs: &[Option<u16>]) -> (r: Vec<u16>)
    ensures
        strictly_increasing(r@),
        forall|x: u16| r@.contains(x) <==> (x == 0 || mapped(glyphs@, x)),
        r@ == spec_kept_glyph_ids(glyphs@),
{
    let mut ids: Vec<u16> = Vec::new();
    ids.push(0);
    let mut k: usize = 0;
    assert forall|x: u16| ids@.contains(x) <==> (x == 0 || mapped(glyphs@.take(0), x)) by {
        if x == 0 {
            assert(ids@[0] == x);
        }
    }
    while k < glyphs.len()
        invariant
            k <= glyphs.len(),
            strictly_increasing(ids@),
            forall|x: u16| ids@.contains(x) <==> (x == 0 || mapped(glyphs@.take(k as int), x)),
        decreases glyphs.len() - k,
    {
        let ghost before = ids@;
        if let Some(g) = glyphs[k] {
            insert_sorted(&mut ids, g);
        }
        assert forall|x: u16|
            mapped(glyphs@.take(k + 1), x) <==> (mapped(glyphs@.take(k as int), x) || glyphs@[k as int]
                == Some(x)) by {
            let next = glyphs@.take(k + 1);
            let prev = glyphs@.take(k as int);
            if mapped(next, x) {
                let j = choose|j: int| 0 <= j < next.len() && #[trigger] next[j] == Some(x);
                if j < k {
                    assert(prev[j] == Some(x));
                }
            }
            if mapped(prev, x) {
                let j = choose|j: int| 0 <= j < prev.len() && #[trigger] prev[j] == Some(x);
                assert(next[j] == Some(x));
            }
            if glyphs@[k as int] == Some(x) {
                assert(glyphs@.take(k + 1)[k as int] == Some(x));
            }
        }
        assert forall|x: u16| ids@.contains(x) <==> (x == 0 || mapped(glyphs@.take(k + 1), x)) by {
            if glyphs@[k as int] is None {
                assert(ids@ == before);
            }
        }
        k = k + 1;
    }
    assert(glyphs@.take(glyphs.len() as int) =~= glyphs@);
    proof {
        let kept = spec_kept_glyph_ids(glyphs@);
        assert(strictly_increasing(ids@) && forall|x: u16| #[trigger] ids@.contains(x) <==> (x == 0
            || mapped(glyphs@, x)));
        lemma_increasing_unique(ids@, kept);
    }
    ids
}

// ---------------------------------------------------------------------------
// Subsetting with allsorts
// ---------------------------------------------------------------------------
/// What allsorts finds as the `cmap` table of the first font in `data`.
pub uninterp spec fn spec_first_font_cmap(data: Seq<u8>) -> Option<Seq<u8>>;

/// What allsorts maps `ch` to in the character map `cmap`: `None` where the
/// map, or the subtable it prefers, cannot be read or there is none, and
/// otherwise the glyph, if the character has one.
pub uninterp spec fn spec_cmap_glyph(cmap: Seq<u8>, ch: char) -> Option<Option<u16>>;

/// What allsorts makes of the first font in `data` cut down to `glyph_ids`.
pub uninterp spec fn spec_subset_first_font(data: Seq<u8>, glyph_ids: Seq<u16>) -> Option<Seq<u8>>;

/// `ReadScope::read::<FontData>`, `FontData::table_provider(0)` and
/// `FontTableProvider::read_table_data` for the `cmap` table: the bytes of
/// the character map of the first font in `data`, named by
/// `spec_first_font_cmap`; `None` where any of them fails.
#[verifier::external_body]
fn first_font_cmap(data: &[u8]) -> (r: Option<Vec<u8>>)
    ensures
        match r {
            Some(c) => spec_first_font_cmap(data@) == Some(c@),
            None => spec_first_font_cmap(data@) is None,
        },
{
    let font = ReadScope::new(data).read::<FontData<'_>>().ok()?;
    let provider = font.table_provider(0).ok()?;
    provider.read_table_data(allsorts::tag::CMAP).ok().map(|table| table.into_owned())
}

/// What allsorts finds as the subtable it prefers in the character map
/// `cmap`: `None` where the map or that subtable cannot be read, `Some(None)`
/// where there is none, and otherwise the subtable's format and its offset
/// in `cmap`.
pub uninterp spec fn spec_preferred_subtable(cmap: Seq<u8>) -> Option<Option<(u16, u32)>>;

/// `ReadScope::read::<Cmap>`, `allsorts::font::find_good_cmap_subtable` and
/// `allsorts::font::read_cmap_subtable`, telling the subtable's formats
/// apart: the format and offset of the subtable allsorts prefers. Named by
/// `spec_preferred_subtable`.
#[verifier::external_body]
fn preferred_subtable(cmap: &[u8]) -> (r: Option<Option<(u16, u32)>>)
    ensures
        r == spec_preferred_subtable(cmap@),
{
    let cmap = ReadScope::new(cmap).read::<Cmap<'_>>().ok()?;
    let offset = match allsorts::font::find_good_cmap_subtable(&cmap) {
        Some((_, record)) => record.offset,
        None => return Some(None),
    };
    let format = match allsorts::font::read_cmap_subtable(&cmap).ok()??.1 {
        CmapSubtable::Format0 { .. } => 0,
        CmapSubtable::Format2 { .. } => 2,
        CmapSubtable::Format4(_) => 4,
        CmapSubtable::Format6 { .. } => 6,
        CmapSubtable::Format10 { .. } => 10,
        CmapSubtable::Format12 { .. } => 12,
    };
    Some(Some((format, offset)))
}

/// The big-endian 16-bit number at `p` in `b`, if it is there.
pub open spec fn u16_at(b: Seq<u8>, p: int) -> Option<int> {
    if 0 <= p && p + 2 <= b.len() {
        Some(b[p] * 256 + b[p + 1])
    } else {
        None
    }
}

/// The big-endian 32-bit number at `p` in `b`, if it is there.
pub open spec fn u32_at(b: Seq<u8>, p: int) -> Option<int> {
    if 0 <= p && p + 4 <= b.len() {
        Some(((b[p] * 256 + b[p + 1]) * 256 + b[p + 2]) * 256 + b[p + 3])
    } else {
        None
    }
}

/// The big-endian 16-bit number at `p` in `b`.
fn read_u16(b: &[u8], p: u64) -> (r: Option<u16>)
    ensures
        match r {
            Some(v) => u16_at(b@, p as int) == Some(v as int),
            None => u16_at(b@, p as int) is None,
        },
{
    if p < b.len() as u64 && b.len() as u64 - p >= 2 {
        let q = p as usize;
        Some(b[q] as u16 * 256 + b[q + 1] as u16)
    } else {
        None
    }
}

/// The big-endian 32-bit number at `p` in `b`.
fn read_u32(b: &[u8], p: u64) -> (r: Option<u32>)
    ensures
        match r {
            Some(v) => u32_at(b@, p as int) == Some(v as int),
            None => u32_at(b@, p as int) is None,
        },
{
    if p < b.len() as u64 && b.len() as u64 - p >= 4 {
        let q = p as usize;
        let v: u64 = ((b[q] as u64 * 256 + b[q + 1] as u64) * 256 + b[q + 2] as u64) * 256 + b[q + 3] as u64;
        Some(v as u32)
    } else {
        None
    }
}

/// The glyph of the character `c` in the format 12 subtable at `offset`
/// in `b`, from group `i` on: the first group whose range holds `c` gives
/// its start glyph moved by `c`'s place in the range, the sum taken modulo
/// 2^32 as allsorts' unchecked 32-bit addition wraps; `None` where a group is
/// out of the bytes or the glyph is no 16-bit number.
pub open spec fn format12_glyph_from(b: Seq<u8>, offset: int, count: int, i: int, c: int) -> Option<
    Option<u16>,
>
    decreases count - i,
{
    if i < 0 || i >= count {
        Some(None)
    } else {
        let p = offset + 16 + 12 * i;
        match (u32_at(b, p), u32_at(b, p + 4), u32_at(b, p + 8)) {
            (Some(start), Some(end), Some(glyph)) => if start <= c && c <= end {
                if (glyph + (c - start)) % 0x1_0000_0000 <= 0xFFFF {
                    Some(Some(((glyph + (c - start)) % 0x1_0000_0000) as u16))
                } else {
                    None
                }
            } else {
                format12_glyph_from(b, offset, count, i + 1, c)
            },
            _ => None,
        }
    }
}

/// The glyph of the character `c` in the format 12 subtable at `offset` in
/// `b`, its groups counted at `offset + 12`.
pub open spec fn format12_glyph(b: Seq<u8>, offset: int, c: int) -> Option<Option<u16>> {
    match u32_at(b, offset + 12) {
        None => None,
        Some(count) => format12_glyph_from(b, offset, count, 0, c),
    }
}

/// Group `i` of the format 12 subtable at `offset` in `b`: its first and
/// last character and its first glyph, where its bytes are there.
pub open spec fn format12_group(b: Seq<u8>, offset: int, i: int) -> Option<(int, int, int)> {
    let p = offset + 16 + 12 * i;
    match (u32_at(b, p), u32_at(b, p + 4), u32_at(b, p + 8)) {
        (Some(start), Some(end), Some(glyph)) => Some((start, end, glyph)),
        _ => None,
    }
}

/// Whether groups `j` up to `i` (not included) are there and none of them
/// holds `c`.
pub open spec fn groups_pass(b: Seq<u8>, offset: int, j: int, i: int, c: int) -> bool {
    forall|g: int| j <= g < i ==> #[trigger] group_passes(b, offset, g, c)
}

/// Whether group `g` is there and does not hold `c`.
pub open spec fn group_passes(b: Seq<u8>, offset: int, g: int, c: int) -> bool {
    match format12_group(b, offset, g) {
        Some((start, end, _)) => !(start <= c <= end),
        None => false,
    }
}

proof fn lemma_format12_skip(b: Seq<u8>, offset: int, count: int, j: int, i: int, c: int)
    requires
        0 <= j <= i <= count,
        groups_pass(b, offset, j, i, c),
    ensures
        format12_glyph_from(b, offset, count, j, c) == format12_glyph_from(b, offset, count, i, c),
    decreases i - j,
{
    if j < i {
        assert(group_passes(b, offset, j, c));
        lemma_format12_skip(b, offset, count, j + 1, i, c);
    }
}

/// In a format 12 subtable, a character is mapped by the first group whose
/// range holds it: to the group's first glyph moved on by the character's
/// distance from the group's first character, where that glyph is a 16-bit
/// number, and to nothing where no group holds it.
pub proof fn lemma_format12_glyph(b: Seq<u8>, offset: int, count: int, i: int, c: int)
    requires
        u32_at(b, offset + 12) == Some(count),
        0 <= i <= count,
        groups_pass(b, offset, 0, i, c),
    ensures
        i == count ==> format12_glyph(b, offset, c) == Some(None::<u16>),
        i < count ==> match format12_group(b, offset, i) {
            Some((start, end, glyph)) => start <= c <= end ==> {
                &&& glyph + (c - start) <= 0xFFFF ==> format12_glyph(b, offset, c) == Some(
                    Some((glyph + (c - start)) as u16),
                )
                &&& 0xFFFF < glyph + (c - start) < 0x1_0000_0000 ==> format12_glyph(b, offset, c)
                    is None
            },
            None => true,
        },
{
    lemma_format12_skip(b, offset, count, 0, i, c);
}

/// Two different characters in the range of the group that maps them get
/// two different glyphs.
pub proof fn lemma_format12_distinct(b: Seq<u8>, offset: int, count: int, i: int, c: int, d: int)
    requires
        u32_at(b, offset + 12) == Some(count),
        0 <= i < count,
        groups_pass(b, offset, 0, i, c),
        groups_pass(b, offset, 0, i, d),
        c != d,
        match format12_group(b, offset, i) {
            Some((start, end, glyph)) => start <= c <= end && start <= d <= end && glyph + (end
                - start) <= 0xFFFF,
            None => false,
        },
    ensures
        format12_glyph(b, offset, c) is Some,
        format12_glyph(b, offset, d) is Some,
        format12_glyph(b, offset, c) != format12_glyph(b, offset, d),
{
    lemma_format12_glyph(b, offset, count, i, c);
    lemma_format12_glyph(b, offset, count, i, d);
}

/// Whether allsorts' lookup of the character `c` in the format 2 subtable
/// at `offset` in `b` meets a sub-header whose first code and entry count
/// add up past 16 bits.
pub open spec fn format2_overflows(b: Seq<u8>, offset: int, c: int) -> bool {
    let high = (c / 256) % 256;
    let low = c % 256;
    match u16_at(b, offset + 6 + 2 * low) {
        None => false,
        Some(low_key) => {
            let index = if high == 0 && low_key == 0 {
                low
            } else {
                high
            };
            match u16_at(b, offset + 6 + 2 * index) {
                None => false,
                Some(key) => {
                    let h = offset + 6 + 512 + 8 * (key / 8);
                    match (u16_at(b, h), u16_at(b, h + 2)) {
                        (Some(first), Some(count)) => first + count > 0xFFFF,
                        _ => false,
                    }
                },
            }
        },
    }
}

/// Whether allsorts can look `ch` up in `cmap` without an arithmetic
/// overflow: not in a format 12 subtable, nor where a format 2 sub-header
/// overflows.
pub open spec fn cmap_lookup_safe(cmap: Seq<u8>, ch: char) -> bool {
    match spec_preferred_subtable(cmap) {
        Some(Some((format, offset))) => format != 12 && !(format == 2 && format2_overflows(
            cmap,
            offset as int,
            ch as int,
        )),
        _ => true,
    }
}

/// `ReadScope::read::<Cmap>`, `allsorts::font::read_cmap_subtable` and
/// `CmapSubtable::map_glyph`: the glyph of `ch` in the character map
/// `cmap`, named by `spec_cmap_glyph`; `None` where any of them fails or
/// the map has no subtable that allsorts prefers. `map_glyph` adds without
/// a check in format 12 and in the range test of format 2, so those lookups
/// are left out.
#[verifier::external_body]
fn cmap_glyph(cmap: &[u8], ch: char) -> (r: Option<Option<u16>>)
    requires
        cmap_lookup_safe(cmap@, ch),
    ensures
        r == spec_cmap_glyph(cmap@, ch),
{
    let cmap = ReadScope::new(cmap).read::<Cmap<'_>>().ok()?;
    let (_, subtable) = allsorts::font::read_cmap_subtable(&cmap).ok()??;
    subtable.map_glyph(ch as u32).ok()
}

/// The glyph of `ch` in the character map `cmap`: `None` where allsorts
/// cannot read the map or finds no subtable, or where the glyph cannot be
/// had. A format 12 subtable is looked up here, its 32-bit sum wrapping as
/// allsorts' does; where a format 2 sub-header's range passes 16 bits, the
/// range allsorts tests wraps to an empty one and the glyph is 0.
pub open spec fn spec_glyph_lookup(cmap: Seq<u8>, ch: char) -> Option<Option<u16>> {
    match spec_preferred_subtable(cmap) {
        None => None,
        Some(None) => None,
        Some(Some((format, offset))) => if format == 12 {
            format12_glyph(cmap, offset as int, ch as int)
        } else if format == 2 && format2_overflows(cmap, offset as int, ch as int) {
            Some(Some(0))
        } else {
            spec_cmap_glyph(cmap, ch)
        },
    }
}

/// The glyph of `ch` in the format 12 subtable at `offset` in `b`, its
/// groups read as the OpenType layout places them.
fn format12_lookup(b: &[u8], offset: u32, ch: char) -> (r: Option<Option<u16>>)
    ensures
        r == format12_glyph(b@, offset as int, ch as int),
{
    let base = offset as u64;
    let count = match read_u32(b, base + 12) {
        Some(n) => n as u64,
        None => return None,
    };
    let c = ch as u32 as u64;
    let mut i: u64 = 0;
    while i < count
        invariant
            i <= count,
            count < 0x1_0000_0000,
            base == offset as int,
            c == ch as int,
            format12_glyph(b@, offset as int, ch as int) == format12_glyph_from(
                b@,
                offset as int,
                count as int,
                i as int,
                ch as int,
            ),
        decreases count - i,
    {
        let p = base + 16 + 12 * i;
        assert(p as int == offset as int + 16 + 12 * (i as int));
        let start = read_u32(b, p);
        let end = read_u32(b, p + 4);
        let glyph = read_u32(b, p + 8);
        match (start, end, glyph) {
            (Some(s), Some(e), Some(g)) => {
                if s as u64 <= c && c <= e as u64 {
                    let v = (g as u64 + (c - s as u64)) % 0x1_0000_0000;
                    assert(v as int == (g as int + (ch as int - s as int)) % 0x1_0000_0000);
                    if v <= 0xFFFF {
                        return Some(Some(v as u16));
                    } else {
                        return None;
                    }
                }
            },
            _ => return None,
        }
        i = i + 1;
    }
    Some(None)
}

/// Whether looking `ch` up in the format 2 subtable at `offset` in `b`
/// reaches a sub-header whose range passes 16 bits.
fn format2_overflow_check(b: &[u8], offset: u32, ch: char) -> (r: bool)
    ensures
        r == format2_overflows(b@, offset as int, ch as int),
{
    let base = offset as u64;
    let c = ch as u32 as u64;
    let high = (c / 256) % 256;
    let low = c % 256;
    let low_key = match read_u16(b, base + 6 + 2 * low) {
        Some(k) => k as u64,
        None => return false,
    };
    let index = if high == 0 && low_key == 0 {
        low
    } else {
        high
    };
    let key = match read_u16(b, base + 6 + 2 * index) {
        Some(k) => k as u64,
        None => return false,
    };
    let h = base + 6 + 512 + 8 * (key / 8);
    match (read_u16(b, h), read_u16(b, h + 2)) {
        (Some(first), Some(count)) => first as u64 + count as u64 > 0xFFFF,
        _ => false,
    }
}

/// The glyph of `ch` in the character map `cmap`, whose preferred subtable
/// allsorts reported as `subtable`.
fn glyph_lookup(cmap: &[u8], subtable: Option<Option<(u16, u32)>>, ch: char) -> (r: Option<Option<u16>>)
    requires
        subtable == spec_preferred_subtable(cmap@),
    ensures
        r == spec_glyph_lookup(cmap@, ch),
{
    match subtable {
        None => None,
        Some(None) => None,
        Some(Some((format, offset))) => if format == 12 {
            format12_lookup(cmap, offset, ch)
        } else if format == 2 && format2_overflow_check(cmap, offset, ch) {
            Some(Some(0))
        } else {
            cmap_glyph(cmap, ch)
        },
    }
}

/// `ReadScope::read::<FontData>`, `FontData::table_provider(0)` and
/// `allsorts::subset::subset` with the minimal profile and an unrestricted
/// character map: the first font in `data` cut down to `glyph_ids`, named
/// by `spec_subset_first_font`; `None` where any of them fails. In
/// `subset`, `subset_ttf`, the glyf subsetting and the font builder, the
/// assertion and the unwrap that remain hold by how the builder lays out its
/// table directory, not by the input; whether the CFF and CFF2 subsetting
/// can panic on malformed data is not settled, and nothing here rules it
/// out.
#[verifier::external_body]
fn subset_first_font(data: &[u8], glyph_ids: &[u16]) -> (r: Option<Vec<u8>>)
    ensures
        match r {
            Some(b) => spec_subset_first_font(data@, glyph_ids@) == Some(b@),
            None => spec_subset_first_font(data@, glyph_ids@) is None,
        },
{
    let font = ReadScope::new(data).read::<FontData<'_>>().ok()?;
    let provider = font.table_provider(0).ok()?;
    allsorts::subset::subset(
        &provider,
        glyph_ids,
        &allsorts::subset::SubsetProfile::Minimal,
        allsorts::subset::CmapTarget::Unrestricted,
    ).ok()
}

/// The glyph of each character of `chars` in the character map `cmap`, or
/// `None` where one of them cannot be looked up.
pub open spec fn spec_glyphs(cmap: Seq<u8>, chars: Seq<char>) -> Option<Seq<Option<u16>>>
    decreases chars.len(),
{
    if chars.len() == 0 {
        Some(seq![])
    } else {
        match spec_glyphs(cmap, chars.drop_last()) {
            None => None,
            Some(g) => match spec_glyph_lookup(cmap, chars.last()) {
                None => None,
                Some(x) => Some(g.push(x)),
            },
        }
    }
}

/// Once a prefix of the characters cannot be looked up, none of them can.
proof fn lemma_glyphs_fail(cmap: Seq<u8>, chars: Seq<char>, k: int)
    requires
        0 <= k <= chars.len(),
        spec_glyphs(cmap, chars.take(k)) is None,
    ensures
        spec_glyphs(cmap, chars) is None,
    decreases chars.len() - k,
{
    if k < chars.len() {
        assert(chars.take(k + 1).drop_last() =~= chars.take(k));
        lemma_glyphs_fail(cmap, chars, k + 1);
    } else {
        assert(chars.take(k) =~= chars);
    }
}

/// The glyph of each character of `chars` in the character map `cmap`.
fn chars_to_glyphs(cmap: &[u8], chars: &[char]) -> (r: Option<Vec<Option<u16>>>)
    ensures
        match r {
            Some(g) => spec_glyphs(cmap@, chars@) == Some(g@),
            None => spec_glyphs(cmap@, chars@) is None,
        },
{
    let subtable = preferred_subtable(cmap);
    let mut glyphs: Vec<Option<u16>> = Vec::new();
    let mut i: usize = 0;
    assert(chars@.take(0) =~= Seq::<char>::empty());
    while i < chars.len()
        invariant
            i <= chars.len(),
            subtable == spec_preferred_subtable(cmap@),
            spec_glyphs(cmap@, chars@.take(i as int)) == Some(glyphs@),
        decreases chars.len() - i,
    {
        assert(chars@.take(i + 1).drop_last() =~= chars@.take(i as int));
        assert(chars@.take(i + 1).last() == chars@[i as int]);
        match glyph_lookup(cmap, subtable, chars[i]) {
            Some(g) => glyphs.push(g),
            None => {
                proof {
                    lemma_glyphs_fail(cmap@, chars@, i + 1);
                }
                return None;
            },
        }
        i = i + 1;
    }
    assert(chars@.take(chars.len() as int) =~= chars@);
    Some(glyphs)
}

/// The text whose characters a subset of a font keeps.
pub fn subset_chars(text: &str) -> (r: String)
    ensures
        r@ == spec_subset_chars(text@),
{
    let mut t = chars_of(text);
    push_str(&mut t, "?◻");
    let s = string_of(&t);
    remove_duplicate_chars(s.as_str())
}

/// The font in `data` cut down for `text`: the glyphs that the first font's
/// character map gives the characters of `spec_subset_chars(text)`, kept as
/// `spec_kept_glyph_ids` says; `None` where allsorts cannot read the map,
/// look a character up or subset the font.
pub open spec fn spec_subset_text(data: Seq<u8>, text: Seq<char>) -> Option<Seq<u8>> {
    match spec_first_font_cmap(data) {
        None => None,
        Some(cmap) => match spec_glyphs(cmap, spec_subset_chars(text)) {
            None => None,
            Some(glyphs) => spec_subset_first_font(data, spec_kept_glyph_ids(glyphs)),
        },
    }
}

/// The font in `font_data` cut down to the glyphs of the characters of
/// `text`, plus `.notdef`, `?` and `◻`; `None` where allsorts cannot read
/// or subset the font.
pub fn subset_text(font_data: &[u8], text: &str) -> (r: Option<Vec<u8>>)
    ensures
        match r {
            Some(b) => spec_subset_text(font_data@, text@) == Some(b@),
            None => spec_subset_text(font_data@, text@) is None,
        },
{
    let cmap = match first_font_cmap(font_data) {
        Some(c) => c,
        None => return None,
    };
    let chars = subset_chars(text);
    let cv = chars_of(chars.as_str());
    let glyphs = match chars_to_glyphs(cmap.as_slice(), &cv) {
        Some(g) => g,
        None => return None,
    };
    let ids = glyph_ids_to_keep(&glyphs);
    subset_first_font(font_data, &ids)
}

// ---------------------------------------------------------------------------
// The full name of a font
// ---------------------------------------------------------------------------
/// A record of a font's `name` table.
#[derive(Debug, Clone, Copy, PartialEq, Eq, Structural)]
pub struct NameRecordInfo {
    pub platform_id: u16,
    pub encoding_id: u16,
    pub language_id: u16,
    pub name_id: u16,
    pub length: u16,
    pub offset: u16,
}

/// The tag of the `name` table: `name` in ASCII, big-endian.
pub const NAME_TAG: u32 = 0x6e61_6d65;

/// The text encodings of name records.
#[derive(Debug, Clone, Copy, PartialEq, Eq, Structural)]
pub enum TextEncoding {
    Utf16Be,
    MacRoman,
}

/// What allsorts reads from the bytes of a `name` table: its records and
/// its string storage.
pub uninterp spec fn spec_name_table(bytes: Seq<u8>) -> Option<(Seq<NameRecordInfo>, Seq<u8>)>;

/// What encoding_rs decodes from `bytes` in `encoding`, with BOM sniffing
/// and malformed sequences replaced.
pub uninterp spec fn spec_decode(encoding: TextEncoding, bytes: Seq<u8>) -> Seq<char>;

/// `ReadScope::read::<NameTable>`: the records of the `name` table in
/// `bytes` and its string storage, named by `spec_name_table`.
#[verifier::external_body]
fn read_name_table(bytes: &[u8]) -> (r: Option<(Vec<NameRecordInfo>, Vec<u8>)>)
    ensures
        match r {
            Some((records, storage)) => spec_name_table(bytes@) == Some((records@, storage@)),
            None => spec_name_table(bytes@) is None,
        },
{
    let table = ReadScope::new(bytes).read::<NameTable<'_>>().ok()?;
    let records = table.name_records.iter().map(|record| NameRecordInfo {
        platform_id: record.platform_id,
        encoding_id: record.encoding_id,
        language_id: record.language_id,
        name_id: record.name_id,
        length: record.length,
        offset: record.offset,
    }).collect();
    Some((records, table.string_storage.data().to_vec()))
}

/// `Encoding::decode` of encoding_rs with UTF-16BE or Mac Roman, named by
/// `spec_decode`. It panics only where the output size overflows `usize`,
/// which the bound on `bytes` rules out.
#[verifier::external_body]
fn decode(encoding: TextEncoding, bytes: &[u8]) -> (r: String)
    requires
        bytes.len() <= 0xFFFF,
    ensures
        r@ == spec_decode(encoding, bytes@),
{
    let encoding = match encoding {
        TextEncoding::Utf16Be => encoding_rs::UTF_16BE,
        TextEncoding::MacRoman => encoding_rs::MACINTOSH,
    };
    encoding.decode(bytes).0.into_owned()
}

/// The kinds of font file that allsorts reads.
#[derive(Clone, Copy, Debug, PartialEq, Eq, Structural)]
pub enum FontKind {
    Single,
    Collection,
    Woff,
    Woff2,
}

/// The bytes of a table that may be missing or unreadable, as a sequence.
pub open spec fn table_view(r: Result<Option<Vec<u8>>, ()>) -> Result<Option<Seq<u8>>, ()> {
    match r {
        Ok(Some(b)) => Ok(Some(b@)),
        Ok(None) => Ok(None),
        Err(()) => Err(()),
    }
}

/// What kind of font file allsorts reads `data` as, if any.
pub uninterp spec fn spec_font_kind(data: Seq<u8>) -> Option<FontKind>;

/// What allsorts reads as the `name` table of the one font in `data`.
pub uninterp spec fn spec_single_font_name_table(data: Seq<u8>) -> Result<Option<Seq<u8>>, ()>;

/// What allsorts reads as the offset of the first font of the collection
/// in `data`.
pub uninterp spec fn spec_collection_first_offset(data: Seq<u8>) -> Option<u32>;

/// What allsorts reads as the `name` table of the font at `offset` in the
/// collection in `data`.
pub uninterp spec fn spec_collection_name_table(data: Seq<u8>, offset: int) -> Result<Option<Seq<u8>>, ()>;

/// What allsorts reads as the tags of the table directory of the WOFF file
/// in `data`.
pub uninterp spec fn spec_woff_table_tags(data: Seq<u8>) -> Option<Seq<u32>>;

/// What allsorts reads as the table of entry `index` of the table directory
/// of the WOFF file in `data`.
pub uninterp spec fn spec_woff_entry_table(data: Seq<u8>, index: int) -> Option<Result<Seq<u8>, ()>>;

/// What allsorts reads as the `name` table of the first font of the WOFF2
/// file in `data`.
pub uninterp spec fn spec_woff2_name_table(data: Seq<u8>) -> Result<Option<Seq<u8>>, ()>;

/// `ReadScope::read::<FontData>`, telling its kinds apart: a single OpenType
/// font, an OpenType collection, WOFF or WOFF2; `None` where allsorts cannot
/// read `data`. Named by `spec_font_kind`.
#[verifier::external_body]
fn font_kind(data: &[u8]) -> (r: Option<FontKind>)
    ensures
        r == spec_font_kind(data@),
{
    match ReadScope::new(data).read::<FontData<'_>>() {
        Ok(FontData::OpenType(file)) => match file.data {
            OpenTypeData::Single(_) => Some(FontKind::Single),
            OpenTypeData::Collection(_) => Some(FontKind::Collection),
        },
        Ok(FontData::Woff(_)) => Some(FontKind::Woff),
        Ok(FontData::Woff2(_)) => Some(FontKind::Woff2),
        Err(_) => None,
    }
}

/// `ReadScope::read::<FontData>` and, for a single OpenType font,
/// `OffsetTable::read_table` for its `name` table: `Err` where either fails
/// or the file is of another kind, otherwise the table's bytes if the font
/// has one. Named by `spec_single_font_name_table`.
#[verifier::external_body]
fn single_font_name_table(data: &[u8]) -> (r: Result<Option<Vec<u8>>, ()>)
    ensures
        table_view(r) == spec_single_font_name_table(data@),
{
    match ReadScope::new(data).read::<FontData<'_>>() {
        Ok(FontData::OpenType(file)) => match &file.data {
            OpenTypeData::Single(table) => table.read_table(&file.scope, allsorts::tag::NAME).map(
                |scope| scope.map(|scope| scope.data().to_vec()),
            ).map_err(|_| ()),
            OpenTypeData::Collection(_) => Err(()),
        },
        _ => Err(()),
    }
}

/// `ReadScope::read::<FontData>` and, for an OpenType collection, the first
/// of its font offsets: `None` for an empty collection, or where the file
/// is of another kind or cannot be read. Named by
/// `spec_collection_first_offset`.
#[verifier::external_body]
fn collection_first_offset(data: &[u8]) -> (r: Option<u32>)
    ensures
        r == spec_collection_first_offset(data@),
{
    match ReadScope::new(data).read::<FontData<'_>>() {
        Ok(FontData::OpenType(file)) => match &file.data {
            OpenTypeData::Collection(header) => (&header.offset_tables).into_iter().next(),
            OpenTypeData::Single(_) => None,
        },
        _ => None,
    }
}

/// `ReadScope::read::<FontData>`, then for an OpenType file
/// `ReadScope::read::<OffsetTable>` at `offset` in it and
/// `OffsetTable::read_table` for that font's `name` table: `Err` where one
/// of them fails or the file is of another kind, otherwise the table's
/// bytes if the font has one. Named by `spec_collection_name_table`.
#[verifier::external_body]
fn collection_name_table(data: &[u8], offset: usize) -> (r: Result<Option<Vec<u8>>, ()>)
    ensures
        table_view(r) == spec_collection_name_table(data@, offset as int),
{
    match ReadScope::new(data).read::<FontData<'_>>() {
        Ok(FontData::OpenType(file)) => match file.scope.offset(offset).read::<OffsetTable<'_>>() {
            Ok(table) => table.read_table(&file.scope, allsorts::tag::NAME).map(
                |scope| scope.map(|scope| scope.data().to_vec()),
            ).map_err(|_| ()),
            Err(_) => Err(()),
        },
        _ => Err(()),
    }
}

/// `ReadScope::read::<FontData>` and, for a WOFF file, the tags of its table
/// directory, in order: `None` for other files. Named by
/// `spec_woff_table_tags`.
#[verifier::external_body]
fn woff_table_tags(data: &[u8]) -> (r: Option<Vec<u32>>)
    ensures
        match r {
            Some(tags) => spec_woff_table_tags(data@) == Some(tags@),
            None => spec_woff_table_tags(data@) is None,
        },
{
    match ReadScope::new(data).read::<FontData<'_>>() {
        Ok(FontData::Woff(woff)) => Some(woff.table_directory.iter().map(|entry| entry.tag).collect()),
        _ => None,
    }
}

/// `ReadScope::read::<FontData>` and, for a WOFF file,
/// `TableDirectoryEntry::read_table` for entry `index` of its table
/// directory: `None` for other files or where there is no such entry;
/// otherwise `Err` where the table cannot be read, or its bytes. Named by
/// `spec_woff_entry_table`.
#[verifier::external_body]
fn woff_entry_table(data: &[u8], index: usize) -> (r: Option<Result<Vec<u8>, ()>>)
    ensures
        match r {
            Some(Ok(b)) => spec_woff_entry_table(data@, index as int) == Some(Ok::<Seq<u8>, ()>(b@)),
            Some(Err(())) => spec_woff_entry_table(data@, index as int) == Some(Err::<Seq<u8>, ()>(())),
            None => spec_woff_entry_table(data@, index as int) is None,
        },
{
    match ReadScope::new(data).read::<FontData<'_>>() {
        Ok(FontData::Woff(woff)) => match woff.table_directory.get_item(index) {
            Some(entry) => Some(
                entry.read_table(&woff.scope).map(|table| table.scope().data().to_vec()).map_err(|_| ()),
            ),
            None => None,
        },
        _ => None,
    }
}

/// The position of the first `name` tag among `tags` from `i` on.
pub open spec fn first_name_tag_from(tags: Seq<u32>, i: int) -> Option<int>
    decreases tags.len() - i,
{
    if i < 0 || i >= tags.len() {
        None
    } else if tags[i] == NAME_TAG {
        Some(i)
    } else {
        first_name_tag_from(tags, i + 1)
    }
}

/// The position of the first `name` tag among `tags`.
fn name_tag_position(tags: &Vec<u32>) -> (r: Option<usize>)
    ensures
        match r {
            Some(i) => first_name_tag_from(tags@, 0) == Some(i as int),
            None => first_name_tag_from(tags@, 0) is None,
        },
{
    let mut i: usize = 0;
    while i < tags.len()
        invariant
            i <= tags.len(),
            first_name_tag_from(tags@, 0) == first_name_tag_from(tags@, i as int),
        decreases tags.len() - i,
    {
        if tags[i] == NAME_TAG {
            return Some(i);
        }
        i = i + 1;
    }
    None
}

/// The `name` table of a WOFF file: the table of the first directory entry
/// tagged `name`.
pub open spec fn spec_woff_name_table(data: Seq<u8>) -> Result<Option<Seq<u8>>, ()> {
    match spec_woff_table_tags(data) {
        None => Err(()),
        Some(tags) => match first_name_tag_from(tags, 0) {
            None => Ok(None),
            Some(i) => match spec_woff_entry_table(data, i) {
                Some(Ok(b)) => Ok(Some(b)),
                _ => Err(()),
            },
        },
    }
}

/// The `name` table of the WOFF file in `data`: the table of the first
/// directory entry tagged `name`.
fn woff_name_table(data: &[u8]) -> (r: Result<Option<Vec<u8>>, ()>)
    ensures
        table_view(r) == spec_woff_name_table(data@),
{
    let tags = match woff_table_tags(data) {
        Some(t) => t,
        None => return Err(()),
    };
    match name_tag_position(&tags) {
        None => Ok(None),
        Some(i) => match woff_entry_table(data, i) {
            Some(Ok(bytes)) => Ok(Some(bytes)),
            Some(Err(())) => Err(()),
            None => Err(()),
        },
    }
}

/// `ReadScope::read::<FontData>` and, for a WOFF2 file,
/// `Woff2Font::read_table` for the `name` table of its first font: `Err`
/// where either fails or the file is of another kind, otherwise the table's
/// bytes if present. Named by `spec_woff2_name_table`.
#[verifier::external_body]
fn woff2_name_table(data: &[u8]) -> (r: Result<Option<Vec<u8>>, ()>)
    ensures
        table_view(r) == spec_woff2_name_table(data@),
{
    match ReadScope::new(data).read::<FontData<'_>>() {
        Ok(FontData::Woff2(woff)) => woff.read_table(allsorts::tag::NAME, 0).map(
            |table| table.map(|table| table.scope().data().to_vec()),
        ).map_err(|_| ()),
        _ => Err(()),
    }
}

/// `ReadScope::offset_length` on `data`: the `length` bytes at `offset`,
/// where the offset is inside the data (or nothing is asked) and they fit.
pub open spec fn spec_offset_length(data: Seq<u8>, offset: int, length: int) -> Option<Seq<u8>> {
    if offset < data.len() || length == 0 {
        let rest = if offset <= data.len() {
            data.skip(offset)
        } else {
            seq![]
        };
        if length <= rest.len() {
            Some(rest.take(length))
        } else {
            None
        }
    } else {
        None
    }
}

/// The encoding of a name record of platform `platform` and encoding
/// `encoding`: Unicode and Windows names are UTF-16BE, Macintosh Roman
/// names are Mac Roman.
pub open spec fn record_encoding(platform: u16, encoding: u16) -> Option<TextEncoding> {
    if platform == 0 || (platform == 3 && (encoding == 0 || encoding == 1 || encoding == 10)) {
        Some(TextEncoding::Utf16Be)
    } else if platform == 1 && encoding == 0 {
        Some(TextEncoding::MacRoman)
    } else {
        None
    }
}

/// The text of a name record: decoded in its encoding, or a note of its
/// platform, encoding and language where the encoding is unknown.
pub open spec fn record_text(record: NameRecordInfo, bytes: Seq<u8>) -> Seq<char> {
    match record_encoding(record.platform_id, record.encoding_id) {
        Some(e) => spec_decode(e, bytes),
        None => "(unknown platform="@ + decimal(record.platform_id as nat) + " encoding="@ + decimal(
            record.encoding_id as nat,
        ) + " language="@ + decimal(record.language_id as nat) + ")"@,
    }
}

/// The full font name among `records`, looking at them in order: the text
/// of the first full-name record (name 4), or nothing where the bytes of a
/// record before it, or its own, are out of the storage.
pub open spec fn full_name_from(records: Seq<NameRecordInfo>, storage: Seq<u8>) -> Seq<char>
    decreases records.len(),
{
    if records.len() == 0 {
        seq![]
    } else {
        let r = records[0];
        match spec_offset_length(storage, r.offset as int, r.length as int) {
            None => seq![],
            Some(bytes) => if r.name_id == 4 {
                record_text(r, bytes)
            } else {
                full_name_from(records.drop_first(), storage)
            },
        }
    }
}

/// The full name of the font whose `name` table is `bytes`, or nothing.
pub open spec fn spec_name_from_table(bytes: Seq<u8>) -> Seq<char> {
    match spec_name_table(bytes) {
        None => seq![],
        Some((records, storage)) => full_name_from(records, storage),
    }
}

fn offset_length(data: &Vec<u8>, offset: usize, length: usize) -> (r: Option<(usize, usize)>)
    ensures
        match r {
            Some((lo, hi)) => lo <= hi <= data.len() && spec_offset_length(
                data@,
                offset as int,
                length as int,
            ) == Some(data@.subrange(lo as int, hi as int)),
            None => spec_offset_length(data@, offset as int, length as int) is None,
        },
{
    if offset < data.len() || length == 0 {
        let start = if offset <= data.len() {
            offset
        } else {
            data.len()
        };
        let rest = data.len() - start;
        if length <= rest {
            assert(offset <= data.len() ==> data@.skip(offset as int).take(length as int)
                =~= data@.subrange(start as int, start + length));
            assert(offset > data.len() ==> Seq::<u8>::empty().take(length as int)
                =~= data@.subrange(start as int, start + length));
            Some((start, start + length))
        } else {
            None
        }
    } else {
        None
    }
}

fn record_note(record: NameRecordInfo) -> (r: String)
    ensures
        r@ == "(unknown platform="@ + decimal(record.platform_id as nat) + " encoding="@ + decimal(
            record.encoding_id as nat,
        ) + " language="@ + decimal(record.language_id as nat) + ")"@,
{
    let mut out = chars_of("(unknown platform=");
    push_u64(&mut out, record.platform_id as u64);
    push_str(&mut out, " encoding=");
    push_u64(&mut out, record.encoding_id as u64);
    push_str(&mut out, " language=");
    push_u64(&mut out, record.language_id as u64);
    push_str(&mut out, ")");
    string_of(&out)
}

/// The full font name among `records`, whose strings are in `storage`.
pub fn full_name(records: &Vec<NameRecordInfo>, storage: &Vec<u8>) -> (r: String)
    ensures
        r@ == full_name_from(records@, storage@),
{
    let mut i: usize = 0;
    assert(records@.skip(0) =~= records@);
    while i < records.len()
        invariant
            i <= records.len(),
            full_name_from(records@, storage@) == full_name_from(records@.skip(i as int), storage@),
        decreases records.len() - i,
    {
        let record = records[i];
        assert(records@.skip(i as int)[0] == record);
        assert(records@.skip(i as int).drop_first() =~= records@.skip(i + 1));
        let (lo, hi) = match offset_length(storage, record.offset as usize, record.length as usize) {
            Some(b) => b,
            None => return String::new(),
        };
        if record.name_id == 4 {
            let bytes = &storage[lo..hi];
            let encoding = if record.platform_id == 0 || (record.platform_id == 3 && (
            record.encoding_id == 0 || record.encoding_id == 1 || record.encoding_id == 10)) {
                Some(TextEncoding::Utf16Be)
            } else if record.platform_id == 1 && record.encoding_id == 0 {
                Some(TextEncoding::MacRoman)
            } else {
                None
            };
            return match encoding {
                Some(e) => decode(e, bytes),
                None => record_note(record),
            };
        }
        i = i + 1;
    }
    String::new()
}

/// The full name of the font whose `name` table is `bytes`, or nothing.
pub fn name_from_table(bytes: &[u8]) -> (r: String)
    ensures
        r@ == spec_name_from_table(bytes@),
{
    match read_name_table(bytes) {
        Some((records, storage)) => full_name(&records, &storage),
        None => String::new(),
    }
}

/// The bytes of the `name` table of the font in `data`, by the kind of file:
/// `Err` where the file or the table cannot be read, `None` where the font
/// has none; of a collection, its first font's.
pub open spec fn spec_name_table_bytes(data: Seq<u8>) -> Result<Option<Seq<u8>>, ()> {
    match spec_font_kind(data) {
        None => Err(()),
        Some(FontKind::Single) => spec_single_font_name_table(data),
        Some(FontKind::Collection) => match spec_collection_first_offset(data) {
            None => Ok(None),
            Some(offset) => spec_collection_name_table(data, offset as int),
        },
        Some(FontKind::Woff) => spec_woff_name_table(data),
        Some(FontKind::Woff2) => spec_woff2_name_table(data),
    }
}

/// Which name table is read, by the kind of file: a single font's own; of a
/// collection, the one of the font at the collection's first offset, and
/// nothing where the collection lists no font; a WOFF or WOFF2 file's; an
/// unreadable file gives an error. The full name of a collection is that of
/// its first font.
pub proof fn lemma_name_table_source(data: Seq<u8>)
    ensures
        spec_font_kind(data) is None ==> spec_name_table_bytes(data) is Err,
        spec_font_kind(data) == Some(FontKind::Single) ==> spec_name_table_bytes(data)
            == spec_single_font_name_table(data),
        spec_font_kind(data) == Some(FontKind::Collection) ==> match spec_collection_first_offset(
            data,
        ) {
            Some(offset) => spec_name_table_bytes(data) == spec_collection_name_table(
                data,
                offset as int,
            ),
            None => spec_name_table_bytes(data) == Ok::<Option<Seq<u8>>, ()>(None),
        },
        spec_font_kind(data) == Some(FontKind::Collection) ==> match spec_collection_first_offset(
            data,
        ) {
            Some(offset) => match spec_collection_name_table(data, offset as int) {
                Ok(Some(table)) => spec_dump(data) == spec_name_from_table(table),
                _ => spec_dump(data) == Seq::<char>::empty(),
            },
            None => spec_dump(data) == Seq::<char>::empty(),
        },
        spec_font_kind(data) == Some(FontKind::Woff) ==> spec_name_table_bytes(data)
            == spec_woff_name_table(data),
        spec_font_kind(data) == Some(FontKind::Woff2) ==> spec_name_table_bytes(data)
            == spec_woff2_name_table(data),
{
}

/// The full name of the font in `data`, or nothing where it cannot be read
/// or has none.
pub open spec fn spec_dump(data: Seq<u8>) -> Seq<char> {
    match spec_name_table_bytes(data) {
        Ok(Some(bytes)) => spec_name_from_table(bytes),
        _ => seq![],
    }
}

/// The bytes of the `name` table of the font in `data`: `Err` where the
/// file or the table cannot be read, `None` where the font has none.
fn name_table_bytes(data: &[u8]) -> (r: Result<Option<Vec<u8>>, ()>)
    ensures
        table_view(r) == spec_name_table_bytes(data@),
{
    match font_kind(data) {
        None => Err(()),
        Some(FontKind::Single) => single_font_name_table(data),
        Some(FontKind::Collection) => match collection_first_offset(data) {
            None => Ok(None),
            Some(offset) => collection_name_table(data, offset as usize),
        },
        Some(FontKind::Woff) => woff_name_table(data),
        Some(FontKind::Woff2) => woff2_name_table(data),
    }
}

/// The full name of the font in `data`, or nothing where it cannot be read
/// or has none.
pub fn dump(data: &[u8]) -> (r: String)
    ensures
        r@ == spec_dump(data@),
{
    match name_table_bytes(data) {
        Ok(Some(bytes)) => name_from_table(&bytes),
        _ => String::new(),
    }
}

/// The name to show for a font: `name`, unless it is blank.
pub fn shown_font_name(name: String) -> (r: Option<String>)
    ensures
        r.deep_view() == if trim(name@).len() == 0 {
            None::<Seq<char>>
        } else {
            Some(name@)
        },
{
    let c = chars_of(name.as_str());
    let (lo, hi) = trim_pos(&c, 0, c.len());
    assert(c@.subrange(0, c@.len() as int) =~= c@);
    if lo == hi {
        None
    } else {
        Some(name)
    }
}

/// The name to show for a font file's contents: its full name, as `dump`
/// reads it, unless that is blank.
pub fn read_font_name(data: &[u8]) -> (r: Option<String>)
    ensures
        r.deep_view() == if trim(spec_dump(data@)).len() == 0 {
            None::<Seq<char>>
        } else {
            Some(spec_dump(data@))
        },
{
    shown_font_name(dump(data))
}

} // verus!
