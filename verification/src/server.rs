//! The local HTTP server that hands edited subtitle texts to `ffmpeg`: the
//! address of each text, and the answer to each request. Listening and the
//! thread that answers are the caller's.
use vstd::prelude::*;
use vstd::utf8::{
    decode_utf8, encode_utf8, encode_utf8_decode_utf8, encode_utf8_valid_utf8, valid_utf8,
};

use crate::media::SubtitleEdit;
use crate::number::{decimal, lemma_decimal, push_u64};
use crate::text::{
    is_whitespace, lemma_first_in_from_at, lemma_split_in_at, lemma_split_in_none, strip_cr,
    chars_of, first_in_from, lines, push_all, push_str, split_in, spans_view, string_of,
    string_of_range, utf8_text, CharClass,
};

verus! {

/// The address at which the text of stream `stream_index` is served.
pub open spec fn spec_subtitle_url(base_url: Seq<char>, stream_index: u32) -> Seq<char> {
    base_url + "/"@ + decimal(stream_index as nat)
}

/// The address at which the text of stream `stream_index` is served.
pub fn subtitle_url(base_url: &str, stream_index: u32) -> (r: String)
    ensures
        r@ == spec_subtitle_url(base_url@, stream_index),
{
    let mut out = chars_of(base_url);
    out.push('/');
    push_u64(&mut out, stream_index as u64);
    proof {
        reveal_strlit("/");
    }
    assert(out@ =~= spec_subtitle_url(base_url@, stream_index));
    string_of(&out)
}

/// The non-empty pieces of `pieces`, in order.
pub open spec fn non_empty(pieces: Seq<Seq<char>>) -> Seq<Seq<char>>
    decreases pieces.len(),
{
    if pieces.len() == 0 {
        seq![]
    } else {
        let rest = non_empty(pieces.drop_last());
        if pieces.last().len() > 0 {
            rest.push(pieces.last())
        } else {
            rest
        }
    }
}

/// `str::split_whitespace`: the words of `s`.
pub open spec fn words(s: Seq<char>) -> Seq<Seq<char>> {
    non_empty(split_in(s, CharClass::Whitespace))
}

/// The path of an HTTP request: the second word of its first line, when
/// the request is UTF-8 text.
pub open spec fn spec_request_path(request: Seq<u8>) -> Option<Seq<char>> {
    if !valid_utf8(request) {
        None
    } else {
        let first_lines = lines(decode_utf8(request));
        if first_lines.len() == 0 {
            None
        } else {
            let w = words(first_lines[0]);
            if w.len() > 1 {
                Some(w[1])
            } else {
                None
            }
        }
    }
}

/// The path of an HTTP request.
pub fn request_path(request: &[u8]) -> (r: Option<String>)
    ensures
        r.deep_view() == spec_request_path(request@),
{
    let text = match utf8_text(request) {
        Some(t) => t,
        None => return None,
    };
    let c = chars_of(text.as_str());
    let line_spans = crate::text::line_spans(&c);
    if line_spans.len() == 0 {
        return None;
    }
    let first = &line_spans[0];
    let pieces = crate::text::split_spans(&c, CharClass::Whitespace, first.lo, first.hi);
    let ghost all = spans_view(c@, pieces@);
    assert(lines(c@)[0] == c@.subrange(first.lo as int, first.hi as int));
    assert(words(lines(c@)[0]) == non_empty(all));
    let mut count: usize = 0;
    let mut k: usize = 0;
    assert(all.take(0) =~= Seq::<Seq<char>>::empty());
    while k < pieces.len()
        invariant
            k <= pieces.len(),
            spec_request_path(request@) == if non_empty(all).len() > 1 {
                Some(non_empty(all)[1])
            } else {
                None
            },
            all == spans_view(c@, pieces@),
            crate::text::spans_in(c@, pieces@, first.lo as int, first.hi as int),
            first.hi <= c.len(),
            count == non_empty(all.take(k as int)).len(),
            count <= 1,
        decreases pieces.len() - k,
    {
        assert(all.take(k + 1).drop_last() =~= all.take(k as int));
        let piece = &pieces[k];
        if piece.lo < piece.hi {
            if count == 1 {
                proof {
                    lemma_non_empty_prefix(all, k as int + 1);
                }
                return Some(string_of_range(&c, piece.lo, piece.hi));
            }
            count = count + 1;
        }
        k = k + 1;
    }
    assert(all.take(pieces.len() as int) =~= all);
    None
}

/// The non-empty pieces of a prefix are a prefix of the non-empty pieces.
proof fn lemma_non_empty_prefix(pieces: Seq<Seq<char>>, k: int)
    requires
        0 <= k <= pieces.len(),
    ensures
        non_empty(pieces.take(k)).len() <= non_empty(pieces).len(),
        forall|j: int|
            0 <= j < non_empty(pieces.take(k)).len() ==> non_empty(pieces)[j] == non_empty(
                pieces.take(k),
            )[j],
    decreases pieces.len() - k,
{
    if k < pieces.len() {
        assert(pieces.take(k + 1).drop_last() =~= pieces.take(k));
        lemma_non_empty_prefix(pieces, k + 1);
    } else {
        assert(pieces.take(k) =~= pieces);
    }
}

/// The request `ffmpeg` sends for the text at `path`: a `GET` of it, then
/// whatever header lines follow.
pub open spec fn get_request(path: Seq<char>, headers: Seq<char>) -> Seq<char> {
    "GET "@ + path + " HTTP/1.1\r\n"@ + headers
}

/// A `GET` request for a path without whitespace is read as a request for
/// that path.
pub proof fn lemma_request_path(path: Seq<char>, headers: Seq<char>)
    requires
        path.len() > 0,
        forall|i: int| 0 <= i < path.len() ==> !is_whitespace(#[trigger] path[i]),
    ensures
        spec_request_path(encode_utf8(get_request(path, headers))) == Some(path),
{
    reveal_strlit("GET ");
    reveal_strlit(" HTTP/1.1\r\n");
    let text = get_request(path, headers);
    encode_utf8_valid_utf8(text);
    encode_utf8_decode_utf8(text);
    let get = seq!['G', 'E', 'T'];
    let version = seq!['H', 'T', 'T', 'P', '/', '1', '.', '1'];
    let line = get + seq![' '] + path + seq![' '] + version;
    let nl = CharClass::Is('\n');
    assert(text =~= (line + seq!['\r']) + seq!['\n'] + headers);
    assert forall|p: int| 0 <= p < (line + seq!['\r']).len() implies !nl.spec_has(
        #[trigger] (line + seq!['\r'])[p],
    ) by {
        let l = line + seq!['\r'];
        if 4 <= p < 4 + path.len() {
            assert(l[p] == path[p - 4]);
        }
    }
    lemma_first_in_from_at(text, nl, 0, (line + seq!['\r']).len() as int);
    assert(text.take((line + seq!['\r']).len() as int) =~= line + seq!['\r']);
    assert(strip_cr(line + seq!['\r']) =~= line);
    assert(lines(text)[0] == line);
    let ws = CharClass::Whitespace;
    assert forall|p: int| 0 <= p < get.len() implies !ws.spec_has(#[trigger] get[p]) by {}
    assert forall|p: int| 0 <= p < version.len() implies !ws.spec_has(#[trigger] version[p]) by {}
    assert forall|p: int| 0 <= p < path.len() implies !ws.spec_has(#[trigger] path[p]) by {}
    assert(line =~= get + seq![' '] + (path + seq![' '] + version));
    lemma_split_in_at(get, ' ', path + seq![' '] + version, ws);
    lemma_split_in_at(path, ' ', version, ws);
    lemma_split_in_none(version, ws);
    let pieces = seq![get] + (seq![path] + seq![version]);
    assert(split_in(line, ws) == pieces);
    let all = seq![get, path, version];
    assert(pieces =~= all);
    assert(all.drop_last() =~= seq![get, path]);
    assert(seq![get, path].drop_last() =~= seq![get]);
    assert(seq![get].drop_last() =~= Seq::<Seq<char>>::empty());
    assert(seq![get].last() == get && get.len() == 3);
    assert(non_empty(Seq::<Seq<char>>::empty()) == Seq::<Seq<char>>::empty());
    assert(non_empty(seq![get]) == non_empty(seq![get].drop_last()).push(get));
    assert(non_empty(seq![get]) =~= seq![get]);
    assert(non_empty(seq![get, path]) =~= seq![get, path]);
    assert(non_empty(all) =~= all);
}

/// The text served at `path`: that of the last edit whose address is `path`.
pub open spec fn served_text(path: Seq<char>, edits: Seq<SubtitleEdit>) -> Option<Seq<char>>
    decreases edits.len(),
{
    if edits.len() == 0 {
        None
    } else if path == "/"@ + decimal(edits.last().stream_index as nat) {
        Some(edits.last().content@)
    } else {
        served_text(path, edits.drop_last())
    }
}

/// Different numbers are served at different addresses.
proof fn lemma_address_injective(a: u32, b: u32)
    requires
        "/"@ + decimal(a as nat) == "/"@ + decimal(b as nat),
    ensures
        a == b,
{
    assert(("/"@ + decimal(a as nat)).drop_first() =~= decimal(a as nat)) by {
        reveal_strlit("/");
    }
    assert(("/"@ + decimal(b as nat)).drop_first() =~= decimal(b as nat)) by {
        reveal_strlit("/");
    }
    lemma_decimal(a as nat);
    lemma_decimal(b as nat);
}

/// A request for the address of a stream's text is answered with the text
/// of the last edit for that stream, and finds nothing where no edit is for
/// that stream.
pub proof fn lemma_served_text(edits: Seq<SubtitleEdit>, stream_index: u32)
    ensures
        forall|k: int|
            0 <= k < edits.len() && #[trigger] edits[k].stream_index == stream_index && (forall|j: int|
                k < j < edits.len() ==> edits[j].stream_index != stream_index) ==> served_text(
                "/"@ + decimal(stream_index as nat),
                edits,
            ) == Some(edits[k].content@),
        (forall|k: int| 0 <= k < edits.len() ==> edits[k].stream_index != stream_index)
            ==> served_text("/"@ + decimal(stream_index as nat), edits) is None,
    decreases edits.len(),
{
    let path = "/"@ + decimal(stream_index as nat);
    if edits.len() > 0 {
        let rest = edits.drop_last();
        lemma_served_text(rest, stream_index);
        let last = edits.last();
        if path == "/"@ + decimal(last.stream_index as nat) {
            lemma_address_injective(stream_index, last.stream_index);
        }
        assert forall|k: int|
            0 <= k < edits.len() && #[trigger] edits[k].stream_index == stream_index && (forall|j: int|
                k < j < edits.len() ==> edits[j].stream_index != stream_index) implies served_text(
            path,
            edits,
        ) == Some(edits[k].content@) by {
            if k < edits.len() - 1 {
                assert(edits[edits.len() - 1].stream_index != stream_index);
                assert(rest[k] == edits[k]);
                assert forall|j: int| k < j < rest.len() implies rest[j].stream_index != stream_index by {
                    assert(rest[j] == edits[j]);
                }
            }
        }
        if forall|k: int| 0 <= k < edits.len() ==> edits[k].stream_index != stream_index {
            assert(edits[edits.len() - 1].stream_index != stream_index);
            assert forall|k: int| 0 <= k < rest.len() implies rest[k].stream_index != stream_index by {
                assert(rest[k] == edits[k]);
            }
        }
    }
}

/// The answer that serves the text `t`, as plain text with its length in
/// bytes.
pub open spec fn text_response(t: Seq<char>) -> Seq<char> {
    "HTTP/1.1 200 OK\r\nContent-Type: text/plain\r\nContent-Length: "@ + decimal(encode_utf8(t).len())
        + "\r\nConnection: close\r\n\r\n"@ + t
}

/// The answer where nothing is served.
pub open spec fn not_found_response() -> Seq<char> {
    "HTTP/1.1 404 Not Found\r\nContent-Length: 0\r\nConnection: close\r\n\r\n"@
}

/// The answer to a request for `path`: the text served there, or
/// `404 Not Found`.
pub open spec fn spec_subtitle_response(path: Option<Seq<char>>, edits: Seq<SubtitleEdit>) -> Seq<
    char,
> {
    let text = match path {
        Some(p) => served_text(p, edits),
        None => None,
    };
    match text {
        Some(t) => text_response(t),
        None => not_found_response(),
    }
}

/// What `ffmpeg` asks for at the address of a stream's text is answered
/// with the text of the last edit of that stream, and with `404 Not Found`
/// where no edit is for that stream.
pub proof fn lemma_request_answered(edits: Seq<SubtitleEdit>, stream_index: u32, headers: Seq<char>)
    ensures
        ({
            let answer = spec_subtitle_response(
                spec_request_path(
                    encode_utf8(get_request("/"@ + decimal(stream_index as nat), headers)),
                ),
                edits,
            );
            &&& forall|k: int|
                0 <= k < edits.len() && #[trigger] edits[k].stream_index == stream_index && (forall|j: int|
                    k < j < edits.len() ==> edits[j].stream_index != stream_index) ==> answer
                    == text_response(edits[k].content@)
            &&& (forall|k: int| 0 <= k < edits.len() ==> edits[k].stream_index != stream_index)
                ==> answer == not_found_response()
        }),
{
    let path = "/"@ + decimal(stream_index as nat);
    lemma_decimal(stream_index as nat);
    reveal_strlit("/");
    assert forall|i: int| 0 <= i < path.len() implies !is_whitespace(#[trigger] path[i]) by {
        if i > 0 {
            assert(path[i] == decimal(stream_index as nat)[i - 1]);
        }
    }
    lemma_request_path(path, headers);
    lemma_served_text(edits, stream_index);
}

/// The last edit whose text is served at `path`.
fn find_served(path: &[char], edits: &[SubtitleEdit]) -> (r: Option<usize>)
    ensures
        match r {
            Some(k) => k < edits.len() && served_text(path@, edits@) == Some(edits@[k as int].content@),
            None => served_text(path@, edits@) is None,
        },
{
    let mut k: usize = edits.len();
    assert(edits@.take(edits.len() as int) =~= edits@);
    while k > 0
        invariant
            k <= edits.len(),
            served_text(path@, edits@) == served_text(path@, edits@.take(k as int)),
        decreases k,
    {
        assert(edits@.take(k as int).drop_last() =~= edits@.take(k - 1));
        let mut key: Vec<char> = Vec::new();
        key.push('/');
        push_u64(&mut key, edits[k - 1].stream_index as u64);
        proof {
            reveal_strlit("/");
        }
        assert(key@ =~= "/"@ + decimal(edits@[k - 1].stream_index as nat));
        if crate::text::chars_eq(path, &key) {
            return Some(k - 1);
        }
        k = k - 1;
    }
    None
}

/// The answer to a request for `path`, serving the texts of `edits`.
pub fn subtitle_response(path: Option<&str>, edits: &[SubtitleEdit]) -> (r: String)
    ensures
        r@ == spec_subtitle_response(
            match path {
                Some(p) => Some(p@),
                None => None,
            },
            edits@,
        ),
{
    let found = match path {
        Some(p) => {
            let pc = chars_of(p);
            find_served(&pc, edits)
        },
        None => None,
    };
    match found {
        Some(k) => {
            let content = &edits[k].content;
            let mut out = chars_of(
                "HTTP/1.1 200 OK\r\nContent-Type: text/plain\r\nContent-Length: ",
            );
            let bytes = content.as_str().as_bytes();
            push_u64(&mut out, bytes.len() as u64);
            push_str(&mut out, "\r\nConnection: close\r\n\r\n");
            push_str(&mut out, content.as_str());
            string_of(&out)
        },
        None => "HTTP/1.1 404 Not Found\r\nContent-Length: 0\r\nConnection: close\r\n\r\n".to_owned(),
    }
}

} // verus!
