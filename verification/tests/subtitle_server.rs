use mkv_lib::media::SubtitleEdit;
use mkv_lib::server::{request_path, subtitle_response, subtitle_url};

fn edit(stream_index: u32, content: &str) -> SubtitleEdit {
    SubtitleEdit {
        stream_index,
        content: content.to_string(),
        format: None,
        language: None,
        title: None,
    }
}

#[test]
fn addresses_each_stream() {
    assert_eq!(subtitle_url("http://127.0.0.1:40123", 3), "http://127.0.0.1:40123/3");
    assert_eq!(subtitle_url("http://127.0.0.1:1", 4_294_967_295), "http://127.0.0.1:1/4294967295");
}

#[test]
fn reads_request_paths() {
    assert_eq!(
        request_path(b"GET /3 HTTP/1.1\r\nHost: 127.0.0.1\r\n\r\n"),
        Some("/3".to_string())
    );
    assert_eq!(request_path(b"  GET   /12  HTTP/1.1\n"), Some("/12".to_string()));
    assert_eq!(request_path(b"GET\r\n/3 HTTP/1.1\r\n"), None);
    assert_eq!(request_path(b""), None);
    assert_eq!(request_path(&[0x47, 0xff, 0x20, 0x2f]), None);
}

#[test]
fn serves_the_text_of_an_edit() {
    let edits = vec![edit(2, "第一条"), edit(5, "five")];
    assert_eq!(
        subtitle_response(Some("/2"), &edits),
        "HTTP/1.1 200 OK\r\nContent-Type: text/plain\r\nContent-Length: 9\r\nConnection: close\r\n\r\n第一条"
    );
    assert_eq!(
        subtitle_response(Some("/5"), &edits),
        "HTTP/1.1 200 OK\r\nContent-Type: text/plain\r\nContent-Length: 4\r\nConnection: close\r\n\r\nfive"
    );
}

#[test]
fn later_edit_of_a_stream_wins() {
    let edits = vec![edit(2, "old"), edit(2, "new!")];
    assert_eq!(
        subtitle_response(Some("/2"), &edits),
        "HTTP/1.1 200 OK\r\nContent-Type: text/plain\r\nContent-Length: 4\r\nConnection: close\r\n\r\nnew!"
    );
}

#[test]
fn unknown_requests_are_not_found() {
    let edits = vec![edit(2, "x")];
    let not_found = "HTTP/1.1 404 Not Found\r\nContent-Length: 0\r\nConnection: close\r\n\r\n";
    assert_eq!(subtitle_response(Some("/3"), &edits), not_found);
    assert_eq!(subtitle_response(Some("/02"), &edits), not_found);
    assert_eq!(subtitle_response(Some("2"), &edits), not_found);
    assert_eq!(subtitle_response(None, &edits), not_found);
}

#[test]
fn a_request_for_a_stream_url_gets_its_text() {
    let edits = vec![edit(7, "seven")];
    let url = subtitle_url("http://127.0.0.1:9", 7);
    let path = &url["http://127.0.0.1:9".len()..];
    let request = format!("GET {path} HTTP/1.1\r\n\r\n");
    let found = request_path(request.as_bytes());
    assert_eq!(found.as_deref(), Some("/7"));
    assert!(subtitle_response(found.as_deref(), &edits).ends_with("\r\n\r\nseven"));
}
