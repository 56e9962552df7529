use sdproxy::request::{
    extract_content_length, extract_content_length_from_bytes, header_end, parse_http_request,
};

fn request(method: &str, path: &str) -> Option<(String, String)> {
    Some((method.to_string(), path.to_string()))
}

#[test]
fn a_request_line_names_method_and_path() {
    assert_eq!(parse_http_request("GET /abc HTTP/1.1\r\nHost: x\r\n\r\n"), request("GET", "/abc"));
    assert_eq!(parse_http_request("POST /abc/1"), request("POST", "/abc/1"));
    assert_eq!(parse_http_request("  GET \t /abc"), request("GET", "/abc"));
    assert_eq!(parse_http_request("a b c d"), request("a", "b"));
}

#[test]
fn fewer_than_two_words_are_no_request() {
    assert_eq!(parse_http_request(""), None);
    assert_eq!(parse_http_request("\r\nGET /abc"), None);
    assert_eq!(parse_http_request("SSH-2.0-OpenSSH_9.6\r\n"), None);
    assert_eq!(parse_http_request("GET\n/abc"), None);
}

#[test]
fn what_follows_the_path_does_not_matter() {
    for rest in ["", " HTTP/1.1", "\r\nGET /other", "\n", "\r", "\u{a0}x"] {
        let text = format!("PUT \t/some/path{}", rest);
        assert_eq!(parse_http_request(&text), request("PUT", "/some/path"));
    }
}

#[test]
fn the_length_is_read_in_any_case() {
    for name in ["Content-Length:", "content-length:", "CONTENT-LENGTH:", "cOnTeNt-LeNgTh:"] {
        let text = format!("POST /a HTTP/1.1\r\n{} 42\r\nHost: x\r\n\r\n", name);
        assert_eq!(extract_content_length(&text), Some(42));
    }
    assert_eq!(extract_content_length("Content-Length:\t 7 \r\n"), Some(7));
    assert_eq!(extract_content_length("Content-Length:+7"), Some(7));
}

#[test]
fn the_first_length_counts() {
    assert_eq!(extract_content_length("Content-Length: 1\nContent-Length: 2"), Some(1));
    assert_eq!(extract_content_length("Content-Length: x\nContent-Length: 2"), None);
    assert_eq!(extract_content_length("POST / H\r\n\r\ncontent-length: 5"), Some(5));
}

#[test]
fn only_the_piece_after_the_first_colon_counts() {
    assert_eq!(extract_content_length("Content-Length: 5:6"), Some(5));
    assert_eq!(extract_content_length("Content-Length:5 :"), Some(5));
}

#[test]
fn no_length_is_found_where_there_is_none() {
    assert_eq!(extract_content_length(""), None);
    assert_eq!(extract_content_length("POST /a HTTP/1.1\r\nHost: x\r\n\r\n"), None);
    assert_eq!(extract_content_length(" Content-Length: 5"), None);
    assert_eq!(extract_content_length("Content-Length : 5"), None);
    assert_eq!(extract_content_length("Content-Length:"), None);
    assert_eq!(extract_content_length("Content-Length: -1"), None);
    assert_eq!(extract_content_length("Content-Length: 99999999999999999999999"), None);
}

#[test]
fn the_largest_length_is_read_back() {
    let text = format!("POST /a\r\nContent-Length: {}\r\n", usize::MAX);
    assert_eq!(extract_content_length(&text), Some(usize::MAX));
}

#[test]
fn bytes_are_read_as_text() {
    assert_eq!(extract_content_length_from_bytes(b"POST /a\r\nContent-Length: 12\r\n\r\n"), Some(12));
    assert_eq!(extract_content_length_from_bytes(b""), None);
}

#[test]
fn invalid_bytes_are_replaced() {
    assert_eq!(extract_content_length_from_bytes(b"\xff\xfe\nContent-Length: 12\n\xff"), Some(12));
    assert_eq!(extract_content_length_from_bytes(b"\xffContent-Length: 12"), None);
    assert_eq!(extract_content_length_from_bytes(b"Content-Length: \xff12"), None);
}

#[test]
fn the_first_blank_line_ends_the_headers() {
    assert_eq!(header_end(b"\r\n\r\n"), Some(0));
    assert_eq!(header_end(b"GET / H\r\n\r\nbody\r\n\r\n"), Some(7));
    assert_eq!(header_end(b"a\r\n\r\r\n\r\n"), Some(4));
}

#[test]
fn headers_without_a_blank_line_have_no_end() {
    assert_eq!(header_end(b""), None);
    assert_eq!(header_end(b"\r\n\r"), None);
    assert_eq!(header_end(b"GET / H\r\nHost: x\r\n"), None);
    assert_eq!(header_end(b"a\n\nb"), None);
}

#[test]
fn only_the_first_line_says_what_a_request_is() {
    for head in ["GET /a H\r\n", "GET\n", "\n", "a b c\n\nx\n"] {
        for rest in ["", "POST /b", "\r\n\r\n"] {
            assert_eq!(parse_http_request(&format!("{}{}", head, rest)), parse_http_request(head));
        }
    }
}

#[test]
fn what_follows_a_length_does_not_change_it() {
    for head in ["POST /a\r\nContent-Length: 4\r\n", "content-length: x\n"] {
        for rest in ["", "Content-Length: 9\r\n\r\n", "5"] {
            assert_eq!(
                extract_content_length(&format!("{}{}", head, rest)),
                extract_content_length(head)
            );
        }
    }
}
