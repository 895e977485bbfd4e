use mio_reactor::http::parse_request;

#[test]
fn curl_request_parses_with_all_fields() {
    let text =
        b"GET / HTTP/1.1\r\nHost: localhost:9000\r\nUser-Agent: curl/7.64.1\r\nAccept: */*\r\n\r\n";
    let (req, used) = parse_request(&text.to_vec()).expect("complete request");
    assert_eq!(used, text.len());
    assert_eq!(req.method, b"GET".to_vec());
    assert_eq!(req.path, b"/".to_vec());
    assert_eq!(req.protocol, b"HTTP/1.1".to_vec());
    assert_eq!(req.headers.len(), 3);
    assert_eq!(req.headers[0].name, b"Host".to_vec());
    assert_eq!(req.headers[0].value, b"localhost:9000".to_vec());
    assert_eq!(req.headers[2].name, b"Accept".to_vec());
    assert_eq!(req.headers[2].value, b"*/*".to_vec());
    assert!(req.content.is_empty());
}

#[test]
fn content_length_carves_out_the_body() {
    let text = b"GET /docs HTTP/1.1\r\nHost: www.nowhere123.com\r\nContent-Length: 8\r\n\r\n0123456\ntrailing";
    let (req, used) = parse_request(&text.to_vec()).expect("complete request");
    assert_eq!(req.content, b"0123456\n".to_vec());
    assert_eq!(used, text.len() - b"trailing".len());
}

#[test]
fn short_body_means_the_request_is_incomplete() {
    let text = b"GET / HTTP/1.1\r\nContent-Length: 8\r\n\r\n012";
    assert!(parse_request(&text.to_vec()).is_none());
}

#[test]
fn unusable_content_length_counts_as_zero() {
    let text = b"GET / HTTP/1.1\r\nContent-Length: abc\r\n\r\n";
    let (req, used) = parse_request(&text.to_vec()).expect("complete request");
    assert!(req.content.is_empty());
    assert_eq!(used, text.len());
}

#[test]
fn header_line_without_a_colon_never_parses() {
    let text = b"GET / HTTP/1.1\r\nBadHeader\r\n\r\n";
    assert!(parse_request(&text.to_vec()).is_none());
}

#[test]
fn missing_blank_line_is_incomplete() {
    let text = b"GET / HTTP/1.1\r\nHost: x\r\n";
    assert!(parse_request(&text.to_vec()).is_none());
}
