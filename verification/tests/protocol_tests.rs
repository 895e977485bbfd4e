use parsed::stream::ByteStream;

use mio_reactor::protocol::process;
use mio_reactor::websocket::{accept_token, build_text_frame, parse_frame};

fn stream_with(bytes: &[u8]) -> ByteStream {
    let mut s = ByteStream::with_capacity(4096);
    assert_eq!(s.put(bytes), bytes.len());
    s
}

fn response_text(send: &ByteStream) -> String {
    String::from_utf8(send.as_ref().to_vec()).unwrap()
}

#[test]
fn get_request_yields_200_with_length_six() {
    let mut recv = stream_with(b"GET / HTTP/1.1\r\nHost: localhost:9000\r\n\r\n");
    let mut send = ByteStream::with_capacity(4096);
    let out = process(&mut recv, &mut send);
    assert!(!out.close);
    assert!(out.sent);
    assert_eq!(recv.as_ref().len(), 0);
    let text = response_text(&send);
    assert!(text.starts_with("HTTP/1.1 200 OK\r\n"));
    assert!(text.contains("\r\nContent-Length: 6\r\n"));
    assert!(text.contains("\r\nContent-Type: text/plain; charset=utf-8\r\n"));
    assert!(text.contains("\r\nDate: "));
    let body = &text[text.find("\r\n\r\n").unwrap() + 4..];
    assert_eq!(body, "hello\n");
}

#[test]
fn upgrade_request_yields_101_with_accept_token() {
    let mut recv = stream_with(
        b"GET /chat HTTP/1.1\r\nHost: example.com:8000\r\nUpgrade: websocket\r\n\
Connection: Upgrade\r\nSec-WebSocket-Key: dGhlIHNhbXBsZSBub25jZQ==\r\n\
Sec-WebSocket-Version: 13\r\n\r\n",
    );
    let mut send = ByteStream::with_capacity(4096);
    let out = process(&mut recv, &mut send);
    assert!(!out.close);
    assert!(out.sent);
    let text = response_text(&send);
    assert!(text.starts_with("HTTP/1.1 101 Switching Protocols\r\n"));
    assert!(text.contains("\r\nUpgrade: websocket\r\n"));
    assert!(text.contains("\r\nConnection: Upgrade\r\n"));
    assert!(text.contains("\r\nSec-WebSocket-Accept: s3pPLMBiTxaQ9kYGzzhZRbK+xOo=\r\n"));
}

#[test]
fn accept_token_matches_sample_vector() {
    let key = b"dGhlIHNhbXBsZSBub25jZQ==".to_vec();
    let token = accept_token(&key);
    assert_eq!(token, b"s3pPLMBiTxaQ9kYGzzhZRbK+xOo=".to_vec());
}

fn masked_text_frame(payload: &[u8], mask: [u8; 4]) -> Vec<u8> {
    assert!(payload.len() <= 125);
    let mut f = vec![0x81u8, 0x80 | payload.len() as u8];
    f.extend_from_slice(&mask);
    for (i, b) in payload.iter().enumerate() {
        f.push(b ^ mask[i % 4]);
    }
    f
}

#[test]
fn masked_text_frame_echoes() {
    let frame = masked_text_frame(b"hi", [0x37, 0xfa, 0x21, 0x3d]);
    let mut recv = stream_with(&frame);
    let mut send = ByteStream::with_capacity(4096);
    let out = process(&mut recv, &mut send);
    assert!(!out.close);
    assert!(out.sent);
    assert_eq!(recv.as_ref().len(), 0);
    let reply = send.as_ref();
    assert_eq!(reply[0], 0x81);
    assert_eq!(reply[1], 10);
    assert_eq!(&reply[2..], b"ECHO: 'hi'");
}

#[test]
fn unmasked_text_frame_echoes() {
    let mut recv = stream_with(&[0x81, 0x02, b'h', b'i']);
    let mut send = ByteStream::with_capacity(4096);
    let out = process(&mut recv, &mut send);
    assert!(!out.close);
    assert_eq!(&send.as_ref()[2..], b"ECHO: 'hi'");
}

#[test]
fn close_frame_requests_close_and_replies_nothing() {
    let mut recv = stream_with(&[0x88, 0x00]);
    let mut send = ByteStream::with_capacity(4096);
    let out = process(&mut recv, &mut send);
    assert!(out.close);
    assert_eq!(send.as_ref().len(), 0);
    assert_eq!(recv.as_ref().len(), 0);
}

#[test]
fn partial_message_is_left_for_the_next_tick() {
    let mut recv = stream_with(b"GET / HTTP/1.1\r\nHost: loc");
    let mut send = ByteStream::with_capacity(4096);
    let out = process(&mut recv, &mut send);
    assert!(!out.close);
    assert_eq!(send.as_ref().len(), 0);
    assert_eq!(recv.as_ref(), b"GET / HTTP/1.1\r\nHost: loc");
}

#[test]
fn split_feeds_parse_like_one_block() {
    // An upgrade request and a frame, fed whole and fed in three pieces,
    // produce byte-identical replies (neither reply carries a date).
    let mut whole: Vec<u8> = Vec::new();
    whole.extend_from_slice(
        b"GET /chat HTTP/1.1\r\nUpgrade: websocket\r\nConnection: Upgrade\r\n\
Sec-WebSocket-Key: dGhlIHNhbXBsZSBub25jZQ==\r\n\r\n",
    );
    whole.extend_from_slice(&masked_text_frame(b"hi", [1, 2, 3, 4]));

    let mut recv_one = stream_with(&whole);
    let mut send_one = ByteStream::with_capacity(4096);
    process(&mut recv_one, &mut send_one);

    let mut recv_split = ByteStream::with_capacity(4096);
    let mut send_split = ByteStream::with_capacity(4096);
    for part in [&whole[..10], &whole[10..97], &whole[97..]] {
        assert_eq!(recv_split.put(part), part.len());
        process(&mut recv_split, &mut send_split);
    }
    assert_eq!(send_one.as_ref(), send_split.as_ref());
    assert_eq!(recv_one.as_ref().len(), 0);
    assert_eq!(recv_split.as_ref().len(), 0);
}

#[test]
fn two_requests_in_one_buffer_get_two_replies() {
    let mut recv = stream_with(b"GET /a HTTP/1.1\r\n\r\nGET /b HTTP/1.1\r\n\r\n");
    let mut send = ByteStream::with_capacity(4096);
    let out = process(&mut recv, &mut send);
    assert!(out.sent);
    let text = response_text(&send);
    assert_eq!(text.matches("HTTP/1.1 200 OK\r\n").count(), 2);
}

#[test]
fn built_frame_parses_back() {
    let payload: Vec<u8> = (0u16..300).map(|i| (i % 251) as u8).collect();
    let frame = build_text_frame(&payload);
    assert_eq!(frame[0], 0x81);
    assert_eq!(frame[1], 126);
    let parsed_back = parse_frame(&frame).expect("frame should parse");
    assert!(parsed_back.0.fin);
    assert_eq!(parsed_back.0.opcode, 1);
    assert_eq!(parsed_back.0.mask, None);
    assert_eq!(parsed_back.0.payload, payload);
    assert_eq!(parsed_back.1, frame.len());
}
