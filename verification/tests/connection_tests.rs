use mio_reactor::connection::Connection;

fn masked_text_frame(payload: &[u8], mask: [u8; 4]) -> Vec<u8> {
    assert!(payload.len() <= 125);
    let mut f = vec![0x81u8, 0x80 | payload.len() as u8];
    f.extend_from_slice(&mask);
    for (i, b) in payload.iter().enumerate() {
        f.push(b ^ mask[i % 4]);
    }
    f
}

#[test]
fn echo_tick_queues_and_flushes_a_reply() {
    let mut conn = Connection::default();
    conn.on_connect(true);
    let frame = masked_text_frame(b"hi", [9, 8, 7, 6]);
    let o = conn.on_work(true, true, &frame, false);
    assert!(!o.teardown);
    assert!(o.handled);
    assert!(!o.close);
    assert!(o.sent);
    assert!(conn.should_write());
    let reply = conn.send_data();
    assert_eq!(reply[0], 0x81);
    assert_eq!(&reply[2..], b"ECHO: 'hi'");
    let teardown = conn.finish_work(true, true);
    assert!(!teardown);
    assert!(conn.is_open());
    assert!(!conn.should_write());
}

#[test]
fn http_tick_queues_a_200_response() {
    let mut conn = Connection::default();
    conn.on_connect(true);
    let o = conn.on_work(true, false, b"GET / HTTP/1.1\r\n\r\n", false);
    assert!(!o.teardown);
    assert!(o.handled);
    // not writable yet: the reply waits, the latch is still down
    assert!(!conn.should_write());
    let o2 = conn.on_work(false, true, b"", false);
    assert!(!o2.teardown);
    assert!(conn.should_write());
    let reply = conn.send_data();
    assert!(reply.starts_with(b"HTTP/1.1 200 OK\r\n"));
}

#[test]
fn close_frame_tears_down_with_no_reply() {
    let mut conn = Connection::default();
    conn.on_connect(true);
    let o = conn.on_work(true, true, &[0x88, 0x00], false);
    assert!(!o.teardown);
    assert!(o.handled);
    assert!(o.close);
    assert!(!conn.is_open());
    assert!(!conn.should_write());
    let teardown = conn.finish_work(false, false);
    assert!(teardown);
    // the socket slot is released: no later message can reach it
    assert!(!conn.is_bound());
}

#[test]
fn read_eof_heals_to_flush_then_finalizes() {
    let mut conn = Connection::default();
    conn.on_connect(true);
    // a request arrives and is answered into the send buffer
    let o1 = conn.on_work(true, false, b"GET / HTTP/1.1\r\n\r\n", false);
    assert!(!o1.teardown);
    // next tick the peer is at EOF, but the reply must still flush
    let o2 = conn.on_work(true, true, b"", true);
    assert!(!o2.teardown);
    assert!(conn.is_open());
    assert!(conn.should_write());
    let reply = conn.send_data();
    assert!(reply.starts_with(b"HTTP/1.1 200 OK\r\n"));
    let teardown = conn.finish_work(true, true);
    assert!(teardown);
    assert!(!conn.is_bound());
}

#[test]
fn read_eof_without_keep_alive_tears_down_at_once() {
    let mut conn = Connection::default();
    conn.on_connect(false);
    let o = conn.on_work(true, false, b"", true);
    assert!(o.teardown);
    assert!(!o.handled);
    assert!(!conn.is_bound());
}

#[test]
fn write_failure_tears_down() {
    let mut conn = Connection::default();
    conn.on_connect(true);
    let o = conn.on_work(true, true, b"GET / HTTP/1.1\r\n\r\n", false);
    assert!(!o.teardown);
    assert!(conn.should_write());
    let teardown = conn.finish_work(true, false);
    assert!(teardown);
    assert!(!conn.is_open());
    assert!(!conn.is_bound());
}

#[test]
fn can_write_latch_stays_up_across_ticks() {
    let mut conn = Connection::default();
    conn.on_connect(true);
    let o1 = conn.on_work(false, true, b"", false);
    assert!(!o1.teardown);
    assert!(!conn.should_write());
    let o2 = conn.on_work(true, false, b"GET / HTTP/1.1\r\n\r\n", false);
    assert!(!o2.teardown);
    // writable was never reported this tick, yet the latch remembers it
    assert!(conn.should_write());
}

#[test]
fn partial_request_waits_for_more_bytes() {
    let mut conn = Connection::default();
    conn.on_connect(true);
    let o1 = conn.on_work(true, true, b"GET / HT", false);
    assert!(!o1.teardown);
    assert!(o1.handled);
    assert!(!conn.should_write());
    let o2 = conn.on_work(true, false, b"TP/1.1\r\n\r\n", false);
    assert!(!o2.teardown);
    assert!(conn.should_write());
    let reply = conn.send_data();
    assert!(reply.starts_with(b"HTTP/1.1 200 OK\r\n"));
}
