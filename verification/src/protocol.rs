//! The protocol layer: one pass over a connection's receive buffer.
//!
//! A message is either a complete HTTP request or a complete WebSocket frame;
//! the first byte decides which grammar applies (a frame with its FIN bit set
//! starts at or above 128, a request method is plain ASCII below it).
//! `process` drains every complete message from the front of the receive
//! buffer, appends the serialized replies to the send buffer, and leaves any
//! incomplete trailing bytes exactly where they are, so that a message split
//! across ticks is parsed once its missing bytes arrive.

use vstd::prelude::*;

verus! {

use parsed::stream::ByteStream;
use crate::bytestream::{
    stream_data, stream_lead, stream_bound, bs_peek, bs_skip, bs_pull, bs_put,
};
use crate::http::{
    Header, Request, SpecHeader, SpecRequest, Response, SpecResponse, parse_request_at,
    parse_request, parse_header_lines, find_crlf_from, lemma_find_crlf_stable,
    lemma_find_crlf_bounds, content_length_of,
    header_lookup, loose_dec_value, is_digits, lemma_dec_value_bound, content_length_name,
    dec_digits, u64_digits, render_response, render_response_spec, lookup_header, bytes_eq,
    clone_bytes, append_bytes,
};
use crate::websocket::{
    Frame, SpecFrame, parse_frame_at, parse_frame, lemma_parse_frame_stable, frame_bytes,
    echo_of, plain_payload, unmask_payload, echo_payload, build_text_frame, accept_token,
    accept_token_of, OPCODE_CLOSE, be_bytes_val, lemma_be_bytes_val_bound,
};

// ---------------------------------------------------------------------------
// Byte constants for the responses.
// ---------------------------------------------------------------------------

/// The bytes of `"HTTP/1.1"`.
pub open spec fn http11() -> Seq<u8> {
    seq![72u8, 84, 84, 80, 47, 49, 46, 49]
}

pub fn http11_v() -> (r: Vec<u8>)
    ensures
        r@ == http11(),
{
    let r: Vec<u8> = vec![72u8, 84, 84, 80, 47, 49, 46, 49];
    proof {
        assert(r@ =~= http11());
    }
    r
}

/// The bytes of `"OK"`.
pub open spec fn ok_text() -> Seq<u8> {
    seq![79u8, 75]
}

pub fn ok_text_v() -> (r: Vec<u8>)
    ensures
        r@ == ok_text(),
{
    let r: Vec<u8> = vec![79u8, 75];
    proof {
        assert(r@ =~= ok_text());
    }
    r
}

/// The bytes of `"Switching Protocols"`.
pub open spec fn switching_text() -> Seq<u8> {
    seq![83u8, 119, 105, 116, 99, 104, 105, 110, 103, 32, 80, 114, 111, 116, 111, 99, 111, 108,
        115]
}

pub fn switching_text_v() -> (r: Vec<u8>)
    ensures
        r@ == switching_text(),
{
    let r: Vec<u8> = vec![
        83u8, 119, 105, 116, 99, 104, 105, 110, 103, 32, 80, 114, 111, 116, 111, 99, 111, 108,
        115,
    ];
    proof {
        assert(r@ =~= switching_text());
    }
    r
}

/// The bytes of `"Content-Type"`.
pub open spec fn content_type_name() -> Seq<u8> {
    seq![67u8, 111, 110, 116, 101, 110, 116, 45, 84, 121, 112, 101]
}

pub fn content_type_name_v() -> (r: Vec<u8>)
    ensures
        r@ == content_type_name(),
{
    let r: Vec<u8> = vec![67u8, 111, 110, 116, 101, 110, 116, 45, 84, 121, 112, 101];
    proof {
        assert(r@ =~= content_type_name());
    }
    r
}

/// The bytes of `"text/plain; charset=utf-8"`.
pub open spec fn content_type_value() -> Seq<u8> {
    seq![116u8, 101, 120, 116, 47, 112, 108, 97, 105, 110, 59, 32, 99, 104, 97, 114, 115, 101,
        116, 61, 117, 116, 102, 45, 56]
}

pub fn content_type_value_v() -> (r: Vec<u8>)
    ensures
        r@ == content_type_value(),
{
    let r: Vec<u8> = vec![
        116u8, 101, 120, 116, 47, 112, 108, 97, 105, 110, 59, 32, 99, 104, 97, 114, 115, 101,
        116, 61, 117, 116, 102, 45, 56,
    ];
    proof {
        assert(r@ =~= content_type_value());
    }
    r
}

/// The bytes of `"Date"`.
pub open spec fn date_name() -> Seq<u8> {
    seq![68u8, 97, 116, 101]
}

pub fn date_name_v() -> (r: Vec<u8>)
    ensures
        r@ == date_name(),
{
    let r: Vec<u8> = vec![68u8, 97, 116, 101];
    proof {
        assert(r@ =~= date_name());
    }
    r
}

/// The bytes of `"Connection"`.
pub open spec fn connection_name() -> Seq<u8> {
    seq![67u8, 111, 110, 110, 101, 99, 116, 105, 111, 110]
}

pub fn connection_name_v() -> (r: Vec<u8>)
    ensures
        r@ == connection_name(),
{
    let r: Vec<u8> = vec![67u8, 111, 110, 110, 101, 99, 116, 105, 111, 110];
    proof {
        assert(r@ =~= connection_name());
    }
    r
}

/// The bytes of `"Upgrade"`; both a header name and the `Connection` value.
pub open spec fn upgrade_text() -> Seq<u8> {
    seq![85u8, 112, 103, 114, 97, 100, 101]
}

pub fn upgrade_text_v() -> (r: Vec<u8>)
    ensures
        r@ == upgrade_text(),
{
    let r: Vec<u8> = vec![85u8, 112, 103, 114, 97, 100, 101];
    proof {
        assert(r@ =~= upgrade_text());
    }
    r
}

/// The bytes of `"websocket"`.
pub open spec fn websocket_text() -> Seq<u8> {
    seq![119u8, 101, 98, 115, 111, 99, 107, 101, 116]
}

pub fn websocket_text_v() -> (r: Vec<u8>)
    ensures
        r@ == websocket_text(),
{
    let r: Vec<u8> = vec![119u8, 101, 98, 115, 111, 99, 107, 101, 116];
    proof {
        assert(r@ =~= websocket_text());
    }
    r
}

/// The bytes of `"Sec-WebSocket-Key"`.
pub open spec fn ws_key_name() -> Seq<u8> {
    seq![83u8, 101, 99, 45, 87, 101, 98, 83, 111, 99, 107, 101, 116, 45, 75, 101, 121]
}

pub fn ws_key_name_v() -> (r: Vec<u8>)
    ensures
        r@ == ws_key_name(),
{
    let r: Vec<u8> = vec![
        83u8, 101, 99, 45, 87, 101, 98, 83, 111, 99, 107, 101, 116, 45, 75, 101, 121,
    ];
    proof {
        assert(r@ =~= ws_key_name());
    }
    r
}

/// The bytes of `"Sec-WebSocket-Accept"`.
pub open spec fn ws_accept_name() -> Seq<u8> {
    seq![83u8, 101, 99, 45, 87, 101, 98, 83, 111, 99, 107, 101, 116, 45, 65, 99, 99, 101, 112,
        116]
}

pub fn ws_accept_name_v() -> (r: Vec<u8>)
    ensures
        r@ == ws_accept_name(),
{
    let r: Vec<u8> = vec![
        83u8, 101, 99, 45, 87, 101, 98, 83, 111, 99, 107, 101, 116, 45, 65, 99, 99, 101, 112,
        116,
    ];
    proof {
        assert(r@ =~= ws_accept_name());
    }
    r
}

/// The bytes of the fixed body `"hello\n"`.
pub open spec fn hello_body() -> Seq<u8> {
    seq![104u8, 101, 108, 108, 111, 10]
}

pub fn hello_body_v() -> (r: Vec<u8>)
    ensures
        r@ == hello_body(),
{
    let r: Vec<u8> = vec![104u8, 101, 108, 108, 111, 10];
    proof {
        assert(r@ =~= hello_body());
    }
    r
}

// ---------------------------------------------------------------------------
// Messages: a request or a frame, picked by the first byte.
// ---------------------------------------------------------------------------

pub enum SpecMsg {
    Request(SpecRequest),
    Frame(SpecFrame),
}

pub enum Msg {
    Request(Request),
    Frame(Frame),
}

impl View for Msg {
    type V = SpecMsg;

    open spec fn view(&self) -> SpecMsg {
        match self {
            Msg::Request(r) => SpecMsg::Request(r@),
            Msg::Frame(f) => SpecMsg::Frame(f@),
        }
    }
}

/// One complete message at the front of `s`: a WebSocket frame when the
/// first byte has its FIN bit set, otherwise an HTTP request.
pub open spec fn parse_msg(s: Seq<u8>) -> Option<(SpecMsg, int)> {
    if s.len() == 0 {
        None
    } else if s[0] >= 128 {
        match parse_frame_at(s) {
            None => None,
            Some(p) => Some((SpecMsg::Frame(p.0), p.1)),
        }
    } else {
        match parse_request_at(s) {
            None => None,
            Some(p) => Some((SpecMsg::Request(p.0), p.1)),
        }
    }
}

pub fn parse_msg_exec(buf: &Vec<u8>) -> (r: Option<(Msg, usize)>)
    ensures
        r is None ==> parse_msg(buf@) is None,
        r matches Some(p) ==> parse_msg(buf@) == Some((p.0@, p.1 as int)) && 1 <= p.1 <= buf.len(),
{
    if buf.len() == 0 {
        return None;
    }
    if buf[0] >= 128 {
        match parse_frame(buf) {
            None => None,
            Some(p) => Some((Msg::Frame(p.0), p.1)),
        }
    } else {
        match parse_request(buf) {
            None => None,
            Some(p) => Some((Msg::Request(p.0), p.1)),
        }
    }
}

// ---------------------------------------------------------------------------
// Bounds of a successful parse.
// ---------------------------------------------------------------------------

proof fn lemma_loose_dec_nonneg(v: Seq<u8>)
    ensures
        loose_dec_value(v) >= 0,
{
    if is_digits(v) && v.len() <= 19 {
        lemma_dec_value_bound(v);
    }
}

proof fn lemma_content_length_nonneg(headers: Seq<SpecHeader>)
    ensures
        content_length_of(headers) >= 0,
{
    match header_lookup(headers, content_length_name()) {
        None => {}
        Some(v) => {
            lemma_loose_dec_nonneg(v);
        }
    }
}

proof fn lemma_parse_header_lines_bounds(s: Seq<u8>, from: int)
    requires
        0 <= from,
        parse_header_lines(s, from) is Some,
    ensures
        from + 2 <= (parse_header_lines(s, from)->0).1 <= s.len(),
    decreases s.len() - from,
{
    lemma_find_crlf_bounds(s, from);
    let e = find_crlf_from(s, from)->0;
    if e != from {
        lemma_parse_header_lines_bounds(s, e + 2);
    }
}

proof fn lemma_parse_request_bounds(s: Seq<u8>)
    requires
        parse_request_at(s) is Some,
    ensures
        1 <= (parse_request_at(s)->0).1 <= s.len(),
{
    lemma_find_crlf_bounds(s, 0);
    let e0 = find_crlf_from(s, 0)->0;
    lemma_parse_header_lines_bounds(s, e0 + 2);
    let p = parse_header_lines(s, e0 + 2)->0;
    lemma_content_length_nonneg(p.0);
}

proof fn lemma_parse_frame_bounds(s: Seq<u8>)
    requires
        parse_frame_at(s) is Some,
    ensures
        2 <= (parse_frame_at(s)->0).1 <= s.len(),
{
    let b1 = s[1];
    let len7 = b1 % 128;
    if len7 == 126 {
        lemma_be_bytes_val_bound(s, 2, 2);
    } else if len7 > 126 {
        lemma_be_bytes_val_bound(s, 2, 8);
    }
}

pub proof fn lemma_parse_msg_bounds(s: Seq<u8>)
    requires
        parse_msg(s) is Some,
    ensures
        1 <= (parse_msg(s)->0).1 <= s.len(),
{
    if s[0] >= 128 {
        lemma_parse_frame_bounds(s);
    } else {
        lemma_parse_request_bounds(s);
    }
}

// ---------------------------------------------------------------------------
// A successful parse is stable under extension of the buffer.
// ---------------------------------------------------------------------------

proof fn lemma_parse_header_lines_stable(s: Seq<u8>, t: Seq<u8>, from: int)
    requires
        0 <= from,
        parse_header_lines(s, from) is Some,
    ensures
        parse_header_lines(s + t, from) == parse_header_lines(s, from),
    decreases s.len() - from,
{
    lemma_find_crlf_bounds(s, from);
    lemma_find_crlf_stable(s, t, from);
    let e = find_crlf_from(s, from)->0;
    if e != from {
        assert((s + t).subrange(from, e) =~= s.subrange(from, e));
        lemma_parse_header_lines_stable(s, t, e + 2);
    }
}

proof fn lemma_parse_request_stable(s: Seq<u8>, t: Seq<u8>)
    requires
        parse_request_at(s) is Some,
    ensures
        parse_request_at(s + t) == parse_request_at(s),
{
    lemma_find_crlf_bounds(s, 0);
    lemma_find_crlf_stable(s, t, 0);
    let e0 = find_crlf_from(s, 0)->0;
    assert((s + t).subrange(0, e0) =~= s.subrange(0, e0));
    lemma_parse_header_lines_bounds(s, e0 + 2);
    lemma_parse_header_lines_stable(s, t, e0 + 2);
    let p = parse_header_lines(s, e0 + 2)->0;
    lemma_content_length_nonneg(p.0);
    let clen = content_length_of(p.0);
    assert((s + t).subrange(p.1, p.1 + clen) =~= s.subrange(p.1, p.1 + clen));
}

pub proof fn lemma_parse_msg_stable(s: Seq<u8>, t: Seq<u8>)
    requires
        parse_msg(s) is Some,
    ensures
        parse_msg(s + t) == parse_msg(s),
{
    assert((s + t)[0] == s[0]);
    if s[0] >= 128 {
        lemma_parse_frame_stable(s, t);
    } else {
        lemma_parse_request_stable(s, t);
    }
}

// ---------------------------------------------------------------------------
// All messages of a buffer, and the residual the parser cannot yet consume.
// ---------------------------------------------------------------------------

/// Every complete message at the front of `s`, in order.
pub open spec fn messages_of(s: Seq<u8>) -> Seq<SpecMsg>
    decreases s.len(),
    via messages_of_dec
{
    match parse_msg(s) {
        None => Seq::empty(),
        Some(p) => seq![p.0] + messages_of(s.skip(p.1)),
    }
}

#[via_fn]
proof fn messages_of_dec(s: Seq<u8>) {
    if parse_msg(s) is Some {
        lemma_parse_msg_bounds(s);
    }
}

/// What is left of `s` after every complete message has been consumed.
pub open spec fn residual_of(s: Seq<u8>) -> Seq<u8>
    decreases s.len(),
    via residual_of_dec
{
    match parse_msg(s) {
        None => s,
        Some(p) => residual_of(s.skip(p.1)),
    }
}

#[via_fn]
proof fn residual_of_dec(s: Seq<u8>) {
    if parse_msg(s) is Some {
        lemma_parse_msg_bounds(s);
    }
}

/// Feeding `s` and then `t` yields the same messages as feeding their
/// concatenation at once, and the same leftover bytes.
pub proof fn lemma_messages_extend(s: Seq<u8>, t: Seq<u8>)
    ensures
        messages_of(s + t) == messages_of(s) + messages_of(residual_of(s) + t),
        residual_of(s + t) == residual_of(residual_of(s) + t),
    decreases s.len(),
{
    match parse_msg(s) {
        None => {
            assert(messages_of(s) =~= Seq::<SpecMsg>::empty());
            assert(residual_of(s) == s);
            assert(messages_of(s) + messages_of(s + t) =~= messages_of(s + t));
        }
        Some(p) => {
            lemma_parse_msg_bounds(s);
            lemma_parse_msg_stable(s, t);
            assert((s + t).skip(p.1) =~= s.skip(p.1) + t);
            lemma_messages_extend(s.skip(p.1), t);
            assert(messages_of(s + t) == seq![p.0] + messages_of(s.skip(p.1) + t));
            assert(seq![p.0] + (messages_of(s.skip(p.1)) + messages_of(residual_of(s.skip(p.1)) + t))
                =~= (seq![p.0] + messages_of(s.skip(p.1))) + messages_of(residual_of(s.skip(p.1)) + t));
            assert(messages_of(s) == seq![p.0] + messages_of(s.skip(p.1)));
            assert(residual_of(s) == residual_of(s.skip(p.1)));
        }
    }
}

/// The messages drained from a buffer fed chunk by chunk: each chunk is
/// appended to the unconsumed residue and every complete message is taken.
pub open spec fn feed_from(buf: Seq<u8>, chunks: Seq<Seq<u8>>) -> Seq<SpecMsg>
    decreases chunks.len(),
{
    if chunks.len() == 0 {
        Seq::empty()
    } else {
        let nb = buf + chunks.first();
        messages_of(nb) + feed_from(residual_of(nb), chunks.drop_first())
    }
}

/// The messages drained when the chunks are fed to an initially empty buffer.
pub open spec fn feed_all(chunks: Seq<Seq<u8>>) -> Seq<SpecMsg> {
    feed_from(Seq::empty(), chunks)
}

proof fn lemma_feed_general(buf: Seq<u8>, chunks: Seq<Seq<u8>>)
    ensures
        messages_of(buf) + feed_from(residual_of(buf), chunks) == messages_of(
            buf + chunks.flatten(),
        ),
    decreases chunks.len(),
{
    if chunks.len() == 0 {
        assert(chunks.flatten() =~= Seq::<u8>::empty());
        assert(buf + chunks.flatten() =~= buf);
        assert(feed_from(residual_of(buf), chunks) =~= Seq::<SpecMsg>::empty());
        assert(messages_of(buf) + Seq::<SpecMsg>::empty() =~= messages_of(buf));
    } else {
        let c0 = chunks.first();
        let rest = chunks.drop_first();
        lemma_messages_extend(buf, c0);
        lemma_feed_general(buf + c0, rest);
        assert(buf + chunks.flatten() =~= (buf + c0) + rest.flatten());
        assert(feed_from(residual_of(buf), chunks) == messages_of(residual_of(buf) + c0)
            + feed_from(residual_of(residual_of(buf) + c0), rest));
        assert(residual_of(residual_of(buf) + c0) == residual_of(buf + c0));
        assert(messages_of(buf) + (messages_of(residual_of(buf) + c0)
            + feed_from(residual_of(buf + c0), rest))
            =~= (messages_of(buf) + messages_of(residual_of(buf) + c0))
                + feed_from(residual_of(buf + c0), rest));
        assert(messages_of(buf) + messages_of(residual_of(buf) + c0) == messages_of(buf + c0));
    }
}

/// However a byte sequence is split into successive feeds, the protocol
/// layer parses exactly the messages of the whole sequence fed at once.
pub proof fn lemma_feed_equivalence(chunks: Seq<Seq<u8>>)
    ensures
        feed_all(chunks) == messages_of(chunks.flatten()),
{
    lemma_feed_general(Seq::empty(), chunks);
    assert(messages_of(Seq::<u8>::empty()) =~= Seq::<SpecMsg>::empty());
    assert(residual_of(Seq::<u8>::empty()) == Seq::<u8>::empty());
    assert(Seq::<u8>::empty() + chunks.flatten() =~= chunks.flatten());
    assert(Seq::<SpecMsg>::empty() + feed_from(Seq::<u8>::empty(), chunks)
        =~= feed_from(Seq::<u8>::empty(), chunks));
}

// ---------------------------------------------------------------------------
// The reply to each message.
// ---------------------------------------------------------------------------

/// Whether a request asks for the WebSocket upgrade: `Connection: Upgrade`,
/// `Upgrade: websocket`, and a key to answer.
pub open spec fn wants_upgrade(r: SpecRequest) -> bool {
    header_lookup(r.headers, connection_name()) == Some(upgrade_text())
        && header_lookup(r.headers, upgrade_text()) == Some(websocket_text())
        && header_lookup(r.headers, ws_key_name()) is Some
}

/// The response to a request: `101 Switching Protocols` with the accept
/// token for an upgrade, otherwise `200 OK` with the fixed body and the
/// given `Date` value.
pub open spec fn http_response_for(r: SpecRequest, date: Seq<u8>) -> SpecResponse {
    if wants_upgrade(r) {
        SpecResponse {
            protocol: http11(),
            code: 101,
            message: switching_text(),
            headers: seq![
                SpecHeader { name: upgrade_text(), value: websocket_text() },
                SpecHeader { name: connection_name(), value: upgrade_text() },
                SpecHeader {
                    name: ws_accept_name(),
                    value: accept_token_of(header_lookup(r.headers, ws_key_name())->0),
                },
            ],
            content: Seq::empty(),
        }
    } else {
        SpecResponse {
            protocol: http11(),
            code: 200,
            message: ok_text(),
            headers: seq![
                SpecHeader {
                    name: content_length_name(),
                    value: dec_digits(hello_body().len() as int),
                },
                SpecHeader { name: content_type_name(), value: content_type_value() },
                SpecHeader { name: date_name(), value: date },
            ],
            content: hello_body(),
        }
    }
}

pub open spec fn is_close_msg(m: SpecMsg) -> bool {
    match m {
        SpecMsg::Frame(f) => f.opcode == OPCODE_CLOSE,
        SpecMsg::Request(_) => false,
    }
}

/// The bytes sent in reply to one message: a rendered response for a
/// request, an unmasked echo frame for a data frame, nothing for Close.
pub open spec fn reply_for(m: SpecMsg, date: Seq<u8>) -> Seq<u8> {
    match m {
        SpecMsg::Request(r) => render_response_spec(http_response_for(r, date)),
        SpecMsg::Frame(f) => if f.opcode == OPCODE_CLOSE {
            Seq::empty()
        } else {
            frame_bytes(echo_of(plain_payload(f)))
        },
    }
}

pub open spec fn replies_for(msgs: Seq<SpecMsg>, date: Seq<u8>) -> Seq<u8>
    decreases msgs.len(),
{
    if msgs.len() == 0 {
        Seq::empty()
    } else {
        reply_for(msgs.first(), date) + replies_for(msgs.drop_first(), date)
    }
}

/// Whether any message is a Close frame.
pub open spec fn has_close(msgs: Seq<SpecMsg>) -> bool {
    exists|i: int| 0 <= i < msgs.len() && is_close_msg(#[trigger] msgs[i])
}

proof fn lemma_replies_push(msgs: Seq<SpecMsg>, m: SpecMsg, d: Seq<u8>)
    ensures
        replies_for(msgs.push(m), d) == replies_for(msgs, d) + reply_for(m, d),
    decreases msgs.len(),
{
    if msgs.len() == 0 {
        assert(msgs.push(m).first() == m);
        assert(msgs.push(m).drop_first() =~= Seq::<SpecMsg>::empty());
        assert(replies_for(Seq::<SpecMsg>::empty(), d) =~= Seq::<u8>::empty());
        assert(reply_for(m, d) + Seq::<u8>::empty() =~= reply_for(m, d));
        assert(Seq::<u8>::empty() + reply_for(m, d) =~= reply_for(m, d));
    } else {
        assert(msgs.push(m).first() == msgs.first());
        assert(msgs.push(m).drop_first() =~= msgs.drop_first().push(m));
        lemma_replies_push(msgs.drop_first(), m, d);
        assert(reply_for(msgs.first(), d) + (replies_for(msgs.drop_first(), d) + reply_for(m, d))
            =~= (reply_for(msgs.first(), d) + replies_for(msgs.drop_first(), d)) + reply_for(
            m,
            d,
        ));
    }
}

proof fn lemma_has_close_push(msgs: Seq<SpecMsg>, m: SpecMsg)
    ensures
        has_close(msgs.push(m)) == (has_close(msgs) || is_close_msg(m)),
{
    if has_close(msgs) {
        let i = choose|i: int| 0 <= i < msgs.len() && is_close_msg(msgs[i]);
        assert(msgs.push(m)[i] == msgs[i]);
        assert(has_close(msgs.push(m)));
    }
    if is_close_msg(m) {
        assert(msgs.push(m)[msgs.len() as int] == m);
        assert(has_close(msgs.push(m)));
    }
    if has_close(msgs.push(m)) {
        let i = choose|i: int| 0 <= i < msgs.push(m).len() && is_close_msg(msgs.push(m)[i]);
        if i < msgs.len() {
            assert(msgs.push(m)[i] == msgs[i]);
            assert(has_close(msgs));
        } else {
            assert(msgs.push(m)[i] == m);
        }
    }
}

// ---------------------------------------------------------------------------
// Building the responses.
// ---------------------------------------------------------------------------

/// Relies on chrono's `Utc::now` and `DateTime::to_rfc2822` for the value of
/// the `Date` header; nothing is assumed about how the current time renders.
#[verifier::external_body]
pub(crate) fn now_rfc2822() -> Vec<u8> {
    chrono::Utc::now().to_rfc2822().into_bytes()
}

/// The `200 OK` response with the fixed body and the given `Date` value.
fn ok_response(date: &Vec<u8>) -> (resp: Response)
    ensures
        resp@.protocol == http11(),
        resp@.code == 200,
        resp@.message == ok_text(),
        resp@.headers =~= seq![
            SpecHeader { name: content_length_name(), value: dec_digits(hello_body().len() as int) },
            SpecHeader { name: content_type_name(), value: content_type_value() },
            SpecHeader { name: date_name(), value: date@ },
        ],
        resp@.content == hello_body(),
{
    let content = hello_body_v();
    let clv = u64_digits(content.len() as u64);
    let headers: Vec<Header> = vec![
        Header { name: crate::http::content_length_name_v(), value: clv },
        Header { name: content_type_name_v(), value: content_type_value_v() },
        Header { name: date_name_v(), value: clone_bytes(date) },
    ];
    Response { protocol: http11_v(), code: 200, message: ok_text_v(), headers, content }
}

/// The response to one parsed request: the upgrade answer or the plain page.
pub fn handle(req: &Request, date: &Vec<u8>) -> (resp: Response)
    ensures
        resp@ == http_response_for(req@, date@),
{
    let conn = lookup_header(&req.headers, connection_name_v().as_slice());
    let upg = lookup_header(&req.headers, upgrade_text_v().as_slice());
    let is_upgrade: bool = match (&conn, &upg) {
        (Some(cv), Some(uv)) => {
            let a = bytes_eq(cv.as_slice(), upgrade_text_v().as_slice());
            let b = bytes_eq(uv.as_slice(), websocket_text_v().as_slice());
            a && b
        }
        _ => false,
    };
    if is_upgrade {
        match lookup_header(&req.headers, ws_key_name_v().as_slice()) {
            Some(key) => {
                let token = accept_token(&key);
                let headers: Vec<Header> = vec![
                    Header { name: upgrade_text_v(), value: websocket_text_v() },
                    Header { name: connection_name_v(), value: upgrade_text_v() },
                    Header { name: ws_accept_name_v(), value: token },
                ];
                let resp = Response {
                    protocol: http11_v(),
                    code: 101,
                    message: switching_text_v(),
                    headers,
                    content: Vec::new(),
                };
                proof {
                    assert(wants_upgrade(req@));
                    assert(resp@.headers =~= http_response_for(req@, date@).headers);
                    assert(resp@.content =~= Seq::<u8>::empty());
                    assert(resp@ == http_response_for(req@, date@));
                }
                resp
            }
            None => {
                let resp = ok_response(date);
                proof {
                    assert(!wants_upgrade(req@));
                    assert(resp@ == http_response_for(req@, date@));
                }
                resp
            }
        }
    } else {
        let resp = ok_response(date);
        proof {
            assert(!wants_upgrade(req@));
            assert(resp@ == http_response_for(req@, date@));
        }
        resp
    }
}

// ---------------------------------------------------------------------------
// One pass of the protocol layer over the two buffers.
// ---------------------------------------------------------------------------

/// What one `process` pass observed: whether a Close frame arrived, and
/// whether the replies were accepted by the send buffer.
pub struct Handled {
    pub close: bool,
    pub sent: bool,
}

/// How the send buffer relates to the replies for `msgs` under the date
/// value `d`: either all replies were appended, or nothing was and they did
/// not fit under the buffer's bound.
pub open spec fn sent_with_date(
    old_data: Seq<u8>,
    old_lead: nat,
    bound: nat,
    new_data: Seq<u8>,
    msgs: Seq<SpecMsg>,
    sent: bool,
    d: Seq<u8>,
) -> bool {
    let rep = replies_for(msgs, d);
    &&& sent ==> new_data == old_data + rep
    &&& !sent ==> new_data == old_data && old_lead + old_data.len() + rep.len() > bound
}

/// Drains every complete message from `recv`, leaving the unparseable
/// residue, and appends all replies (built against one `Date` value) to
/// `send` in one append, which succeeds whenever they fit under the send
/// buffer's bound.
pub fn process(recv: &mut ByteStream, send: &mut ByteStream) -> (r: Handled)
    ensures
        stream_bound(*final(recv)) == stream_bound(*old(recv)),
        stream_bound(*final(send)) == stream_bound(*old(send)),
        stream_lead(*final(send)) == stream_lead(*old(send)),
        stream_data(*final(recv)) == residual_of(stream_data(*old(recv))),
        stream_lead(*final(recv)) == 0 || stream_lead(*final(recv)) == stream_lead(*old(recv)),
        r.close == has_close(messages_of(stream_data(*old(recv)))),
        exists|d: Seq<u8>| #[trigger] sent_with_date(
            stream_data(*old(send)),
            stream_lead(*old(send)),
            stream_bound(*old(send)),
            stream_data(*final(send)),
            messages_of(stream_data(*old(recv))),
            r.sent,
            d,
        ),
{
    let ghost s0 = stream_data(*recv);
    let ghost l0 = stream_lead(*recv);
    let date = now_rfc2822();
    let ghost d = date@;
    let mut reply: Vec<u8> = Vec::new();
    let mut close = false;
    let mut done = false;
    let ghost mut processed: Seq<SpecMsg> = Seq::empty();
    while !done
        invariant
            d == date@,
            stream_bound(*recv) == stream_bound(*old(recv)),
            messages_of(s0) == processed + messages_of(stream_data(*recv)),
            residual_of(s0) == residual_of(stream_data(*recv)),
            reply@ == replies_for(processed, d),
            close == has_close(processed),
            processed.len() == 0 ==> stream_data(*recv) == s0 && stream_lead(*recv) == l0,
            processed.len() > 0 ==> stream_lead(*recv) == 0,
            done ==> parse_msg(stream_data(*recv)) is None,
        decreases stream_data(*recv).len(), (if done { 0int } else { 1int }),
    {
        let data = bs_peek(recv);
        match parse_msg_exec(&data) {
            None => {
                done = true;
            }
            Some(mn) => {
                let ghost cur = stream_data(*recv);
                let ghost pm = mn.0@;
                let ghost reply0 = reply@;
                let n = mn.1;
                match &mn.0 {
                    Msg::Request(req) => {
                        let resp = handle(req, &date);
                        let bytes = render_response(&resp);
                        append_bytes(&mut reply, bytes.as_slice());
                        proof {
                            assert(pm == SpecMsg::Request(req@));
                            assert(d == date@);
                            assert(resp@ == http_response_for(req@, d));
                            assert(reply_for(pm, d) == render_response_spec(resp@));
                            assert(reply@ == reply0 + reply_for(pm, d));
                        }
                    }
                    Msg::Frame(f) => {
                        if f.opcode == OPCODE_CLOSE {
                            close = true;
                            proof {
                                assert(is_close_msg(pm));
                                assert(reply@ =~= reply0 + reply_for(pm, d));
                            }
                        } else {
                            let plain: Vec<u8>;
                            match &f.mask {
                                Some(mk) => {
                                    plain = unmask_payload(&f.payload, mk);
                                    proof {
                                        assert(f@.mask == Some(mk@));
                                        assert(plain@ == plain_payload(f@));
                                    }
                                }
                                None => {
                                    plain = clone_bytes(&f.payload);
                                    proof {
                                        assert(plain@ == plain_payload(f@));
                                    }
                                }
                            }
                            let text = echo_payload(&plain);
                            let fb = build_text_frame(&text);
                            append_bytes(&mut reply, fb.as_slice());
                            proof {
                                assert(pm == SpecMsg::Frame(f@));
                                assert(reply_for(pm, d) == fb@);
                                assert(reply@ == reply0 + reply_for(pm, d));
                            }
                        }
                    }
                }
                let ok = bs_skip(recv, n);
                proof {
                    assert(ok);
                }
                bs_pull(recv);
                proof {
                    assert(messages_of(cur) == seq![pm] + messages_of(cur.skip(n as int)));
                    assert(residual_of(cur) == residual_of(cur.skip(n as int)));
                    lemma_replies_push(processed, pm, d);
                    lemma_has_close_push(processed, pm);
                    assert(processed + (seq![pm] + messages_of(cur.skip(n as int)))
                        =~= processed.push(pm) + messages_of(cur.skip(n as int)));
                    assert(reply@ == replies_for(processed, d) + reply_for(pm, d));
                    processed = processed.push(pm);
                }
            }
        }
    }
    proof {
        assert(messages_of(stream_data(*recv)) =~= Seq::<SpecMsg>::empty());
        assert(processed + Seq::<SpecMsg>::empty() =~= processed);
        assert(messages_of(s0) == processed);
        assert(residual_of(stream_data(*recv)) == stream_data(*recv));
    }
    let sent: bool;
    if reply.len() > 0 {
        let put = bs_put(send, reply.as_slice());
        sent = put != 0;
    } else {
        sent = true;
        proof {
            assert(stream_data(*send) + reply@ =~= stream_data(*send));
        }
    }
    let r = Handled { close, sent };
    proof {
        assert(sent_with_date(
            stream_data(*old(send)),
            stream_lead(*old(send)),
            stream_bound(*old(send)),
            stream_data(*send),
            messages_of(s0),
            r.sent,
            d,
        ));
    }
    r
}

} // verus!
