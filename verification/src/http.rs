//! HTTP/1.1 request parsing and response rendering on raw bytes.
//!
//! A request is one line `method SP path SP protocol CRLF`, header lines
//! `name ':' SP value CRLF`, a blank line, and a body whose length is given
//! by the `Content-Length` header (zero when absent or malformed).  Parsing
//! consumes a complete request from the front of a buffer or reports that no
//! complete request is there yet; a malformed prefix never parses.

use vstd::prelude::*;

verus! {

pub const CR: u8 = 13;
pub const LF: u8 = 10;
pub const SP: u8 = 32;
pub const COLON: u8 = 58;

pub open spec fn crlf() -> Seq<u8> {
    seq![CR, LF]
}

// ---------------------------------------------------------------------------
// Searching for a byte or for CRLF, as spec functions and as executable code.
// ---------------------------------------------------------------------------

/// Index of the first occurrence of `b` in `s` at or after `from`.
pub open spec fn find_byte_from(s: Seq<u8>, from: int, b: u8) -> Option<int>
    decreases s.len() - from,
{
    if from < 0 || from >= s.len() {
        None
    } else if s[from] == b {
        Some(from)
    } else {
        find_byte_from(s, from + 1, b)
    }
}

/// Index of the first CRLF pair in `s` at or after `from`.
pub open spec fn find_crlf_from(s: Seq<u8>, from: int) -> Option<int>
    decreases s.len() - from,
{
    if from < 0 || from + 2 > s.len() {
        None
    } else if s[from] == CR && s[from + 1] == LF {
        Some(from)
    } else {
        find_crlf_from(s, from + 1)
    }
}

pub proof fn lemma_find_crlf_bounds(s: Seq<u8>, from: int)
    requires
        find_crlf_from(s, from) is Some,
    ensures
        from <= find_crlf_from(s, from)->0,
        find_crlf_from(s, from)->0 + 2 <= s.len(),
    decreases s.len() - from,
{
    if !(from < 0 || from + 2 > s.len()) && !(s[from] == CR && s[from + 1] == LF) {
        lemma_find_crlf_bounds(s, from + 1);
    }
}

/// A successful CRLF search in `s` gives the same answer in any extension of `s`.
pub proof fn lemma_find_crlf_stable(s: Seq<u8>, t: Seq<u8>, from: int)
    requires
        find_crlf_from(s, from) is Some,
    ensures
        find_crlf_from(s + t, from) == find_crlf_from(s, from),
    decreases s.len() - from,
{
    assert((s + t).len() == s.len() + t.len());
    if !(from < 0 || from + 2 > s.len()) {
        assert((s + t)[from] == s[from]);
        assert((s + t)[from + 1] == s[from + 1]);
        if !(s[from] == CR && s[from + 1] == LF) {
            lemma_find_crlf_stable(s, t, from + 1);
        }
    }
}

pub fn find_byte(buf: &Vec<u8>, from: usize, b: u8) -> (r: Option<usize>)
    ensures
        match r {
            Some(i) => find_byte_from(buf@, from as int, b) == Some(i as int)
                && from <= i < buf.len() && buf@[i as int] == b,
            None => find_byte_from(buf@, from as int, b) is None,
        },
{
    let n = buf.len();
    let mut i = from;
    loop
        invariant
            from <= i,
            n == buf.len(),
            find_byte_from(buf@, from as int, b) == find_byte_from(buf@, i as int, b),
        decreases n - i,
    {
        if i >= n {
            return None;
        }
        if buf[i] == b {
            return Some(i);
        }
        assert(find_byte_from(buf@, i as int, b) == find_byte_from(buf@, i + 1, b));
        i = i + 1;
    }
}

pub fn find_crlf(buf: &Vec<u8>, from: usize) -> (r: Option<usize>)
    ensures
        match r {
            Some(i) => find_crlf_from(buf@, from as int) == Some(i as int)
                && from <= i && i + 2 <= buf.len(),
            None => find_crlf_from(buf@, from as int) is None,
        },
{
    let n = buf.len();
    let mut i = from;
    loop
        invariant
            from <= i,
            n == buf.len(),
            find_crlf_from(buf@, from as int) == find_crlf_from(buf@, i as int),
        decreases n - i,
    {
        if i >= n || n - i < 2 {
            return None;
        }
        if buf[i] == CR && buf[i + 1] == LF {
            return Some(i);
        }
        assert(find_crlf_from(buf@, i as int) == find_crlf_from(buf@, i + 1));
        i = i + 1;
    }
}

// ---------------------------------------------------------------------------
// Small byte utilities.
// ---------------------------------------------------------------------------

/// Byte-for-byte equality of two slices.
pub fn bytes_eq(a: &[u8], b: &[u8]) -> (r: bool)
    ensures
        r == (a@ == b@),
{
    if a.len() != b.len() {
        return false;
    }
    let n = a.len();
    let mut i: usize = 0;
    while i < n
        invariant
            i <= n,
            n == a.len() && n == b.len(),
            forall|k: int| 0 <= k < i ==> a@[k] == b@[k],
        decreases n - i,
    {
        if a[i] != b[i] {
            return false;
        }
        i = i + 1;
    }
    assert(a@ =~= b@);
    true
}

/// A copy of `buf[i..j]`.
pub fn copy_range(buf: &Vec<u8>, i: usize, j: usize) -> (r: Vec<u8>)
    requires
        i <= j <= buf.len(),
    ensures
        r@ == buf@.subrange(i as int, j as int),
{
    let mut r: Vec<u8> = Vec::new();
    let mut k = i;
    while k < j
        invariant
            i <= k <= j <= buf.len(),
            r@ == buf@.subrange(i as int, k as int),
        decreases j - k,
    {
        r.push(buf[k]);
        assert(r@ =~= buf@.subrange(i as int, k + 1));
        k = k + 1;
    }
    r
}

/// Appends all of `src` to `dst`.
pub fn append_bytes(dst: &mut Vec<u8>, src: &[u8])
    ensures
        final(dst)@ == old(dst)@ + src@,
{
    let n = src.len();
    let mut i: usize = 0;
    while i < n
        invariant
            i <= n,
            n == src.len(),
            dst@ == old(dst)@ + src@.take(i as int),
        decreases n - i,
    {
        dst.push(src[i]);
        assert(dst@ =~= old(dst)@ + src@.take(i + 1));
        i = i + 1;
    }
    assert(dst@ =~= old(dst)@ + src@);
}

// ---------------------------------------------------------------------------
// Decimal digits: reading a decimal value and rendering one.
// ---------------------------------------------------------------------------

pub open spec fn is_digits(s: Seq<u8>) -> bool {
    s.len() > 0 && forall|i: int| 0 <= i < s.len() ==> 48 <= #[trigger] s[i] <= 57
}

/// The value of a big-endian decimal digit string.
pub open spec fn dec_value(s: Seq<u8>) -> int
    decreases s.len(),
{
    if s.len() == 0 {
        0
    } else {
        dec_value(s.take(s.len() - 1)) * 10 + (s.last() - 48)
    }
}

pub open spec fn pow10(n: nat) -> int
    decreases n,
{
    if n == 0 {
        1
    } else {
        10 * pow10((n - 1) as nat)
    }
}

pub proof fn lemma_dec_value_bound(s: Seq<u8>)
    requires
        forall|i: int| 0 <= i < s.len() ==> 48 <= #[trigger] s[i] <= 57,
    ensures
        0 <= dec_value(s) < pow10(s.len()),
    decreases s.len(),
{
    if s.len() > 0 {
        lemma_dec_value_bound(s.take(s.len() - 1));
    }
}

/// The decimal digit string of `n` (most significant digit first).
pub open spec fn dec_digits(n: int) -> Seq<u8>
    decreases n,
{
    if n < 10 {
        seq![(48 + n) as u8]
    } else {
        dec_digits(n / 10) + seq![(48 + n % 10) as u8]
    }
}

pub fn u64_digits(n: u64) -> (r: Vec<u8>)
    ensures
        r@ == dec_digits(n as int),
    decreases n,
{
    if n < 10 {
        let r: Vec<u8> = vec![48 + (n as u8)];
        assert(r@ =~= dec_digits(n as int));
        r
    } else {
        let mut r = u64_digits(n / 10);
        let d: u8 = 48 + ((n % 10) as u8);
        r.push(d);
        assert(r@ =~= dec_digits(n as int));
        r
    }
}

/// The value of a digit string when it is well formed, short enough, and in
/// range for `usize`; otherwise 0.  This mirrors reading a header value as a
/// length with a default of 0 for anything unusable.
pub open spec fn loose_dec_value(s: Seq<u8>) -> int {
    if is_digits(s) && s.len() <= 19 && dec_value(s) <= usize::MAX as int {
        dec_value(s)
    } else {
        0
    }
}

pub fn parse_loose_dec(s: &Vec<u8>) -> (r: usize)
    ensures
        r as int == loose_dec_value(s@),
{
    let n = s.len();
    if n == 0 || n > 19 {
        return 0;
    }
    let mut i: usize = 0;
    let mut acc: u64 = 0;
    while i < n
        invariant
            i <= n,
            n == s.len(),
            n <= 19,
            forall|k: int| 0 <= k < i ==> 48 <= #[trigger] s@[k] <= 57,
            acc as int == dec_value(s@.take(i as int)),
            (acc as int) < pow10(i as nat),
        decreases n - i,
    {
        let c = s[i];
        if c < 48 || c > 57 {
            assert(!is_digits(s@));
            return 0;
        }
        proof {
            assert(pow10(i as nat) <= pow10(18)) by {
                lemma_pow10_mono(i as nat, 18);
            }
            assert(pow10(18) == 1000000000000000000) by {
                reveal_with_fuel(pow10, 20);
            }
        }
        acc = acc * 10 + ((c - 48) as u64);
        proof {
            assert(s@.take(i + 1).take(i as int) =~= s@.take(i as int));
            assert(s@.take(i + 1).last() == s@[i as int]);
        }
        i = i + 1;
    }
    proof {
        assert(s@.take(n as int) =~= s@);
        assert(is_digits(s@));
    }
    if acc <= (usize::MAX as u64) {
        acc as usize
    } else {
        0
    }
}

pub proof fn lemma_pow10_mono(a: nat, b: nat)
    requires
        a <= b,
    ensures
        pow10(a) <= pow10(b),
    decreases b,
{
    if a < b {
        lemma_pow10_mono(a, (b - 1) as nat);
        assert(pow10(b) == 10 * pow10((b - 1) as nat));
        assert(pow10((b - 1) as nat) >= 1) by {
            lemma_pow10_pos((b - 1) as nat);
        }
    }
}

pub proof fn lemma_pow10_pos(n: nat)
    ensures
        pow10(n) >= 1,
    decreases n,
{
    if n > 0 {
        lemma_pow10_pos((n - 1) as nat);
    }
}

// ---------------------------------------------------------------------------
// Requests, headers, responses, and their mathematical views.
// ---------------------------------------------------------------------------

pub struct SpecHeader {
    pub name: Seq<u8>,
    pub value: Seq<u8>,
}

pub struct Header {
    pub name: Vec<u8>,
    pub value: Vec<u8>,
}

impl View for Header {
    type V = SpecHeader;

    open spec fn view(&self) -> SpecHeader {
        SpecHeader { name: self.name@, value: self.value@ }
    }
}

pub struct SpecRequest {
    pub method: Seq<u8>,
    pub path: Seq<u8>,
    pub protocol: Seq<u8>,
    pub headers: Seq<SpecHeader>,
    pub content: Seq<u8>,
}

pub struct Request {
    pub method: Vec<u8>,
    pub path: Vec<u8>,
    pub protocol: Vec<u8>,
    pub headers: Vec<Header>,
    pub content: Vec<u8>,
}

impl View for Request {
    type V = SpecRequest;

    open spec fn view(&self) -> SpecRequest {
        SpecRequest {
            method: self.method@,
            path: self.path@,
            protocol: self.protocol@,
            headers: self.headers@.map_values(|h: Header| h@),
            content: self.content@,
        }
    }
}

pub struct SpecResponse {
    pub protocol: Seq<u8>,
    pub code: u16,
    pub message: Seq<u8>,
    pub headers: Seq<SpecHeader>,
    pub content: Seq<u8>,
}

pub struct Response {
    pub protocol: Vec<u8>,
    pub code: u16,
    pub message: Vec<u8>,
    pub headers: Vec<Header>,
    pub content: Vec<u8>,
}

impl View for Response {
    type V = SpecResponse;

    open spec fn view(&self) -> SpecResponse {
        SpecResponse {
            protocol: self.protocol@,
            code: self.code,
            message: self.message@,
            headers: self.headers@.map_values(|h: Header| h@),
            content: self.content@,
        }
    }
}

// ---------------------------------------------------------------------------
// Header lookup and the content length.
// ---------------------------------------------------------------------------

/// The bytes of `"Content-Length"`.
pub open spec fn content_length_name() -> Seq<u8> {
    seq![67u8, 111, 110, 116, 101, 110, 116, 45, 76, 101, 110, 103, 116, 104]
}

pub fn content_length_name_v() -> (r: Vec<u8>)
    ensures
        r@ == content_length_name(),
{
    let r: Vec<u8> = vec![67u8, 111, 110, 116, 101, 110, 116, 45, 76, 101, 110, 103, 116, 104];
    proof {
        assert(r@ =~= content_length_name());
    }
    r
}

/// The value of the first header with the given name.
pub open spec fn header_lookup(headers: Seq<SpecHeader>, name: Seq<u8>) -> Option<Seq<u8>>
    decreases headers.len(),
{
    if headers.len() == 0 {
        None
    } else if headers.first().name == name {
        Some(headers.first().value)
    } else {
        header_lookup(headers.drop_first(), name)
    }
}

/// The body length announced by the `Content-Length` header, 0 when the
/// header is absent or its value is unusable.
pub open spec fn content_length_of(headers: Seq<SpecHeader>) -> int {
    match header_lookup(headers, content_length_name()) {
        None => 0,
        Some(v) => loose_dec_value(v),
    }
}

/// A copy of a byte vector.
pub fn clone_bytes(v: &Vec<u8>) -> (r: Vec<u8>)
    ensures
        r@ == v@,
{
    let r = copy_range(v, 0, v.len());
    proof {
        assert(v@.subrange(0, v@.len() as int) =~= v@);
    }
    r
}

pub fn lookup_header(headers: &Vec<Header>, name: &[u8]) -> (r: Option<Vec<u8>>)
    ensures
        match r {
            Some(v) => header_lookup(headers@.map_values(|h: Header| h@), name@) == Some(v@),
            None => header_lookup(headers@.map_values(|h: Header| h@), name@) is None,
        },
{
    let ghost hs = headers@.map_values(|h: Header| h@);
    proof {
        assert(hs.skip(0) =~= hs);
    }
    let n = headers.len();
    let mut i: usize = 0;
    while i < n
        invariant
            i <= n,
            n == headers.len(),
            hs == headers@.map_values(|h: Header| h@),
            header_lookup(hs, name@) == header_lookup(hs.skip(i as int), name@),
        decreases n - i,
    {
        proof {
            assert(hs.skip(i as int).len() == n - i);
            assert(hs.skip(i as int).first() == hs[i as int]);
        }
        if bytes_eq(headers[i].name.as_slice(), name) {
            return Some(clone_bytes(&headers[i].value));
        }
        proof {
            assert(hs.skip(i as int).drop_first() =~= hs.skip(i + 1));
        }
        i = i + 1;
    }
    proof {
        assert(hs.skip(n as int) =~= Seq::<SpecHeader>::empty());
    }
    None
}

// ---------------------------------------------------------------------------
// Parsing one complete request from the front of a buffer.
// ---------------------------------------------------------------------------

/// Header lines from position `from` up to and including the blank line.
/// `None` means the header section is incomplete or malformed.
pub open spec fn parse_header_lines(s: Seq<u8>, from: int) -> Option<(Seq<SpecHeader>, int)>
    decreases s.len() - from,
    via parse_header_lines_dec
{
    match find_crlf_from(s, from) {
        None => None,
        Some(e) => {
            if e == from {
                Some((Seq::empty(), from + 2))
            } else {
                let line = s.subrange(from, e);
                match find_byte_from(line, 0, COLON) {
                    None => None,
                    Some(j) => {
                        if j + 2 <= line.len() && line[j + 1] == SP {
                            match parse_header_lines(s, e + 2) {
                                None => None,
                                Some(p) => Some((
                                    seq![SpecHeader { name: line.take(j), value: line.skip(j + 2) }]
                                        + p.0,
                                    p.1,
                                )),
                            }
                        } else {
                            None
                        }
                    }
                }
            }
        }
    }
}

#[via_fn]
proof fn parse_header_lines_dec(s: Seq<u8>, from: int) {
    if find_crlf_from(s, from) is Some {
        lemma_find_crlf_bounds(s, from);
    }
}

/// One complete request at the front of `s`, with the number of bytes it
/// occupies; `None` when no complete request is there.
pub open spec fn parse_request_at(s: Seq<u8>) -> Option<(SpecRequest, int)> {
    match find_crlf_from(s, 0) {
        None => None,
        Some(e0) => {
            let line = s.subrange(0, e0);
            match find_byte_from(line, 0, SP) {
                None => None,
                Some(i1) => {
                    let rest = line.skip(i1 + 1);
                    match find_byte_from(rest, 0, SP) {
                        None => None,
                        Some(i2) => {
                            match parse_header_lines(s, e0 + 2) {
                                None => None,
                                Some(p) => {
                                    let clen = content_length_of(p.0);
                                    if p.1 + clen <= s.len() {
                                        Some((
                                            SpecRequest {
                                                method: line.take(i1),
                                                path: rest.take(i2),
                                                protocol: rest.skip(i2 + 1),
                                                headers: p.0,
                                                content: s.subrange(p.1, p.1 + clen),
                                            },
                                            p.1 + clen,
                                        ))
                                    } else {
                                        None
                                    }
                                }
                            }
                        }
                    }
                }
            }
        }
    }
}

fn parse_headers(buf: &Vec<u8>, start: usize) -> (r: Option<(Vec<Header>, usize)>)
    requires
        start <= buf.len(),
    ensures
        r is None ==> parse_header_lines(buf@, start as int) is None,
        r matches Some(p) ==> parse_header_lines(buf@, start as int)
            == Some((p.0@.map_values(|h: Header| h@), p.1 as int))
            && start + 2 <= p.1 <= buf.len(),
{
    let mut acc: Vec<Header> = Vec::new();
    let mut cur = start;
    loop
        invariant
            start <= cur <= buf.len(),
            match parse_header_lines(buf@, cur as int) {
                None => parse_header_lines(buf@, start as int) is None,
                Some(p) => parse_header_lines(buf@, start as int)
                    == Some((acc@.map_values(|h: Header| h@) + p.0, p.1)),
            },
        decreases buf.len() - cur,
    {
        let e = match find_crlf(buf, cur) {
            None => {
                return None;
            }
            Some(e) => e,
        };
        if e == cur {
            proof {
                assert(parse_header_lines(buf@, cur as int)
                    == Some((Seq::<SpecHeader>::empty(), cur + 2)));
                assert(acc@.map_values(|h: Header| h@) + Seq::<SpecHeader>::empty()
                    =~= acc@.map_values(|h: Header| h@));
            }
            return Some((acc, cur + 2));
        }
        let line = copy_range(buf, cur, e);
        let j = match find_byte(&line, 0, COLON) {
            None => {
                return None;
            }
            Some(j) => j,
        };
        if j + 2 > line.len() || line[j + 1] != SP {
            return None;
        }
        let name = copy_range(&line, 0, j);
        let value = copy_range(&line, j + 2, line.len());
        let ghost old_acc = acc@;
        proof {
            assert(name@ =~= line@.take(j as int));
            assert(value@ =~= line@.skip(j + 2));
        }
        acc.push(Header { name, value });
        proof {
            let hv = SpecHeader { name: line@.take(j as int), value: line@.skip(j + 2) };
            assert(acc@.map_values(|h: Header| h@)
                =~= old_acc.map_values(|h: Header| h@) + seq![hv]);
            match parse_header_lines(buf@, e + 2) {
                Some(p) => {
                    assert(parse_header_lines(buf@, cur as int) == Some((seq![hv] + p.0, p.1)));
                    assert(old_acc.map_values(|h: Header| h@) + (seq![hv] + p.0)
                        =~= acc@.map_values(|h: Header| h@) + p.0);
                }
                None => {}
            }
        }
        cur = e + 2;
    }
}

pub fn parse_request(buf: &Vec<u8>) -> (r: Option<(Request, usize)>)
    ensures
        r is None ==> parse_request_at(buf@) is None,
        r matches Some(p) ==> parse_request_at(buf@) == Some((p.0@, p.1 as int))
            && 1 <= p.1 <= buf.len(),
{
    let e0 = match find_crlf(buf, 0) {
        None => {
            return None;
        }
        Some(e) => e,
    };
    let line = copy_range(buf, 0, e0);
    let i1 = match find_byte(&line, 0, SP) {
        None => {
            return None;
        }
        Some(i) => i,
    };
    let rest = copy_range(&line, i1 + 1, line.len());
    proof {
        assert(rest@ =~= line@.skip(i1 + 1));
    }
    let i2 = match find_byte(&rest, 0, SP) {
        None => {
            return None;
        }
        Some(i) => i,
    };
    let hp = match parse_headers(buf, e0 + 2) {
        None => {
            return None;
        }
        Some(p) => p,
    };
    let headers = hp.0;
    let body_start = hp.1;
    let cl_name = content_length_name_v();
    let clen = match lookup_header(&headers, cl_name.as_slice()) {
        None => 0,
        Some(v) => parse_loose_dec(&v),
    };
    if buf.len() - body_start < clen {
        return None;
    }
    let method = copy_range(&line, 0, i1);
    let path = copy_range(&rest, 0, i2);
    let protocol = copy_range(&rest, i2 + 1, rest.len());
    let content = copy_range(buf, body_start, body_start + clen);
    let req = Request { method, path, protocol, headers, content };
    proof {
        let s = buf@;
        let sline = s.subrange(0, e0 as int);
        assert(line@ == sline);
        let srest = sline.skip(i1 + 1);
        assert(rest@ == srest);
        assert(req@.method =~= sline.take(i1 as int));
        assert(req@.path =~= srest.take(i2 as int));
        assert(req@.protocol =~= srest.skip(i2 + 1));
        assert(req@.content =~= s.subrange(body_start as int, body_start + clen));
        assert(req@.headers == headers@.map_values(|h: Header| h@));
        assert(clen as int == content_length_of(req@.headers));
        assert(parse_request_at(s) == Some((req@, body_start + clen)));
    }
    Some((req, body_start + clen))
}

// ---------------------------------------------------------------------------
// Rendering a response.
// ---------------------------------------------------------------------------

pub open spec fn header_line(h: SpecHeader) -> Seq<u8> {
    h.name + seq![COLON, SP] + h.value + crlf()
}

pub open spec fn header_lines(hs: Seq<SpecHeader>) -> Seq<u8>
    decreases hs.len(),
{
    if hs.len() == 0 {
        Seq::empty()
    } else {
        header_line(hs.first()) + header_lines(hs.drop_first())
    }
}

pub proof fn lemma_header_lines_take_succ(hs: Seq<SpecHeader>, k: int)
    requires
        0 <= k < hs.len(),
    ensures
        header_lines(hs.take(k + 1)) == header_lines(hs.take(k)) + header_line(hs[k]),
    decreases k,
{
    if k == 0 {
        assert(hs.take(1).first() == hs[0]);
        assert(hs.take(1).drop_first() =~= Seq::<SpecHeader>::empty());
        assert(hs.take(0) =~= Seq::<SpecHeader>::empty());
        assert(header_lines(Seq::<SpecHeader>::empty()) =~= Seq::<u8>::empty());
        assert(header_lines(hs.take(1)) =~= Seq::<u8>::empty() + header_line(hs[0]));
    } else {
        lemma_header_lines_take_succ(hs.drop_first(), k - 1);
        assert(hs.take(k + 1).first() == hs[0]);
        assert(hs.take(k + 1).drop_first() =~= hs.drop_first().take(k));
        assert(hs.take(k).first() == hs[0]);
        assert(hs.take(k).drop_first() =~= hs.drop_first().take(k - 1));
        assert(hs.drop_first()[k - 1] == hs[k]);
        assert(header_line(hs[0]) + (header_lines(hs.drop_first().take(k - 1)) + header_line(hs[k]))
            =~= (header_line(hs[0]) + header_lines(hs.drop_first().take(k - 1)))
                + header_line(hs[k]));
    }
}

/// The serialized form of a response: status line, header lines, a blank
/// line, then the body.
pub open spec fn render_response_spec(r: SpecResponse) -> Seq<u8> {
    r.protocol + seq![SP] + dec_digits(r.code as int) + seq![SP] + r.message + crlf()
        + header_lines(r.headers) + crlf() + r.content
}

pub fn render_response(r: &Response) -> (out: Vec<u8>)
    ensures
        out@ == render_response_spec(r@),
{
    let mut out: Vec<u8> = Vec::new();
    append_bytes(&mut out, r.protocol.as_slice());
    out.push(SP);
    let code_digits = u64_digits(r.code as u64);
    append_bytes(&mut out, code_digits.as_slice());
    out.push(SP);
    append_bytes(&mut out, r.message.as_slice());
    out.push(CR);
    out.push(LF);
    let ghost pre = out@;
    let ghost hs = r.headers@.map_values(|h: Header| h@);
    proof {
        assert(pre =~= r@.protocol + seq![SP] + dec_digits(r@.code as int) + seq![SP]
            + r@.message + crlf());
        assert(hs.take(0) =~= Seq::<SpecHeader>::empty());
    }
    let n = r.headers.len();
    let mut i: usize = 0;
    while i < n
        invariant
            i <= n,
            n == r.headers.len(),
            hs == r.headers@.map_values(|h: Header| h@),
            out@ == pre + header_lines(hs.take(i as int)),
        decreases n - i,
    {
        append_bytes(&mut out, r.headers[i].name.as_slice());
        out.push(COLON);
        out.push(SP);
        append_bytes(&mut out, r.headers[i].value.as_slice());
        out.push(CR);
        out.push(LF);
        proof {
            lemma_header_lines_take_succ(hs, i as int);
            assert(out@ =~= pre + (header_lines(hs.take(i as int)) + header_line(hs[i as int])));
        }
        i = i + 1;
    }
    out.push(CR);
    out.push(LF);
    append_bytes(&mut out, r.content.as_slice());
    proof {
        assert(hs.take(n as int) =~= hs);
        assert(out@ =~= render_response_spec(r@));
    }
    out
}

} // verus!
