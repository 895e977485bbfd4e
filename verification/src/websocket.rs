//! WebSocket base framing: parsing one frame from the front of a buffer,
//! unmasking a client payload, building an unmasked text frame, and the
//! upgrade-handshake accept token.
//!
//! A frame is a FIN/opcode byte, a mask-bit/length byte, an extended length
//! of two or eight bytes when the short length is 126 or 127, a four-byte
//! masking key when the mask bit is set, and the payload.

use vstd::prelude::*;

use base64::Engine;
use sha1::Digest;

verus! {

use crate::http::{append_bytes, clone_bytes};

pub const OPCODE_CLOSE: u8 = 8;

pub struct SpecFrame {
    pub fin: bool,
    pub opcode: u8,
    pub mask: Option<Seq<u8>>,
    pub payload: Seq<u8>,
}

pub struct Frame {
    pub fin: bool,
    pub opcode: u8,
    pub mask: Option<Vec<u8>>,
    pub payload: Vec<u8>,
}

impl View for Frame {
    type V = SpecFrame;

    open spec fn view(&self) -> SpecFrame {
        SpecFrame {
            fin: self.fin,
            opcode: self.opcode,
            mask: match self.mask {
                Some(m) => Some(m@),
                None => None,
            },
            payload: self.payload@,
        }
    }
}

// ---------------------------------------------------------------------------
// Big-endian byte groups.
// ---------------------------------------------------------------------------

/// The value of the `n` bytes at `from`, most significant first.
pub open spec fn be_bytes_val(s: Seq<u8>, from: int, n: int) -> int
    decreases n,
{
    if n <= 0 {
        0
    } else {
        be_bytes_val(s, from, n - 1) * 256 + s[from + n - 1]
    }
}

pub open spec fn pow256(n: nat) -> int
    decreases n,
{
    if n == 0 {
        1
    } else {
        256 * pow256((n - 1) as nat)
    }
}

pub proof fn lemma_be_bytes_val_bound(s: Seq<u8>, from: int, n: int)
    requires
        0 <= from,
        from + n <= s.len(),
    ensures
        0 <= be_bytes_val(s, from, n) < pow256(if n <= 0 { 0 } else { n as nat }),
    decreases n,
{
    if n > 0 {
        lemma_be_bytes_val_bound(s, from, n - 1);
    }
}

fn be_val_u64(buf: &Vec<u8>, from: usize, n: usize) -> (r: u64)
    requires
        from + n <= buf.len(),
        n <= 8,
    ensures
        r as int == be_bytes_val(buf@, from as int, n as int),
{
    let mut acc: u64 = 0;
    let mut k: usize = 0;
    while k < n
        invariant
            k <= n <= 8,
            from + n <= buf.len(),
            acc as int == be_bytes_val(buf@, from as int, k as int),
            (acc as int) < pow256(k as nat),
        decreases n - k,
    {
        proof {
            assert(pow256(k as nat) <= pow256(7)) by {
                lemma_pow256_mono(k as nat, 7);
            }
            assert(pow256(7) == 0x100000000000000) by {
                reveal_with_fuel(pow256, 9);
            }
        }
        acc = acc * 256 + (buf[from + k] as u64);
        k = k + 1;
    }
    acc
}

pub proof fn lemma_pow256_mono(a: nat, b: nat)
    requires
        a <= b,
    ensures
        pow256(a) <= pow256(b),
    decreases b,
{
    if a < b {
        lemma_pow256_mono(a, (b - 1) as nat);
        assert(pow256((b - 1) as nat) >= 1) by {
            lemma_pow256_pos((b - 1) as nat);
        }
    }
}

pub proof fn lemma_pow256_pos(n: nat)
    ensures
        pow256(n) >= 1,
    decreases n,
{
    if n > 0 {
        lemma_pow256_pos((n - 1) as nat);
    }
}

/// The `k` big-endian bytes of `n`.
pub open spec fn be_bytes_of(n: int, k: nat) -> Seq<u8>
    decreases k,
{
    if k == 0 {
        Seq::empty()
    } else {
        be_bytes_of(n / 256, (k - 1) as nat) + seq![(n % 256) as u8]
    }
}

fn be_bytes_exec(n: u64, k: usize) -> (r: Vec<u8>)
    ensures
        r@ == be_bytes_of(n as int, k as nat),
    decreases k,
{
    if k == 0 {
        let r: Vec<u8> = Vec::new();
        proof {
            assert(r@ =~= be_bytes_of(n as int, 0));
        }
        r
    } else {
        let mut r = be_bytes_exec(n / 256, k - 1);
        r.push((n % 256) as u8);
        proof {
            assert(r@ =~= be_bytes_of(n as int, k as nat));
        }
        r
    }
}

// ---------------------------------------------------------------------------
// Parsing a frame.
// ---------------------------------------------------------------------------

/// One complete frame at the front of `s`, with the number of bytes it
/// occupies; `None` when no complete frame is there.
pub open spec fn parse_frame_at(s: Seq<u8>) -> Option<(SpecFrame, int)> {
    if s.len() < 2 {
        None
    } else {
        let b0 = s[0];
        let b1 = s[1];
        let len7 = b1 % 128;
        let off0: int = if len7 <= 125 {
            2
        } else if len7 == 126 {
            4
        } else {
            10
        };
        if s.len() < off0 {
            None
        } else {
            let plen: int = if len7 <= 125 {
                len7 as int
            } else if len7 == 126 {
                be_bytes_val(s, 2, 2)
            } else {
                be_bytes_val(s, 2, 8)
            };
            let masked = b1 >= 128;
            let off: int = if masked {
                off0 + 4
            } else {
                off0
            };
            if s.len() < off {
                None
            } else if s.len() < off + plen {
                None
            } else {
                Some((
                    SpecFrame {
                        fin: b0 >= 128,
                        opcode: (b0 % 16) as u8,
                        mask: if masked {
                            Some(s.subrange(off0, off0 + 4))
                        } else {
                            None
                        },
                        payload: s.subrange(off, off + plen),
                    },
                    off + plen,
                ))
            }
        }
    }
}

/// A successful frame parse gives the same answer in any extension of `s`.
pub proof fn lemma_parse_frame_stable(s: Seq<u8>, t: Seq<u8>)
    requires
        parse_frame_at(s) is Some,
    ensures
        parse_frame_at(s + t) == parse_frame_at(s),
{
    let u = s + t;
    assert(u.len() == s.len() + t.len());
    assert(u[0] == s[0]);
    assert(u[1] == s[1]);
    let b1 = s[1];
    let len7 = b1 % 128;
    let off0: int = if len7 <= 125 {
        2
    } else if len7 == 126 {
        4
    } else {
        10
    };
    assert(s.len() >= off0);
    if len7 <= 125 {
    } else if len7 == 126 {
        lemma_be_prefix_agree(s, t, 2, 2);
        lemma_be_bytes_val_bound(s, 2, 2);
    } else {
        lemma_be_prefix_agree(s, t, 2, 8);
        lemma_be_bytes_val_bound(s, 2, 8);
    }
    let plen: int = if len7 <= 125 {
        len7 as int
    } else if len7 == 126 {
        be_bytes_val(s, 2, 2)
    } else {
        be_bytes_val(s, 2, 8)
    };
    let masked = b1 >= 128;
    let off: int = if masked {
        off0 + 4
    } else {
        off0
    };
    assert(s.len() >= off + plen);
    if masked {
        assert(u.subrange(off0, off0 + 4) =~= s.subrange(off0, off0 + 4));
    }
    assert(u.subrange(off, off + plen) =~= s.subrange(off, off + plen));
}

proof fn lemma_be_prefix_agree(s: Seq<u8>, t: Seq<u8>, from: int, n: int)
    requires
        0 <= from,
        n >= 0,
        from + n <= s.len(),
    ensures
        be_bytes_val(s + t, from, n) == be_bytes_val(s, from, n),
    decreases n,
{
    if n > 0 {
        lemma_be_prefix_agree(s, t, from, n - 1);
        assert((s + t)[from + n - 1] == s[from + n - 1]);
    }
}

pub fn parse_frame(buf: &Vec<u8>) -> (r: Option<(Frame, usize)>)
    ensures
        r is None ==> parse_frame_at(buf@) is None,
        r matches Some(p) ==> parse_frame_at(buf@) == Some((p.0@, p.1 as int))
            && 1 <= p.1 <= buf.len(),
{
    let n = buf.len();
    if n < 2 {
        return None;
    }
    let b0 = buf[0];
    let b1 = buf[1];
    let len7 = b1 % 128;
    let off0: usize = if len7 <= 125 {
        2
    } else if len7 == 126 {
        4
    } else {
        10
    };
    if n < off0 {
        return None;
    }
    let plen64: u64 = if len7 <= 125 {
        len7 as u64
    } else if len7 == 126 {
        be_val_u64(buf, 2, 2)
    } else {
        be_val_u64(buf, 2, 8)
    };
    let masked = b1 >= 128;
    let off: usize = if masked { off0 + 4 } else { off0 };
    if n < off {
        return None;
    }
    if plen64 > (n - off) as u64 {
        return None;
    }
    let plen = plen64 as usize;
    let mask: Option<Vec<u8>> = if masked {
        Some(crate::http::copy_range(buf, off0, off0 + 4))
    } else {
        None
    };
    let payload = crate::http::copy_range(buf, off, off + plen);
    let frame = Frame { fin: b0 >= 128, opcode: b0 % 16, mask, payload };
    proof {
        assert(parse_frame_at(buf@) == Some((frame@, off + plen)));
    }
    Some((frame, off + plen))
}

// ---------------------------------------------------------------------------
// Unmasking and building frames.
// ---------------------------------------------------------------------------

/// The payload with the four-byte masking key applied.
pub open spec fn unmask(p: Seq<u8>, m: Seq<u8>) -> Seq<u8>
    recommends
        m.len() == 4,
{
    Seq::new(p.len(), |i: int| p[i] ^ m[i % 4])
}

/// The payload as plain text: unmasked when the frame carries a key.
pub open spec fn plain_payload(f: SpecFrame) -> Seq<u8> {
    match f.mask {
        Some(m) => unmask(f.payload, m),
        None => f.payload,
    }
}

pub fn unmask_payload(p: &Vec<u8>, m: &Vec<u8>) -> (r: Vec<u8>)
    requires
        m.len() == 4,
    ensures
        r@ == unmask(p@, m@),
{
    let mut r: Vec<u8> = Vec::new();
    let n = p.len();
    let mut i: usize = 0;
    while i < n
        invariant
            i <= n,
            n == p.len(),
            m.len() == 4,
            r@.len() == i,
            forall|k: int| 0 <= k < i ==> r@[k] == p@[k] ^ m@[k % 4],
        decreases n - i,
    {
        r.push(p[i] ^ m[i % 4]);
        i = i + 1;
    }
    proof {
        assert(r@ =~= unmask(p@, m@));
    }
    r
}

/// The bytes of an unmasked text frame with the given payload.
pub open spec fn frame_bytes(payload: Seq<u8>) -> Seq<u8> {
    if payload.len() <= 125 {
        seq![129u8, payload.len() as u8] + payload
    } else if payload.len() <= 65535 {
        seq![129u8, 126u8] + be_bytes_of(payload.len() as int, 2) + payload
    } else {
        seq![129u8, 127u8] + be_bytes_of(payload.len() as int, 8) + payload
    }
}

pub fn build_text_frame(payload: &Vec<u8>) -> (r: Vec<u8>)
    ensures
        r@ == frame_bytes(payload@),
{
    let mut r: Vec<u8> = Vec::new();
    r.push(129);
    let n = payload.len();
    if n <= 125 {
        r.push(n as u8);
    } else if n <= 65535 {
        r.push(126);
        let ext = be_bytes_exec(n as u64, 2);
        append_bytes(&mut r, ext.as_slice());
    } else {
        r.push(127);
        let ext = be_bytes_exec(n as u64, 8);
        append_bytes(&mut r, ext.as_slice());
    }
    append_bytes(&mut r, payload.as_slice());
    proof {
        assert(r@ =~= frame_bytes(payload@));
    }
    r
}

// ---------------------------------------------------------------------------
// The echo payload.
// ---------------------------------------------------------------------------

/// The bytes of `"ECHO: '"`.
pub open spec fn echo_prefix() -> Seq<u8> {
    seq![69u8, 67, 72, 79, 58, 32, 39]
}

pub fn echo_prefix_v() -> (r: Vec<u8>)
    ensures
        r@ == echo_prefix(),
{
    let r: Vec<u8> = vec![69u8, 67, 72, 79, 58, 32, 39];
    proof {
        assert(r@ =~= echo_prefix());
    }
    r
}

/// The echo text for a payload: `ECHO: '<payload>'`.
pub open spec fn echo_of(p: Seq<u8>) -> Seq<u8> {
    echo_prefix() + p + seq![39u8]
}

pub fn echo_payload(p: &Vec<u8>) -> (r: Vec<u8>)
    ensures
        r@ == echo_of(p@),
{
    let mut r = echo_prefix_v();
    append_bytes(&mut r, p.as_slice());
    r.push(39);
    proof {
        assert(r@ =~= echo_of(p@));
    }
    r
}

// ---------------------------------------------------------------------------
// The handshake accept token.
// ---------------------------------------------------------------------------

/// The SHA-1 digest of a byte sequence; a function of the bytes alone.
pub uninterp spec fn sha1_of(data: Seq<u8>) -> Seq<u8>;

/// Relies on `sha1::Sha1` through `digest::Digest::digest`: the SHA-1 digest
/// depends on the input bytes alone and is 20 bytes long.
#[verifier::external_body]
pub(crate) fn sha1_digest(data: &Vec<u8>) -> (r: Vec<u8>)
    ensures
        r@ == sha1_of(data@),
        r@.len() == 20,
{
    sha1::Sha1::digest(data.as_slice()).to_vec()
}

/// The standard padded base64 encoding of a byte sequence; a function of the
/// bytes alone.
pub uninterp spec fn base64_of(data: Seq<u8>) -> Seq<u8>;

/// Relies on base64's `STANDARD` engine: the padded standard-alphabet
/// encoding depends on the input alone, four output bytes for every started
/// group of three input bytes.
#[verifier::external_body]
pub(crate) fn base64_encode(data: &Vec<u8>) -> (r: Vec<u8>)
    ensures
        r@ == base64_of(data@),
        r@.len() == 4 * ((data@.len() + 2) / 3),
{
    base64::engine::general_purpose::STANDARD.encode(data.as_slice()).into_bytes()
}

/// The fixed upgrade-handshake GUID `258EAFA5-E914-47DA-95CA-C5AB0DC85B11`.
pub open spec fn ws_guid() -> Seq<u8> {
    seq![
        50u8, 53, 56, 69, 65, 70, 65, 53, 45, 69, 57, 49, 52, 45, 52, 55, 68, 65, 45, 57, 53, 67,
        65, 45, 67, 53, 65, 66, 48, 68, 67, 56, 53, 66, 49, 49,
    ]
}

pub fn ws_guid_v() -> (r: Vec<u8>)
    ensures
        r@ == ws_guid(),
{
    let r: Vec<u8> = vec![
        50u8, 53, 56, 69, 65, 70, 65, 53, 45, 69, 57, 49, 52, 45, 52, 55, 68, 65, 45, 57, 53, 67,
        65, 45, 67, 53, 65, 66, 48, 68, 67, 56, 53, 66, 49, 49,
    ];
    proof {
        assert(r@ =~= ws_guid());
    }
    r
}

/// The accept token for a handshake key: the base64 form of the SHA-1 digest
/// of the key followed by the fixed GUID.
pub open spec fn accept_token_of(key: Seq<u8>) -> Seq<u8> {
    base64_of(sha1_of(key + ws_guid()))
}

pub fn accept_token(key: &Vec<u8>) -> (r: Vec<u8>)
    ensures
        r@ == accept_token_of(key@),
{
    let mut input = clone_bytes(key);
    let guid = ws_guid_v();
    append_bytes(&mut input, guid.as_slice());
    let digest = sha1_digest(&input);
    base64_encode(&digest)
}

} // verus!
