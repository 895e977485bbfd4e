//! Trusted surface over the byte-buffer container of the `parsed` crate.
//!
//! A `ByteStream` is a bounded append buffer with a read position: bytes are
//! appended at the back, consumed from the front, and the consumed prefix can
//! be compacted away.  The contracts below model a stream by three quantities:
//! the unread bytes (`stream_data`), the length of the consumed prefix that
//! has not been compacted yet (`stream_lead`), and the capacity the stream was
//! created with (`stream_bound`).  The container never shrinks below that
//! capacity, so an append is guaranteed to succeed whenever the lead, the
//! unread bytes and the new bytes together fit under the bound.

use vstd::prelude::*;

verus! {

use parsed::stream::ByteStream;

#[verifier::external_type_specification]
#[verifier::external_body]
pub struct ExByteStream(ByteStream);

/// The unread bytes of the stream: everything at or after the read position.
pub uninterp spec fn stream_data(s: ByteStream) -> Seq<u8>;

/// The number of consumed bytes that still occupy the front of the buffer.
pub uninterp spec fn stream_lead(s: ByteStream) -> nat;

/// The capacity the stream was created with; its storage never offers less.
pub uninterp spec fn stream_bound(s: ByteStream) -> nat;

/// Relies on `parsed::stream::ByteStream::with_capacity`: a fresh stream is
/// empty, has read position zero, and storage for at least `cap` bytes.
#[verifier::external_body]
pub(crate) fn bs_with_capacity(cap: usize) -> (r: ByteStream)
    ensures
        stream_data(r) == Seq::<u8>::empty(),
        stream_lead(r) == 0,
        stream_bound(r) == cap as nat,
{
    ByteStream::with_capacity(cap)
}

/// Relies on `parsed::stream::ByteStream::put`: appends all of `data` and
/// returns its length when the headroom suffices, otherwise appends nothing
/// and returns 0.  The headroom is at least the bound minus the occupied
/// bytes, so a write that fits under the bound is accepted in full.
#[verifier::external_body]
pub(crate) fn bs_put(s: &mut ByteStream, data: &[u8]) -> (r: usize)
    ensures
        stream_lead(*final(s)) == stream_lead(*old(s)),
        stream_bound(*final(s)) == stream_bound(*old(s)),
        r == data@.len() || r == 0,
        r == data@.len() ==> stream_data(*final(s)) == stream_data(*old(s)) + data@,
        r == 0 && data@.len() > 0 ==> stream_data(*final(s)) == stream_data(*old(s)),
        stream_lead(*old(s)) + stream_data(*old(s)).len() + data@.len()
            <= stream_bound(*old(s)) ==> r == data@.len(),
{
    s.put(data)
}

/// Relies on `parsed::stream::ByteStream::get`: consumes the next `n` unread
/// bytes by advancing the read position, or does nothing when fewer than `n`
/// are available.
#[verifier::external_body]
pub(crate) fn bs_skip(s: &mut ByteStream, n: usize) -> (ok: bool)
    ensures
        stream_bound(*final(s)) == stream_bound(*old(s)),
        ok == (n as nat <= stream_data(*old(s)).len()),
        ok ==> stream_data(*final(s)) == stream_data(*old(s)).skip(n as int)
            && stream_lead(*final(s)) == stream_lead(*old(s)) + n,
        !ok ==> stream_data(*final(s)) == stream_data(*old(s))
            && stream_lead(*final(s)) == stream_lead(*old(s)),
{
    s.get(n).is_some()
}

/// Relies on `<ByteStream as AsRef<[u8]>>::as_ref`: the unread bytes, copied
/// out without disturbing the stream.
#[verifier::external_body]
pub(crate) fn bs_peek(s: &ByteStream) -> (r: Vec<u8>)
    ensures
        r@ == stream_data(*s),
{
    s.as_ref().to_vec()
}

/// Relies on `<ByteStream as AsRef<[u8]>>::as_ref`: the number of unread
/// bytes.
#[verifier::external_body]
pub(crate) fn bs_data_len(s: &ByteStream) -> (r: usize)
    ensures
        r as nat == stream_data(*s).len(),
{
    s.as_ref().len()
}

/// Relies on `parsed::stream::ByteStream::cap`: the remaining headroom, which
/// is never less than the bound minus the occupied length.
#[verifier::external_body]
pub(crate) fn bs_cap(s: &ByteStream) -> (r: usize)
    ensures
        r as nat + stream_lead(*s) + stream_data(*s).len() >= stream_bound(*s),
{
    s.cap()
}

/// Relies on `parsed::stream::ByteStream::clear`: empties the buffer and
/// resets the read position; the storage is kept.
#[verifier::external_body]
pub(crate) fn bs_clear(s: &mut ByteStream)
    ensures
        stream_data(*final(s)) == Seq::<u8>::empty(),
        stream_lead(*final(s)) == 0,
        stream_bound(*final(s)) == stream_bound(*old(s)),
{
    s.clear()
}

/// Relies on `parsed::stream::ByteStream::pull`: compacts the consumed prefix
/// away; the unread bytes are kept and the storage does not shrink.
#[verifier::external_body]
pub(crate) fn bs_pull(s: &mut ByteStream)
    ensures
        stream_data(*final(s)) == stream_data(*old(s)),
        stream_lead(*final(s)) == 0,
        stream_bound(*final(s)) == stream_bound(*old(s)),
{
    s.pull()
}

} // verus!
