//! The per-peer connection state machine, driven once per readiness tick.
//!
//! A tick applies the event's readable/writable flags (`can_write` latches),
//! appends whatever the embedding program read from the socket, applies the
//! close policy, runs the protocol handler, and after the program's write
//! attempt applies the close policy again.  The policy embodies the
//! heal-then-finalize rule: a keep-alive connection whose read side reached
//! EOF this tick is healed for the rest of the tick so a pending reply can
//! still flush, and is torn down when the policy next runs; every other
//! closure tears the connection down at once.

use vstd::prelude::*;

verus! {

use parsed::stream::ByteStream;
use crate::bytestream::{
    stream_data, stream_lead, stream_bound, bs_with_capacity, bs_put, bs_peek, bs_clear, bs_cap,
    bs_data_len,
};
use crate::protocol::{process, has_close, messages_of, residual_of, sent_with_date};

/// The buffer capacity every connection is created with.
pub const BUF_CAP: usize = 1024;

/// The mathematical state of a connection.
pub struct ConnView {
    pub bound: bool,
    pub is_open: bool,
    pub keep_alive: bool,
    pub healed: bool,
    pub eof_seen: bool,
    pub can_read: bool,
    pub can_write: bool,
    pub recv: Seq<u8>,
    pub send: Seq<u8>,
    pub recv_lead: nat,
    pub send_lead: nat,
    pub recv_bound: nat,
    pub send_bound: nat,
}

pub struct Connection {
    bound: bool,
    is_open: bool,
    keep_alive: bool,
    healed: bool,
    eof_seen: bool,
    can_read: bool,
    can_write: bool,
    recv_buf: ByteStream,
    send_buf: ByteStream,
}

impl View for Connection {
    type V = ConnView;

    closed spec fn view(&self) -> ConnView {
        ConnView {
            bound: self.bound,
            is_open: self.is_open,
            keep_alive: self.keep_alive,
            healed: self.healed,
            eof_seen: self.eof_seen,
            can_read: self.can_read,
            can_write: self.can_write,
            recv: stream_data(self.recv_buf),
            send: stream_data(self.send_buf),
            recv_lead: stream_lead(self.recv_buf),
            send_lead: stream_lead(self.send_buf),
            recv_bound: stream_bound(self.recv_buf),
            send_bound: stream_bound(self.send_buf),
        }
    }
}

/// Both buffers have their consumed prefixes compacted away; every public
/// step preserves this.
pub open spec fn wf(c: ConnView) -> bool {
    c.recv_lead == 0 && c.send_lead == 0
}

// ---------------------------------------------------------------------------
// The transitions, as spec functions.
// ---------------------------------------------------------------------------

/// Applying an event's flags: `can_read` reflects this tick, `can_write`
/// latches once true, and the per-tick EOF mark is reset.
pub open spec fn latch_spec(c: ConnView, readable: bool, writable: bool) -> ConnView {
    ConnView { can_read: readable, can_write: c.can_write || writable, eof_seen: false, ..c }
}

/// Applying what the read phase produced: when reading was on, the bytes are
/// appended (when `accepted`) and an EOF closes the connection.
pub open spec fn read_view(c: ConnView, data: Seq<u8>, read_closed: bool, accepted: bool)
    -> ConnView {
    if c.can_read {
        ConnView {
            recv: if accepted { c.recv + data } else { c.recv },
            is_open: c.is_open && !read_closed,
            eof_seen: c.eof_seen || read_closed,
            ..c
        }
    } else {
        c
    }
}

/// Applying the write attempt: success clears the send buffer, failure
/// closes the connection.
pub open spec fn write_view(c: ConnView, ok: bool) -> ConnView {
    if ok {
        ConnView { send: Seq::empty(), send_lead: 0, ..c }
    } else {
        ConnView { is_open: false, ..c }
    }
}

/// The close policy: the pair is the new state and whether to tear down
/// (drop the socket, stop the unit).  A keep-alive connection closed by this
/// tick's read EOF is healed once; a healed connection is finalized; any
/// other closed connection is torn down.
pub open spec fn policy_spec(c: ConnView) -> (ConnView, bool) {
    if !c.is_open {
        if c.keep_alive && c.eof_seen && !c.healed {
            (ConnView { is_open: true, healed: true, eof_seen: false, ..c }, false)
        } else {
            (ConnView { bound: false, ..c }, true)
        }
    } else if c.healed {
        (ConnView { is_open: false, bound: false, ..c }, true)
    } else {
        (c, false)
    }
}

#[derive(PartialEq, Eq, Structural, Clone, Copy, Debug)]
pub enum Policy {
    Proceed,
    Teardown,
}

// ---------------------------------------------------------------------------
// The executable state machine.
// ---------------------------------------------------------------------------

impl Default for Connection {
    /// A fresh connection: no socket yet, open, keep-alive, quiet flags, and
    /// empty buffers of the fixed capacity.
    fn default() -> (c: Connection)
        ensures
            c@.bound == false,
            c@.is_open,
            c@.keep_alive,
            !c@.healed,
            !c@.eof_seen,
            !c@.can_read,
            !c@.can_write,
            c@.recv == Seq::<u8>::empty(),
            c@.send == Seq::<u8>::empty(),
            c@.recv_bound == BUF_CAP as nat,
            c@.send_bound == BUF_CAP as nat,
            wf(c@),
    {
        Connection {
            bound: false,
            is_open: true,
            keep_alive: true,
            healed: false,
            eof_seen: false,
            can_read: false,
            can_write: false,
            recv_buf: bs_with_capacity(BUF_CAP),
            send_buf: bs_with_capacity(BUF_CAP),
        }
    }
}

impl Connection {
    /// Takes ownership of a freshly accepted peer: the caller keeps the
    /// socket, the connection records that it is bound and the keep-alive
    /// policy it was given.
    pub fn on_connect(&mut self, keep_alive: bool)
        ensures
            final(self)@ == (ConnView { bound: true, keep_alive, ..old(self)@ }),
    {
        self.bound = true;
        self.keep_alive = keep_alive;
    }

    pub fn is_open(&self) -> (r: bool)
        ensures
            r == self@.is_open,
    {
        self.is_open
    }

    pub fn is_bound(&self) -> (r: bool)
        ensures
            r == self@.bound,
    {
        self.bound
    }

    /// The remaining room the receive buffer reports; at least its bound
    /// minus what it holds.
    pub fn recv_room(&self) -> (r: usize)
        ensures
            r as nat + self@.recv_lead + self@.recv.len() >= self@.recv_bound,
    {
        bs_cap(&self.recv_buf)
    }

    /// Step one of a tick: record the event's flags.
    pub fn begin_work(&mut self, is_readable: bool, is_writable: bool)
        ensures
            final(self)@ == latch_spec(old(self)@, is_readable, is_writable),
    {
        self.can_read = is_readable;
        self.can_write = self.can_write || is_writable;
        self.eof_seen = false;
    }

    /// Whether this tick should read from the socket at all.
    pub fn should_read(&self) -> (r: bool)
        ensures
            r == (self@.bound && self@.is_open && self@.can_read),
    {
        self.bound && self.is_open && self.can_read
    }

    /// Appends bytes the caller read from the socket; all of them are taken
    /// when they fit under the buffer's bound, otherwise none.
    pub fn on_bytes(&mut self, data: &[u8]) -> (accepted: bool)
        ensures
            accepted ==> final(self)@ == (ConnView {
                recv: old(self)@.recv + data@,
                ..old(self)@
            }),
            !accepted ==> final(self)@ == old(self)@
                && old(self)@.recv_lead + old(self)@.recv.len() + data@.len()
                    > old(self)@.recv_bound,
    {
        let n = bs_put(&mut self.recv_buf, data);
        if n == data.len() {
            proof {
                if data@.len() == 0 {
                    assert(stream_data(self.recv_buf) =~= old(self)@.recv + data@);
                }
            }
            true
        } else {
            false
        }
    }

    /// Records that the read side reached EOF or failed this tick.
    pub fn on_read_closed(&mut self)
        ensures
            final(self)@ == (ConnView { is_open: false, eof_seen: true, ..old(self)@ }),
    {
        self.is_open = false;
        self.eof_seen = true;
    }

    /// Applies the close policy once; see `policy_spec`.
    pub fn close_policy(&mut self) -> (d: Policy)
        ensures
            final(self)@ == policy_spec(old(self)@).0,
            (d == Policy::Teardown) == policy_spec(old(self)@).1,
    {
        if !self.is_open {
            if self.keep_alive && self.eof_seen && !self.healed {
                self.is_open = true;
                self.healed = true;
                self.eof_seen = false;
                Policy::Proceed
            } else {
                self.bound = false;
                Policy::Teardown
            }
        } else if self.healed {
            self.is_open = false;
            self.bound = false;
            Policy::Teardown
        } else {
            Policy::Proceed
        }
    }

    /// Whether this tick should attempt a socket write.
    pub fn should_write(&self) -> (r: bool)
        ensures
            r == (self@.bound && self@.can_write && self@.send.len() > 0),
    {
        let pending = bs_data_len(&self.send_buf);
        self.bound && self.can_write && pending > 0
    }

    /// The bytes waiting to be written.
    pub fn send_data(&self) -> (r: Vec<u8>)
        ensures
            r@ == self@.send,
    {
        bs_peek(&self.send_buf)
    }

    /// Applies the write attempt's outcome; see `write_view`.
    pub fn on_write_result(&mut self, ok: bool)
        ensures
            final(self)@ == write_view(old(self)@, ok),
    {
        if ok {
            bs_clear(&mut self.send_buf);
        } else {
            self.is_open = false;
        }
    }

    /// The first half of a tick: applies the event's flags, what the caller
    /// read (`data`, and whether the read side closed), the close policy,
    /// and — unless the policy tore the connection down — one pass of the
    /// protocol handler, which also closes the connection when a Close frame
    /// arrived.
    pub fn on_work(&mut self, is_readable: bool, is_writable: bool, data: &[u8],
        read_closed: bool) -> (o: WorkOutcome)
        requires
            wf(old(self)@),
        ensures
            wf(final(self)@),
            ({
                let l = latch_spec(old(self)@, is_readable, is_writable);
                let v2 = read_view(l, data@, read_closed, o.accepted);
                let v3 = policy_spec(v2).0;
                let td = policy_spec(v2).1;
                &&& (l.can_read && l.recv_lead + l.recv.len() + data@.len() <= l.recv_bound
                    ==> o.accepted)
                &&& (l.can_read && !o.accepted
                    ==> l.recv_lead + l.recv.len() + data@.len() > l.recv_bound)
                &&& (!l.can_read ==> o.accepted)
                &&& o.teardown == td
                &&& (td ==> final(self)@ == v3 && !o.handled)
                &&& (!td && !o.handled ==> final(self)@ == v3 && v3.recv.len() == 0 && !o.close
                    && o.sent)
                &&& (!td && o.handled ==> v3.recv.len() > 0
                    && o.close == has_close(messages_of(v3.recv))
                    && final(self)@ == (ConnView {
                        recv: residual_of(v3.recv),
                        send: final(self)@.send,
                        is_open: v3.is_open && !o.close,
                        recv_lead: 0,
                        ..v3
                    })
                    && sent_with_date(
                        v3.send,
                        v3.send_lead,
                        v3.send_bound,
                        final(self)@.send,
                        messages_of(v3.recv),
                        o.sent,
                        o.date@,
                    ))
            }),
    {
        let ghost l0 = latch_spec(old(self)@, is_readable, is_writable);
        self.begin_work(is_readable, is_writable);
        let mut accepted = true;
        if self.can_read {
            accepted = self.on_bytes(data);
            if read_closed {
                self.on_read_closed();
            }
        }
        let ghost v2g = read_view(l0, data@, read_closed, accepted);
        proof {
            assert(self@ == v2g);
        }
        let pol = self.close_policy();
        match pol {
            Policy::Teardown => WorkOutcome {
                teardown: true,
                accepted,
                handled: false,
                close: false,
                sent: true,
                date: Ghost(Seq::empty()),
            },
            Policy::Proceed => {
                let ghost v3g = policy_spec(v2g).0;
                proof {
                    assert(self@ == v3g);
                }
                let pending = bs_data_len(&self.recv_buf);
                if pending > 0 {
                    let ghost send_pre = stream_data(self.send_buf);
                    let ghost send_lead_pre = stream_lead(self.send_buf);
                    let ghost send_bound_pre = stream_bound(self.send_buf);
                    let ghost recv_pre = stream_data(self.recv_buf);
                    let h = process(&mut self.recv_buf, &mut self.send_buf);
                    let ghost hdate: Seq<u8>;
                    proof {
                        let d0 = choose|d: Seq<u8>|
                            sent_with_date(
                                send_pre,
                                send_lead_pre,
                                send_bound_pre,
                                stream_data(self.send_buf),
                                messages_of(recv_pre),
                                h.sent,
                                d,
                            );
                        assert(sent_with_date(
                            v3g.send,
                            v3g.send_lead,
                            v3g.send_bound,
                            stream_data(self.send_buf),
                            messages_of(v3g.recv),
                            h.sent,
                            d0,
                        ));
                        hdate = d0;
                    }
                    if h.close {
                        self.is_open = false;
                    }
                    WorkOutcome {
                        teardown: false,
                        accepted,
                        handled: true,
                        close: h.close,
                        sent: h.sent,
                        date: Ghost(hdate),
                    }
                } else {
                    WorkOutcome {
                        teardown: false,
                        accepted,
                        handled: false,
                        close: false,
                        sent: true,
                        date: Ghost(Seq::empty()),
                    }
                }
            }
        }
    }

    /// The second half of a tick: applies the write attempt's outcome when
    /// one was made, then the close policy once more to finalize the tick.
    pub fn finish_work(&mut self, attempted: bool, write_ok: bool) -> (teardown: bool)
        ensures
            ({
                let v1 = if attempted {
                    write_view(old(self)@, write_ok)
                } else {
                    old(self)@
                };
                &&& final(self)@ == policy_spec(v1).0
                &&& teardown == policy_spec(v1).1
            }),
    {
        if attempted {
            self.on_write_result(write_ok);
        }
        let pol = self.close_policy();
        match pol {
            Policy::Teardown => true,
            Policy::Proceed => false,
        }
    }
}

/// What the first half of a tick observed.  `date` names the `Date` header
/// value the handler used, for the contract's sake only.
#[derive(Clone, Copy)]
pub struct WorkOutcome {
    pub teardown: bool,
    pub accepted: bool,
    pub handled: bool,
    pub close: bool,
    pub sent: bool,
    pub date: Ghost<Seq<u8>>,
}

/// `can_write`, once latched true, is never taken back: applying an event
/// can only raise it, and no other transition of a tick touches it.
pub proof fn lemma_can_write_latch_sticky(
    c: ConnView,
    readable: bool,
    writable: bool,
    data: Seq<u8>,
    read_closed: bool,
    accepted: bool,
    ok: bool,
)
    ensures
        latch_spec(c, readable, writable).can_write == (c.can_write || writable),
        read_view(c, data, read_closed, accepted).can_write == c.can_write,
        write_view(c, ok).can_write == c.can_write,
        policy_spec(c).0.can_write == c.can_write,
{
}

/// `is_open`, once false, stays false through every transition of a tick,
/// with a single exception: the close policy may heal a keep-alive
/// connection whose read side reached EOF this tick, and a healed connection
/// is torn down by the policy's very next application — heal, then finalize.
/// Teardown always releases the socket, so no further socket use is possible.
pub proof fn lemma_open_monotonic_except_heal(
    c: ConnView,
    readable: bool,
    writable: bool,
    data: Seq<u8>,
    read_closed: bool,
    accepted: bool,
    ok: bool,
)
    ensures
        latch_spec(c, readable, writable).is_open == c.is_open,
        !c.is_open ==> !read_view(c, data, read_closed, accepted).is_open,
        !c.is_open ==> !write_view(c, ok).is_open,
        ({
            let v2 = policy_spec(c).0;
            let td = policy_spec(c).1;
            &&& (!c.is_open && v2.is_open) ==> (c.keep_alive && c.eof_seen && !c.healed
                && v2.healed && !td)
            &&& v2.healed && !td ==> policy_spec(v2).1
            &&& td ==> !v2.bound
        }),
{
}

} // verus!
