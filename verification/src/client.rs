//! The caller-driven client reactor: outbound connections addressed by
//! destination string, each with its own buffers and open flag.  The caller
//! performs the socket work (connect, read, write, poll) and feeds the
//! outcomes in; the reactor keeps the books: which destinations are live,
//! what each connection has received and has yet to send, and when a closed
//! connection leaves the table.

use vstd::prelude::*;

verus! {

use parsed::stream::ByteStream;
use crate::bytestream::{
    stream_data, stream_lead, stream_bound, bs_with_capacity, bs_put, bs_peek, bs_clear,
};
use crate::http::bytes_eq;
use crate::connection::BUF_CAP;

/// The mathematical state of one outbound connection.
pub struct ClientConnView {
    pub id: nat,
    pub target: Seq<u8>,
    pub is_open: bool,
    pub recv: Seq<u8>,
    pub send: Seq<u8>,
    pub recv_lead: nat,
    pub send_lead: nat,
    pub recv_bound: nat,
    pub send_bound: nat,
}

struct ClientConn {
    id: usize,
    target: Vec<u8>,
    is_open: bool,
    recv_buf: ByteStream,
    send_buf: ByteStream,
}

impl View for ClientConn {
    type V = ClientConnView;

    closed spec fn view(&self) -> ClientConnView {
        ClientConnView {
            id: self.id as nat,
            target: self.target@,
            is_open: self.is_open,
            recv: stream_data(self.recv_buf),
            send: stream_data(self.send_buf),
            recv_lead: stream_lead(self.recv_buf),
            send_lead: stream_lead(self.send_buf),
            recv_bound: stream_bound(self.recv_buf),
            send_bound: stream_bound(self.send_buf),
        }
    }
}

/// The mathematical state of the reactor: the next id to mint and the live
/// connections in insertion order.
pub struct ClientView {
    pub counter: nat,
    pub conns: Seq<ClientConnView>,
}

pub struct Client {
    counter: usize,
    conns: Vec<ClientConn>,
}

impl View for Client {
    type V = ClientView;

    closed spec fn view(&self) -> ClientView {
        ClientView {
            counter: self.counter as nat,
            conns: self.conns@.map_values(|c: ClientConn| c@),
        }
    }
}

// ---------------------------------------------------------------------------
// Finding a connection by destination or by id.
// ---------------------------------------------------------------------------

/// The first index whose connection has the given destination, or -1.
pub open spec fn target_idx(conns: Seq<ClientConnView>, t: Seq<u8>) -> int
    decreases conns.len(),
{
    if conns.len() == 0 {
        -1
    } else if conns.first().target == t {
        0
    } else {
        let r = target_idx(conns.drop_first(), t);
        if r < 0 {
            -1
        } else {
            r + 1
        }
    }
}

/// The first index whose connection has the given id, or -1.
pub open spec fn id_idx(conns: Seq<ClientConnView>, id: nat) -> int
    decreases conns.len(),
{
    if conns.len() == 0 {
        -1
    } else if conns.first().id == id {
        0
    } else {
        let r = id_idx(conns.drop_first(), id);
        if r < 0 {
            -1
        } else {
            r + 1
        }
    }
}

pub open spec fn has_target(conns: Seq<ClientConnView>, t: Seq<u8>) -> bool {
    target_idx(conns, t) >= 0
}

pub proof fn lemma_target_idx_props(conns: Seq<ClientConnView>, t: Seq<u8>)
    ensures
        target_idx(conns, t) >= 0 ==> target_idx(conns, t) < conns.len()
            && conns[target_idx(conns, t)].target == t,
        target_idx(conns, t) < 0 ==> forall|k: int|
            0 <= k < conns.len() ==> (#[trigger] conns[k]).target != t,
    decreases conns.len(),
{
    if conns.len() > 0 && conns.first().target != t {
        lemma_target_idx_props(conns.drop_first(), t);
        assert(forall|k: int| 1 <= k < conns.len()
            ==> #[trigger] conns[k] == conns.drop_first()[k - 1]);
    }
}

pub proof fn lemma_id_idx_props(conns: Seq<ClientConnView>, id: nat)
    ensures
        id_idx(conns, id) >= 0 ==> id_idx(conns, id) < conns.len()
            && conns[id_idx(conns, id)].id == id,
        id_idx(conns, id) < 0 ==> forall|k: int|
            0 <= k < conns.len() ==> (#[trigger] conns[k]).id != id,
    decreases conns.len(),
{
    if conns.len() > 0 && conns.first().id != id {
        lemma_id_idx_props(conns.drop_first(), id);
        assert(forall|k: int| 1 <= k < conns.len()
            ==> #[trigger] conns[k] == conns.drop_first()[k - 1]);
    }
}

proof fn lemma_idx_from_scan_target(conns: Seq<ClientConnView>, t: Seq<u8>, i: int)
    requires
        0 <= i <= conns.len(),
        forall|k: int| 0 <= k < i ==> (#[trigger] conns[k]).target != t,
    ensures
        i < conns.len() && conns[i].target == t ==> target_idx(conns, t) == i,
        i == conns.len() ==> target_idx(conns, t) < 0,
    decreases i,
{
    if i > 0 {
        assert(conns.first().target != t);
        lemma_idx_from_scan_target(conns.drop_first(), t, i - 1);
        assert(forall|k: int| 0 <= k < i - 1
            ==> #[trigger] conns.drop_first()[k] == conns[k + 1]);
        if i < conns.len() && conns[i].target == t {
            assert(conns.drop_first()[i - 1] == conns[i]);
        }
    } else {
        if i < conns.len() && conns[i].target == t {
            assert(conns.first().target == t);
        } else if i == conns.len() {
        }
    }
}

proof fn lemma_idx_from_scan_id(conns: Seq<ClientConnView>, id: nat, i: int)
    requires
        0 <= i <= conns.len(),
        forall|k: int| 0 <= k < i ==> (#[trigger] conns[k]).id != id,
    ensures
        i < conns.len() && conns[i].id == id ==> id_idx(conns, id) == i,
        i == conns.len() ==> id_idx(conns, id) < 0,
    decreases i,
{
    if i > 0 {
        assert(conns.first().id != id);
        lemma_idx_from_scan_id(conns.drop_first(), id, i - 1);
        assert(forall|k: int| 0 <= k < i - 1
            ==> #[trigger] conns.drop_first()[k] == conns[k + 1]);
        if i < conns.len() && conns[i].id == id {
            assert(conns.drop_first()[i - 1] == conns[i]);
        }
    } else {
        if i < conns.len() && conns[i].id == id {
            assert(conns.first().id == id);
        }
    }
}

impl Client {
    fn find_by_target(&self, t: &[u8]) -> (r: Option<usize>)
        ensures
            match r {
                Some(i) => target_idx(self@.conns, t@) == i as int && i < self@.conns.len(),
                None => target_idx(self@.conns, t@) < 0,
            },
    {
        let ghost cv = self@.conns;
        let n = self.conns.len();
        let mut i: usize = 0;
        while i < n
            invariant
                i <= n,
                n == self.conns.len(),
                cv == self@.conns,
                cv.len() == n,
                forall|k: int| 0 <= k < i ==> (#[trigger] cv[k]).target != t@,
            decreases n - i,
        {
            if bytes_eq(self.conns[i].target.as_slice(), t) {
                proof {
                    lemma_idx_from_scan_target(cv, t@, i as int);
                }
                return Some(i);
            }
            i = i + 1;
        }
        proof {
            lemma_idx_from_scan_target(cv, t@, n as int);
        }
        None
    }

    fn find_by_id(&self, id: usize) -> (r: Option<usize>)
        ensures
            match r {
                Some(i) => id_idx(self@.conns, id as nat) == i as int && i < self@.conns.len(),
                None => id_idx(self@.conns, id as nat) < 0,
            },
    {
        let ghost cv = self@.conns;
        let n = self.conns.len();
        let mut i: usize = 0;
        while i < n
            invariant
                i <= n,
                n == self.conns.len(),
                cv == self@.conns,
                cv.len() == n,
                forall|k: int| 0 <= k < i ==> (#[trigger] cv[k]).id != id as nat,
            decreases n - i,
        {
            if self.conns[i].id == id {
                proof {
                    lemma_idx_from_scan_id(cv, id as nat, i as int);
                }
                return Some(i);
            }
            i = i + 1;
        }
        proof {
            lemma_idx_from_scan_id(cv, id as nat, n as int);
        }
        None
    }

    // -----------------------------------------------------------------------
    // The caller-facing operations.
    // -----------------------------------------------------------------------

    pub fn new() -> (c: Client)
        ensures
            c@.counter == 0,
            c@.conns == Seq::<ClientConnView>::empty(),
    {
        let c = Client { counter: 0, conns: Vec::new() };
        proof {
            assert(c@.conns =~= Seq::<ClientConnView>::empty());
        }
        c
    }

    /// The view of a freshly registered connection.
    pub open spec fn fresh_conn(id: nat, target: Seq<u8>) -> ClientConnView {
        ClientConnView {
            id,
            target,
            is_open: true,
            recv: Seq::empty(),
            send: Seq::empty(),
            recv_lead: 0,
            send_lead: 0,
            recv_bound: BUF_CAP as nat,
            send_bound: BUF_CAP as nat,
        }
    }

    /// Registers an outbound connection the caller has just opened and
    /// enrolled for writable readiness, and mints its id.
    pub fn connect(&mut self, target: Vec<u8>) -> (id: usize)
        requires
            old(self)@.counter < usize::MAX as nat,
        ensures
            id as nat == old(self)@.counter + 1,
            final(self)@.counter == old(self)@.counter + 1,
            final(self)@.conns == old(self)@.conns.push(Self::fresh_conn(id as nat, target@)),
    {
        self.counter = self.counter + 1;
        let ghost tv = target@;
        let conn = ClientConn {
            id: self.counter,
            target,
            is_open: true,
            recv_buf: bs_with_capacity(BUF_CAP),
            send_buf: bs_with_capacity(BUF_CAP),
        };
        proof {
            assert(conn@ == Self::fresh_conn(self.counter as nat, tv));
        }
        self.conns.push(conn);
        proof {
            assert(self@.conns =~= old(self)@.conns.push(Self::fresh_conn(
                self.counter as nat,
                tv,
            )));
        }
        self.counter
    }

    /// Whether a destination still has a live connection.
    pub fn has(&self, target: &[u8]) -> (r: bool)
        ensures
            r == has_target(self@.conns, target@),
    {
        match self.find_by_target(target) {
            Some(_) => true,
            None => false,
        }
    }

    /// Whether no connections remain.
    pub fn is_empty(&self) -> (r: bool)
        ensures
            r == (self@.conns.len() == 0),
    {
        self.conns.len() == 0
    }

    /// Appends bytes to a destination's send buffer; all are taken when
    /// they fit under the buffer's bound, otherwise none.
    pub fn put(&mut self, target: &[u8], payload: &[u8]) -> (n: usize)
        requires
            has_target(old(self)@.conns, target@),
        ensures
            ({
                let i = target_idx(old(self)@.conns, target@);
                let c = old(self)@.conns[i];
                &&& (n == payload@.len() ==> final(self)@.conns == old(self)@.conns.update(
                    i,
                    ClientConnView { send: c.send + payload@, ..c },
                ))
                &&& (n != payload@.len() ==> n == 0 && final(self)@ == old(self)@
                    && c.send_lead + c.send.len() + payload@.len() > c.send_bound)
                &&& (c.send_lead + c.send.len() + payload@.len() <= c.send_bound
                    ==> n == payload@.len())
                &&& final(self)@.counter == old(self)@.counter
            }),
    {
        proof {
            lemma_target_idx_props(old(self)@.conns, target@);
        }
        let i = match self.find_by_target(target) {
            Some(i) => i,
            None => {
                proof {
                    assert(false);
                }
                0
            }
        };
        let ghost pre = self@.conns;
        let conn = &mut self.conns[i];
        let n = bs_put(&mut conn.send_buf, payload);
        proof {
            let c = pre[i as int];
            if n == payload@.len() {
                assert(self@.conns =~= pre.update(
                    i as int,
                    ClientConnView { send: c.send + payload@, ..c },
                ));
            } else {
                assert(self@.conns =~= pre);
            }
        }
        n
    }

    /// Takes and clears everything a destination has received; `None` when
    /// the destination has no connection.
    pub fn get(&mut self, target: &[u8]) -> (r: Option<Vec<u8>>)
        ensures
            ({
                let i = target_idx(old(self)@.conns, target@);
                match r {
                    None => i < 0 && final(self)@ == old(self)@,
                    Some(v) => i >= 0 && v@ == old(self)@.conns[i].recv
                        && final(self)@.conns == old(self)@.conns.update(
                        i,
                        ClientConnView {
                            recv: Seq::empty(),
                            recv_lead: 0,
                            ..old(self)@.conns[i]
                        },
                    ) && final(self)@.counter == old(self)@.counter,
                }
            }),
    {
        match self.find_by_target(target) {
            None => None,
            Some(i) => {
                let ghost pre = self@.conns;
                let conn = &mut self.conns[i];
                let out = bs_peek(&conn.recv_buf);
                bs_clear(&mut conn.recv_buf);
                proof {
                    let c = pre[i as int];
                    assert(self@.conns =~= pre.update(
                        i as int,
                        ClientConnView { recv: Seq::empty(), recv_lead: 0, ..c },
                    ));
                }
                Some(out)
            }
        }
    }

    /// Applies a readable event's outcome: the bytes the caller drained from
    /// the socket (taken in full when they fit under the buffer's bound,
    /// otherwise not at all), and closure of the read side.  Unknown ids are
    /// ignored.
    pub fn apply_read(&mut self, id: usize, data: &[u8], read_closed: bool)
        ensures
            final(self)@.counter == old(self)@.counter,
            ({
                let i = id_idx(old(self)@.conns, id as nat);
                let c = old(self)@.conns[i];
                &&& (i < 0 ==> final(self)@ == old(self)@)
                &&& (i >= 0 ==> {
                    ||| final(self)@.conns == old(self)@.conns.update(
                        i,
                        ClientConnView {
                            recv: c.recv + data@,
                            is_open: c.is_open && !read_closed,
                            ..c
                        },
                    )
                    ||| (final(self)@.conns == old(self)@.conns.update(
                        i,
                        ClientConnView { is_open: c.is_open && !read_closed, ..c },
                    ) && c.recv_lead + c.recv.len() + data@.len() > c.recv_bound)
                })
                &&& (i >= 0 && c.recv_lead + c.recv.len() + data@.len() <= c.recv_bound
                    ==> final(self)@.conns == old(self)@.conns.update(
                    i,
                    ClientConnView {
                        recv: c.recv + data@,
                        is_open: c.is_open && !read_closed,
                        ..c
                    },
                ))
            }),
    {
        match self.find_by_id(id) {
            None => {}
            Some(i) => {
                let ghost pre = self@.conns;
                let conn = &mut self.conns[i];
                let n = bs_put(&mut conn.recv_buf, data);
                conn.is_open = conn.is_open && !read_closed;
                proof {
                    let c = pre[i as int];
                    if n == data@.len() {
                        assert(self@.conns =~= pre.update(
                            i as int,
                            ClientConnView {
                                recv: c.recv + data@,
                                is_open: c.is_open && !read_closed,
                                ..c
                            },
                        ));
                    } else {
                        assert(self@.conns =~= pre.update(
                            i as int,
                            ClientConnView { is_open: c.is_open && !read_closed, ..c },
                        ));
                    }
                }
            }
        }
    }

    /// Applies a writable event's outcome: a successful write clears the
    /// send buffer, a failed one closes the connection, and closure of the
    /// write side closes it too.  Unknown ids are ignored.
    pub fn apply_write(&mut self, id: usize, write_closed: bool, write_ok: bool)
        ensures
            final(self)@.counter == old(self)@.counter,
            ({
                let i = id_idx(old(self)@.conns, id as nat);
                let c = old(self)@.conns[i];
                &&& (i < 0 ==> final(self)@ == old(self)@)
                &&& (i >= 0 ==> final(self)@.conns == old(self)@.conns.update(
                    i,
                    ClientConnView {
                        send: if write_ok { Seq::empty() } else { c.send },
                        send_lead: if write_ok { 0 } else { c.send_lead },
                        is_open: c.is_open && write_ok && !write_closed,
                        ..c
                    },
                ))
            }),
    {
        match self.find_by_id(id) {
            None => {}
            Some(i) => {
                let ghost pre = self@.conns;
                let conn = &mut self.conns[i];
                if write_ok {
                    bs_clear(&mut conn.send_buf);
                } else {
                    conn.is_open = false;
                }
                conn.is_open = conn.is_open && !write_closed;
                proof {
                    let c = pre[i as int];
                    assert(self@.conns =~= pre.update(
                        i as int,
                        ClientConnView {
                            send: if write_ok { Seq::empty() } else { c.send },
                            send_lead: if write_ok { 0nat } else { c.send_lead },
                            is_open: c.is_open && write_ok && !write_closed,
                            ..c
                        },
                    ));
                }
            }
        }
    }

    /// The bytes a destination's connection has yet to send.
    pub fn send_pending(&self, id: usize) -> (r: Option<Vec<u8>>)
        ensures
            ({
                let i = id_idx(self@.conns, id as nat);
                match r {
                    None => i < 0,
                    Some(v) => i >= 0 && v@ == self@.conns[i].send,
                }
            }),
    {
        match self.find_by_id(id) {
            None => None,
            Some(i) => Some(bs_peek(&self.conns[i].send_buf)),
        }
    }

    /// Ends one event's handling: a still-open connection is kept (the
    /// caller re-registers it), a closed one leaves the table together with
    /// its destination.
    pub fn finish_event(&mut self, id: usize) -> (still: bool)
        ensures
            ({
                let i = id_idx(old(self)@.conns, id as nat);
                &&& (i < 0 ==> final(self)@ == old(self)@ && !still)
                &&& (i >= 0 && old(self)@.conns[i].is_open ==> final(self)@ == old(self)@
                    && still)
                &&& (i >= 0 && !old(self)@.conns[i].is_open ==> !still
                    && final(self)@.conns == old(self)@.conns.remove(i)
                    && final(self)@.counter == old(self)@.counter)
            }),
    {
        match self.find_by_id(id) {
            None => false,
            Some(i) => {
                if self.conns[i].is_open {
                    true
                } else {
                    let ghost pre = self@.conns;
                    let _ = self.conns.remove(i);
                    proof {
                        assert(self@.conns =~= pre.remove(i as int));
                    }
                    false
                }
            }
        }
    }
}

/// Once the sole destination's connection has closed, the table empties:
/// finishing that event removes the closed connection, and with the only
/// one gone `is_empty` reports true.
pub proof fn lemma_sole_destination_close(conns: Seq<ClientConnView>, id: nat)
    requires
        conns.len() == 1,
        id_idx(conns, id) == 0,
        !conns[0].is_open,
    ensures
        conns.remove(0).len() == 0,
{
}

// ---------------------------------------------------------------------------
// The demo session: one destination, one greeting, then poll until the
// destination closes, collecting everything received.  The socket outcomes
// arrive as a trace: per tick, the events the multiplexer reported, each
// with the bytes its read produced and whether its write went through.
// ---------------------------------------------------------------------------

pub struct EventView {
    pub id: nat,
    pub readable: bool,
    pub writable: bool,
    pub read_closed: bool,
    pub write_closed: bool,
    pub data: Seq<u8>,
    pub write_ok: bool,
}

/// One readiness event and what the caller's socket work for it produced.
pub struct PollEvent {
    pub id: usize,
    pub readable: bool,
    pub writable: bool,
    pub read_closed: bool,
    pub write_closed: bool,
    pub data: Vec<u8>,
    pub write_ok: bool,
}

impl View for PollEvent {
    type V = EventView;

    open spec fn view(&self) -> EventView {
        EventView {
            id: self.id as nat,
            readable: self.readable,
            writable: self.writable,
            read_closed: self.read_closed,
            write_closed: self.write_closed,
            data: self.data@,
            write_ok: self.write_ok,
        }
    }
}

/// Everything one poll call reported.
pub struct PollTick {
    pub events: Vec<PollEvent>,
}

impl View for PollTick {
    type V = Seq<EventView>;

    open spec fn view(&self) -> Seq<EventView> {
        self.events@.map_values(|e: PollEvent| e@)
    }
}

/// One event applied to the reactor: drain-then-send on the connection the
/// id names, then keep it (still open) or drop it (closed).
pub open spec fn event_step(v: ClientView, e: EventView) -> ClientView {
    let i = id_idx(v.conns, e.id);
    if i < 0 {
        v
    } else {
        let c = v.conns[i];
        let c1 = if e.readable {
            ClientConnView { recv: c.recv + e.data, is_open: c.is_open && !e.read_closed, ..c }
        } else {
            c
        };
        let c2 = if e.writable {
            ClientConnView {
                send: if e.write_ok { Seq::empty() } else { c1.send },
                send_lead: if e.write_ok { 0nat } else { c1.send_lead },
                is_open: c1.is_open && e.write_ok && !e.write_closed,
                ..c1
            }
        } else {
            c1
        };
        if c2.is_open {
            ClientView { conns: v.conns.update(i, c2), ..v }
        } else {
            ClientView { conns: v.conns.remove(i), ..v }
        }
    }
}

pub open spec fn tick_steps(v: ClientView, events: Seq<EventView>) -> ClientView
    decreases events.len(),
{
    if events.len() == 0 {
        v
    } else {
        tick_steps(event_step(v, events.first()), events.drop_first())
    }
}

/// Draining the target's receive buffer at the end of a tick: whatever it
/// holds is taken (and reported when non-empty).
pub open spec fn drain_step(v: ClientView, t: Seq<u8>) -> (ClientView, Seq<Seq<u8>>) {
    let i = target_idx(v.conns, t);
    if i < 0 {
        (v, Seq::empty())
    } else {
        let c = v.conns[i];
        let v2 = ClientView {
            conns: v.conns.update(i, ClientConnView { recv: Seq::empty(), recv_lead: 0, ..c }),
            ..v
        };
        if c.recv.len() == 0 {
            (v2, Seq::empty())
        } else {
            (v2, seq![c.recv])
        }
    }
}

/// The whole session from a state: ticks are consumed until none remain or
/// no connection does; the second component is everything reported.
pub open spec fn run_steps(v: ClientView, t: Seq<u8>, ticks: Seq<Seq<EventView>>)
    -> (ClientView, Seq<Seq<u8>>)
    decreases ticks.len(),
{
    if ticks.len() == 0 || v.conns.len() == 0 {
        (v, Seq::empty())
    } else {
        let v1 = tick_steps(v, ticks.first());
        let p = drain_step(v1, t);
        let rec = run_steps(p.0, t, ticks.drop_first());
        (rec.0, p.1 + rec.1)
    }
}

/// What the session reports: connect to the target, enqueue the payload,
/// then fold the trace.
pub open spec fn run_model(target: Seq<u8>, payload: Seq<u8>, ticks: Seq<Seq<EventView>>)
    -> Seq<Seq<u8>> {
    let v0 = ClientView {
        counter: 1,
        conns: seq![
            ClientConnView {
                id: 1,
                target,
                is_open: true,
                recv: Seq::empty(),
                send: payload,
                recv_lead: 0,
                send_lead: 0,
                recv_bound: BUF_CAP as nat,
                send_bound: BUF_CAP as nat,
            },
        ],
    };
    run_steps(v0, target, ticks).1
}

/// The bytes a tick's reads deliver in total.
pub open spec fn events_data_len(events: Seq<EventView>) -> int
    decreases events.len(),
{
    if events.len() == 0 {
        0
    } else {
        events.first().data.len() + events_data_len(events.drop_first())
    }
}

proof fn lemma_events_data_nonneg(events: Seq<EventView>)
    ensures
        events_data_len(events) >= 0,
    decreases events.len(),
{
    if events.len() > 0 {
        lemma_events_data_nonneg(events.drop_first());
    }
}

/// The standing shape of the demo session's one connection.
pub open spec fn demo_conn_shape(c: ClientConnView, t: Seq<u8>) -> bool {
    &&& c.id == 1
    &&& c.target == t
    &&& c.recv_lead == 0
    &&& c.send_lead == 0
    &&& c.recv_bound == BUF_CAP as nat
    &&& c.send_bound == BUF_CAP as nat
}

/// Runs the demo session over the given trace and returns the drained
/// chunks, exactly as the session model folds them.  The payload and each
/// tick's reads are asked to fit under the fixed buffer capacity, which is
/// all the buffers can take in one tick.
pub fn run(target: &Vec<u8>, payload: &Vec<u8>, ticks: &Vec<PollTick>) -> (report: Vec<Vec<u8>>)
    requires
        payload@.len() <= BUF_CAP as nat,
        forall|i: int| 0 <= i < ticks@.len()
            ==> events_data_len(#[trigger] ticks@[i]@) <= BUF_CAP as int,
    ensures
        report@.map_values(|v: Vec<u8>| v@)
            == run_model(target@, payload@, ticks@.map_values(|t: PollTick| t@)),
{
    let ghost tv = ticks@.map_values(|t: PollTick| t@);
    let ghost full = run_model(target@, payload@, tv);
    let mut client = Client::new();
    let _id = client.connect(crate::http::clone_bytes(target));
    proof {
        assert(client@.conns =~= seq![Client::fresh_conn(1, target@)]);
        assert(client@.conns[0].target == target@);
        assert(target_idx(client@.conns, target@) == 0);
    }
    let _n = client.put(target.as_slice(), payload.as_slice());
    let ghost v0 = ClientView {
        counter: 1,
        conns: seq![
            ClientConnView {
                id: 1,
                target: target@,
                is_open: true,
                recv: Seq::empty(),
                send: payload@,
                recv_lead: 0,
                send_lead: 0,
                recv_bound: BUF_CAP as nat,
                send_bound: BUF_CAP as nat,
            },
        ],
    };
    proof {
        assert(client@.conns =~= v0.conns);
        assert(client@ == v0);
        assert(tv.skip(0) =~= tv);
        assert(full == run_steps(client@, target@, tv.skip(0)).1);
    }
    let mut report: Vec<Vec<u8>> = Vec::new();
    let mut done = false;
    let mut k: usize = 0;
    let n = ticks.len();
    while k < n && !done
        invariant
            k <= n,
            n == ticks@.len(),
            tv == ticks@.map_values(|t: PollTick| t@),
            tv.len() == n,
            forall|i: int| 0 <= i < tv.len()
                ==> events_data_len(#[trigger] tv[i]) <= BUF_CAP as int,
            full == run_model(target@, payload@, tv),
            full == report@.map_values(|v: Vec<u8>| v@)
                + run_steps(client@, target@, tv.skip(k as int)).1,
            client@.conns.len() <= 1,
            client@.conns.len() == 1 ==> demo_conn_shape(client@.conns[0], target@)
                && client@.conns[0].recv.len() == 0,
            done ==> client@.conns.len() == 0,
        decreases n - k, (if done { 0int } else { 1int }),
    {
        if client.is_empty() {
            done = true;
        } else {
            let ghost vstart = client@;
            let ghost evv = tv[k as int];
            proof {
                assert(evv == ticks@[k as int]@);
                assert(evv.skip(0) =~= evv);
                lemma_events_data_nonneg(evv);
            }
            let tick = &ticks[k];
            let m = tick.events.len();
            let mut j: usize = 0;
            while j < m
                invariant
                    j <= m,
                    m == tick.events.len(),
                    evv == tick@,
                    evv.len() == m,
                    tick_steps(client@, evv.skip(j as int)) == tick_steps(vstart, evv),
                    client@.conns.len() <= 1,
                    client@.conns.len() == 1 ==> demo_conn_shape(client@.conns[0], target@)
                        && client@.conns[0].recv.len() + events_data_len(evv.skip(j as int))
                            <= BUF_CAP as int,
                decreases m - j,
            {
                let e = &tick.events[j];
                let ghost ev = evv[j as int];
                let ghost vcur = client@;
                let ghost i0 = id_idx(vcur.conns, ev.id);
                proof {
                    assert(ev == e@);
                    lemma_id_idx_props(vcur.conns, ev.id);
                    assert(evv.skip(j as int).first() == ev);
                    assert(evv.skip(j as int).drop_first() =~= evv.skip(j + 1));
                    lemma_events_data_nonneg(evv.skip(j + 1));
                }
                if e.readable {
                    client.apply_read(e.id, e.data.as_slice(), e.read_closed);
                }
                if e.writable {
                    client.apply_write(e.id, e.write_closed, e.write_ok);
                }
                let _still = client.finish_event(e.id);
                proof {
                    if i0 < 0 {
                        assert(client@ == vcur);
                        assert(event_step(vcur, ev) == vcur);
                    } else {
                        let c = vcur.conns[i0];
                        let c1 = if ev.readable {
                            ClientConnView {
                                recv: c.recv + ev.data,
                                is_open: c.is_open && !ev.read_closed,
                                ..c
                            }
                        } else {
                            c
                        };
                        let c2 = if ev.writable {
                            ClientConnView {
                                send: if ev.write_ok { Seq::empty() } else { c1.send },
                                send_lead: if ev.write_ok { 0nat } else { c1.send_lead },
                                is_open: c1.is_open && ev.write_ok && !ev.write_closed,
                                ..c1
                            }
                        } else {
                            c1
                        };
                        assert(i0 == 0);
                        if c2.is_open {
                            assert(client@.conns =~= vcur.conns.update(0, c2));
                            assert(client@ == event_step(vcur, ev));
                        } else {
                            assert(client@.conns =~= vcur.conns.remove(0));
                            assert(client@ == event_step(vcur, ev));
                        }
                    }
                    assert(tick_steps(vcur, evv.skip(j as int))
                        == tick_steps(event_step(vcur, ev), evv.skip(j + 1)));
                }
                j = j + 1;
            }
            proof {
                assert(evv.skip(m as int) =~= Seq::<EventView>::empty());
                assert(tick_steps(client@, evv.skip(m as int)) == client@);
                assert(client@ == tick_steps(vstart, evv));
            }
            let ghost v1 = client@;
            let ghost dpair = drain_step(v1, target@);
            let ghost routs0 = report@.map_values(|v: Vec<u8>| v@);
            match client.get(target.as_slice()) {
                None => {
                    proof {
                        assert(target_idx(v1.conns, target@) < 0);
                        assert(client@ == dpair.0);
                        assert(dpair.1 =~= Seq::<Seq<u8>>::empty());
                        assert(routs0 + dpair.1 =~= routs0);
                    }
                }
                Some(chunk) => {
                    proof {
                        assert(client@ == dpair.0);
                    }
                    if chunk.len() > 0 {
                        let ghost cv = chunk@;
                        report.push(chunk);
                        proof {
                            assert(report@.map_values(|v: Vec<u8>| v@)
                                =~= routs0.push(cv));
                            assert(routs0.push(cv) =~= routs0 + dpair.1);
                        }
                    } else {
                        proof {
                            assert(dpair.1 =~= Seq::<Seq<u8>>::empty());
                            assert(routs0 + dpair.1 =~= routs0);
                        }
                    }
                }
            }
            proof {
                assert(tv.skip(k as int).first() == evv);
                assert(tv.skip(k as int).drop_first() =~= tv.skip(k + 1));
                assert(vstart.conns.len() > 0);
                assert(run_steps(vstart, target@, tv.skip(k as int)).1
                    == dpair.1 + run_steps(dpair.0, target@, tv.skip(k + 1)).1);
                assert(routs0 + (dpair.1 + run_steps(client@, target@, tv.skip(k + 1)).1)
                    =~= (routs0 + dpair.1) + run_steps(client@, target@, tv.skip(k + 1)).1);
            }
            k = k + 1;
        }
    }
    proof {
        if done {
            assert(run_steps(client@, target@, tv.skip(k as int)).1
                =~= Seq::<Seq<u8>>::empty());
        } else {
            assert(tv.skip(k as int) =~= Seq::<Seq<EventView>>::empty());
            assert(run_steps(client@, target@, tv.skip(k as int)).1
                =~= Seq::<Seq<u8>>::empty());
        }
        assert(report@.map_values(|v: Vec<u8>| v@) + Seq::<Seq<u8>>::empty()
            =~= report@.map_values(|v: Vec<u8>| v@));
    }
    report
}

} // verus!
