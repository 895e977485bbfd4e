//! The listener's decisions: the reserved listening token, minting a fresh
//! connection id with the unit name derived from it, and routing a readiness
//! event either to the accept loop or to the connection the token names.
//! Binding, polling and accepting sockets belong to the embedding program.

use vstd::prelude::*;

verus! {

use crate::http::{dec_digits, u64_digits};

/// The boot directive: the first message a listener receives; it answers by
/// scheduling its perpetual poll loop.
#[derive(Debug)]
pub struct Start;

/// The readiness flags delivered to one connection for one tick.
#[derive(PartialEq, Eq, Structural, Clone, Copy, Debug)]
pub struct Work {
    pub is_readable: bool,
    pub is_writable: bool,
}

/// Where one readiness event goes: the reserved token means the accept
/// loop, any other token names the connection to hand the flags to.
pub enum Route {
    Accept,
    Dispatch(Vec<u8>, Work),
}

/// The listener state: a counter minting one id per accepted peer.  Ids
/// start at 1; 0 is reserved for the listening socket itself.
pub struct Listener {
    counter: usize,
}

impl View for Listener {
    type V = nat;

    closed spec fn view(&self) -> nat {
        self.counter as nat
    }
}

/// What an accepted peer is registered under: its id, and the unit name
/// (the id's decimal digits) the connection is spawned as.
pub struct AcceptedPeer {
    pub id: usize,
    pub tag: Vec<u8>,
}

impl Listener {
    pub fn new() -> (l: Listener)
        ensures
            l@ == 0,
    {
        Listener { counter: 0 }
    }

    /// Mints the id and unit name for one accepted peer.  The counter only
    /// grows, so no id is handed out twice and none collides with the
    /// reserved listening token.
    pub fn accept_peer(&mut self) -> (p: AcceptedPeer)
        requires
            old(self)@ < usize::MAX as nat,
        ensures
            final(self)@ == old(self)@ + 1,
            p.id as nat == final(self)@,
            p.id >= 1,
            p.tag@ == dec_digits(p.id as int),
    {
        self.counter = self.counter + 1;
        let tag = u64_digits(self.counter as u64);
        AcceptedPeer { id: self.counter, tag }
    }

    /// Routes one readiness event by its token.
    pub fn route(&self, token: usize, is_readable: bool, is_writable: bool) -> (r: Route)
        ensures
            match r {
                Route::Accept => token == 0,
                Route::Dispatch(tag, w) => token != 0 && tag@ == dec_digits(token as int)
                    && w.is_readable == is_readable && w.is_writable == is_writable,
            },
    {
        if token == 0 {
            Route::Accept
        } else {
            let tag = u64_digits(token as u64);
            Route::Dispatch(tag, Work { is_readable, is_writable })
        }
    }
}

} // verus!
