use mio_reactor::client::{run, Client, PollEvent, PollTick};
use mio_reactor::server::{Listener, Route};

fn addr() -> Vec<u8> {
    b"127.0.0.1:9000".to_vec()
}

fn event(id: usize) -> PollEvent {
    PollEvent {
        id,
        readable: false,
        writable: false,
        read_closed: false,
        write_closed: false,
        data: Vec::new(),
        write_ok: true,
    }
}

#[test]
fn connect_registers_the_destination() {
    let mut c = Client::new();
    assert!(c.is_empty());
    assert!(!c.has(&addr()));
    let id = c.connect(addr());
    assert_eq!(id, 1);
    assert!(!c.is_empty());
    assert!(c.has(&addr()));
    assert!(!c.has(b"10.0.0.1:80"));
}

#[test]
fn put_then_send_pending_round_trips() {
    let mut c = Client::new();
    let id = c.connect(addr());
    let n = c.put(&addr(), b"hello there!");
    assert_eq!(n, 12);
    let pending = c.send_pending(id).unwrap();
    assert_eq!(pending, b"hello there!".to_vec());
}

#[test]
fn get_drains_what_was_received() {
    let mut c = Client::new();
    let id = c.connect(addr());
    let mut e = event(id);
    e.readable = true;
    e.data = b"pong".to_vec();
    c.apply_read(e.id, &e.data, e.read_closed);
    let got = c.get(&addr()).unwrap();
    assert_eq!(got, b"pong".to_vec());
    let again = c.get(&addr()).unwrap();
    assert_eq!(again, Vec::<u8>::new());
}

#[test]
fn closed_sole_destination_empties_the_reactor() {
    let mut c = Client::new();
    let id = c.connect(addr());
    c.apply_read(id, b"", true);
    let still = c.finish_event(id);
    assert!(!still);
    assert!(c.is_empty());
    assert!(!c.has(&addr()));
}

#[test]
fn write_failure_closes_the_connection() {
    let mut c = Client::new();
    let id = c.connect(addr());
    c.put(&addr(), b"x");
    c.apply_write(id, false, false);
    let still = c.finish_event(id);
    assert!(!still);
    assert!(c.is_empty());
}

#[test]
fn unknown_event_ids_are_ignored() {
    let mut c = Client::new();
    let id = c.connect(addr());
    c.apply_read(id + 7, b"stray", false);
    c.apply_write(id + 7, false, false);
    assert!(!c.finish_event(id + 7));
    assert!(c.has(&addr()));
    let got = c.get(&addr()).unwrap();
    assert_eq!(got, Vec::<u8>::new());
}

#[test]
fn run_collects_replies_until_the_peer_closes() {
    let tick1 = PollTick {
        events: vec![{
            let mut e = event(1);
            e.writable = true;
            e
        }],
    };
    let tick2 = PollTick {
        events: vec![{
            let mut e = event(1);
            e.readable = true;
            e.data = b"pong".to_vec();
            e
        }],
    };
    let tick3 = PollTick {
        events: vec![{
            let mut e = event(1);
            e.readable = true;
            e.read_closed = true;
            e
        }],
    };
    let tick4 = PollTick { events: vec![] };
    let report = run(
        &addr(),
        &b"hello there!".to_vec(),
        &vec![tick1, tick2, tick3, tick4],
    );
    assert_eq!(report, vec![b"pong".to_vec()]);
}

#[test]
fn run_with_no_events_reports_nothing() {
    let ticks = vec![PollTick { events: vec![] }, PollTick { events: vec![] }];
    let report = run(&addr(), &b"hi".to_vec(), &ticks);
    assert_eq!(report, Vec::<Vec<u8>>::new());
}

#[test]
fn listener_mints_increasing_ids_with_their_tags() {
    let mut l = Listener::new();
    let p1 = l.accept_peer();
    let p2 = l.accept_peer();
    let p3 = l.accept_peer();
    assert_eq!((p1.id, p2.id, p3.id), (1, 2, 3));
    assert_eq!(p1.tag, b"1".to_vec());
    assert_eq!(p3.tag, b"3".to_vec());
}

#[test]
fn listener_routes_the_reserved_token_to_accept() {
    let l = Listener::new();
    assert!(matches!(l.route(0, true, false), Route::Accept));
    match l.route(17, true, false) {
        Route::Accept => panic!("token 17 must dispatch"),
        Route::Dispatch(tag, w) => {
            assert_eq!(tag, b"17".to_vec());
            assert!(w.is_readable);
            assert!(!w.is_writable);
        }
    }
}
