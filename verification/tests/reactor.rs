use ramjet_node::bridge::{Bridge, Cmd, ConnectionState, Sent, MAX_OUTBOUND};
use ramjet_node::conn::{Config, BAD_REQUEST, MAX_HANDSHAKE, MAX_MESSAGE};
use ramjet_node::dispatch::forget_closed;
use ramjet_node::messages::{Action, Completion, JsEvent, Op};
use ramjet_node::routing::{
    tag, ConnectionIds, KIND_ACCEPT, KIND_CLOSE, KIND_READ, KIND_WAKE, KIND_WRITE,
};
use ramjet_node::server::{Errnos, Server, NATIVE_FUSED_MIN_READ};

const LISTENER: i32 = 3;
const WAKE: i32 = 4;
const FD: i32 = 7;

const RESPONSE: &str = "HTTP/1.1 101 Switching Protocols\r\nUpgrade: websocket\r\nConnection: Upgrade\r\nSec-WebSocket-Accept: s3pPLMBiTxaQ9kYGzzhZRbK+xOo=\r\n\r\n";

struct Rig {
    server: Server,
    bridge: Bridge,
    ids: ConnectionIds,
}

fn rig(native_echo: bool, wants_message: bool) -> Rig {
    let errnos = Errnos {
        conn_aborted: libc::ECONNABORTED,
        conn_reset: libc::ECONNRESET,
        invalid: libc::EINVAL,
        interrupted: libc::EINTR,
        canceled: libc::ECANCELED,
    };
    let config = Config { native_echo, wants_message };
    Rig {
        server: Server::new(LISTENER, WAKE, config, true, errnos),
        bridge: Bridge::new(),
        ids: ConnectionIds::new(),
    }
}

impl Rig {
    fn done(
        &mut self,
        user: u64,
        result: Result<i64, Option<i32>>,
        buf: Option<Vec<u8>>,
    ) -> Result<Vec<Action>, Option<i32>> {
        let completion = Completion { user, result, buf };
        self.server.on_completion(&mut self.bridge, &mut self.ids, completion)
    }

    fn accept(&mut self, fd: i32) -> Vec<Action> {
        self.done(tag(KIND_ACCEPT, LISTENER), Ok(i64::from(fd)), None).unwrap()
    }

    fn read(&mut self, fd: i32, bytes: &[u8]) -> Vec<Action> {
        let n = bytes.len() as i64;
        self.done(tag(KIND_READ, fd), Ok(n), Some(bytes.to_vec())).unwrap()
    }

    fn wrote(&mut self, fd: i32) -> Vec<Action> {
        self.done(tag(KIND_WRITE, fd), Ok(1), None).unwrap()
    }

    fn wake(&mut self) -> Vec<Action> {
        self.done(tag(KIND_WAKE, WAKE), Ok(1), None).unwrap()
    }

    /// Accept a connection and carry its upgrade through.
    fn open(&mut self, fd: i32) -> u64 {
        self.accept(fd);
        let id = self.ids.next - 1;
        self.read(fd, &request());
        assert_eq!(self.wrote(fd), []);
        id
    }

    fn events(&mut self) -> Vec<JsEvent> {
        match self.server.dispatch_events(&mut self.bridge) {
            Some(batch) => {
                forget_closed(&mut self.bridge, &batch.events);
                batch.events
            }
            None => Vec::new(),
        }
    }

    fn pending(&self, id: u64) -> usize {
        self.bridge.state(id).unwrap().pending
    }
}

fn request() -> Vec<u8> {
    b"GET /chat HTTP/1.1\r\nHost: localhost\r\nUpgrade: websocket\r\nConnection: Upgrade\r\nSec-WebSocket-Key: dGhlIHNhbXBsZSBub25jZQ==\r\nSec-WebSocket-Version: 13\r\n\r\n".to_vec()
}

/// A masked client frame.
fn frame(first: u8, payload: &[u8]) -> Vec<u8> {
    let mut out = vec![first];
    if payload.len() < 126 {
        out.push(0x80 | payload.len() as u8);
    } else if payload.len() <= 65_535 {
        out.push(0x80 | 126);
        out.extend_from_slice(&(payload.len() as u16).to_be_bytes());
    } else {
        out.push(0x80 | 127);
        out.extend_from_slice(&(payload.len() as u64).to_be_bytes());
    }
    let key = [0x11u8, 0x22, 0x33, 0x44];
    out.extend_from_slice(&key);
    for (i, byte) in payload.iter().enumerate() {
        out.push(byte ^ key[i % 4]);
    }
    out
}

/// The frame a server sends for the same payload.
fn reply(first: u8, payload: &[u8]) -> Vec<u8> {
    let mut out = vec![first];
    if payload.len() < 126 {
        out.push(payload.len() as u8);
    } else if payload.len() <= 65_535 {
        out.push(126);
        out.extend_from_slice(&(payload.len() as u16).to_be_bytes());
    } else {
        out.push(127);
        out.extend_from_slice(&(payload.len() as u64).to_be_bytes());
    }
    out.extend_from_slice(payload);
    out
}

fn closing(code: u16) -> Vec<u8> {
    reply(0x88, &code.to_be_bytes())
}

fn submit(op: Op, kind: u64, fd: i32) -> Action {
    Action::Submit { op, user: tag(kind, fd) }
}

fn write(fd: i32, buf: Vec<u8>) -> Action {
    submit(Op::Write { fd, buf }, KIND_WRITE, fd)
}

fn read_again(fd: i32) -> Action {
    submit(Op::ReadPooled { fd }, KIND_READ, fd)
}

fn close(fd: i32) -> Action {
    submit(Op::Close { fd }, KIND_CLOSE, fd)
}

fn recycle(bytes: &[u8]) -> Action {
    Action::Recycle { buf: bytes.to_vec() }
}

fn rearm() -> Action {
    submit(Op::ReadPooled { fd: WAKE }, KIND_WAKE, WAKE)
}

fn listen_again() -> Action {
    submit(Op::Accept { fd: LISTENER }, KIND_ACCEPT, LISTENER)
}

#[test]
fn the_reactor_starts_by_listening_and_parking_on_the_wake_pipe() {
    let r = rig(false, true);
    assert_eq!(r.server.start(), [listen_again(), rearm()]);
}

#[test]
fn an_accepted_connection_is_read_and_the_listener_asked_again() {
    let mut r = rig(false, true);
    assert_eq!(r.accept(FD), [listen_again(), read_again(FD)]);
    assert_eq!(r.bridge.state(1), Some(ConnectionState { pending: 0, live: true }));
    assert_eq!(r.ids.next, 2);
    assert_eq!(r.events(), []);
}

#[test]
fn a_connection_that_died_before_it_was_taken_says_nothing_of_the_listener() {
    let mut r = rig(false, true);
    let user = tag(KIND_ACCEPT, LISTENER);
    for errno in [libc::ECONNABORTED, libc::ECONNRESET, libc::EINVAL, libc::EINTR] {
        assert_eq!(r.done(user, Err(Some(errno)), None), Ok(vec![listen_again()]));
    }
    assert_eq!(r.ids.next, 1);
    assert_eq!(r.done(user, Err(Some(libc::EMFILE)), None), Err(Some(libc::EMFILE)));
    assert_eq!(r.done(user, Err(None), None), Err(None));
}

#[test]
fn an_upgrade_is_answered_and_node_told() {
    let mut r = rig(false, true);
    r.accept(FD);
    assert_eq!(
        r.read(FD, &request()),
        [recycle(&request()), write(FD, RESPONSE.as_bytes().to_vec()), read_again(FD)]
    );
    assert_eq!(r.events(), [JsEvent::Open { id: 1 }]);
    assert_eq!(r.events(), []);
}

#[test]
fn an_upgrade_may_come_in_pieces_with_frames_behind_it() {
    let mut r = rig(false, true);
    r.accept(FD);
    let request = request();
    let (head, tail) = request.split_at(40);
    assert_eq!(r.read(FD, head), [recycle(head), read_again(FD)]);
    let mut rest = tail.to_vec();
    rest.extend_from_slice(&frame(0x81, b"early"));
    assert_eq!(
        r.read(FD, &rest),
        [recycle(&rest), write(FD, RESPONSE.as_bytes().to_vec()), read_again(FD)]
    );
    assert_eq!(
        r.events(),
        [
            JsEvent::Open { id: 1 },
            JsEvent::Message { id: 1, data: b"early".to_vec(), binary: false },
        ]
    );
}

#[test]
fn a_refused_request_is_answered_and_closed_and_node_hears_nothing() {
    let mut r = rig(false, true);
    r.accept(FD);
    let bad = b"GET / HTTP/1.1\r\nHost: localhost\r\n\r\n";
    assert_eq!(
        BAD_REQUEST,
        "HTTP/1.1 400 Bad Request\r\nConnection: close\r\nContent-Length: 0\r\n\r\n"
    );
    assert_eq!(
        r.read(FD, bad),
        [recycle(bad), write(FD, BAD_REQUEST.as_bytes().to_vec())]
    );
    assert_eq!(r.wrote(FD), [close(FD)]);
    assert_eq!(r.events(), []);
    assert_eq!(r.bridge.state(1), None);
    // The close is done, and there is nothing left to do about it.
    assert_eq!(r.done(tag(KIND_CLOSE, FD), Ok(0), None), Ok(Vec::new()));
}

#[test]
fn an_unfinished_request_cannot_grow_for_ever() {
    let mut r = rig(false, true);
    r.accept(FD);
    let longest = vec![b'x'; MAX_HANDSHAKE];
    assert_eq!(r.read(FD, &longest), [recycle(&longest), read_again(FD)]);
    assert_eq!(
        r.read(FD, b"x"),
        [recycle(b"x"), write(FD, BAD_REQUEST.as_bytes().to_vec())]
    );
}

#[test]
fn a_finished_request_cannot_be_too_long_either() {
    let mut r = rig(false, true);
    r.accept(FD);
    let mut long = request();
    long.truncate(long.len() - 2);
    long.extend_from_slice(format!("Cookie: {}\r\n\r\n", "c".repeat(MAX_HANDSHAKE)).as_bytes());
    assert_eq!(
        r.read(FD, &long),
        [recycle(&long), write(FD, BAD_REQUEST.as_bytes().to_vec())]
    );
    assert_eq!(r.events(), []);
}

#[test]
fn messages_go_to_node_as_they_came() {
    let mut r = rig(false, true);
    let id = r.open(FD);
    let mut bytes = frame(0x81, "grüße".as_bytes());
    bytes.extend_from_slice(&frame(0x82, &[0, 255, 1]));
    assert_eq!(r.read(FD, &bytes), [recycle(&bytes), read_again(FD)]);
    assert_eq!(
        r.events(),
        [
            JsEvent::Open { id },
            JsEvent::Message { id, data: "grüße".as_bytes().to_vec(), binary: false },
            JsEvent::Message { id, data: vec![0, 255, 1], binary: true },
        ]
    );
}

#[test]
fn without_a_message_handler_messages_are_dropped() {
    let mut r = rig(false, false);
    let id = r.open(FD);
    let bytes = frame(0x81, b"hello");
    assert_eq!(r.read(FD, &bytes), [recycle(&bytes), read_again(FD)]);
    assert_eq!(r.events(), [JsEvent::Open { id }]);
}

#[test]
fn a_fragmented_message_is_one_message() {
    let mut r = rig(false, true);
    let id = r.open(FD);
    r.read(FD, &frame(0x01, b"frag"));
    r.read(FD, &frame(0x80, b"ment"));
    assert_eq!(
        r.events(),
        [
            JsEvent::Open { id },
            JsEvent::Message { id, data: b"fragment".to_vec(), binary: false },
        ]
    );
}

#[test]
fn a_small_message_is_echoed_through_the_stream() {
    let mut r = rig(true, false);
    let id = r.open(FD);
    let bytes = frame(0x81, b"hi");
    assert!(bytes.len() <= NATIVE_FUSED_MIN_READ);
    assert_eq!(
        r.read(FD, &bytes),
        [recycle(&bytes), write(FD, vec![0x81, 2, b'h', b'i']), read_again(FD)]
    );
    assert_eq!(r.pending(id), 4);
    assert_eq!(r.wrote(FD), []);
    assert_eq!(r.pending(id), 0);
    assert_eq!(r.events(), [JsEvent::Open { id }]);
}

#[test]
fn a_whole_frame_is_echoed_from_the_buffer_it_lies_in() {
    let mut r = rig(true, false);
    let id = r.open(FD);
    let payload: Vec<u8> = (0..200u8).collect();
    let actions = r.read(FD, &frame(0x82, &payload));
    assert_eq!(actions.len(), 2);
    match &actions[0] {
        Action::Submit { op: Op::WriteFrom { fd, buf, start }, user } => {
            assert_eq!((*fd, *start, *user), (FD, 4, tag(KIND_WRITE, FD)));
            assert_eq!(buf[*start..], reply(0x82, &payload)[..]);
        }
        _ => panic!("not written in place"),
    }
    assert_eq!(actions[1], read_again(FD));
    assert_eq!(r.pending(id), 204);
    r.wrote(FD);
    assert_eq!(r.pending(id), 0);
}

#[test]
fn pipelined_frames_are_echoed_with_one_write() {
    let mut r = rig(true, false);
    let id = r.open(FD);
    let a = vec![b'a'; 64];
    let b = vec![b'b'; 64];
    let mut bytes = frame(0x81, &a);
    bytes.extend_from_slice(&frame(0x82, &b));
    let mut both = reply(0x81, &a);
    both.extend_from_slice(&reply(0x82, &b));
    assert_eq!(r.read(FD, &bytes), [write(FD, both.clone()), read_again(FD)]);
    assert_eq!(r.pending(id), both.len());
    assert_eq!(r.wrote(FD), []);
    assert_eq!(r.pending(id), 0);
}

#[test]
fn what_follows_a_batch_goes_to_the_stream() {
    let mut r = rig(true, false);
    r.open(FD);
    let a = vec![b'a'; 100];
    let mut bytes = frame(0x81, &a);
    bytes.extend_from_slice(&frame(0x89, b"ping"));
    let last = frame(0x81, b"end");
    bytes.extend_from_slice(&last[..4]);
    assert!(bytes.len() > NATIVE_FUSED_MIN_READ - 30);
    bytes.splice(0..0, frame(0x81, &a));
    let mut both = reply(0x81, &a);
    both.extend_from_slice(&reply(0x81, &a));
    assert_eq!(r.read(FD, &bytes), [write(FD, both), read_again(FD)]);
    // The pong waits for the write in flight.
    assert_eq!(r.wrote(FD), [write(FD, reply(0x8A, b"ping"))]);
    assert_eq!(r.wrote(FD), []);
    // And the frame that was cut in two is put together.
    assert_eq!(
        r.read(FD, &last[4..]),
        [recycle(&last[4..]), write(FD, reply(0x81, b"end")), read_again(FD)]
    );
}

#[test]
fn valid_replies_go_out_before_the_close_a_bad_frame_earns() {
    let mut r = rig(true, false);
    let id = r.open(FD);
    let a = vec![b'a'; 64];
    let mut bytes = frame(0x81, &a);
    bytes.extend_from_slice(&frame(0x81, &a));
    bytes.extend_from_slice(&frame(0xC1, b"reserved bit"));
    let mut both = reply(0x81, &a);
    both.extend_from_slice(&reply(0x81, &a));
    assert_eq!(r.read(FD, &bytes), [write(FD, both)]);
    assert_eq!(r.wrote(FD), [write(FD, closing(1002))]);
    assert_eq!(r.wrote(FD), [close(FD)]);
    assert_eq!(
        r.events(),
        [JsEvent::Open { id }, JsEvent::Close { id, code: 1000 }]
    );
    assert_eq!(r.bridge.state(id), None);
}

#[test]
fn a_broken_frame_alone_in_a_large_read_is_refused() {
    let mut r = rig(true, false);
    r.open(FD);
    let bytes = frame(0xC2, &[0; 200]);
    let actions = r.read(FD, &bytes);
    assert_eq!(actions, [recycle(&bytes), write(FD, closing(1002))]);
    assert_eq!(r.wrote(FD), [close(FD)]);
}

#[test]
fn each_failure_earns_its_close_code() {
    let unmasked: Vec<u8> = vec![0x81, 2, b'h', b'i'];
    let not_text = frame(0x81, &[0xFF, 0xFE]);
    let mut too_large: Vec<u8> = vec![0x82, 0xFF];
    too_large.extend_from_slice(&(MAX_MESSAGE as u64 + 1).to_be_bytes());
    too_large.extend_from_slice(&[0, 0, 0, 0]);
    for (bytes, code) in [(unmasked, 1002), (not_text, 1007), (too_large, 1009)] {
        for native_echo in [false, true] {
            let mut r = rig(native_echo, false);
            r.open(FD);
            assert_eq!(
                r.read(FD, &bytes),
                [recycle(&bytes), write(FD, closing(code))]
            );
            assert_eq!(r.wrote(FD), [close(FD)]);
        }
    }
}

#[test]
fn text_in_a_large_read_must_be_utf8_too() {
    let mut r = rig(true, false);
    r.open(FD);
    let actions = r.read(FD, &frame(0x81, &[0xFF; 200]));
    assert_eq!(actions.len(), 2);
    assert!(matches!(actions[0], Action::Recycle { .. }));
    assert_eq!(actions[1], write(FD, closing(1007)));
}

#[test]
fn a_ping_is_answered_here() {
    let mut r = rig(false, true);
    let id = r.open(FD);
    let bytes = frame(0x89, b"are you there");
    assert_eq!(
        r.read(FD, &bytes),
        [recycle(&bytes), write(FD, reply(0x8A, b"are you there")), read_again(FD)]
    );
    let pong = frame(0x8A, b"unasked");
    assert_eq!(r.read(FD, &pong), [recycle(&pong), read_again(FD)]);
    assert_eq!(r.events(), [JsEvent::Open { id }]);
}

#[test]
fn a_close_is_answered_with_its_own_code() {
    for (payload, code) in [(1001u16.to_be_bytes().to_vec(), 1001), (Vec::new(), 1000)] {
        let mut r = rig(false, true);
        let id = r.open(FD);
        let bytes = frame(0x88, &payload);
        assert_eq!(r.read(FD, &bytes), [recycle(&bytes), write(FD, closing(code))]);
        assert_eq!(r.wrote(FD), [close(FD)]);
        assert_eq!(
            r.events(),
            [JsEvent::Open { id }, JsEvent::Close { id, code: 1000 }]
        );
    }
}

#[test]
fn once_a_conversation_is_over_the_peer_is_ignored() {
    let mut r = rig(false, true);
    let id = r.open(FD);
    let mut bytes = frame(0x88, &[]);
    bytes.extend_from_slice(&frame(0x81, b"too late"));
    r.read(FD, &bytes);
    let late = frame(0x81, b"later still");
    assert_eq!(r.read(FD, &late), [recycle(&late)]);
    assert_eq!(r.events(), [JsEvent::Open { id }]);
}

#[test]
fn a_peer_that_does_not_read_is_closed_for_violating_policy() {
    let mut r = rig(true, false);
    let id = r.open(FD);
    let message = vec![b'm'; 1024 * 1024];
    let bytes = frame(0x82, &message);
    let first = r.read(FD, &bytes);
    assert!(matches!(first[0], Action::Submit { op: Op::WriteFrom { .. }, .. }));
    // The write never finishes. Two more fit the budget, a fourth does not.
    for _ in 0..2 {
        assert_eq!(r.read(FD, &bytes), [recycle(&bytes), read_again(FD)]);
    }
    assert_eq!(r.pending(id), 3 * (1024 * 1024 + 10));
    assert_eq!(r.read(FD, &bytes), [recycle(&bytes)]);
    assert!(r.pending(id) <= MAX_OUTBOUND);
    let mut rest = reply(0x82, &message);
    rest.extend_from_slice(&reply(0x82, &message));
    rest.extend_from_slice(&closing(1008));
    assert_eq!(r.wrote(FD), [write(FD, rest)]);
    assert_eq!(r.wrote(FD), [close(FD)]);
}

#[test]
fn pings_count_against_the_same_cap() {
    let mut r = rig(false, true);
    let id = r.open(FD);
    assert_eq!(r.bridge.send_message(id, vec![0; MAX_OUTBOUND - 30], true), Sent::Wake);
    let ping = frame(0x89, b"0123456789");
    let actions = r.read(FD, &ping);
    assert_eq!(actions[1], write(FD, reply(0x8A, b"0123456789")));
    assert_eq!(r.read(FD, &ping), [recycle(&ping)]);
    assert_eq!(r.wrote(FD), [write(FD, closing(1008))]);
}

#[test]
fn echoes_over_the_cap_are_refused_in_place_too() {
    // One frame.
    let mut r = rig(true, false);
    let id = r.open(FD);
    assert_eq!(r.bridge.send_message(id, vec![0; MAX_OUTBOUND - 100], true), Sent::Wake);
    let actions = r.read(FD, &frame(0x81, &[b'x'; 200]));
    assert_eq!(actions.len(), 2);
    assert_eq!(actions[1], write(FD, closing(1008)));
    // A batch.
    let mut r = rig(true, false);
    let id = r.open(FD);
    assert_eq!(r.bridge.send_message(id, vec![0; MAX_OUTBOUND - 100], true), Sent::Wake);
    let mut bytes = frame(0x81, &[b'x'; 64]);
    bytes.extend_from_slice(&frame(0x81, &[b'x'; 64]));
    let actions = r.read(FD, &bytes);
    assert_eq!(actions.len(), 2);
    assert_eq!(actions[1], write(FD, closing(1008)));
}

#[test]
fn messages_from_javascript_go_out_in_order_with_one_wake() {
    let mut r = rig(false, true);
    let id = r.open(FD);
    assert_eq!(r.bridge.send_message(id, b"one".to_vec(), false), Sent::Wake);
    assert_eq!(r.bridge.send_message(id, vec![2, 2], true), Sent::Queued);
    assert_eq!(r.pending(id), 5 + 4);
    let mut both = reply(0x81, b"one");
    both.extend_from_slice(&reply(0x82, &[2, 2]));
    assert_eq!(r.wake(), [write(FD, both), rearm()]);
    assert_eq!(r.pending(id), 9);
    // The wake was consumed: the next command asks for another.
    assert_eq!(r.bridge.send_message(id, b"three".to_vec(), false), Sent::Wake);
    // A write is in flight, so this one waits for it.
    assert_eq!(r.wake(), [rearm()]);
    assert_eq!(r.wrote(FD), [write(FD, reply(0x81, b"three"))]);
    assert_eq!(r.pending(id), 7);
    assert_eq!(r.wrote(FD), []);
    assert_eq!(r.pending(id), 0);
}

#[test]
fn messages_go_to_their_own_connection_only() {
    let mut r = rig(false, true);
    let a = r.open(FD);
    let b = r.open(FD + 1);
    assert_ne!(a, b);
    r.bridge.send_message(b, b"for b".to_vec(), false);
    assert_eq!(r.wake(), [write(FD + 1, reply(0x81, b"for b")), rearm()]);
    assert_eq!((r.pending(a), r.pending(b)), (0, 7));
}

#[test]
fn a_send_over_the_cap_is_refused_and_changes_nothing() {
    let mut r = rig(false, true);
    let id = r.open(FD);
    assert_eq!(r.bridge.send_message(id, vec![0; MAX_OUTBOUND], true), Sent::Refused);
    assert_eq!(r.pending(id), 0);
    assert_eq!(r.bridge.send_message(id, vec![0; MAX_OUTBOUND - 10], true), Sent::Wake);
    assert_eq!(r.pending(id), MAX_OUTBOUND);
    assert_eq!(r.bridge.send_message(id, Vec::new(), true), Sent::Refused);
    assert_eq!(r.pending(id), MAX_OUTBOUND);
}

#[test]
fn a_command_whose_wake_fails_is_taken_back() {
    let mut r = rig(false, true);
    let id = r.open(FD);
    assert_eq!(r.bridge.send_message(id, b"lost".to_vec(), false), Sent::Wake);
    r.bridge.withdraw();
    assert_eq!(r.pending(id), 0);
    assert_eq!(r.bridge.close(id), Sent::Wake);
    r.bridge.withdraw();
    assert_eq!(r.bridge.send_message(id, b"kept".to_vec(), false), Sent::Wake);
    assert_eq!(r.wake(), [write(FD, reply(0x81, b"kept")), rearm()]);
}

#[test]
fn text_that_is_not_utf8_is_refused_and_its_charge_given_back() {
    let mut r = rig(false, true);
    let id = r.open(FD);
    assert_eq!(r.bridge.send_message(id, vec![0xFF, 0xFE], false), Sent::Wake);
    assert_eq!(r.pending(id), 4);
    assert_eq!(r.wake(), [rearm()]);
    assert_eq!(r.pending(id), 0);
    assert_eq!(r.bridge.send_message(id, vec![0xFF, 0xFE], true), Sent::Wake);
    assert_eq!(r.wake(), [write(FD, reply(0x82, &[0xFF, 0xFE])), rearm()]);
}

#[test]
fn javascript_can_close_a_connection() {
    let mut r = rig(false, true);
    let id = r.open(FD);
    r.bridge.send_message(id, b"bye".to_vec(), false);
    assert_eq!(r.bridge.close(id), Sent::Queued);
    assert_eq!(r.bridge.send_message(id, b"after".to_vec(), false), Sent::Queued);
    let mut out = reply(0x81, b"bye");
    out.extend_from_slice(&closing(1000));
    assert_eq!(r.wake(), [write(FD, out), rearm()]);
    // What was sent after the close is dropped, and its charge given back.
    assert_eq!(r.pending(id), 5);
    assert_eq!(r.wrote(FD), [close(FD)]);
    assert_eq!(
        r.events(),
        [JsEvent::Open { id }, JsEvent::Close { id, code: 1000 }]
    );
}

#[test]
fn a_close_with_nothing_to_flush_is_pumped_by_the_wake() {
    let mut r = rig(false, true);
    r.accept(FD);
    let id = r.ids.next - 1;
    assert_eq!(r.bridge.close(id), Sent::Wake);
    assert_eq!(r.wake(), [write(FD, closing(1000)), rearm()]);
    assert_eq!(r.wrote(FD), [close(FD)]);
    // It was never reported open.
    assert_eq!(r.events(), []);
}

#[test]
fn a_send_to_a_connection_that_has_gone_is_dropped() {
    let mut r = rig(false, true);
    let id = r.open(FD);
    // Queued in time, but the peer goes before the reactor gets to it.
    assert_eq!(r.bridge.send_message(id, b"too late".to_vec(), false), Sent::Wake);
    assert_eq!(r.done(tag(KIND_READ, FD), Ok(0), None), Ok(vec![close(FD)]));
    assert_eq!(
        r.events(),
        [JsEvent::Open { id }, JsEvent::Close { id, code: 1006 }]
    );
    // The descriptor is handed out again, under another id.
    let newcomer = r.open(FD);
    assert_ne!(newcomer, id);
    assert_eq!(r.wake(), [rearm()]);
    assert_eq!(r.pending(newcomer), 0);
    // And whoever still holds the old id is told.
    assert_eq!(r.bridge.send_message(id, b"gone".to_vec(), false), Sent::Refused);
    assert_eq!(r.bridge.send_message(99, b"never was".to_vec(), false), Sent::Refused);
    assert_eq!(r.bridge.close(id), Sent::Wake);
    assert_eq!(r.wake(), [rearm()]);
}

#[test]
fn a_peer_that_goes_without_a_close_frame_is_1006() {
    for result in [Ok(0), Err(Some(libc::ECONNRESET)), Err(None)] {
        let mut r = rig(false, true);
        let id = r.open(FD);
        let buf = vec![0; 3];
        assert_eq!(
            r.done(tag(KIND_READ, FD), result, Some(buf.clone())),
            Ok(vec![recycle(&buf), close(FD)])
        );
        assert_eq!(
            r.events(),
            [JsEvent::Open { id }, JsEvent::Close { id, code: 1006 }]
        );
    }
}

#[test]
fn a_cancelled_read_does_nothing() {
    let mut r = rig(false, true);
    let id = r.open(FD);
    assert_eq!(r.done(tag(KIND_READ, FD), Err(Some(libc::ECANCELED)), None), Ok(Vec::new()));
    assert_eq!(r.events(), [JsEvent::Open { id }]);
}

#[test]
fn a_failed_write_gives_everything_back_and_closes() {
    let mut r = rig(false, true);
    let id = r.open(FD);
    r.bridge.send_message(id, b"one".to_vec(), false);
    r.wake();
    r.bridge.send_message(id, b"two".to_vec(), false);
    r.wake();
    assert_eq!(r.pending(id), 10);
    let buf = reply(0x81, b"one");
    assert_eq!(
        r.done(tag(KIND_WRITE, FD), Err(Some(libc::EPIPE)), Some(buf.clone())),
        Ok(vec![recycle(&buf), close(FD)])
    );
    assert_eq!(
        r.events(),
        [JsEvent::Open { id }, JsEvent::Close { id, code: 1000 }]
    );
}

#[test]
fn one_write_is_in_flight_at_a_time() {
    let mut r = rig(true, false);
    r.open(FD);
    let small = frame(0x81, b"a");
    assert_eq!(r.read(FD, &small)[1], write(FD, reply(0x81, b"a")));
    // While it is in flight nothing else is submitted, not even from a large read.
    assert_eq!(r.read(FD, &small), [recycle(&small), read_again(FD)]);
    let large = frame(0x82, &[1; 300]);
    assert_eq!(r.read(FD, &large), [recycle(&large), read_again(FD)]);
    let mut rest = reply(0x81, b"a");
    rest.extend_from_slice(&reply(0x82, &[1; 300]));
    assert_eq!(r.wrote(FD), [write(FD, rest)]);
    assert_eq!(r.wrote(FD), []);
}

#[test]
fn completions_for_a_connection_that_is_gone_do_nothing() {
    let mut r = rig(true, false);
    let bytes = frame(0x81, b"hi");
    assert_eq!(r.read(FD, &bytes), [recycle(&bytes)]);
    let large = frame(0x81, &[b'x'; 300]);
    assert_eq!(r.read(FD, &large), [recycle(&large)]);
    assert_eq!(r.wrote(FD), []);
    assert_eq!(r.done(tag(KIND_CLOSE, FD), Ok(0), None), Ok(Vec::new()));
}

#[test]
fn a_wake_hands_its_buffer_back() {
    let mut r = rig(false, true);
    assert_eq!(
        r.done(tag(KIND_WAKE, WAKE), Ok(1), Some(vec![1])),
        Ok(vec![recycle(&[1]), rearm()])
    );
}

#[test]
fn nothing_is_queued_once_the_reactor_has_stopped() {
    let mut r = rig(false, true);
    let id = r.open(FD);
    r.bridge.stop();
    assert_eq!(r.bridge.send_message(id, b"hello".to_vec(), false), Sent::Refused);
    assert_eq!(r.bridge.close(id), Sent::Refused);
    assert_eq!(r.pending(id), 0);
}

#[test]
fn where_nobody_takes_events_they_are_dropped() {
    let mut r = rig(false, false);
    r.server = Server::new(
        LISTENER,
        WAKE,
        Config { native_echo: false, wants_message: false },
        false,
        Errnos { conn_aborted: 1, conn_reset: 2, invalid: 3, interrupted: 4, canceled: 5 },
    );
    let id = r.open(FD);
    assert!(r.server.dispatch_events(&mut r.bridge).is_none());
    assert_eq!(r.done(tag(KIND_READ, FD), Ok(0), None), Ok(vec![close(FD)]));
    assert_eq!(r.bridge.state(id), Some(ConnectionState { pending: 0, live: false }));
    assert!(r.server.dispatch_events(&mut r.bridge).is_none());
    assert_eq!(r.bridge.state(id), None);
}

#[test]
fn a_batch_says_what_it_retains() {
    let mut r = rig(false, true);
    r.open(FD);
    r.read(FD, &frame(0x82, &[7; 500]));
    let batch = r.server.dispatch_events(&mut r.bridge);
    let batch = match batch {
        Some(batch) => batch,
        None => panic!("no batch"),
    };
    assert_eq!(batch.events.len(), 2);
    assert!(batch.bytes >= 500 + 2 * std::mem::size_of::<JsEvent>());
}

#[test]
fn node_hears_of_each_connection_in_order() {
    let mut r = rig(false, true);
    let a = r.open(FD);
    let b = r.open(FD + 1);
    r.read(FD + 1, &frame(0x81, b"b1"));
    r.read(FD, &frame(0x81, b"a1"));
    r.done(tag(KIND_READ, FD + 1), Ok(0), None).unwrap();
    r.read(FD, &frame(0x81, b"a2"));
    r.done(tag(KIND_READ, FD), Ok(0), None).unwrap();
    let text = |id, data: &[u8]| JsEvent::Message { id, data: data.to_vec(), binary: false };
    assert_eq!(
        r.events(),
        [
            JsEvent::Open { id: a },
            JsEvent::Open { id: b },
            text(b, b"b1"),
            text(a, b"a1"),
            JsEvent::Close { id: b, code: 1006 },
            text(a, b"a2"),
            JsEvent::Close { id: a, code: 1006 },
        ]
    );
}

#[test]
fn a_run_of_commands_costs_one_wake_byte() {
    let mut r = rig(false, true);
    let id = r.open(FD);
    assert_eq!(r.bridge.send_message(id, b"1".to_vec(), false), Sent::Wake);
    for _ in 0..5 {
        assert_eq!(r.bridge.send_message(id, b"n".to_vec(), false), Sent::Queued);
    }
    assert_eq!(r.bridge.close(id), Sent::Queued);
    let mut out = reply(0x81, b"1");
    for _ in 0..5 {
        out.extend_from_slice(&reply(0x81, b"n"));
    }
    out.extend_from_slice(&closing(1000));
    assert_eq!(r.wake(), [write(FD, out), rearm()]);
    // The wake is consumed, so the next command asks for a fresh byte.
    assert_eq!(r.bridge.close(id), Sent::Wake);
}

#[test]
fn what_a_command_came_to_is_settled_once_its_byte_is_written_or_not() {
    let mut r = rig(false, true);
    let id = r.open(FD);
    assert!(!r.bridge.settle(Sent::Refused, false));
    let sent = r.bridge.send_message(id, b"lost".to_vec(), false);
    assert_eq!(sent, Sent::Wake);
    assert!(!r.bridge.settle(sent, false));
    assert_eq!(r.pending(id), 0);
    let sent = r.bridge.send_message(id, b"kept".to_vec(), false);
    assert_eq!(sent, Sent::Wake);
    assert!(r.bridge.settle(sent, true));
    let sent = r.bridge.send_message(id, b"too".to_vec(), false);
    assert!(r.bridge.settle(sent, false));
    let mut out = reply(0x81, b"kept");
    out.extend_from_slice(&reply(0x81, b"too"));
    assert_eq!(r.wake(), [write(FD, out), rearm()]);
}

#[test]
fn commands_share_a_wake_until_it_is_consumed() {
    let mut bridge = Bridge::new();
    assert_eq!(bridge.send(Cmd::Close { id: 1 }), Sent::Wake);
    assert_eq!(bridge.send(Cmd::Close { id: 2 }), Sent::Queued);
    let message = Cmd::Send { id: 3, data: b"m".to_vec(), binary: true };
    assert_eq!(bridge.send(message), Sent::Queued);
    bridge.consume_wake();
    assert_eq!(bridge.send(Cmd::Close { id: 4 }), Sent::Wake);
    assert_eq!(bridge.send(Cmd::Close { id: 5 }), Sent::Queued);
    bridge.stop();
    bridge.consume_wake();
    assert_eq!(bridge.send(Cmd::Close { id: 6 }), Sent::Refused);
}

#[test]
fn a_conversation_goes_on_after_an_upgrade_with_nothing_behind_it() {
    let mut r = rig(true, false);
    let id = r.open(FD);
    assert_eq!(r.events(), [JsEvent::Open { id }]);
    let bytes = frame(0x82, &[1]);
    assert_eq!(
        r.read(FD, &bytes),
        [recycle(&bytes), write(FD, reply(0x82, &[1])), read_again(FD)]
    );
}
