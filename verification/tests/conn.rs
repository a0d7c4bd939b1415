use ramjet_node::bridge::{ConnectionState, MAX_OUTBOUND};
use ramjet_node::conn::{Config, Conn, NativeEchoRead, Pump, BAD_REQUEST, MAX_HANDSHAKE};
use ramjet_node::messages::{JsEvent, Op};
use ramjet_ws::handshake::Upgrade;
use ramjet_ws::{CloseFrame, Error, Event, MessageKind, WholeFrame};

const TO_NODE: Config = Config { native_echo: false, wants_message: true };
const ECHO: Config = Config { native_echo: true, wants_message: false };

struct Client {
    conn: Conn,
    state: ConnectionState,
    events: Vec<JsEvent>,
}

fn client() -> Client {
    Client { conn: Conn::new(5), state: ConnectionState::new(), events: Vec::new() }
}

/// A client whose upgrade was answered with an empty response.
fn upgraded() -> Client {
    let mut c = client();
    c.answer(TO_NODE, Vec::new(), Ok(Upgrade::Accept { response: Vec::new(), consumed: 0 }));
    assert_eq!(c.events.pop(), Some(JsEvent::Open { id: 5 }));
    c
}

impl Client {
    fn answer(&mut self, config: Config, request: Vec<u8>, answer: Result<Upgrade, Error>) {
        self.conn.on_upgrade(&mut self.state, &mut self.events, config, request, answer);
    }

    fn event(&mut self, config: Config, event: Event) -> bool {
        self.conn.on_event(&mut self.state, &mut self.events, config, event)
    }

    fn out(&mut self) -> Vec<u8> {
        match self.conn.pump() {
            Pump::Write(buf) => buf,
            Pump::Idle => panic!("idle"),
            Pump::Close => panic!("closing"),
        }
    }
}

#[test]
fn an_answer_to_the_upgrade_decides_what_happens() {
    let mut c = client();
    c.answer(TO_NODE, b"GET".to_vec(), Ok(Upgrade::NeedMore));
    assert!(!c.conn.opened() && !c.conn.closing());
    assert!(matches!(c.conn.pump(), Pump::Idle));

    c.answer(
        TO_NODE,
        b"request!".to_vec(),
        Ok(Upgrade::Accept { response: b"yes".to_vec(), consumed: 8 }),
    );
    assert!(c.conn.opened() && !c.conn.closing());
    assert_eq!(c.events, [JsEvent::Open { id: 5 }]);
    assert_eq!(c.out(), b"yes");

    for (request, answer) in [
        (b"bad".to_vec(), Err(Error::Handshake("no"))),
        (vec![0; MAX_HANDSHAKE + 1], Ok(Upgrade::NeedMore)),
        (
            vec![0; MAX_HANDSHAKE + 1],
            Ok(Upgrade::Accept { response: b"yes".to_vec(), consumed: MAX_HANDSHAKE + 1 }),
        ),
    ] {
        let mut c = client();
        c.answer(TO_NODE, request, answer);
        assert!(!c.conn.opened() && c.conn.closing());
        assert_eq!(c.out(), BAD_REQUEST.as_bytes());
        assert_eq!(c.events, []);
    }
}

#[test]
fn each_event_does_its_own() {
    let mut c = upgraded();
    assert!(!c.event(TO_NODE, Event::Text("hi".to_string())));
    assert!(!c.event(TO_NODE, Event::Binary(vec![1])));
    assert!(!c.event(TO_NODE, Event::Pong(vec![2])));
    assert_eq!(
        c.events,
        [
            JsEvent::Message { id: 5, data: b"hi".to_vec(), binary: false },
            JsEvent::Message { id: 5, data: vec![1], binary: true },
        ]
    );
    assert!(matches!(c.conn.pump(), Pump::Idle));
    assert!(!c.event(TO_NODE, Event::Ping(vec![3, 4])));
    assert_eq!(c.state.pending, 4);
    let frame = CloseFrame { code: 3001, reason: "why".to_string() };
    assert!(c.event(TO_NODE, Event::Close(Some(frame))));
    assert_eq!(c.out(), [0x8A, 2, 3, 4, 0x88, 2, 0x0B, 0xB9]);
}

#[test]
fn an_echoed_event_is_charged_or_ends_the_conversation() {
    let mut c = upgraded();
    assert!(!c.event(ECHO, Event::Text("hi".to_string())));
    assert!(!c.event(ECHO, Event::Binary(vec![9])));
    assert_eq!(c.state.pending, 7);
    c.state.pending = MAX_OUTBOUND - 2;
    assert!(c.event(ECHO, Event::Binary(vec![9])));
    assert_eq!(c.out(), [0x81, 2, b'h', b'i', 0x82, 1, 9, 0x88, 2, 0x03, 0xF0]);
    assert_eq!(c.events, []);
}

#[test]
fn a_frame_is_answered_in_front_of_its_payload() {
    let mut c = upgraded();
    let frame = WholeFrame { kind: MessageKind::Binary, payload: 6..8 };
    let buf = vec![0x82, 0x82, 1, 2, 3, 4, 70, 71];
    match c.conn.echo_frame(&mut c.state, &c.events, 7, buf, frame) {
        NativeEchoRead::Submitted(Op::WriteFrom { fd, buf, start }) => {
            assert_eq!((fd, start), (7, 4));
            assert_eq!(buf[start..], [0x82, 2, 70, 71]);
        }
        _ => panic!("not submitted"),
    }
    assert_eq!(c.state.pending, 4);
    c.conn.written(&mut c.state, false);
    assert_eq!(c.state.pending, 0);
}

#[test]
fn packed_replies_are_sent_and_the_rest_is_decoded() {
    let mut c = upgraded();
    // One reply of three bytes, and a masked ping without a payload behind the
    // frame it answers.
    let mut buf = vec![0x82, 1, 9, 0, 0, 0, 0];
    buf.extend_from_slice(&[0x89, 0x80, 1, 2, 3, 4]);
    match c.conn.echo_packed(&mut c.state, &mut c.events, ECHO, 7, buf, 3, 7, None) {
        NativeEchoRead::Submitted(Op::Write { fd, buf }) => {
            assert_eq!(fd, 7);
            assert_eq!(buf, [0x82, 1, 9]);
        }
        _ => panic!("not submitted"),
    }
    // The pong waits behind the write.
    assert_eq!(c.state.pending, 5);
    c.conn.written(&mut c.state, false);
    assert_eq!(c.state.pending, 2);
    assert_eq!(c.out(), [0x8A, 0]);
}

/// A masked client frame with a short payload.
fn client_frame(first: u8, payload: &[u8]) -> Vec<u8> {
    assert!(payload.len() < 126);
    let key = [9u8, 8, 7, 6];
    let mut out = vec![first, 0x80 | payload.len() as u8];
    out.extend_from_slice(&key);
    for (i, byte) in payload.iter().enumerate() {
        out.push(byte ^ key[i % 4]);
    }
    out
}

/// What a client has to send once its write is done, all of it.
fn everything(c: &mut Client, mut sent: Vec<u8>) -> Vec<u8> {
    loop {
        match c.conn.pump() {
            Pump::Write(buf) => sent.extend_from_slice(&buf),
            Pump::Idle | Pump::Close => return sent,
        }
        c.conn.written(&mut c.state, false);
    }
}

#[test]
fn a_batch_gets_the_same_answers_in_both_lanes() {
    let mut frames = client_frame(0x81, b"one");
    frames.extend_from_slice(&client_frame(0x82, &[2, 2]));
    let mut tail = frames.clone();
    tail.extend_from_slice(&client_frame(0x89, b"ping"));
    tail.extend_from_slice(&client_frame(0x81, b"behind"));
    tail.extend_from_slice(&[0x81, 0x85]);
    let mut broken = frames.clone();
    broken.extend_from_slice(&client_frame(0x81, &[0xFF]));
    let mut reserved = frames.clone();
    reserved.extend_from_slice(&client_frame(0xF1, b"x"));
    let bad = client_frame(0x83, b"x");
    for bytes in [frames, tail, broken, reserved, bad] {
        let mut streamed = upgraded();
        streamed.conn.on_bytes(&mut streamed.state, &mut streamed.events, ECHO, &bytes);
        let mut c = upgraded();
        let read = c.conn.try_native_echo_read(&mut c.state, &mut c.events, ECHO, 7, bytes);
        let sent = match read {
            NativeEchoRead::Submitted(Op::Write { buf, .. }) => buf,
            NativeEchoRead::Rejected(_) => Vec::new(),
            _ => panic!("neither answered nor refused"),
        };
        assert_eq!(c.state, streamed.state);
        assert_eq!(c.events, streamed.events);
        assert_eq!(c.conn.closing(), streamed.conn.closing());
        c.conn.written(&mut c.state, false);
        let all = everything(&mut c, sent);
        assert_eq!(all, everything(&mut streamed, Vec::new()));
        assert!(!all.is_empty());
    }
}

#[test]
fn a_refused_buffer_comes_back_whole() {
    // One frame of text that is not UTF-8: unmasked by then.
    let mut c = upgraded();
    let bytes = client_frame(0x81, &[0xFF, 0xFE]);
    let mut unmasked = bytes.clone();
    unmasked[6] = 0xFF;
    unmasked[7] = 0xFE;
    match c.conn.try_native_echo_read(&mut c.state, &mut c.events, ECHO, 7, bytes) {
        NativeEchoRead::Rejected(buf) => assert_eq!(buf, unmasked),
        _ => panic!("not refused"),
    }
    // The same with more behind it: unmasked where the reply's payload would be.
    let mut c = upgraded();
    let mut bytes = client_frame(0x81, &[0xFF, 0xFE]);
    bytes.extend_from_slice(&client_frame(0x81, b"x"));
    let mut unmasked = bytes.clone();
    unmasked[2] = 0xFF;
    unmasked[3] = 0xFE;
    match c.conn.try_native_echo_read(&mut c.state, &mut c.events, ECHO, 7, bytes) {
        NativeEchoRead::Rejected(buf) => assert_eq!(buf, unmasked),
        _ => panic!("not refused"),
    }
    // A broken header is left alone.
    let mut c = upgraded();
    let bytes = client_frame(0xF1, b"x");
    match c.conn.try_native_echo_read(&mut c.state, &mut c.events, ECHO, 7, bytes.clone()) {
        NativeEchoRead::Rejected(buf) => assert_eq!(buf, bytes),
        _ => panic!("not refused"),
    }
}

#[test]
fn where_the_stream_is_cut_makes_no_difference() {
    let request = b"GET / HTTP/1.1\r\nHost: h\r\nUpgrade: websocket\r\nConnection: Upgrade\r\nSec-WebSocket-Key: dGhlIHNhbXBsZSBub25jZQ==\r\nSec-WebSocket-Version: 13\r\n\r\n";
    let mut good = request.to_vec();
    good.extend_from_slice(&client_frame(0x81, b"hello"));
    good.extend_from_slice(&client_frame(0x02, b"fr"));
    good.extend_from_slice(&client_frame(0x89, b"ping"));
    good.extend_from_slice(&client_frame(0x80, b"ag"));
    let mut over = good.clone();
    over.extend_from_slice(&client_frame(0x88, &[0x03, 0xE9]));
    over.extend_from_slice(&client_frame(0x81, b"late"));
    let mut broken = good.clone();
    broken.extend_from_slice(&client_frame(0x81, &[0xC3, 0x28]));
    broken.extend_from_slice(&client_frame(0x81, b"late"));
    let refused = b"GET / HTTP/1.1\r\n\r\nmore".to_vec();
    for bytes in [good, over, broken, refused] {
        for config in [TO_NODE, ECHO] {
            let mut once = client();
            once.conn.on_bytes(&mut once.state, &mut once.events, config, &bytes);
            let out = everything(&mut once, Vec::new());
            for cut in 0..=bytes.len() {
                let mut c = client();
                c.conn.on_bytes(&mut c.state, &mut c.events, config, &bytes[..cut]);
                c.conn.on_bytes(&mut c.state, &mut c.events, config, &bytes[cut..]);
                assert_eq!(c.events, once.events);
                assert_eq!(c.conn.closing(), once.conn.closing());
                assert_eq!(c.conn.opened(), once.conn.opened());
                assert_eq!(everything(&mut c, Vec::new()), out);
                assert_eq!(c.state, once.state);
            }
        }
    }
}

#[test]
fn with_no_replies_the_bytes_are_left_to_the_stream() {
    let mut c = upgraded();
    let buf = vec![0x01, 0x80];
    match c.conn.echo_packed(&mut c.state, &mut c.events, ECHO, 7, buf, 0, 0, None) {
        NativeEchoRead::Unclaimed(buf) => assert_eq!(buf, [0x01, 0x80]),
        _ => panic!("claimed"),
    }
    assert_eq!(c.state.pending, 0);
}

#[test]
fn a_message_from_javascript_is_sent_or_given_back() {
    let mut c = upgraded();
    assert!(c.state.reserve(4 + 3 + 4));
    c.conn.deliver(&mut c.state, vec![0xFF, 0xFE], false);
    assert_eq!(c.state.pending, 7);
    c.conn.deliver(&mut c.state, vec![0xFF], true);
    c.conn.send_close(1000);
    c.conn.deliver(&mut c.state, b"ok".to_vec(), false);
    assert_eq!(c.state.pending, 3);
    assert_eq!(c.out(), [0x82, 1, 0xFF, 0x88, 2, 0x03, 0xE8]);
    c.conn.written(&mut c.state, false);
    assert_eq!(c.state.pending, 0);
    assert!(matches!(c.conn.pump(), Pump::Close));
}

#[test]
fn a_failed_write_gives_up_what_waits_behind_it() {
    let mut c = upgraded();
    assert!(c.state.reserve(6));
    c.conn.deliver(&mut c.state, vec![1], true);
    assert_eq!(c.out(), [0x82, 1, 1]);
    c.conn.deliver(&mut c.state, vec![2], true);
    assert!(matches!(c.conn.pump(), Pump::Idle));
    c.conn.written(&mut c.state, true);
    assert_eq!(c.state.pending, 0);
    assert!(matches!(c.conn.pump(), Pump::Close));
}

#[test]
fn the_receive_buffer_is_free_for_an_echo_only_when_nothing_is_older() {
    assert!(!client().conn.can_echo_in_place());
    let mut c = upgraded();
    assert!(c.conn.can_echo_in_place());
    assert!(!c.event(ECHO, Event::Binary(vec![9])));
    assert!(!c.conn.can_echo_in_place());
    c.out();
    assert!(!c.conn.can_echo_in_place());
    c.conn.written(&mut c.state, false);
    assert!(c.conn.can_echo_in_place());
    c.conn.send_close(1000);
    assert!(!c.conn.can_echo_in_place());
}

#[test]
fn a_frame_gets_the_same_answer_in_place_and_through_the_stream() {
    // Masked with the key 1, 2, 3, 4.
    let mut bytes = vec![0x81, 0x80 | 126, 0, 200, 1, 2, 3, 4];
    for i in 0..200usize {
        bytes.push(b'x' ^ [1, 2, 3, 4][i % 4]);
    }
    let mut streamed = upgraded();
    streamed.conn.on_bytes(&mut streamed.state, &mut streamed.events, ECHO, &bytes);
    let mut c = upgraded();
    let read = c.conn.try_native_echo_read(&mut c.state, &mut c.events, ECHO, 7, bytes);
    match read {
        NativeEchoRead::Submitted(Op::WriteFrom { buf, start, .. }) => {
            assert_eq!(buf[start..], streamed.out()[..]);
            assert_eq!(buf[start..start + 5], [0x81, 126, 0, 200, b'x']);
        }
        _ => panic!("not submitted"),
    }
    assert_eq!(c.state, streamed.state);
    assert_eq!(c.state.pending, 204);
    assert_eq!(c.events, streamed.events);
}
