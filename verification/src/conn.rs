//! One client on the reactor: an HTTP request buffer until the upgrade
//! succeeds, then a frame decoder.

use crate::bridge::{message_charge, ConnectionState, MAX_OUTBOUND};
use crate::codec::{
    data_event, decoder_view, error_close_code, event_fits, event_view, stream_event,
    upgrade_answer, upgrade_view, DecoderView, EventView,
};
use crate::lanes::{
    batch_fits, lanes_agree, lemma_one_message_streamed, lemma_packs_error, lemma_packs_none,
    lemma_packs_rest, lemma_packs_start, lemma_packs_step, lemma_refusal_streamed,
    lemma_streams_end, lemma_streams_error, lemma_streams_start, lemma_streams_step,
    lemma_streams_tail, packs, shifts, streams,
};
use crate::messages::{events_view, JsEvent, JsEventView, Op, OpView};
use crate::wire::{
    be16, client_header_len, client_payload_len, first_byte, frame_len, header_len,
    reply_header_into, server_frame, unmasked, unmasked_to, BINARY, CLOSE, PONG, TEXT,
};
use ramjet_ws::handshake::Upgrade;
use ramjet_ws::{encode, handshake, Decoder, Error, Event, MessageKind, WholeFrame};
use vstd::prelude::*;
use vstd::utf8::{encode_utf8, valid_utf8};

verus! {

/// Largest message accepted, 32 MiB: above the 16 MiB that conformance suites
/// run to, with a ceiling so that a peer cannot name any size it likes.
pub const MAX_MESSAGE: usize = 32 * 1024 * 1024;

/// Largest upgrade request accepted, 16 KiB: an incomplete one cannot grow
/// forever.
pub const MAX_HANDSHAKE: usize = 16 * 1024;

/// What a request that is no upgrade is answered.
pub const BAD_REQUEST: &'static str =
    "HTTP/1.1 400 Bad Request\r\nConnection: close\r\nContent-Length: 0\r\n\r\n";

/// What the server does with messages.
#[derive(Clone, Copy)]
pub struct Config {
    /// Send each data message back from here.
    pub native_echo: bool,
    /// Hand each data message to Node.
    pub wants_message: bool,
}

/// One client on the reactor.
pub struct Conn {
    id: u64,
    request: Option<Vec<u8>>,
    decoder: Decoder,
    out: Vec<u8>,
    out_charged: usize,
    writing: bool,
    writing_charged: usize,
    close_when_flushed: bool,
    ignoring: bool,
    opened: bool,
}

/// A client by what its connection holds.
#[verifier::ext_equal]
pub struct ConnView {
    /// The id that stands for it outside the reactor.
    pub id: u64,
    /// The upgrade request so far, until there is an answer to it.
    pub request: Option<Seq<u8>>,
    /// The frame decoder.
    pub decoder: DecoderView,
    /// Bytes waiting to go out. The driver takes one write per descriptor, so
    /// this is where a burst coalesces into a single write.
    pub out: Seq<u8>,
    /// The part of `out` that is charged to the budget. Handshake and close
    /// replies share the buffer and are never charged.
    pub out_charged: usize,
    /// Whether a write is in flight.
    pub writing: bool,
    /// The charged part of the write in flight.
    pub writing_charged: usize,
    /// Close once everything is written.
    pub close_when_flushed: bool,
    /// The conversation is over; anything further from the peer is ignored.
    pub ignoring: bool,
    /// Whether Node has been told of this connection, so that a close is only
    /// reported for a connection that got an open.
    pub opened: bool,
}

impl View for Conn {
    type V = ConnView;

    closed spec fn view(&self) -> ConnView {
        ConnView {
            id: self.id,
            request: match self.request {
                Some(request) => Some(request@),
                None => None,
            },
            decoder: decoder_view(self.decoder),
            out: self.out@,
            out_charged: self.out_charged,
            writing: self.writing,
            writing_charged: self.writing_charged,
            close_when_flushed: self.close_when_flushed,
            ignoring: self.ignoring,
            opened: self.opened,
        }
    }
}

/// A close frame that carries this code and no reason.
pub open spec fn close_frame(code: u16) -> Seq<u8> {
    server_frame(CLOSE, be16(code as nat))
}

/// The bytes of the answer to a request that is no upgrade.
pub open spec fn bad_request() -> Seq<u8> {
    encode_utf8(BAD_REQUEST@)
}

impl ConnView {
    /// A connection that was just accepted.
    pub open spec fn fresh(id: u64) -> ConnView {
        ConnView {
            id,
            request: Some(Seq::empty()),
            decoder: DecoderView::fresh(MAX_MESSAGE),
            out: Seq::empty(),
            out_charged: 0,
            writing: false,
            writing_charged: 0,
            close_when_flushed: false,
            ignoring: false,
            opened: false,
        }
    }

    /// What every connection keeps.
    pub open spec fn wf(self) -> bool {
        // Only bytes that wait or are being written are charged.
        &&& self.out_charged <= self.out.len()
        &&& !self.writing ==> self.writing_charged == 0
        // An unfinished upgrade request stays bounded, and so does a message.
        &&& self.request matches Some(request) ==> request.len() <= MAX_HANDSHAKE && !self.opened
        // Until the upgrade succeeds the decoder is fed nothing.
        &&& self.request is Some ==> self.decoder == DecoderView::fresh(MAX_MESSAGE)
        &&& self.decoder.limit == MAX_MESSAGE
        // Every event took bytes of its own.
        &&& self.decoder.pulled <= self.decoder.fed.len()
        // Node is told of a connection when its upgrade succeeds.
        &&& self.request is None ==> self.opened || self.ignoring
        // A connection whose conversation is over closes when it is flushed.
        &&& self.ignoring == self.close_when_flushed
    }

    /// Bytes charged to the budget on account of this connection's buffers.
    pub open spec fn charged(self) -> int {
        self.out_charged + self.writing_charged
    }

    /// The connection with its upgrade request still to be answered.
    pub open spec fn asking(self) -> ConnView {
        ConnView { request: Some(Seq::empty()), ..self }
    }

    /// The connection with a close frame queued, its conversation over.
    pub open spec fn send_close(self, code: u16) -> ConnView {
        ConnView {
            out: self.out + close_frame(code),
            close_when_flushed: true,
            ignoring: true,
            ..self
        }
    }

    /// The connection with its request refused, its conversation over.
    pub open spec fn refuse(self) -> ConnView {
        ConnView {
            request: None,
            out: self.out + bad_request(),
            close_when_flushed: true,
            ignoring: true,
            ..self
        }
    }

    /// The connection stuck on a codec error, with the close code it earns.
    pub open spec fn fail(self, e: Error) -> ConnView {
        ConnView { decoder: self.decoder.fail(e), ..self }.send_close(error_close_code(e))
    }

    /// Whether a receive buffer can become the next write: the upgrade is done,
    /// nothing older waits, and nothing is being written.
    pub open spec fn can_echo_in_place(self) -> bool {
        self.request is None && !self.ignoring && !self.writing && self.out.len() == 0
    }
}

/// A connection with its budget, and the events for Node that have come up.
#[verifier::ext_equal]
pub struct Session {
    pub conn: ConnView,
    pub state: ConnectionState,
    pub events: Seq<JsEventView>,
}

impl Session {
    /// The connection is live and its charges are within its budget, which is
    /// within the cap.
    pub open spec fn wf(self) -> bool {
        &&& self.conn.wf()
        &&& self.state.live
        &&& self.conn.charged() <= self.state.pending <= MAX_OUTBOUND
    }

    /// The session with its upgrade request still to be answered.
    pub open spec fn asking(self) -> Session {
        Session { conn: self.conn.asking(), ..self }
    }

    /// The session with its conversation over.
    pub open spec fn close(self, code: u16) -> Session {
        Session { conn: self.conn.send_close(code), ..self }
    }

    /// The session with one more event for Node.
    pub open spec fn tell(self, event: JsEventView) -> Session {
        Session { events: self.events.push(event), ..self }
    }

    /// The session with a frame charged and queued, and whether its
    /// conversation is over: where the budget has no room for the frame, the
    /// connection is closed for violating policy instead.
    pub open spec fn reply(self, first: u8, payload: Seq<u8>) -> (Session, bool) {
        let charge = message_charge(payload);
        if self.state.admits(charge) {
            (
                Session {
                    conn: ConnView {
                        out: self.conn.out + server_frame(first, payload),
                        out_charged: (self.conn.out_charged + charge) as usize,
                        ..self.conn
                    },
                    state: self.state.charge(charge),
                    ..self
                },
                false,
            )
        } else {
            (self.close(1008), true)
        }
    }

    /// What one event of the stream does, and whether the conversation is over.
    /// Data messages are echoed or go to Node; a ping is answered here; a close
    /// is answered with its own code.
    pub open spec fn on_event(self, config: Config, event: EventView) -> (Session, bool) {
        match event {
            EventView::Text(data) => self.on_message(config, data, false),
            EventView::Binary(data) => self.on_message(config, data, true),
            EventView::Ping(payload) => self.reply(PONG, payload),
            EventView::Pong(_) => (self, false),
            EventView::Close(Some(code)) => (self.close(code), true),
            EventView::Close(None) => (self.close(1000), true),
        }
    }

    /// What a data message does, and whether the conversation is over.
    pub open spec fn on_message(self, config: Config, data: Seq<u8>, binary: bool) -> (
        Session,
        bool,
    ) {
        if config.native_echo {
            self.reply(
                if binary {
                    BINARY
                } else {
                    TEXT
                },
                data,
            )
        } else if config.wants_message {
            (self.tell(JsEventView::Message { id: self.conn.id, data, binary }), false)
        } else {
            (self, false)
        }
    }

    /// The session with its decoder in another state.
    pub open spec fn decoding(self, decoder: DecoderView) -> Session {
        Session { conn: ConnView { decoder, ..self.conn }, ..self }
    }

    /// What the events that the decoder can give do, in their order, until there
    /// are no more, the stream breaks, or the conversation is over.
    pub open spec fn drain(self, config: Config) -> Session
        decreases self.conn.decoder.fed.len() - self.conn.decoder.pulled,
    {
        let decoder = self.conn.decoder;
        match decoder.next() {
            Ok(Some(event)) => if decoder.pulled < decoder.fed.len() {
                let (after, done) = self.decoding(decoder.pull()).on_event(config, event);
                if done {
                    after
                } else {
                    after.drain(config)
                }
            } else {
                self
            },
            Ok(None) => self,
            Err(e) => Session { conn: self.conn.fail(e), ..self },
        }
    }

    /// The session with more bytes for its decoder.
    pub open spec fn fed(self, bytes: Seq<u8>) -> Session {
        self.decoding(self.conn.decoder.feed(bytes))
    }

    /// Whether the events that the decoder can give come one by one to their end:
    /// there are never more of them than bytes.
    pub open spec fn flows(self, config: Config) -> bool
        decreases self.conn.decoder.fed.len() - self.conn.decoder.pulled,
    {
        let decoder = self.conn.decoder;
        match decoder.next() {
            Ok(Some(event)) => decoder.pulled < decoder.fed.len() && {
                let (after, done) = self.decoding(decoder.pull()).on_event(config, event);
                done || after.flows(config)
            },
            _ => true,
        }
    }

    /// What bytes of the WebSocket stream do.
    pub open spec fn on_frames(self, config: Config, bytes: Seq<u8>) -> Session {
        self.fed(bytes).drain(config)
    }

    /// What bytes off the wire do, in whichever phase the connection is in.
    pub open spec fn on_bytes(self, config: Config, bytes: Seq<u8>) -> Session {
        if self.conn.ignoring {
            self
        } else {
            match self.conn.request {
                Some(request) => self.on_request(config, request + bytes),
                None => self.on_frames(config, bytes),
            }
        }
    }

    /// What the upgrade request, as far as it has come, does.
    pub open spec fn on_request(self, config: Config, request: Seq<u8>) -> Session {
        self.on_answer(config, request, upgrade_answer(request))
    }

    /// What a look at the upgrade request, as far as it has come, does. A client
    /// may have sent frames behind it.
    pub open spec fn on_answer(
        self,
        config: Config,
        request: Seq<u8>,
        answer: Result<Option<(Seq<u8>, int)>, Error>,
    ) -> Session {
        match answer {
            Ok(None) => if request.len() > MAX_HANDSHAKE {
                Session { conn: self.conn.refuse(), ..self }
            } else {
                Session { conn: ConnView { request: Some(request), ..self.conn }, ..self }
            },
            Ok(Some((response, consumed))) => if consumed > MAX_HANDSHAKE {
                Session { conn: self.conn.refuse(), ..self }
            } else {
                self.upgraded(response).on_frames(config, request.skip(consumed))
            },
            Err(_) => Session { conn: self.conn.refuse(), ..self },
        }
    }

    /// The session with its upgrade answered and Node told of it.
    pub open spec fn upgraded(self, response: Seq<u8>) -> Session {
        Session {
            conn: ConnView {
                request: None,
                out: self.conn.out + response,
                opened: true,
                ..self.conn
            },
            ..self
        }.tell(JsEventView::Open { id: self.conn.id })
    }
}

/// A connection, its budget and the events for Node, as a session.
pub open spec fn session(conn: Conn, state: ConnectionState, events: Seq<JsEvent>) -> Session {
    Session { conn: conn@, state, events: events_view(events) }
}

/// What every step of a session keeps: the connection's id, and the part of the
/// budget that is charged to nothing in its buffers. It only adds events for
/// Node, and a conversation that is over stays over.
pub open spec fn keeps(before: Session, after: Session) -> bool {
    &&& after.wf()
    &&& after.conn.id == before.conn.id
    &&& after.state.pending - after.conn.charged() == before.state.pending - before.conn.charged()
    &&& before.conn.ignoring ==> after.conn.ignoring
    &&& before.conn.opened ==> after.conn.opened
    &&& before.events.is_prefix_of(after.events)
}

/// A step that keeps the write in flight too, and what waits to go out, which
/// it only adds to.
pub open spec fn follows(before: Session, after: Session) -> bool {
    &&& keeps(before, after)
    &&& before.conn.out.is_prefix_of(after.conn.out)
    &&& after.conn.writing == before.conn.writing
    &&& after.conn.writing_charged == before.conn.writing_charged
}

/// Whether bytes end an upgrade request that is accepted, with nothing behind it.
pub open spec fn upgrades_alone(conn: ConnView, bytes: Seq<u8>) -> bool {
    &&& !conn.ignoring
    &&& conn.request matches Some(so_far)
    &&& upgrade_answer(so_far + bytes) matches Ok(Some((_, consumed)))
    &&& consumed == (so_far + bytes).len() <= MAX_HANDSHAKE
}

/// Whether two sessions are alike to everyone but the decoder: they are the same,
/// or the conversation is over and they are the same but for what the decoder,
/// which is asked nothing more, was fed.
pub open spec fn alike(a: Session, b: Session) -> bool {
    &&& a.state == b.state
    &&& a.events == b.events
    &&& a.conn == b.conn || (a.conn.ignoring && (ConnView {
        decoder: b.conn.decoder,
        ..a.conn
    }) == b.conn)
}

/// An event does the same whatever else the decoder was fed.
proof fn lemma_on_event_fed(s: Session, config: Config, event: EventView, more: Seq<u8>)
    ensures
        s.fed(more).on_event(config, event) == (
            s.on_event(config, event).0.fed(more),
            s.on_event(config, event).1,
        ),
        s.on_event(config, event).1 ==> s.on_event(config, event).0.conn.ignoring,
        !s.on_event(config, event).1 ==> s.on_event(config, event).0.conn.ignoring
            == s.conn.ignoring,
{
}

/// A frame's encoded length is the payload's length and its header's.
pub proof fn lemma_server_frame_len(first: u8, payload: Seq<u8>)
    ensures
        server_frame(first, payload).len() == message_charge(payload),
{
}

proof fn lemma_reply_follows(s: Session, first: u8, payload: Seq<u8>)
    requires
        s.wf(),
        s.conn.request is None,
    ensures
        follows(s, s.reply(first, payload).0),
        s.reply(first, payload).0.conn.request is None,
        s.reply(first, payload).0.conn.decoder == s.conn.decoder,
{
    lemma_server_frame_len(first, payload);
}

/// What one event does follows from what was.
pub proof fn lemma_on_event_follows(s: Session, config: Config, event: EventView)
    requires
        s.wf(),
        s.conn.request is None,
    ensures
        follows(s, s.on_event(config, event).0),
        s.on_event(config, event).0.conn.request is None,
        s.on_event(config, event).0.conn.decoder == s.conn.decoder,
{
    match event {
        EventView::Text(data) => {
            lemma_reply_follows(s, TEXT, data);
        },
        EventView::Binary(data) => {
            lemma_reply_follows(s, BINARY, data);
        },
        EventView::Ping(payload) => {
            lemma_reply_follows(s, PONG, payload);
        },
        _ => {},
    }
}

/// What the decoder's events do follows from what was.
pub proof fn lemma_drain_follows(s: Session, config: Config)
    requires
        s.wf(),
        s.conn.request is None,
    ensures
        follows(s, s.drain(config)),
        s.drain(config).conn.request is None,
    decreases s.conn.decoder.fed.len() - s.conn.decoder.pulled,
{
    let decoder = s.conn.decoder;
    match decoder.next() {
        Ok(Some(event)) => {
            if decoder.pulled < decoder.fed.len() {
                let pulled = s.decoding(decoder.pull());
                let (after, done) = pulled.on_event(config, event);
                lemma_on_event_follows(pulled, config, event);
                if !done {
                    lemma_drain_follows(after, config);
                }
            }
        },
        _ => {},
    }
}

/// What bytes off the wire do follows from what was.
pub proof fn lemma_on_bytes_follows(s: Session, config: Config, bytes: Seq<u8>)
    requires
        s.wf(),
    ensures
        follows(s, s.on_bytes(config, bytes)),
{
    if !s.conn.ignoring {
        match s.conn.request {
            Some(before) => {
                let request = before + bytes;
                match upgrade_answer(request) {
                    Ok(Some((response, consumed))) => {
                        if consumed <= MAX_HANDSHAKE {
                            let up = s.upgraded(response);
                            let leftover = request.skip(consumed);
                            lemma_drain_follows(
                                up.decoding(up.conn.decoder.feed(leftover)),
                                config,
                            );
                        }
                    },
                    _ => {},
                }
            },
            None => {
                lemma_drain_follows(s.decoding(s.conn.decoder.feed(bytes)), config);
            },
        }
    }
}

impl Conn {
    /// A connection that was just accepted.
    pub fn new(id: u64) -> (conn: Conn)
        ensures
            conn@ == ConnView::fresh(id),
            conn@.wf(),
    {
        Conn {
            id,
            request: Some(Vec::new()),
            decoder: Decoder::with_max_message(MAX_MESSAGE),
            out: Vec::new(),
            out_charged: 0,
            writing: false,
            writing_charged: 0,
            close_when_flushed: false,
            ignoring: false,
            opened: false,
        }
    }

    /// Queue a close frame; the conversation is over.
    pub fn send_close(&mut self, code: u16)
        ensures
            final(self)@ == old(self)@.send_close(code),
    {
        proof {
            reveal_strlit("");
            assert(encode_utf8(""@) =~= Seq::<u8>::empty());
            assert(be16(code as nat) + Seq::<u8>::empty() =~= be16(code as nat));
        }
        let _ = encode::close(&mut self.out, code, "");
        self.close_when_flushed = true;
        self.ignoring = true;
    }

    /// Refuse the upgrade request; the conversation is over.
    fn refuse(&mut self)
        ensures
            final(self)@ == old(self)@.refuse(),
    {
        self.request = None;
        let ghost before = self.out@;
        self.out.extend_from_slice(BAD_REQUEST.as_bytes());
        assert(self.out@ =~= before + bad_request());
        self.close_when_flushed = true;
        self.ignoring = true;
    }

    /// Whether the receive buffer can become the next write.
    pub fn can_echo_in_place(&self) -> (can: bool)
        ensures
            can == self@.can_echo_in_place(),
    {
        self.request.is_none() && !self.ignoring && !self.writing && self.out.is_empty()
    }

    /// Handle one event. Returns true when the conversation is over.
    pub fn on_event(
        &mut self,
        state: &mut ConnectionState,
        events: &mut Vec<JsEvent>,
        config: Config,
        event: Event,
    ) -> (done: bool)
        requires
            session(*old(self), *old(state), old(events)@).wf(),
            event_fits(event_view(event), MAX_MESSAGE),
        ensures
            (session(*final(self), *final(state), final(events)@), done) == session(
                *old(self),
                *old(state),
                old(events)@,
            ).on_event(config, event_view(event)),
    {
        match event {
            Event::Text(text) => {
                if config.native_echo {
                    let charged: usize = frame_len(text.as_str().len());
                    if !state.reserve(charged) {
                        self.send_close(1008);
                        return true;
                    }
                    encode::text(&mut self.out, text.as_str());
                    self.out_charged = self.out_charged + charged;
                } else if config.wants_message {
                    let data: Vec<u8> = text.into_bytes();
                    events.push(JsEvent::Message { id: self.id, data, binary: false });
                }
            },
            Event::Binary(data) => {
                if config.native_echo {
                    let charged: usize = frame_len(data.len());
                    if !state.reserve(charged) {
                        self.send_close(1008);
                        return true;
                    }
                    encode::binary(&mut self.out, data.as_slice());
                    self.out_charged = self.out_charged + charged;
                } else if config.wants_message {
                    events.push(JsEvent::Message { id: self.id, data, binary: true });
                }
            },
            Event::Ping(payload) => {
                let charged: usize = frame_len(payload.len());
                if state.reserve(charged) {
                    let _ = encode::pong(&mut self.out, payload.as_slice());
                    self.out_charged = self.out_charged + charged;
                } else {
                    // A full-duplex peer can keep sending pings while refusing
                    // to read pongs: stop reading once those replies reach the
                    // same cap as application output.
                    self.send_close(1008);
                    return true;
                }
            },
            Event::Pong(_) => {},
            Event::Close(frame) => {
                let code: u16 = match frame {
                    Some(frame) => frame.code,
                    None => 1000,
                };
                self.send_close(code);
                return true;
            },
        }
        false
    }
}

impl Conn {
    /// Bytes of the WebSocket stream. Where the stream is cut makes no difference:
    /// had more bytes come along with these, that would have come to what they
    /// come to now.
    #[verifier::rlimit(30)]
    pub fn on_frames(
        &mut self,
        state: &mut ConnectionState,
        events: &mut Vec<JsEvent>,
        config: Config,
        bytes: &[u8],
    )
        requires
            session(*old(self), *old(state), old(events)@).wf(),
            old(self)@.request is None,
        ensures
            session(*final(self), *final(state), final(events)@) == session(
                *old(self),
                *old(state),
                old(events)@,
            ).on_frames(config, bytes@),
            session(*old(self), *old(state), old(events)@).fed(bytes@).flows(config),
            bytes@.len() == 0 && old(self)@.decoder.fed.len() == 0 && old(self)@.decoder.failed
                is None ==> session(*final(self), *final(state), final(events)@) == session(
                *old(self),
                *old(state),
                old(events)@,
            ),
            !old(self)@.ignoring ==> forall|more: Seq<u8>|
                alike(
                    #[trigger] session(*old(self), *old(state), old(events)@).on_frames(
                        config,
                        bytes@ + more,
                    ),
                    session(*final(self), *final(state), final(events)@).on_bytes(config, more),
                ),
    {
        let ghost start = session(*self, *state, events@);
        let ghost target = start.on_frames(config, bytes@);
        let ghost idle = bytes@.len() == 0 && start.conn.decoder.fed.len() == 0
            && start.conn.decoder.failed is None;
        self.decoder.feed(bytes);
        proof {
            if idle {
                assert(start.conn.decoder.fed + bytes@ =~= start.conn.decoder.fed);
            }
            assert forall|more: Seq<u8>| #[trigger]
                start.fed(bytes@).fed(more).drain(config) == start.on_frames(
                    config,
                    bytes@ + more,
                ) by {
                assert(start.conn.decoder.fed + bytes@ + more =~= start.conn.decoder.fed + (bytes@
                    + more));
            }
        }
        loop
            invariant
                session(*self, *state, events@).wf(),
                self@.request is None,
                self@.ignoring == start.conn.ignoring,
                idle == (bytes@.len() == 0 && start.conn.decoder.fed.len() == 0
                    && start.conn.decoder.failed is None),
                idle ==> session(*self, *state, events@) == start,
                session(*self, *state, events@).drain(config) == target,
                session(*self, *state, events@).flows(config) ==> start.fed(bytes@).flows(config),
                forall|more: Seq<u8>| #[trigger]
                    session(*self, *state, events@).fed(more).drain(config) == start.on_frames(
                        config,
                        bytes@ + more,
                    ),
                start == session(*old(self), *old(state), old(events)@),
                target == start.on_frames(config, bytes@),
            decreases self@.decoder.fed.len() - self@.decoder.pulled,
        {
            let ghost before = session(*self, *state, events@);
            let event: Event = match self.decoder.next_event() {
                Ok(Some(event)) => event,
                Ok(None) => {
                    proof {
                        assert(before.flows(config));
                        assert forall|more: Seq<u8>| !start.conn.ignoring implies alike(
                            #[trigger] start.on_frames(config, bytes@ + more),
                            before.on_bytes(config, more),
                        ) by {
                            assert(before.fed(more).drain(config) == start.on_frames(
                                config,
                                bytes@ + more,
                            ));
                        }
                    }
                    return;
                },
                Err(e) => {
                    // The codec knows which close code each failure earns.
                    self.send_close(e.close_code());
                    proof {
                        let after = session(*self, *state, events@);
                        assert(before.flows(config));
                        assert forall|more: Seq<u8>| !start.conn.ignoring implies alike(
                            #[trigger] start.on_frames(config, bytes@ + more),
                            after.on_bytes(config, more),
                        ) by {
                            assert(before.fed(more).drain(config) == start.on_frames(
                                config,
                                bytes@ + more,
                            ));
                            assert(before.fed(more).conn.decoder.next() is Err);
                        }
                    }
                    return;
                },
            };
            let ghost pulled = before.decoding(before.conn.decoder.pull());
            let ghost (next, over) = pulled.on_event(config, event_view(event));
            proof {
                lemma_on_event_follows(pulled, config, event_view(event));
                lemma_on_event_fed(pulled, config, event_view(event), Seq::empty());
                assert forall|more: Seq<u8>|
                    start.on_frames(config, #[trigger] (bytes@ + more)) == if over {
                        next.fed(more)
                    } else {
                        next.fed(more).drain(config)
                    } by {
                    let ahead = before.fed(more);
                    assert(ahead.drain(config) == start.on_frames(config, bytes@ + more));
                    lemma_on_event_fed(pulled, config, event_view(event), more);
                    assert(ahead.decoding(ahead.conn.decoder.pull()) == pulled.fed(more));
                }
            }
            assert(session(*self, *state, events@) == pulled);
            if self.on_event(state, events, config, event) {
                proof {
                    assert(before.flows(config));
                    assert forall|more: Seq<u8>| !start.conn.ignoring implies alike(
                        #[trigger] start.on_frames(config, bytes@ + more),
                        next.on_bytes(config, more),
                    ) by {}
                }
                return;
            }
            assert forall|more: Seq<u8>| #[trigger]
                next.fed(more).drain(config) == start.on_frames(config, bytes@ + more) by {
                let whole = bytes@ + more;
            }
        }
    }

    /// Plaintext bytes off the wire, in whichever phase the connection is in. How
    /// the stream is cut into reads makes no difference, before the upgrade or
    /// after it: had more bytes come along with these, that would have come to
    /// what they come to now. An upgrade with nothing behind it is answered and
    /// told to Node, and the conversation goes on.
    pub fn on_bytes(
        &mut self,
        state: &mut ConnectionState,
        events: &mut Vec<JsEvent>,
        config: Config,
        bytes: &[u8],
    )
        requires
            session(*old(self), *old(state), old(events)@).wf(),
        ensures
            session(*final(self), *final(state), final(events)@) == session(
                *old(self),
                *old(state),
                old(events)@,
            ).on_bytes(config, bytes@),
            upgrades_alone(old(self)@, bytes@) ==> session(
                *final(self),
                *final(state),
                final(events)@,
            ) == session(*old(self), *old(state), old(events)@).upgraded(
                upgrade_answer(old(self)@.request->Some_0 + bytes@)->Ok_0->Some_0.0,
            ),
            forall|more: Seq<u8>|
                alike(
                    #[trigger] session(*old(self), *old(state), old(events)@).on_bytes(
                        config,
                        bytes@ + more,
                    ),
                    session(*final(self), *final(state), final(events)@).on_bytes(config, more),
                ),
    {
        if self.ignoring {
            return;
        }
        let ghost start = session(*self, *state, events@);
        match self.request.take() {
            Some(mut request) => {
                let ghost so_far = request@;
                request.extend_from_slice(bytes);
                assert(request@ =~= so_far + bytes@);
                let ghost asked = request@;
                let ghost waiting = session(*self, *state, events@);
                let answer: Result<Upgrade, Error> = handshake::upgrade(request.as_slice());
                self.on_upgrade(state, events, config, request, answer);
                proof {
                    let after = session(*self, *state, events@);
                    assert forall|more: Seq<u8>|
                        alike(
                            #[trigger] start.on_bytes(config, bytes@ + more),
                            after.on_bytes(config, more),
                        ) by {
                        assert(so_far + (bytes@ + more) =~= asked + more);
                        let later = upgrade_answer(asked + more);
                        assert(start.on_bytes(config, bytes@ + more) == start.on_answer(
                            config,
                            asked + more,
                            later,
                        ));
                        assert(start.on_answer(config, asked + more, later) == waiting.on_answer(
                            config,
                            asked + more,
                            later,
                        ));
                    }
                }
            },
            None => {
                self.on_frames(state, events, config, bytes);
            },
        }
    }

    /// A look at the upgrade request, as far as it has come, found this.
    pub fn on_upgrade(
        &mut self,
        state: &mut ConnectionState,
        events: &mut Vec<JsEvent>,
        config: Config,
        request: Vec<u8>,
        answer: Result<Upgrade, Error>,
    )
        requires
            session(*old(self), *old(state), old(events)@).asking().wf(),
            answer matches Ok(Upgrade::Accept { consumed, .. }) ==> consumed <= request@.len(),
        ensures
            session(*final(self), *final(state), final(events)@) == session(
                *old(self),
                *old(state),
                old(events)@,
            ).on_answer(config, request@, upgrade_view(answer)),
            answer matches Ok(Upgrade::Accept { response, consumed }) ==> (consumed
                == request@.len() <= MAX_HANDSHAKE ==> session(
                *final(self),
                *final(state),
                final(events)@,
            ) == session(*old(self), *old(state), old(events)@).upgraded(response@)),
            !old(self)@.ignoring && !(answer is Ok && answer->Ok_0 is NeedMore)
                ==> forall|more: Seq<u8>|
                alike(
                    #[trigger] session(*old(self), *old(state), old(events)@).on_answer(
                        config,
                        request@ + more,
                        upgrade_view(answer),
                    ),
                    session(*final(self), *final(state), final(events)@).on_bytes(config, more),
                ),
    {
        let ghost before = session(*self, *state, events@);
        match answer {
            Ok(Upgrade::NeedMore) => {
                if request.len() > MAX_HANDSHAKE {
                    self.refuse();
                    return;
                }
                self.request = Some(request);
            },
            Ok(Upgrade::Accept { response, consumed }) => {
                if consumed > MAX_HANDSHAKE {
                    self.refuse();
                    return;
                }
                let ghost out = self.out@;
                self.request = None;
                self.out.extend_from_slice(response.as_slice());
                assert(self.out@ =~= out + response@);
                self.opened = true;
                let ghost told = events@;
                events.push(JsEvent::Open { id: self.id });
                assert(events_view(events@) =~= events_view(told).push(
                    JsEventView::Open { id: self@.id },
                ));
                assert(session(*self, *state, events@) == before.upgraded(response@));
                // A client may pipeline frames behind the request.
                let leftover: &[u8] = vstd::slice::slice_subrange(
                    request.as_slice(),
                    consumed,
                    request.len(),
                );
                assert(leftover@ =~= request@.skip(consumed as int));
                let ghost up = session(*self, *state, events@);
                self.on_frames(state, events, config, leftover);
                assert forall|more: Seq<u8>| !before.conn.ignoring implies alike(
                    #[trigger] before.on_answer(config, request@ + more, upgrade_view(answer)),
                    session(*self, *state, events@).on_bytes(config, more),
                ) by {
                    assert((request@ + more).skip(consumed as int) =~= leftover@ + more);
                    assert(up.on_frames(config, leftover@ + more) == before.on_answer(
                        config,
                        request@ + more,
                        upgrade_view(answer),
                    ));
                }
            },
            Err(_) => {
                self.refuse();
            },
        }
    }
}

/// What echoing a batch of pipelined frames comes to.
#[verifier::ext_equal]
pub struct EchoRun {
    /// The replies, one behind the other.
    pub packed: Seq<u8>,
    /// Where the frames that were answered end.
    pub consumed: int,
    /// The error that the frame behind them ran into, if it did.
    pub error: Option<Error>,
}

/// What echoing the whole data frames at the front of `bytes` comes to: each
/// gets a reply of its own, until there is none or one is broken.
pub open spec fn echo_run(decoder: DecoderView, bytes: Seq<u8>) -> EchoRun
    decreases bytes.len(),
{
    match decoder.front(bytes) {
        Ok(Some(found)) => if 0 < found.end <= bytes.len() {
            let rest = echo_run(decoder, bytes.skip(found.end));
            EchoRun {
                packed: server_frame(
                    first_byte(found.kind),
                    unmasked(bytes, found.start, found.end),
                ) + rest.packed,
                consumed: found.end + rest.consumed,
                error: rest.error,
            }
        } else {
            EchoRun { packed: Seq::empty(), consumed: 0, error: None }
        },
        Ok(None) => EchoRun { packed: Seq::empty(), consumed: 0, error: None },
        Err(e) => EchoRun { packed: Seq::empty(), consumed: 0, error: Some(e) },
    }
}

/// What the buffer holds once a batch was packed: the replies, and behind them
/// what was there, but for a text that turned out not to be UTF-8, which lies
/// unmasked where its reply's payload would have been.
pub open spec fn echo_held(decoder: DecoderView, bytes: Seq<u8>, run: EchoRun) -> Seq<u8> {
    let packed = run.packed.len() as int;
    let held = run.packed + bytes.skip(packed);
    if run.error is Some && decoder.spoils(run.error->Some_0) {
        unmasked_to(
            held,
            run.consumed,
            packed + header_len(client_payload_len(held.skip(run.consumed)) as nat),
        )
    } else {
        held
    }
}

/// What became of a read that was tried as an echo.
pub enum NativeEchoRead {
    /// No whole unfragmented data frame was there. The streaming decoder still
    /// owns these bytes.
    Unclaimed(Vec<u8>),
    /// The receive buffer becomes this write.
    Submitted(Op),
    /// The input was refused for good; the close frame is already queued.
    Rejected(Vec<u8>),
}

/// What became of a read, by what is done next and what the buffer holds.
#[verifier::ext_equal]
pub enum NativeEchoReadView {
    Unclaimed(Seq<u8>),
    Submitted(OpView),
    Rejected(Seq<u8>),
}

impl View for NativeEchoRead {
    type V = NativeEchoReadView;

    open spec fn view(&self) -> NativeEchoReadView {
        match self {
            NativeEchoRead::Unclaimed(buf) => NativeEchoReadView::Unclaimed(buf@),
            NativeEchoRead::Submitted(op) => NativeEchoReadView::Submitted(op@),
            NativeEchoRead::Rejected(buf) => NativeEchoReadView::Rejected(buf@),
        }
    }
}

impl Session {
    /// The session with `bytes` charged.
    pub open spec fn charge(self, bytes: int) -> Session {
        Session { state: self.state.charge(bytes), ..self }
    }

    /// The session stuck on a codec error, with the close code it earns.
    pub open spec fn fail(self, e: Error) -> Session {
        Session { conn: self.conn.fail(e), ..self }
    }

    /// The session with a write in flight, of which `bytes` are charged.
    pub open spec fn writes(self, bytes: int) -> Session {
        Session {
            conn: ConnView { writing: true, writing_charged: bytes as usize, ..self.conn },
            ..self
        }
    }

    /// What a read does that is tried as an echo.
    ///
    /// A single whole frame is answered from the buffer it lies in. A batch of
    /// pipelined frames is answered with one write of all the replies; what
    /// follows them goes to the streaming decoder, and a broken frame behind
    /// them closes the connection after they went out. Whatever is not a whole
    /// data frame is left to the streaming decoder.
    pub open spec fn echo_read(self, config: Config, fd: i32, bytes: Seq<u8>) -> (
        Session,
        NativeEchoReadView,
    ) {
        if !self.conn.can_echo_in_place() {
            (self, NativeEchoReadView::Unclaimed(bytes))
        } else {
            match self.conn.decoder.whole(bytes) {
                Ok(Some(found)) => self.echo_one(
                    fd,
                    bytes.take(found.start) + unmasked(bytes, found.start, found.end),
                    found.start,
                    found.kind,
                ),
                Ok(None) => {
                    let run = echo_run(self.conn.decoder, bytes);
                    self.echo_batch(
                        config,
                        fd,
                        bytes,
                        run,
                        echo_held(self.conn.decoder, bytes, run),
                    )
                },
                Err(e) => (
                    self.fail(e),
                    NativeEchoReadView::Rejected(
                        if self.conn.decoder.spoils(e) {
                            unmasked_to(bytes, 0, client_header_len(bytes))
                        } else {
                            bytes
                        },
                    ),
                ),
            }
        }
    }

    /// What one reply in place does: the buffer holds a message of this kind from
    /// `at` to its end.
    pub open spec fn echo_one(self, fd: i32, held: Seq<u8>, at: int, kind: MessageKind) -> (
        Session,
        NativeEchoReadView,
    ) {
        let payload = held.skip(at);
        let charge = message_charge(payload);
        if self.state.admits(charge) {
            (
                self.charge(charge).writes(charge),
                NativeEchoReadView::Submitted(
                    OpView::Write {
                        fd,
                        lead: held.take(at - header_len(payload.len())),
                        sent: server_frame(first_byte(kind), payload),
                    },
                ),
            )
        } else {
            (self.close(1008), NativeEchoReadView::Rejected(held))
        }
    }

    /// What the replies to a batch do, once the buffer that it came in holds
    /// `held`.
    pub open spec fn echo_batch(
        self,
        config: Config,
        fd: i32,
        bytes: Seq<u8>,
        run: EchoRun,
        held: Seq<u8>,
    ) -> (Session, NativeEchoReadView) {
        let charge = run.packed.len() as int;
        if charge == 0 {
            match run.error {
                Some(e) => (self.fail(e), NativeEchoReadView::Rejected(held)),
                None => (self, NativeEchoReadView::Unclaimed(bytes)),
            }
        } else if !self.state.admits(charge) {
            (
                match run.error {
                    Some(e) => self.decoding(self.conn.decoder.fail(e)),
                    None => self,
                }.close(1008),
                NativeEchoReadView::Rejected(held),
            )
        } else {
            let charged = self.charge(charge);
            let after = match run.error {
                Some(e) => charged.fail(e),
                None => if run.consumed < bytes.len() {
                    charged.on_frames(config, bytes.skip(run.consumed))
                } else {
                    charged
                },
            };
            (
                after.writes(charge),
                NativeEchoReadView::Submitted(OpView::write(fd, run.packed)),
            )
        }
    }
}

impl Conn {
    /// Native echo's fast lane. A single whole frame is unmasked in place and
    /// written from the reply header laid in front of its unmoved payload. A
    /// pipelined read is packed: all replies in the same buffer, one write.
    /// Fragmented, control and partial frames are left to the streaming decoder.
    /// Either way the peer gets what the streaming decoder would have sent it.
    pub fn try_native_echo_read(
        &mut self,
        state: &mut ConnectionState,
        events: &mut Vec<JsEvent>,
        config: Config,
        fd: i32,
        buf: Vec<u8>,
    ) -> (read: NativeEchoRead)
        requires
            session(*old(self), *old(state), old(events)@).wf(),
        ensures
            (session(*final(self), *final(state), final(events)@), read@) == session(
                *old(self),
                *old(state),
                old(events)@,
            ).echo_read(config, fd, buf@),
            read matches NativeEchoRead::Submitted(op) ==> op.wf(),
            config.native_echo && batch_fits(
                session(*old(self), *old(state), old(events)@),
                buf@,
            ) ==> lanes_agree(
                session(*old(self), *old(state), old(events)@),
                config,
                buf@,
                read@,
                session(*final(self), *final(state), final(events)@),
            ),
    {
        if !self.can_echo_in_place() {
            return NativeEchoRead::Unclaimed(buf);
        }
        let mut buf: Vec<u8> = buf;
        let ghost bytes = buf@;
        let ghost before = session(*self, *state, events@);
        match self.decoder.take_whole_frame(buf.as_mut_slice()) {
            Ok(Some(frame)) => {
                assert(buf@.skip(frame.payload.start as int) =~= unmasked(
                    bytes,
                    frame.payload.start as int,
                    frame.payload.end as int,
                ));
                proof {
                    let payload = buf@.skip(frame.payload.start as int);
                    lemma_server_frame_len(first_byte(frame.kind), payload);
                    if config.native_echo {
                        lemma_one_message_streamed(before, config, bytes, frame.kind, payload);
                    }
                }
                self.echo_frame(state, events, fd, buf, frame)
            },
            Ok(None) => self.echo_batch(state, events, config, fd, buf),
            Err(e) => {
                proof {
                    lemma_refusal_streamed(before, config, bytes, e);
                }
                self.send_close(e.close_code());
                NativeEchoRead::Rejected(buf)
            },
        }
    }

    /// The buffer ends in the unmasked payload of the one frame it holds: answer
    /// from there, with the reply's header laid in front of the payload.
    pub fn echo_frame(
        &mut self,
        state: &mut ConnectionState,
        events: &Vec<JsEvent>,
        fd: i32,
        buf: Vec<u8>,
        frame: WholeFrame,
    ) -> (read: NativeEchoRead)
        requires
            frame.payload.start <= frame.payload.end,
            frame.payload.end == buf@.len(),
            header_len((frame.payload.end - frame.payload.start) as nat) <= frame.payload.start,
        ensures
            (session(*final(self), *final(state), events@), read@) == session(
                *old(self),
                *old(state),
                events@,
            ).echo_one(fd, buf@, frame.payload.start as int, frame.kind),
            read matches NativeEchoRead::Submitted(op) ==> op.wf(),
    {
        let mut buf: Vec<u8> = buf;
        let ghost held = buf@;
        let ghost payload = held.skip(frame.payload.start as int);
        let charged: usize = frame_len(frame.payload.end - frame.payload.start);
        proof {
            lemma_server_frame_len(first_byte(frame.kind), payload);
        }
        if !state.reserve(charged) {
            self.send_close(1008);
            return NativeEchoRead::Rejected(buf);
        }
        let start: usize = reply_header_into(buf.as_mut_slice(), frame.kind, &frame.payload);
        assert(buf@.skip(start as int) =~= server_frame(first_byte(frame.kind), payload));
        assert(buf@.take(start as int) =~= held.take(start as int));
        self.writing = true;
        self.writing_charged = charged;
        NativeEchoRead::Submitted(Op::WriteFrom { fd, buf, start })
    }

    /// Pack the replies to every whole frame at the front of the buffer. Each
    /// reply is at least four bytes shorter than its masked frame, so the write
    /// cursor never catches the read cursor.
    #[verifier::rlimit(30)]
    fn echo_batch(
        &mut self,
        state: &mut ConnectionState,
        events: &mut Vec<JsEvent>,
        config: Config,
        fd: i32,
        buf: Vec<u8>,
    ) -> (read: NativeEchoRead)
        requires
            session(*old(self), *old(state), old(events)@).wf(),
            old(self)@.can_echo_in_place(),
            old(self)@.decoder.failed is None,
        ensures
            (session(*final(self), *final(state), final(events)@), read@) == session(
                *old(self),
                *old(state),
                old(events)@,
            ).echo_batch(
                config,
                fd,
                buf@,
                echo_run(old(self)@.decoder, buf@),
                echo_held(old(self)@.decoder, buf@, echo_run(old(self)@.decoder, buf@)),
            ),
            read matches NativeEchoRead::Submitted(op) ==> op is Write,
            config.native_echo && old(state).admits(
                echo_run(old(self)@.decoder, buf@).packed.len() as int,
            ) ==> lanes_agree(
                session(*old(self), *old(state), old(events)@),
                config,
                buf@,
                read@,
                session(*final(self), *final(state), final(events)@),
            ),
    {
        let mut buf: Vec<u8> = buf;
        let ghost bytes = buf@;
        let ghost before = session(*self, *state, events@);
        let ghost decoder = self@.decoder;
        let len: usize = buf.len();
        let mut written: usize = 0;
        let mut from: usize = 0;
        let mut error: Option<Error> = None;
        let ghost mut n: nat = 0;
        proof {
            lemma_packs_start(decoder, bytes);
            lemma_streams_start(before, config, bytes);
            assert(bytes.take(0) =~= Seq::empty());
        }
        loop
            invariant_except_break
                error is None,
                session(*self, *state, events@) == before,
                packs(decoder, bytes, buf@, written as int, from as int),
            invariant
                before.wf(),
                before.conn.can_echo_in_place(),
                decoder == before.conn.decoder,
                decoder.failed is None,
                written <= from <= len,
                written > 0 <==> n > 0,
                buf@.len() == len,
                bytes.len() == len,
                streams(before, config, bytes, buf@.take(written as int), from as int, n),
            ensures
                echo_run(decoder, bytes) == (EchoRun {
                    packed: buf@.take(written as int),
                    consumed: from as int,
                    error,
                }),
                error is None ==> packs(decoder, bytes, buf@, written as int, from as int),
                buf@ == echo_held(decoder, bytes, echo_run(decoder, bytes)),
                session(*self, *state, events@) == match error {
                    Some(e) => before.decoding(decoder.fail(e)),
                    None => before,
                },
                error matches Some(e) ==> stream_event(
                    decoder.limit,
                    decoder.fed + bytes.skip(from as int),
                    decoder.pulled,
                ) == Err::<Option<EventView>, Error>(e),
            decreases len - from,
        {
            let ghost rest = bytes.skip(from as int);
            let ghost held = buf@;
            proof {
                lemma_packs_rest(decoder, bytes, held, written as int, from as int);
            }
            match self.decoder.take_echo_frame_at(buf.as_mut_slice(), from, written) {
                Ok(Some(frame)) => {
                    proof {
                        let found = decoder.front(rest)->Ok_0->Some_0;
                        let payload = unmasked(rest, found.start, found.end);
                        let reply = server_frame(first_byte(found.kind), payload);
                        lemma_server_frame_len(first_byte(found.kind), payload);
                        lemma_packs_step(
                            decoder,
                            bytes,
                            held,
                            written as int,
                            from as int,
                            found,
                            buf@,
                        );
                        assert(shifts(
                            decoder,
                            rest.take(found.end),
                            data_event(found.kind, payload),
                        ));
                        lemma_streams_step(
                            before,
                            config,
                            bytes,
                            held.take(written as int),
                            from as int,
                            n,
                            found.kind,
                            payload,
                            found.end,
                        );
                        n = n + 1;
                    }
                    written = frame.frame.end;
                    from = frame.consumed;
                },
                Ok(None) => {
                    proof {
                        lemma_packs_none(decoder, bytes, held, written as int, from as int);
                    }
                    break;
                },
                Err(e) => {
                    proof {
                        lemma_packs_error(
                            decoder,
                            bytes,
                            held,
                            written as int,
                            from as int,
                            e,
                            buf@,
                        );
                    }
                    error = Some(e);
                    break;
                },
            }
        }
        let ghost packed = buf@.take(written as int);
        let ghost broken = error is Some;
        proof {
            if error is None {
                lemma_packs_rest(decoder, bytes, buf@, written as int, from as int);
            }
            if config.native_echo && before.state.admits(written as int) {
                if error is Some {
                    let e = error->Some_0;
                    lemma_streams_error(before, config, bytes, packed, from as int, n, e);
                } else if n > 0 && from == len {
                    lemma_streams_end(before, config, bytes, packed, n);
                }
            }
        }
        let read: NativeEchoRead = self.echo_packed(
            state,
            events,
            config,
            fd,
            buf,
            written,
            from,
            error,
        );
        proof {
            if config.native_echo && before.state.admits(written as int) && !broken && n > 0
                && from < len {
                lemma_streams_tail(before, config, bytes, packed, from as int, n);
            }
            assert(written == 0 ==> packed =~= Seq::<u8>::empty());
        }
        read
    }

    /// The buffer begins with the replies to the frames that ended at `from`,
    /// `written` bytes of them: send those. What follows the frames goes to the
    /// streaming decoder, unless the decoder is stuck on an error there.
    pub fn echo_packed(
        &mut self,
        state: &mut ConnectionState,
        events: &mut Vec<JsEvent>,
        config: Config,
        fd: i32,
        buf: Vec<u8>,
        written: usize,
        from: usize,
        error: Option<Error>,
    ) -> (read: NativeEchoRead)
        requires
            session(*old(self), *old(state), old(events)@).wf(),
            old(self)@.can_echo_in_place(),
            written <= from <= buf@.len(),
            error matches Some(e) ==> old(self)@.decoder.failed == Some(e),
        ensures
            (session(*final(self), *final(state), final(events)@), read@) == session(
                *old(self),
                *old(state),
                old(events)@,
            ).echo_batch(
                config,
                fd,
                buf@,
                (EchoRun { packed: buf@.take(written as int), consumed: from as int, error }),
                buf@,
            ),
            read matches NativeEchoRead::Submitted(op) ==> op is Write,
            error is None && 0 < written && from < buf@.len() && old(state).admits(written as int)
                ==> session(*old(self), *old(state), old(events)@).charge(written as int).fed(
                buf@.skip(from as int),
            ).flows(config),
    {
        if written == 0 {
            return match error {
                Some(e) => {
                    self.send_close(e.close_code());
                    NativeEchoRead::Rejected(buf)
                },
                None => NativeEchoRead::Unclaimed(buf),
            };
        }
        if !state.reserve(written) {
            self.send_close(1008);
            return NativeEchoRead::Rejected(buf);
        }
        // Valid replies before a later bad frame still go out before the close.
        match error {
            Some(e) => {
                self.send_close(e.close_code());
            },
            None => {
                if from < buf.len() {
                    let tail: &[u8] = vstd::slice::slice_subrange(
                        buf.as_slice(),
                        from,
                        buf.len(),
                    );
                    assert(tail@ =~= buf@.skip(from as int));
                    self.on_frames(state, events, config, tail);
                }
            },
        }
        let mut buf: Vec<u8> = buf;
        buf.truncate(written);
        self.writing = true;
        self.writing_charged = written;
        NativeEchoRead::Submitted(Op::Write { fd, buf })
    }
}

/// What a connection has for the driver.
pub enum Pump {
    /// Nothing now.
    Idle,
    /// These bytes are to be written.
    Write(Vec<u8>),
    /// Everything is written and the connection is to be closed.
    Close,
}

/// What a connection has for the driver, by its bytes.
#[verifier::ext_equal]
pub enum PumpView {
    Idle,
    Write(Seq<u8>),
    Close,
}

impl View for Pump {
    type V = PumpView;

    open spec fn view(&self) -> PumpView {
        match self {
            Pump::Idle => PumpView::Idle,
            Pump::Write(buf) => PumpView::Write(buf@),
            Pump::Close => PumpView::Close,
        }
    }
}

impl ConnView {
    /// What the connection has for the driver: nothing while a write is in
    /// flight; else what waits to go out; else the close it is to end with.
    pub open spec fn pump(self) -> (ConnView, PumpView) {
        if self.writing {
            (self, PumpView::Idle)
        } else if self.out.len() > 0 {
            (
                ConnView {
                    out: Seq::empty(),
                    out_charged: 0,
                    writing: true,
                    writing_charged: self.out_charged,
                    ..self
                },
                PumpView::Write(self.out),
            )
        } else if self.close_when_flushed {
            (self, PumpView::Close)
        } else {
            (self, PumpView::Idle)
        }
    }
}

impl ConnView {
    /// The connection once the write in flight is done. Where it failed, what
    /// waits behind it is given up too and the conversation is over.
    pub open spec fn written(self, failed: bool) -> ConnView {
        if failed {
            ConnView {
                writing: false,
                writing_charged: 0,
                out: Seq::empty(),
                out_charged: 0,
                close_when_flushed: true,
                ignoring: true,
                ..self
            }
        } else {
            ConnView { writing: false, writing_charged: 0, ..self }
        }
    }

    /// What is given back to the budget once the write in flight is done: what
    /// was charged for the bytes that are written or given up, and only that.
    /// Handshake and close replies may have shared the write but were never
    /// charged.
    pub open spec fn written_refund(self, failed: bool) -> int {
        if failed {
            self.charged()
        } else {
            self.writing_charged as int
        }
    }

    /// Whether a message from JavaScript is sent. A conversation that is over
    /// takes none. A text frame must be UTF-8; sending other bytes as binary
    /// would be a lie, so those are refused.
    pub open spec fn takes(self, data: Seq<u8>, binary: bool) -> bool {
        !self.ignoring && (binary || valid_utf8(data))
    }

    /// The connection with a message from JavaScript to send.
    pub open spec fn deliver(self, data: Seq<u8>, binary: bool) -> ConnView {
        if self.takes(data, binary) {
            ConnView {
                out: self.out + server_frame(
                    if binary {
                        BINARY
                    } else {
                        TEXT
                    },
                    data,
                ),
                out_charged: (self.out_charged + message_charge(data)) as usize,
                ..self
            }
        } else {
            self
        }
    }
}

impl Conn {
    /// What this connection has for the driver.
    pub fn pump(&mut self) -> (pump: Pump)
        ensures
            (final(self)@, pump@) == old(self)@.pump(),
    {
        if self.writing {
            return Pump::Idle;
        }
        if !self.out.is_empty() {
            let mut buf: Vec<u8> = Vec::new();
            std::mem::swap(&mut buf, &mut self.out);
            self.writing_charged = self.out_charged;
            self.out_charged = 0;
            self.writing = true;
            return Pump::Write(buf);
        }
        if self.close_when_flushed {
            return Pump::Close;
        }
        Pump::Idle
    }

    /// The write in flight is done.
    pub fn written(&mut self, state: &mut ConnectionState, failed: bool)
        requires
            old(self)@.charged() <= usize::MAX,
        ensures
            final(self)@ == old(self)@.written(failed),
            *final(state) == old(state).refund(old(self)@.written_refund(failed)),
    {
        self.writing = false;
        let completed: usize = self.writing_charged;
        self.writing_charged = 0;
        let mut abandoned: usize = 0;
        if failed {
            abandoned = self.out_charged;
            self.out_charged = 0;
            self.out.clear();
            self.close_when_flushed = true;
            self.ignoring = true;
        }
        state.release(completed + abandoned);
    }

    /// Take a message from JavaScript that is already charged. What is not sent
    /// is given back.
    pub fn deliver(&mut self, state: &mut ConnectionState, data: Vec<u8>, binary: bool)
        requires
            data@.len() <= MAX_OUTBOUND,
            old(self)@.out_charged + message_charge(data@) <= usize::MAX,
        ensures
            final(self)@ == old(self)@.deliver(data@, binary),
            *final(state) == if old(self)@.takes(data@, binary) {
                *old(state)
            } else {
                old(state).refund(message_charge(data@))
            },
    {
        let charged: usize = frame_len(data.len());
        if self.ignoring {
            state.release(charged);
            return;
        }
        if binary {
            encode::binary(&mut self.out, data.as_slice());
        } else {
            match std::str::from_utf8(data.as_slice()) {
                Ok(text) => {
                    encode::text(&mut self.out, text);
                },
                Err(_) => {
                    state.release(charged);
                    return;
                },
            }
        }
        self.out_charged = self.out_charged + charged;
    }

    /// The id that stands for this connection outside the reactor.
    pub fn id(&self) -> (id: u64)
        ensures
            id == self@.id,
    {
        self.id
    }

    /// Whether Node has been told of this connection.
    pub fn opened(&self) -> (opened: bool)
        ensures
            opened == self@.opened,
    {
        self.opened
    }

    /// Whether the connection closes once everything is written.
    pub fn closing(&self) -> (closing: bool)
        ensures
            closing == self@.close_when_flushed,
    {
        self.close_when_flushed
    }
}

/// What a read that is tried as an echo does keeps what every step keeps.
pub proof fn lemma_echo_read_keeps(s: Session, config: Config, fd: i32, bytes: Seq<u8>)
    requires
        s.wf(),
    ensures
        keeps(s, s.echo_read(config, fd, bytes).0),
{
    if s.conn.can_echo_in_place() {
        match s.conn.decoder.whole(bytes) {
            Ok(None) => {
                let run = echo_run(s.conn.decoder, bytes);
                let charge = run.packed.len() as int;
                if run.error is None && s.state.admits(charge) {
                    let up = s.charge(charge);
                    let tail = bytes.skip(run.consumed);
                    lemma_drain_follows(up.decoding(up.conn.decoder.feed(tail)), config);
                }
            },
            _ => {},
        }
    }
}

/// A connection shows all that it holds: every byte of its request and every byte
/// that waits.
proof fn lemma_conn_shows_everything(conn: Conn)
    ensures
        conn@.id == conn.id,
        conn@.request is Some <==> conn.request is Some,
        conn.request is Some ==> conn@.request->Some_0 == conn.request->Some_0@,
        conn@.decoder == decoder_view(conn.decoder),
        conn@.out == conn.out@,
        conn@.out_charged == conn.out_charged,
        conn@.writing == conn.writing,
        conn@.writing_charged == conn.writing_charged,
        conn@.close_when_flushed == conn.close_when_flushed,
        conn@.ignoring == conn.ignoring,
        conn@.opened == conn.opened,
{
}

} // verus!
