//! What each step of a connection comes to, field by field and byte by byte.

use crate::bridge::{ConnectionState, MAX_OUTBOUND};
use crate::budget::MAX_DISPATCH_BYTES;
use crate::codec::{stream_event, upgrade_answer, DecoderView, EventView, Located};
use crate::conn::{
    echo_held, echo_run, Config, ConnView, NativeEchoReadView, PumpView, Session, MAX_HANDSHAKE,
    MAX_MESSAGE,
};
use crate::messages::{JsEventView, OpView};
use crate::node::SMALL_MESSAGE_COPY_MAX;
use crate::server::NATIVE_FUSED_MIN_READ;
use crate::wire::{be64, header_len, server_frame, unmasked};
use ramjet_ws::{Error, MessageKind};
use vstd::arithmetic::div_mod::lemma_div_denominator;
use vstd::prelude::*;
use vstd::utf8::{encode_utf8, valid_utf8};

verus! {

/// The limits, in bytes: 32 MiB for a message and for what Node has yet to take,
/// 16 KiB for an upgrade request, 4 MiB outstanding for a connection, 4 KiB for a
/// message that is copied for Node, and 128 for a read that is not worth the fast
/// lane.
pub proof fn law_limits()
    ensures
        MAX_MESSAGE == 33_554_432,
        MAX_DISPATCH_BYTES == 33_554_432,
        MAX_HANDSHAKE == 16_384,
        MAX_OUTBOUND == 4_194_304,
        SMALL_MESSAGE_COPY_MAX == 4_096,
        NATIVE_FUSED_MIN_READ == 128,
{
}

/// How many bytes a payload of this length takes as a server frame.
pub open spec fn framed(len: nat) -> nat {
    if len < 126 {
        len + 2
    } else if len < 65_536 {
        len + 4
    } else {
        len + 10
    }
}

/// The four bytes of a close frame that carries a code and no reason.
pub open spec fn close_bytes(code: int) -> Seq<u8> {
    seq![0x88u8, 2u8, (code / 256) as u8, (code % 256) as u8]
}

/// A session whose connection has been told to go with a code: the close frame is
/// behind everything that waits, the conversation is over, the connection closes
/// when that is flushed, and nothing else is changed.
pub open spec fn told_to_go(s: Session, code: int) -> Session {
    Session {
        conn: ConnView {
            out: s.conn.out + close_bytes(code),
            close_when_flushed: true,
            ignoring: true,
            ..s.conn
        },
        ..s
    }
}

/// A session with a frame to send: it is behind everything that waits, its bytes
/// are charged to the buffer and to the budget, and nothing else is changed.
pub open spec fn with_frame(s: Session, first: u8, payload: Seq<u8>) -> Session {
    Session {
        conn: ConnView {
            out: s.conn.out + server_frame(first, payload),
            out_charged: (s.conn.out_charged + framed(payload.len())) as usize,
            ..s.conn
        },
        state: ConnectionState {
            pending: (s.state.pending + framed(payload.len())) as usize,
            ..s.state
        },
        ..s
    }
}

/// A server frame is its first byte, its payload's length in the narrowest of
/// three widths, and its payload; the payload can be read back from it.
pub proof fn law_server_frame(first: u8, payload: Seq<u8>)
    ensures
        ({
            let frame = server_frame(first, payload);
            let len = payload.len();
            &&& frame.len() == framed(len)
            &&& len + header_len(len) == framed(len)
            &&& frame[0] == first
            &&& frame.skip(frame.len() - len) == payload
            &&& len < 126 ==> frame[1] == len
            &&& 126 <= len < 65_536 ==> frame[1] == 126 && frame[2] * 256 + frame[3] == len
            &&& 65_536 <= len < 0x1_0000_0000_0000_0000 ==> frame[1] == 127 && frame[2]
                * 0x100_0000_0000_0000 + frame[3] * 0x1_0000_0000_0000 + frame[4]
                * 0x100_0000_0000 + frame[5] * 0x1_0000_0000 + frame[6] * 0x100_0000 + frame[7]
                * 0x1_0000 + frame[8] * 0x100 + frame[9] == len
        }),
{
    let frame = server_frame(first, payload);
    let len = payload.len();
    assert(frame.skip(frame.len() - len) =~= payload);
    if 65_536 <= len < 0x1_0000_0000_0000_0000 {
        let wide = be64(len);
        assert forall|i: int| 0 <= i < 8 implies frame[2 + i] == wide[i] by {}
        assert(frame[2] == wide[0] && frame[3] == wide[1] && frame[4] == wide[2] && frame[5]
            == wide[3] && frame[6] == wide[4] && frame[7] == wide[5] && frame[8] == wide[6]
            && frame[9] == wide[7]);
        lemma_be64(len);
    }
}

/// Eight bytes, most significant first, give their number back.
proof fn lemma_be64(v: nat)
    requires
        v < 0x1_0000_0000_0000_0000,
    ensures
        ({
            let b = be64(v);
            b[0] * 0x100_0000_0000_0000 + b[1] * 0x1_0000_0000_0000 + b[2] * 0x100_0000_0000 + b[3]
                * 0x1_0000_0000 + b[4] * 0x100_0000 + b[5] * 0x1_0000 + b[6] * 0x100 + b[7] == v
        }),
{
    let x = v as int;
    lemma_div_denominator(x, 0x100, 0x100);
    lemma_div_denominator(x, 0x1_0000, 0x100);
    lemma_div_denominator(x, 0x100_0000, 0x100);
    lemma_div_denominator(x, 0x1_0000_0000, 0x100);
    lemma_div_denominator(x, 0x100_0000_0000, 0x100);
    lemma_div_denominator(x, 0x1_0000_0000_0000, 0x100);
    let q1 = x / 0x100;
    let q2 = x / 0x1_0000;
    let q3 = x / 0x100_0000;
    let q4 = x / 0x1_0000_0000;
    let q5 = x / 0x100_0000_0000;
    let q6 = x / 0x1_0000_0000_0000;
    let q7 = x / 0x100_0000_0000_0000;
    assert(q2 == q1 / 0x100 && q3 == q2 / 0x100 && q4 == q3 / 0x100 && q5 == q4 / 0x100);
    assert(q6 == q5 / 0x100 && q7 == q6 / 0x100);
    assert(q7 < 0x100);
}

/// A connection that was just accepted has nothing to send, nothing in flight and
/// an empty request; its decoder, which takes messages of up to 32 MiB, was fed
/// nothing; and Node does not know it.
pub proof fn law_new_connection(id: u64)
    ensures
        ({
            let conn = ConnView::fresh(id);
            &&& conn.id == id
            &&& conn.request == Some(Seq::<u8>::empty())
            &&& conn.decoder == (DecoderView {
                limit: 33_554_432,
                fed: Seq::empty(),
                pulled: 0,
                failed: None,
            })
            &&& conn.out.len() == 0 && conn.out_charged == 0
            &&& !conn.writing && conn.writing_charged == 0
            &&& !conn.close_when_flushed && !conn.ignoring && !conn.opened
        }),
{
}

/// Where Node asks for messages and they are not echoed, every text and every
/// binary message adds one event for Node, with the message's own bytes and its
/// kind, behind the events so far; and nothing else happens.
pub proof fn law_message_event_reaches_node(s: Session, config: Config, data: Seq<u8>)
    requires
        !config.native_echo,
        config.wants_message,
    ensures
        s.on_event(config, EventView::Text(data)) == (
            Session {
                events: s.events.push(
                    JsEventView::Message { id: s.conn.id, data, binary: false },
                ),
                ..s
            },
            false,
        ),
        s.on_event(config, EventView::Binary(data)) == (
            Session {
                events: s.events.push(
                    JsEventView::Message { id: s.conn.id, data, binary: true },
                ),
                ..s
            },
            false,
        ),
{
}

/// Where nobody asks for messages, a message changes nothing.
pub proof fn law_unwanted_message_is_dropped(s: Session, config: Config, data: Seq<u8>)
    requires
        !config.native_echo,
        !config.wants_message,
    ensures
        s.on_event(config, EventView::Text(data)) == (s, false),
        s.on_event(config, EventView::Binary(data)) == (s, false),
{
}

/// With native echo, every text and every binary message goes back as one frame
/// of its own kind with its own bytes, if the connection is live and its frame
/// fits under the 4 MiB that may be outstanding; and else the connection is told
/// to go with code 1008.
pub proof fn law_message_event_is_echoed(s: Session, config: Config, data: Seq<u8>)
    requires
        config.native_echo,
    ensures
        if s.state.live && s.state.pending + framed(data.len()) <= 4_194_304 {
            &&& s.on_event(config, EventView::Text(data)) == (with_frame(s, 0x81, data), false)
            &&& s.on_event(config, EventView::Binary(data)) == (with_frame(s, 0x82, data), false)
        } else {
            &&& s.on_event(config, EventView::Text(data)) == (told_to_go(s, 1008), true)
            &&& s.on_event(config, EventView::Binary(data)) == (told_to_go(s, 1008), true)
        },
{
    assert(told_to_go(s, 1008) == s.close(1008)) by {
        lemma_close_bytes(1008);
    }
}

/// Every ping is answered with a pong of the same bytes, under the same cap as
/// what is sent, and past it the connection is told to go with code 1008. A pong
/// changes nothing.
pub proof fn law_ping_is_answered(s: Session, config: Config, payload: Seq<u8>)
    ensures
        s.on_event(config, EventView::Ping(payload)) == if s.state.live && s.state.pending + framed(
            payload.len(),
        ) <= 4_194_304 {
            (with_frame(s, 0x8A, payload), false)
        } else {
            (told_to_go(s, 1008), true)
        },
        s.on_event(config, EventView::Pong(payload)) == (s, false),
{
    lemma_close_bytes(1008);
}

/// Every close is answered with a close frame of its own code, or of code 1000
/// where it carried none, and ends the conversation.
pub proof fn law_close_is_answered(s: Session, config: Config, code: u16)
    ensures
        s.on_event(config, EventView::Close(Some(code))) == (told_to_go(s, code as int), true),
        s.on_event(config, EventView::Close(None)) == (told_to_go(s, 1000), true),
{
    lemma_close_bytes(code);
    lemma_close_bytes(1000);
}

proof fn lemma_close_bytes(code: u16)
    ensures
        crate::conn::close_frame(code) == close_bytes(code as int),
{
    assert(crate::conn::close_frame(code) =~= close_bytes(code as int));
}

/// A broken stream ends the conversation with the code that the error earns: 1002
/// for a broken protocol, 1007 for text that is not UTF-8, 1009 for a message
/// over the limit. The decoder stays stuck on it.
pub proof fn law_broken_stream_closes(s: Session, config: Config, e: Error)
    requires
        s.conn.decoder.failed is None,
        stream_event(
            s.conn.decoder.limit,
            s.conn.decoder.fed,
            s.conn.decoder.pulled,
        ) == Err::<Option<EventView>, Error>(e),
    ensures
        ({
            let code = match e {
                Error::Protocol(_) => 1002int,
                Error::Handshake(_) => 1002int,
                Error::InvalidUtf8 => 1007int,
                Error::TooLarge { .. } => 1009int,
            };
            let stuck = Session {
                conn: ConnView {
                    decoder: DecoderView { failed: Some(e), ..s.conn.decoder },
                    ..s.conn
                },
                ..s
            };
            s.drain(config) == told_to_go(stuck, code)
        }),
{
    lemma_close_bytes(crate::codec::error_close_code(e));
}

/// What a run of events does, one after the other, until one ends the
/// conversation; and whether one did.
pub open spec fn after_events(s: Session, config: Config, events: Seq<EventView>) -> (Session, bool)
    decreases events.len(),
{
    if events.len() == 0 {
        (s, false)
    } else {
        let (before, over) = after_events(s, config, events.drop_last());
        if over {
            (before, true)
        } else {
            let decoder = before.conn.decoder;
            let taken = Session {
                conn: ConnView {
                    decoder: DecoderView { pulled: decoder.pulled + 1, ..decoder },
                    ..before.conn
                },
                ..before
            };
            taken.on_event(config, events.last())
        }
    }
}

/// Whether a decoder that was fed what it was fed can hand out these events next.
pub open spec fn can_give(decoder: DecoderView, events: Seq<EventView>) -> bool {
    &&& decoder.failed is None
    &&& decoder.pulled + events.len() <= decoder.fed.len()
    &&& forall|i: int|
        0 <= i < events.len() ==> stream_event(
            decoder.limit,
            decoder.fed,
            (decoder.pulled + i) as nat,
        ) == Ok::<Option<EventView>, Error>(Some(#[trigger] events[i]))
}

proof fn lemma_after_events(s: Session, config: Config, events: Seq<EventView>)
    requires
        can_give(s.conn.decoder, events),
        !after_events(s, config, events).1,
    ensures
        s.drain(config) == after_events(s, config, events).0.drain(config),
        after_events(s, config, events).0.conn.decoder == (DecoderView {
            pulled: s.conn.decoder.pulled + events.len(),
            ..s.conn.decoder
        }),
    decreases events.len(),
{
    if events.len() > 0 {
        let first = events.drop_last();
        assert forall|i: int| 0 <= i < first.len() implies stream_event(
            s.conn.decoder.limit,
            s.conn.decoder.fed,
            (s.conn.decoder.pulled + i) as nat,
        ) == Ok::<Option<EventView>, Error>(Some(#[trigger] first[i])) by {
            assert(first[i] == events[i]);
        }
        lemma_after_events(s, config, first);
        let (before, over) = after_events(s, config, first);
        let taken = before.decoding(before.conn.decoder.pull());
        assert(events[events.len() - 1] == events.last());
        lemma_on_event_keeps_decoder(taken, config, events.last());
    }
}

proof fn lemma_on_event_keeps_decoder(s: Session, config: Config, event: EventView)
    ensures
        s.on_event(config, event).0.conn.decoder == s.conn.decoder,
{
}

/// Every event that the bytes so far hold is handled, each once and in order: up
/// to where more bytes are needed, up to where the stream breaks, or up to and
/// with the one that ends the conversation.
pub proof fn law_every_event_is_handled_in_order(
    s: Session,
    config: Config,
    events: Seq<EventView>,
)
    requires
        can_give(s.conn.decoder, events),
        !after_events(s, config, events).1,
    ensures
        ({
            let decoder = s.conn.decoder;
            let (after, _) = after_events(s, config, events);
            match stream_event(
                decoder.limit,
                decoder.fed,
                (decoder.pulled + events.len()) as nat,
            ) {
                Ok(None) => s.drain(config) == after,
                Err(_) => s.drain(config) == after.drain(config),
                Ok(Some(last)) => decoder.pulled + events.len() < decoder.fed.len()
                    && after_events(s, config, events.push(last)).1 ==> s.drain(config)
                    == after_events(s, config, events.push(last)).0,
            }
        }),
{
    lemma_after_events(s, config, events);
    let decoder = s.conn.decoder;
    let (after, _) = after_events(s, config, events);
    match stream_event(decoder.limit, decoder.fed, (decoder.pulled + events.len()) as nat) {
        Ok(Some(last)) => {
            assert(events.push(last).drop_last() =~= events);
            assert(after.decoding(after.conn.decoder.pull()).conn.decoder.pulled
                == after.conn.decoder.pulled + 1);
        },
        _ => {},
    }
}

/// Bytes of the stream are given to the decoder behind what it has, all of them,
/// and then it is asked for events.
pub proof fn law_bytes_are_fed_whole(s: Session, config: Config, bytes: Seq<u8>)
    requires
        !s.conn.ignoring,
        s.conn.request is None,
    ensures
        s.on_bytes(config, bytes) == (Session {
            conn: ConnView {
                decoder: DecoderView {
                    fed: s.conn.decoder.fed + bytes,
                    ..s.conn.decoder
                },
                ..s.conn
            },
            ..s
        }).drain(config),
{
}

/// What answers a request that is refused.
pub open spec fn refusal() -> Seq<u8> {
    encode_utf8(
        "HTTP/1.1 400 Bad Request\r\nConnection: close\r\nContent-Length: 0\r\n\r\n"@,
    )
}

/// A session whose upgrade request is refused: the refusal is behind everything
/// that waits, the conversation is over, and Node is told nothing.
pub open spec fn turned_away(s: Session) -> Session {
    Session {
        conn: ConnView {
            request: None,
            out: s.conn.out + refusal(),
            close_when_flushed: true,
            ignoring: true,
            ..s.conn
        },
        ..s
    }
}

/// Every byte of an upgrade request counts, however it came. While it is not at
/// its end it is kept whole, up to 16 KiB; at its end it is answered and Node is
/// told, and what follows it is the stream; and one that is no upgrade, or too
/// long, is refused.
pub proof fn law_request_is_answered(s: Session, config: Config, bytes: Seq<u8>)
    requires
        !s.conn.ignoring,
        s.conn.request is Some,
    ensures
        ({
            let request = s.conn.request->Some_0 + bytes;
            let after = s.on_bytes(config, bytes);
            match upgrade_answer(request) {
                Ok(None) => after == if request.len() <= 16_384 {
                    Session { conn: ConnView { request: Some(request), ..s.conn }, ..s }
                } else {
                    turned_away(s)
                },
                Ok(Some((response, consumed))) => if consumed <= 16_384 {
                    let up = Session {
                        conn: ConnView {
                            request: None,
                            out: s.conn.out + response,
                            opened: true,
                            ..s.conn
                        },
                        events: s.events.push(JsEventView::Open { id: s.conn.id }),
                        ..s
                    };
                    after == up.on_bytes(config, request.skip(consumed))
                } else {
                    after == turned_away(s)
                },
                Err(_) => after == turned_away(s),
            }
        }),
{
}

/// Everything that waits goes out in one write, whole, and is charged to that
/// write; while a write is in flight nothing goes out; and a connection that is to
/// close does so once nothing waits and nothing is in flight.
pub proof fn law_pump_sends_everything(conn: ConnView)
    ensures
        conn.writing ==> conn.pump() == (conn, PumpView::Idle),
        !conn.writing && conn.out.len() > 0 ==> conn.pump() == (
            ConnView {
                out: Seq::empty(),
                out_charged: 0,
                writing: true,
                writing_charged: conn.out_charged,
                ..conn
            },
            PumpView::Write(conn.out),
        ),
        !conn.writing && conn.out.len() == 0 ==> conn.pump() == (
            conn,
            if conn.close_when_flushed {
                PumpView::Close
            } else {
                PumpView::Idle
            },
        ),
{
}

/// A write that is done is no longer in flight, and what it was charged is given
/// back; what waits stays as it is. Where it failed, what waits is given up with
/// all that is charged, and the conversation is over.
pub proof fn law_finished_write_is_settled(conn: ConnView)
    ensures
        conn.written(false) == (ConnView { writing: false, writing_charged: 0, ..conn }),
        conn.written_refund(false) == conn.writing_charged,
        conn.written(true) == (ConnView {
            writing: false,
            writing_charged: 0,
            out: Seq::empty(),
            out_charged: 0,
            close_when_flushed: true,
            ignoring: true,
            ..conn
        }),
        conn.written_refund(true) == conn.writing_charged + conn.out_charged,
{
}

/// A message from JavaScript goes out whole, as one frame of the kind that was
/// asked for, behind everything that waits; unless the conversation is over, or
/// it is text that is not UTF-8, and then nothing is changed.
pub proof fn law_message_goes_out_whole(conn: ConnView, data: Seq<u8>, binary: bool)
    ensures
        conn.deliver(data, binary) == if conn.ignoring || (!binary && !valid_utf8(data)) {
            conn
        } else {
            ConnView {
                out: conn.out + server_frame(
                    if binary {
                        0x82
                    } else {
                        0x81
                    },
                    data,
                ),
                out_charged: (conn.out_charged + framed(data.len())) as usize,
                ..conn
            }
        },
        conn.takes(data, binary) == !(conn.ignoring || (!binary && !valid_utf8(data))),
{
}

/// A receive buffer may become the next write exactly where that can overtake
/// nothing: the upgrade is done, the conversation is not over, no write is in
/// flight and nothing waits.
pub proof fn law_echo_in_place_overtakes_nothing(conn: ConnView)
    ensures
        conn.can_echo_in_place() <==> (conn.request is None && !conn.ignoring && !conn.writing
            && conn.out.len() == 0),
{
}

/// A batch whose replies together do not fit under the 4 MiB is not answered at
/// all: the connection is told to go with code 1008, and its buffer comes back. A
/// broken frame behind the batch only leaves the decoder stuck.
pub proof fn law_batch_over_the_cap_is_refused(
    s: Session,
    config: Config,
    fd: i32,
    bytes: Seq<u8>,
)
    requires
        s.conn.request is None && !s.conn.ignoring && !s.conn.writing,
        s.conn.out.len() == 0,
        s.conn.decoder.whole(bytes) == Ok::<Option<Located>, Error>(None),
        echo_run(s.conn.decoder, bytes).packed.len() > 0,
        !(s.state.live && s.state.pending + echo_run(s.conn.decoder, bytes).packed.len()
            <= 4_194_304),
    ensures
        ({
            let run = echo_run(s.conn.decoder, bytes);
            let stuck = Session {
                conn: ConnView {
                    decoder: DecoderView {
                        failed: match run.error {
                            Some(e) => Some(e),
                            None => s.conn.decoder.failed,
                        },
                        ..s.conn.decoder
                    },
                    ..s.conn
                },
                ..s
            };
            s.echo_read(config, fd, bytes) == (
                told_to_go(stuck, 1008),
                NativeEchoReadView::Rejected(echo_held(s.conn.decoder, bytes, run)),
            )
        }),
{
    lemma_close_bytes(1008);
}

/// A budget takes bytes exactly where its connection is live and they fit under
/// the 4 MiB, and then holds that much more; giving bytes back takes them off,
/// down to nothing; a closed one only stops being live.
pub proof fn law_connection_budget(state: ConnectionState, bytes: nat)
    ensures
        state.admits(bytes as int) <==> (state.live && state.pending + bytes <= 4_194_304),
        state.admits(bytes as int) ==> state.charge(bytes as int) == (ConnectionState {
            pending: (state.pending + bytes) as usize,
            live: true,
        }),
        state.refund(bytes as int) == (ConnectionState {
            pending: if bytes <= state.pending {
                (state.pending - bytes) as usize
            } else {
                0
            },
            live: state.live,
        }),
        state.closed() == (ConnectionState { pending: state.pending, live: false }),
        ConnectionState::fresh() == (ConnectionState { pending: 0, live: true }),
{
}

/// A read that is one whole frame is answered from the buffer that it lies in: the
/// payload, with the frame's own key taken off byte by byte, goes back in one
/// write as a frame of the same kind, and its bytes are charged to that write and
/// to the budget. Past the cap the connection is told to go with code 1008. The
/// decoder, and everything else, is as it was.
pub proof fn law_whole_frame_is_echoed_in_place(
    s: Session,
    config: Config,
    fd: i32,
    bytes: Seq<u8>,
    found: Located,
)
    requires
        s.conn.request is None && !s.conn.ignoring && !s.conn.writing,
        s.conn.out.len() == 0,
        s.conn.decoder.whole(bytes) == Ok::<Option<Located>, Error>(Some(found)),
        found.lies_in(bytes, s.conn.decoder.limit),
    ensures
        ({
            let len = (found.end - found.start) as nat;
            let payload = Seq::new(
                len,
                |i: int| bytes[found.start + i] ^ bytes[found.start - 4 + i % 4],
            );
            let first = match found.kind {
                MessageKind::Text => 0x81u8,
                MessageKind::Binary => 0x82u8,
            };
            s.echo_read(config, fd, bytes) == if s.state.live && s.state.pending + framed(len)
                <= 4_194_304 {
                (
                    Session {
                        conn: ConnView {
                            writing: true,
                            writing_charged: framed(len) as usize,
                            ..s.conn
                        },
                        state: ConnectionState {
                            pending: (s.state.pending + framed(len)) as usize,
                            live: true,
                        },
                        ..s
                    },
                    NativeEchoReadView::Submitted(
                        OpView::Write {
                            fd,
                            lead: bytes.take(found.start + len - framed(len)),
                            sent: server_frame(first, payload),
                        },
                    ),
                )
            } else {
                (
                    told_to_go(s, 1008),
                    NativeEchoReadView::Rejected(bytes.take(found.start) + payload),
                )
            }
        }),
{
    let payload = unmasked(bytes, found.start, found.end);
    let held = bytes.take(found.start) + payload;
    lemma_close_bytes(1008);
    assert(held.skip(found.start) =~= payload);
    let len = payload.len();
    assert(held.take(found.start - (framed(len) - len)) =~= bytes.take(
        found.start + len - framed(len),
    ));
}

/// A batch of whole frames whose replies fit together is answered with one write
/// of all of them, whose bytes are charged to that write and to the budget; and
/// what follows the batch goes to the streaming decoder, which saw nothing of the
/// batch. Where there is no whole frame at the front, nothing is claimed and
/// nothing changes.
pub proof fn law_batch_is_echoed_in_one_write(
    s: Session,
    config: Config,
    fd: i32,
    bytes: Seq<u8>,
)
    requires
        s.conn.request is None && !s.conn.ignoring && !s.conn.writing,
        s.conn.out.len() == 0,
        s.conn.decoder.whole(bytes) == Ok::<Option<Located>, Error>(None),
        echo_run(s.conn.decoder, bytes).error is None,
    ensures
        ({
            let run = echo_run(s.conn.decoder, bytes);
            let len = run.packed.len();
            let charged = Session {
                state: ConnectionState {
                    pending: (s.state.pending + len) as usize,
                    live: s.state.live,
                },
                ..s
            };
            let then = if run.consumed < bytes.len() {
                charged.on_bytes(config, bytes.skip(run.consumed))
            } else {
                charged
            };
            if len == 0 {
                s.echo_read(config, fd, bytes) == (s, NativeEchoReadView::Unclaimed(bytes))
            } else {
                s.state.live && s.state.pending + len <= 4_194_304 ==> s.echo_read(
                    config,
                    fd,
                    bytes,
                ) == (
                    Session {
                        conn: ConnView {
                            writing: true,
                            writing_charged: len as usize,
                            ..then.conn
                        },
                        ..then
                    },
                    NativeEchoReadView::Submitted(
                        OpView::Write { fd, lead: Seq::empty(), sent: run.packed },
                    ),
                )
            }
        }),
{
}

/// The replies to a batch are those to its frames, each whole and in their order:
/// the first frame's, and then those to the bytes behind it.
pub proof fn law_batch_answers_each_frame(decoder: DecoderView, bytes: Seq<u8>, found: Located)
    requires
        decoder.front(bytes) == Ok::<Option<Located>, Error>(Some(found)),
        found.lies_in(bytes, decoder.limit),
    ensures
        ({
            let run = echo_run(decoder, bytes);
            let rest = echo_run(decoder, bytes.skip(found.end));
            let payload = Seq::new(
                (found.end - found.start) as nat,
                |i: int| bytes[found.start + i] ^ bytes[found.start - 4 + i % 4],
            );
            let first = match found.kind {
                MessageKind::Text => 0x81u8,
                MessageKind::Binary => 0x82u8,
            };
            &&& run.packed == server_frame(first, payload) + rest.packed
            &&& run.consumed == found.end + rest.consumed
            &&& run.error == rest.error
        }),
{
    assert(unmasked(bytes, found.start, found.end) =~= Seq::new(
        (found.end - found.start) as nat,
        |i: int| bytes[found.start + i] ^ bytes[found.start - 4 + i % 4],
    ));
}

} // verus!
