//! Native echo's fast lane against the streaming decoder: what goes out on the
//! wire is the same.

use crate::bridge::{message_charge, MAX_OUTBOUND};
use crate::codec::{data_event, stream_event, DecoderView, EventView, Located};
use crate::conn::{
    echo_held, echo_run, lemma_server_frame_len, Config, ConnView, EchoRun, NativeEchoReadView,
    Session,
};
use crate::messages::OpView;
use crate::wire::{
    client_header_len, client_payload_len, first_byte, header_len, server_frame, unmasked,
    unmasked_to,
};
use ramjet_ws::{Error, MessageKind};
use vstd::prelude::*;

verus! {

/// Whether answering a read with `sent` comes to what the streaming decoder would
/// have come to: the same bytes to go out, `sent` and what waits behind it; the
/// same charges; the same events; and a conversation that is over, or is not, in
/// both.
pub open spec fn as_streamed(
    before: Session,
    config: Config,
    bytes: Seq<u8>,
    sent: Seq<u8>,
    after: Session,
) -> bool {
    let streamed = before.on_frames(config, bytes);
    &&& streamed.conn.out == sent + after.conn.out
    &&& streamed.conn.charged() == after.conn.charged()
    &&& streamed.conn.ignoring == after.conn.ignoring
    &&& streamed.conn.close_when_flushed == after.conn.close_when_flushed
    &&& streamed.conn.request == after.conn.request
    &&& streamed.conn.opened == after.conn.opened
    &&& streamed.conn.id == after.conn.id
    &&& streamed.state == after.state
    &&& streamed.events == after.events
}

/// Whether the budget has room for the replies to a batch together. Where it has
/// not, the fast lane sends none of them, and the stream would have sent those
/// that fit.
pub open spec fn batch_fits(s: Session, bytes: Seq<u8>) -> bool {
    s.conn.decoder.whole(bytes) == Ok::<Option<Located>, Error>(None) ==> s.state.admits(
        echo_run(s.conn.decoder, bytes).packed.len() as int,
    )
}

/// Whether a read that was tried as an echo comes to what the streaming decoder
/// would have come to. What is not claimed is untouched, and goes there.
pub open spec fn lanes_agree(
    before: Session,
    config: Config,
    bytes: Seq<u8>,
    read: NativeEchoReadView,
    after: Session,
) -> bool {
    match read {
        NativeEchoReadView::Unclaimed(left) => left == bytes && after == before,
        NativeEchoReadView::Submitted(op) => {
            &&& op matches OpView::Write { sent, .. }
            &&& as_streamed(before, config, bytes, sent, after)
        },
        NativeEchoReadView::Rejected(_) => as_streamed(
            before,
            config,
            bytes,
            Seq::empty(),
            after,
        ),
    }
}

/// A masked client header is at least four bytes longer than the header of the
/// reply.
pub proof fn lemma_client_header_len(frame: Seq<u8>)
    ensures
        header_len(client_payload_len(frame) as nat) + 4 <= client_header_len(frame),
        client_payload_len(frame) >= 0,
{
}

/// How far a batch is packed: `held` begins with the replies to the frames up to
/// `from`, `written` bytes of them, and is what it was behind those.
pub open spec fn packs(
    decoder: DecoderView,
    bytes: Seq<u8>,
    held: Seq<u8>,
    written: int,
    from: int,
) -> bool {
    let run = echo_run(decoder, bytes);
    let rest = echo_run(decoder, bytes.skip(from));
    &&& 0 <= written <= from <= bytes.len()
    &&& held.len() == bytes.len()
    &&& held == held.take(written) + bytes.skip(written)
    &&& run.packed == held.take(written) + rest.packed
    &&& run.consumed == from + rest.consumed
    &&& run.error == rest.error
}

/// Nothing is packed yet.
pub proof fn lemma_packs_start(decoder: DecoderView, bytes: Seq<u8>)
    ensures
        packs(decoder, bytes, bytes, 0, 0),
{
    let run = echo_run(decoder, bytes);
    assert(bytes.skip(0) =~= bytes);
    assert(bytes.take(0) + bytes.skip(0) =~= bytes);
    assert(bytes.take(0) + run.packed =~= run.packed);
}

/// What a buffer that is packed so far holds behind the replies.
pub proof fn lemma_packs_rest(
    decoder: DecoderView,
    bytes: Seq<u8>,
    held: Seq<u8>,
    written: int,
    from: int,
)
    requires
        packs(decoder, bytes, held, written, from),
    ensures
        held.skip(from) == bytes.skip(from),
        written == 0 ==> held == bytes,
{
    let all = held.take(written) + bytes.skip(written);
    assert forall|i: int| from <= i < bytes.len() implies held[i] == bytes[i] by {
        assert(all[i] == bytes[i]);
    }
    assert(held.skip(from) =~= bytes.skip(from));
    if written == 0 {
        assert(all =~= bytes);
    }
}

/// One more reply is packed.
pub proof fn lemma_packs_step(
    decoder: DecoderView,
    bytes: Seq<u8>,
    held: Seq<u8>,
    written: int,
    from: int,
    found: Located,
    after: Seq<u8>,
)
    requires
        packs(decoder, bytes, held, written, from),
        decoder.front(bytes.skip(from)) == Ok::<Option<Located>, Error>(Some(found)),
        found.lies_in(bytes.skip(from), decoder.limit),
        ({
            let frame = server_frame(
                first_byte(found.kind),
                unmasked(bytes.skip(from), found.start, found.end),
            );
            after == held.take(written) + frame + held.skip(written + frame.len())
        }),
    ensures
        ({
            let frame = server_frame(
                first_byte(found.kind),
                unmasked(bytes.skip(from), found.start, found.end),
            );
            &&& packs(decoder, bytes, after, written + frame.len(), from + found.end)
            &&& after.take(written + frame.len()) == held.take(written) + frame
            &&& frame.len() > 0
            &&& frame.len() < found.end
        }),
{
    let rest = bytes.skip(from);
    let payload = unmasked(rest, found.start, found.end);
    let frame = server_frame(first_byte(found.kind), payload);
    lemma_server_frame_len(first_byte(found.kind), payload);
    let end = written + frame.len();
    let further = echo_run(decoder, rest.skip(found.end));
    assert(rest.skip(found.end) =~= bytes.skip(from + found.end));
    assert(after.take(end) =~= held.take(written) + frame);
    assert(held.take(written) + (frame + further.packed) =~= held.take(written) + frame
        + further.packed);
    let all = held.take(written) + bytes.skip(written);
    assert forall|i: int| written <= i < bytes.len() implies held[i] == bytes[i] by {
        assert(all[i] == bytes[i]);
    }
    assert(after =~= after.take(end) + bytes.skip(end));
}

/// No more replies are packed, and there is no error.
pub proof fn lemma_packs_none(
    decoder: DecoderView,
    bytes: Seq<u8>,
    held: Seq<u8>,
    written: int,
    from: int,
)
    requires
        packs(decoder, bytes, held, written, from),
        decoder.front(bytes.skip(from)) == Ok::<Option<Located>, Error>(None),
    ensures
        echo_run(decoder, bytes) == (EchoRun {
            packed: held.take(written),
            consumed: from,
            error: None,
        }),
        held == echo_held(decoder, bytes, echo_run(decoder, bytes)),
{
    assert(held.take(written) + Seq::<u8>::empty() =~= held.take(written));
}

/// The frame behind the replies is broken.
pub proof fn lemma_packs_error(
    decoder: DecoderView,
    bytes: Seq<u8>,
    held: Seq<u8>,
    written: int,
    from: int,
    e: Error,
    after: Seq<u8>,
)
    requires
        packs(decoder, bytes, held, written, from),
        decoder.failed is None,
        decoder.front(bytes.skip(from)) == Err::<Option<Located>, Error>(e),
        after == if e is InvalidUtf8 {
            unmasked_to(
                held,
                from,
                written + header_len(client_payload_len(held.skip(from)) as nat),
            )
        } else {
            held
        },
        e is InvalidUtf8 ==> client_header_len(held.skip(from)) + client_payload_len(
            held.skip(from),
        ) <= held.skip(from).len(),
    ensures
        echo_run(decoder, bytes) == (EchoRun {
            packed: held.take(written),
            consumed: from,
            error: Some(e),
        }),
        after.take(written) == held.take(written),
        after.len() == bytes.len(),
        after == echo_held(decoder, bytes, echo_run(decoder, bytes)),
{
    assert(held.take(written) + Seq::<u8>::empty() =~= held.take(written));
    lemma_client_header_len(held.skip(from));
    assert(after.take(written) =~= held.take(written));
}

/// The session that the streaming decoder has come to once it has handed out `n`
/// of the messages in `bytes` and `packed` is what they were answered.
pub open spec fn streamed_to(before: Session, bytes: Seq<u8>, n: nat, packed: Seq<u8>) -> Session {
    Session {
        conn: ConnView {
            decoder: DecoderView {
                fed: before.conn.decoder.fed + bytes,
                pulled: before.conn.decoder.pulled + n,
                ..before.conn.decoder
            },
            out: packed,
            out_charged: packed.len() as usize,
            ..before.conn
        },
        state: before.state.charge(packed.len() as int),
        ..before
    }
}

/// How far the streaming decoder follows a batch that is packed up to `from`: it
/// has handed out `n` messages; what it would hand out next is what a decoder
/// that is fed only the rest would; and, as long as the replies fit the budget,
/// `packed` is what it has answered.
pub open spec fn streams(
    before: Session,
    config: Config,
    bytes: Seq<u8>,
    packed: Seq<u8>,
    from: int,
    n: nat,
) -> bool {
    let decoder = before.conn.decoder;
    &&& decoder.failed is None
    &&& n <= from <= bytes.len()
    &&& n > 0 ==> stream_event(decoder.limit, decoder.fed, decoder.pulled) == Ok::<
        Option<EventView>,
        Error,
    >(None)
    &&& forall|m: nat|
        m >= decoder.pulled ==> #[trigger] stream_event(
            decoder.limit,
            decoder.fed + bytes.skip(from),
            m,
        ) == stream_event(decoder.limit, decoder.fed + bytes, m + n)
    &&& config.native_echo && before.state.admits(packed.len() as int) ==> before.on_frames(
        config,
        bytes,
    ) == streamed_to(before, bytes, n, packed).drain(config)
}

/// The streaming decoder has handed out nothing yet.
pub proof fn lemma_streams_start(before: Session, config: Config, bytes: Seq<u8>)
    requires
        before.wf(),
        before.conn.can_echo_in_place(),
        before.conn.decoder.failed is None,
    ensures
        streams(before, config, bytes, Seq::empty(), 0, 0),
{
    assert(bytes.skip(0) =~= bytes);
    assert(before.conn.out =~= Seq::<u8>::empty());
    assert(streamed_to(before, bytes, 0, Seq::empty()) == before.fed(bytes));
}

/// What a decoder hands out that is fed a frame and more, when it has nothing
/// unfinished: the frame's message, and then what it hands out of the rest.
pub open spec fn shifts(decoder: DecoderView, frame: Seq<u8>, event: EventView) -> bool {
    forall|more: Seq<u8>, n: nat|
        n >= decoder.pulled ==> #[trigger] stream_event(
            decoder.limit,
            decoder.fed + frame + more,
            n,
        ) == if n == decoder.pulled {
            Ok::<Option<EventView>, Error>(Some(event))
        } else {
            stream_event(decoder.limit, decoder.fed + more, (n - 1) as nat)
        }
}

/// One more reply is packed, and the streaming decoder hands out one more message
/// that it answers the same.
pub proof fn lemma_streams_step(
    before: Session,
    config: Config,
    bytes: Seq<u8>,
    packed: Seq<u8>,
    from: int,
    n: nat,
    kind: MessageKind,
    payload: Seq<u8>,
    end: int,
)
    requires
        before.wf(),
        before.conn.can_echo_in_place(),
        streams(before, config, bytes, packed, from, n),
        0 < end <= bytes.len() - from,
        stream_event(
            before.conn.decoder.limit,
            before.conn.decoder.fed,
            before.conn.decoder.pulled,
        ) == Ok::<Option<EventView>, Error>(None),
        shifts(before.conn.decoder, bytes.skip(from).take(end), data_event(kind, payload)),
    ensures
        streams(
            before,
            config,
            bytes,
            packed + server_frame(first_byte(kind), payload),
            from + end,
            n + 1,
        ),
{
    let d = before.conn.decoder;
    let rest = bytes.skip(from);
    let frame = rest.take(end);
    let left = bytes.skip(from + end);
    let event = data_event(kind, payload);
    let reply = server_frame(first_byte(kind), payload);
    lemma_server_frame_len(first_byte(kind), payload);
    assert(d.fed + frame + left =~= d.fed + rest);
    assert forall|m: nat| m >= d.pulled implies #[trigger] stream_event(d.limit, d.fed + left, m)
        == stream_event(d.limit, d.fed + bytes, m + (n + 1) as nat) by {
        let later = (m + 1) as nat;
        assert(stream_event(d.limit, d.fed + frame + left, later) == stream_event(
            d.limit,
            d.fed + left,
            (later - 1) as nat,
        ));
        assert(stream_event(d.limit, d.fed + rest, later) == stream_event(
            d.limit,
            d.fed + bytes,
            later + n,
        ));
        assert(later + n == m + (n + 1) as nat);
    }
    if config.native_echo && before.state.admits((packed + reply).len() as int) {
        let here = streamed_to(before, bytes, n, packed);
        let there = streamed_to(before, bytes, n + 1, packed + reply);
        assert(stream_event(d.limit, d.fed + frame + left, d.pulled) == Ok::<
            Option<EventView>,
            Error,
        >(Some(event)));
        assert(stream_event(d.limit, d.fed + rest, d.pulled) == stream_event(
            d.limit,
            d.fed + bytes,
            d.pulled + n,
        ));
        assert(here.conn.decoder.next() == Ok::<Option<EventView>, Error>(Some(event)));
        let pulled = here.decoding(here.conn.decoder.pull());
        assert(pulled.state.admits(message_charge(payload)));
        assert(pulled.on_event(config, event).0 == there);
        assert(!pulled.on_event(config, event).1);
        assert(here.drain(config) == there.drain(config));
    }
}

/// The streaming decoder runs into the same error behind a batch.
pub proof fn lemma_streams_error(
    before: Session,
    config: Config,
    bytes: Seq<u8>,
    packed: Seq<u8>,
    from: int,
    n: nat,
    e: Error,
)
    requires
        before.wf(),
        before.conn.can_echo_in_place(),
        config.native_echo,
        before.state.admits(packed.len() as int),
        streams(before, config, bytes, packed, from, n),
        ({
            let d = before.conn.decoder;
            stream_event(d.limit, d.fed + bytes.skip(from), d.pulled) == Err::<
                Option<EventView>,
                Error,
            >(e)
        }),
    ensures
        as_streamed(
            before,
            config,
            bytes,
            packed,
            before.charge(packed.len() as int).fail(e).writes(packed.len() as int),
        ),
        packed.len() == 0 ==> as_streamed(before, config, bytes, packed, before.fail(e)),
{
    let d = before.conn.decoder;
    let here = streamed_to(before, bytes, n, packed);
    assert(stream_event(d.limit, d.fed + bytes, d.pulled + n) == Err::<Option<EventView>, Error>(
        e,
    ));
    assert(here.conn.decoder.next() == Err::<Option<EventView>, Error>(e));
    let frame = crate::conn::close_frame(crate::codec::error_close_code(e));
    assert(before.conn.out + frame =~= frame);
}

/// The streaming decoder comes to its end with a batch that is nothing but whole
/// frames.
pub proof fn lemma_streams_end(
    before: Session,
    config: Config,
    bytes: Seq<u8>,
    packed: Seq<u8>,
    n: nat,
)
    requires
        before.wf(),
        before.conn.can_echo_in_place(),
        config.native_echo,
        before.state.admits(packed.len() as int),
        n > 0,
        streams(before, config, bytes, packed, bytes.len() as int, n),
    ensures
        as_streamed(
            before,
            config,
            bytes,
            packed,
            before.charge(packed.len() as int).writes(packed.len() as int),
        ),
{
    let d = before.conn.decoder;
    let here = streamed_to(before, bytes, n, packed);
    assert(d.fed + bytes.skip(bytes.len() as int) =~= d.fed);
    assert(stream_event(d.limit, d.fed + bytes.skip(bytes.len() as int), d.pulled)
        == stream_event(d.limit, d.fed + bytes, d.pulled + n));
    assert(here.conn.decoder.next() == Ok::<Option<EventView>, Error>(None));
    assert(packed + before.conn.out =~= packed);
}

/// Whether two sessions are the same but for their decoders, of which the first
/// has handed out more of what it was fed and stands where the second stands,
/// and for `sent`, which is behind the first and in front of what it has to send.
pub open spec fn abreast(a: Session, b: Session, sent: Seq<u8>) -> bool {
    let ahead = a.conn.decoder;
    let behind = b.conn.decoder;
    &&& a.state == b.state
    &&& a.events == b.events
    &&& a.conn == (ConnView {
        decoder: ahead,
        out: sent + b.conn.out,
        out_charged: (sent.len() + b.conn.out_charged) as usize,
        ..b.conn
    })
    &&& sent.len() + b.conn.charged() <= b.state.pending <= MAX_OUTBOUND
}

/// Whether two decoders that have not failed hand out the same from here on.
pub open spec fn in_step(ahead: DecoderView, behind: DecoderView) -> bool {
    &&& ahead.failed is None && behind.failed is None
    &&& ahead.limit == behind.limit
    &&& ahead.pulled >= behind.pulled
    &&& ahead.fed.len() - ahead.pulled >= behind.fed.len() - behind.pulled
    &&& forall|m: nat|
        m >= behind.pulled ==> #[trigger] stream_event(behind.limit, behind.fed, m)
            == stream_event(
            ahead.limit,
            ahead.fed,
            (m + (ahead.pulled - behind.pulled)) as nat,
        )
}

/// Sessions that are abreast, with decoders in step, stay so.
pub proof fn lemma_drain_abreast(a: Session, b: Session, config: Config, sent: Seq<u8>)
    requires
        abreast(a, b, sent),
        in_step(a.conn.decoder, b.conn.decoder),
        b.flows(config),
    ensures
        abreast(a.drain(config), b.drain(config), sent),
    decreases b.conn.decoder.fed.len() - b.conn.decoder.pulled,
{
    let ahead = a.conn.decoder;
    let behind = b.conn.decoder;
    assert(stream_event(behind.limit, behind.fed, behind.pulled) == stream_event(
        ahead.limit,
        ahead.fed,
        ahead.pulled,
    ));
    assert(ahead.next() == behind.next());
    match behind.next() {
        Ok(Some(event)) => {
            let a1 = a.decoding(ahead.pull());
            let b1 = b.decoding(behind.pull());
            let (a2, over) = a1.on_event(config, event);
            let (b2, done) = b1.on_event(config, event);
            lemma_event_abreast(a1, b1, config, event, sent);
            assert(in_step(a2.conn.decoder, b2.conn.decoder));
            if !done {
                lemma_drain_abreast(a2, b2, config, sent);
            }
        },
        Ok(None) => {},
        Err(e) => {
            let frame = crate::conn::close_frame(crate::codec::error_close_code(e));
            assert(sent + b.conn.out + frame =~= sent + (b.conn.out + frame));
        },
    }
}

proof fn lemma_event_abreast(
    a: Session,
    b: Session,
    config: Config,
    event: EventView,
    sent: Seq<u8>,
)
    requires
        abreast(a, b, sent),
    ensures
        abreast(a.on_event(config, event).0, b.on_event(config, event).0, sent),
        a.on_event(config, event).1 == b.on_event(config, event).1,
        a.on_event(config, event).0.conn.decoder == a.conn.decoder,
        b.on_event(config, event).0.conn.decoder == b.conn.decoder,
{
    assert forall|tail: Seq<u8>| #[trigger]
        (sent + b.conn.out + tail) == sent + (b.conn.out + tail) by {
        assert(sent + b.conn.out + tail =~= sent + (b.conn.out + tail));
    }
}

/// The streaming decoder does with what follows a batch what a decoder does that
/// never saw the batch.
pub proof fn lemma_streams_tail(
    before: Session,
    config: Config,
    bytes: Seq<u8>,
    packed: Seq<u8>,
    from: int,
    n: nat,
)
    requires
        before.wf(),
        before.conn.can_echo_in_place(),
        config.native_echo,
        before.state.admits(packed.len() as int),
        streams(before, config, bytes, packed, from, n),
        before.charge(packed.len() as int).fed(bytes.skip(from)).flows(config),
    ensures
        as_streamed(
            before,
            config,
            bytes,
            packed,
            before.charge(packed.len() as int).on_frames(config, bytes.skip(from)).writes(
                packed.len() as int,
            ),
        ),
{
    let d = before.conn.decoder;
    let a = streamed_to(before, bytes, n, packed);
    let b = before.charge(packed.len() as int).fed(bytes.skip(from));
    assert(packed + b.conn.out =~= packed);
    assert(a.conn.decoder.pulled - b.conn.decoder.pulled == n);
    assert forall|m: nat| m >= d.pulled implies #[trigger] stream_event(
        d.limit,
        d.fed + bytes.skip(from),
        m,
    ) == stream_event(d.limit, d.fed + bytes, (m + (a.conn.decoder.pulled
        - b.conn.decoder.pulled)) as nat) by {
        assert(m + n == (m + (a.conn.decoder.pulled - b.conn.decoder.pulled)) as nat);
    }
    lemma_drain_abreast(a, b, config, packed);
    crate::conn::lemma_drain_follows(b, config);
}

/// The streaming decoder does with bytes that are one data message what the reply
/// in place does, whether or not the budget has room for it.
pub proof fn lemma_one_message_streamed(
    s: Session,
    config: Config,
    bytes: Seq<u8>,
    kind: MessageKind,
    payload: Seq<u8>,
)
    requires
        s.wf(),
        s.conn.can_echo_in_place(),
        config.native_echo,
        bytes.len() > 0,
        s.conn.decoder.feed(bytes).next() == Ok::<Option<EventView>, Error>(
            Some(data_event(kind, payload)),
        ),
        s.conn.decoder.feed(bytes).pull().next() == Ok::<Option<EventView>, Error>(None),
    ensures
        ({
            let frame = server_frame(first_byte(kind), payload);
            let charge = message_charge(payload);
            if s.state.admits(charge) {
                as_streamed(s, config, bytes, frame, s.charge(charge).writes(charge))
            } else {
                as_streamed(s, config, bytes, Seq::empty(), s.close(1008))
            }
        }),
{
    let fed = s.fed(bytes);
    let pulled = fed.decoding(fed.conn.decoder.pull());
    let (replied, done) = pulled.on_event(config, data_event(kind, payload));
    let frame = server_frame(first_byte(kind), payload);
    lemma_server_frame_len(first_byte(kind), payload);
    if s.state.admits(message_charge(payload)) {
        assert(fed.drain(config) == replied.drain(config));
        assert(replied.drain(config) == replied);
        assert(s.conn.out + frame =~= frame + s.conn.out);
    } else {
        assert(fed.drain(config) == replied);
        assert(Seq::<u8>::empty() + replied.conn.out =~= replied.conn.out);
    }
}

/// The streaming decoder runs into the same error with bytes that are refused.
pub proof fn lemma_refusal_streamed(s: Session, config: Config, bytes: Seq<u8>, e: Error)
    requires
        s.wf(),
        s.conn.can_echo_in_place(),
        s.conn.decoder.feed(bytes).next() == Err::<Option<EventView>, Error>(e),
    ensures
        as_streamed(s, config, bytes, Seq::empty(), s.fail(e)),
{
    let failed = s.fed(bytes).drain(config);
    assert(Seq::<u8>::empty() + failed.conn.out =~= failed.conn.out);
}

} // verus!
