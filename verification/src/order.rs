//! In what order Node is told of a connection.

use crate::bridge::CmdView;
use crate::codec::{upgrade_answer, EventView};
use crate::conn::{
    echo_run, lemma_echo_read_keeps, lemma_on_event_follows, Config, NativeEchoReadView, Session,
    MAX_HANDSHAKE,
};
use crate::messages::{buffer_view, Completion, JsEventView};
use crate::node::{all_closed, closes_after};
use crate::routing::{fd_of, KIND_ACCEPT, KIND_READ, KIND_WAKE, KIND_WRITE};
use crate::server::{
    completed, lemma_command_balanced, lemma_drain_commands_balanced, lemma_dropped_balanced,
    lemma_marked_balanced, lemma_pump_balanced, lemma_pump_each_balanced, lemma_put_balanced,
    lemma_read_bytes_balanced, lemma_session_wf, World,
};
use vstd::prelude::*;

verus! {

/// What Node knows of a connection.
pub enum Phase {
    /// Nothing yet.
    Unknown,
    /// That it is open.
    Open,
    /// That it is gone.
    Closed,
    /// Something that was out of order.
    Broken,
}

/// What Node knows of a connection after one more event: its open comes first,
/// then its messages, then its close, and nothing after that.
pub open spec fn phase_step(phase: Phase, event: JsEventView, id: u64) -> Phase {
    match event {
        JsEventView::Open { id: of } => if of != id {
            phase
        } else if phase is Unknown {
            Phase::Open
        } else {
            Phase::Broken
        },
        JsEventView::Message { id: of, .. } => if of != id {
            phase
        } else if phase is Open {
            Phase::Open
        } else {
            Phase::Broken
        },
        JsEventView::Close { id: of, .. } => if of != id {
            phase
        } else if phase is Open {
            Phase::Closed
        } else {
            Phase::Broken
        },
    }
}

/// What Node knows of a connection after a run of events.
pub open spec fn phase_after(events: Seq<JsEventView>, id: u64) -> Phase
    decreases events.len(),
{
    if events.len() == 0 {
        Phase::Unknown
    } else {
        phase_step(phase_after(events.drop_last(), id), events.last(), id)
    }
}

/// What Node knows of a connection that the server has.
pub open spec fn phase_of(opened: bool) -> Phase {
    if opened {
        Phase::Open
    } else {
        Phase::Unknown
    }
}

/// Whether what Node knows of a connection, once it has been told everything up
/// to now, agrees with what the server has: of a connection that is there, that
/// it is open if it is; of an id that was not given out yet, nothing; of a
/// connection that is gone, nothing or its close. `lost` are connections whose
/// descriptor was given to another while they were still there.
pub open spec fn agrees(w: World, phase: Phase, id: u64, next: u64, lost: Set<u64>) -> bool {
    if w.server.by_id.contains_key(id) {
        phase == phase_of(w.server.conns[w.server.by_id[id]].opened)
    } else if id >= next {
        phase is Unknown
    } else {
        phase is Unknown || phase is Closed || (phase is Open && lost.contains(id))
    }
}

/// Whether everything that Node has been told, `log`, and is still to be told is
/// in order, for every connection.
pub open spec fn told(w: World, log: Seq<JsEventView>, next: u64, lost: Set<u64>) -> bool {
    forall|id: u64|
        agrees(w, #[trigger] phase_after(log + w.server.events, id), id, next, lost)
}

/// The lost connections once a descriptor is given to a new one. A driver gives
/// out a descriptor only after it was closed, and by then its connection is
/// gone; so with such a driver there never are any.
pub open spec fn overtaken(w: World, fd: i32, lost: Set<u64>) -> Set<u64> {
    if w.server.conns.contains_key(fd) {
        lost.insert(w.server.conns[fd].id)
    } else {
        lost
    }
}

/// The lost connections once an operation is done.
pub open spec fn lost_after(w: World, completion: Completion, lost: Set<u64>) -> Set<u64> {
    match completion.result {
        Ok(fd) => if completion.user / 0x1_0000_0000 == KIND_ACCEPT {
            overtaken(w, fd as i32, lost)
        } else {
            lost
        },
        Err(_) => lost,
    }
}

/// One more event is one more step.
proof fn lemma_phase_push(log: Seq<JsEventView>, events: Seq<JsEventView>, event: JsEventView)
    ensures
        forall|id: u64| #[trigger]
            phase_after(log + events.push(event), id) == phase_step(
                phase_after(log + events, id),
                event,
                id,
            ),
{
    let longer = log + events.push(event);
    assert(longer.drop_last() =~= log + events);
    assert(longer.last() == event);
}

/// Whether a step of a session tells Node only of its own connection, and in
/// order.
pub open spec fn tells(before: Session, after: Session, log: Seq<JsEventView>) -> bool {
    &&& after.conn.id == before.conn.id
    &&& forall|id: u64|
        id != before.conn.id ==> #[trigger] phase_after(log + after.events, id) == phase_after(
            log + before.events,
            id,
        )
    &&& phase_after(log + before.events, before.conn.id) == phase_of(before.conn.opened)
        ==> phase_after(log + after.events, before.conn.id) == phase_of(after.conn.opened)
}

proof fn lemma_on_event_tells(s: Session, config: Config, event: EventView, log: Seq<JsEventView>)
    requires
        s.wf(),
        s.conn.opened,
    ensures
        tells(s, s.on_event(config, event).0, log),
        s.on_event(config, event).0.conn.opened,
{
    match event {
        EventView::Text(data) => {
            lemma_phase_push(
                log,
                s.events,
                JsEventView::Message { id: s.conn.id, data, binary: false },
            );
        },
        EventView::Binary(data) => {
            lemma_phase_push(
                log,
                s.events,
                JsEventView::Message { id: s.conn.id, data, binary: true },
            );
        },
        _ => {},
    }
}

proof fn lemma_drain_tells(s: Session, config: Config, log: Seq<JsEventView>)
    requires
        s.wf(),
        s.conn.request is None,
        s.conn.opened,
    ensures
        tells(s, s.drain(config), log),
    decreases s.conn.decoder.fed.len() - s.conn.decoder.pulled,
{
    let decoder = s.conn.decoder;
    match decoder.next() {
        Ok(Some(event)) => {
            if decoder.pulled < decoder.fed.len() {
                let pulled = s.decoding(decoder.pull());
                let (after, done) = pulled.on_event(config, event);
                lemma_on_event_follows(pulled, config, event);
                lemma_on_event_tells(pulled, config, event, log);
                if !done {
                    lemma_drain_tells(after, config, log);
                }
            }
        },
        _ => {},
    }
}

proof fn lemma_on_bytes_tells(s: Session, config: Config, bytes: Seq<u8>, log: Seq<JsEventView>)
    requires
        s.wf(),
    ensures
        tells(s, s.on_bytes(config, bytes), log),
{
    if !s.conn.ignoring {
        match s.conn.request {
            Some(before) => {
                let request = before + bytes;
                match upgrade_answer(request) {
                    Ok(Some((response, consumed))) => {
                        if consumed <= MAX_HANDSHAKE {
                            let up = s.upgraded(response);
                            lemma_phase_push(
                                log,
                                s.events,
                                JsEventView::Open { id: s.conn.id },
                            );
                            lemma_drain_tells(
                                up.decoding(up.conn.decoder.feed(request.skip(consumed))),
                                config,
                                log,
                            );
                        }
                    },
                    _ => {},
                }
            },
            None => {
                lemma_drain_tells(s.decoding(s.conn.decoder.feed(bytes)), config, log);
            },
        }
    }
}

proof fn lemma_echo_read_tells(
    s: Session,
    config: Config,
    fd: i32,
    bytes: Seq<u8>,
    log: Seq<JsEventView>,
)
    requires
        s.wf(),
    ensures
        tells(s, s.echo_read(config, fd, bytes).0, log),
{
    if s.conn.can_echo_in_place() {
        match s.conn.decoder.whole(bytes) {
            Ok(None) => {
                let run = echo_run(s.conn.decoder, bytes);
                let charge = run.packed.len() as int;
                if run.error is None && s.state.admits(charge) {
                    let up = s.charge(charge);
                    let tail = bytes.skip(run.consumed);
                    lemma_drain_tells(up.decoding(up.conn.decoder.feed(tail)), config, log);
                }
            },
            _ => {},
        }
    }
}

/// A step of one connection that tells in order leaves everything told in order.
proof fn lemma_put_told(
    w: World,
    log: Seq<JsEventView>,
    next: u64,
    fd: i32,
    s: Session,
    lost: Set<u64>,
)
    requires
        w.balanced(),
        told(w, log, next, lost),
        w.server.conns.contains_key(fd),
        tells(w.session(fd), s, log),
    ensures
        told(w.put(fd, s), log, next, lost),
{
    let after = w.put(fd, s);
    let own = w.server.conns[fd].id;
    assert(agrees(w, phase_after(log + w.server.events, own), own, next, lost));
    assert forall|id: u64|
        agrees(after, #[trigger] phase_after(log + after.server.events, id), id, next, lost) by {
        assert(agrees(w, phase_after(log + w.server.events, id), id, next, lost));
        if id != own && w.server.by_id.contains_key(id) {
            assert(w.server.by_id[id] != fd);
        }
    }
}

proof fn lemma_on_bytes_told(
    w: World,
    log: Seq<JsEventView>,
    next: u64,
    fd: i32,
    bytes: Seq<u8>,
    lost: Set<u64>,
)
    requires
        w.balanced(),
        told(w, log, next, lost),
    ensures
        told(w.on_bytes(fd, bytes), log, next, lost),
{
    if w.server.conns.contains_key(fd) {
        lemma_session_wf(w, fd);
        let s = w.session(fd);
        lemma_on_bytes_tells(s, w.server.config, bytes, log);
        lemma_put_told(w, log, next, fd, s.on_bytes(w.server.config, bytes), lost);
    }
}

proof fn lemma_pump_told(w: World, log: Seq<JsEventView>, next: u64, fd: i32, lost: Set<u64>)
    requires
        w.balanced(),
        told(w, log, next, lost),
    ensures
        told(w.pump(fd).0, log, next, lost),
{
    if w.server.conns.contains_key(fd) {
        let s = Session { conn: w.server.conns[fd].pump().0, ..w.session(fd) };
        lemma_put_told(w, log, next, fd, s, lost);
        assert(told(w.put(fd, s), log, next, lost));
        assert(w.pump(fd).0.server == w.put(fd, s).server);
        lemma_told_server(w.put(fd, s), w.pump(fd).0, log, next, lost);
    }
}

/// What Node is told depends on the server alone.
proof fn lemma_told_server(w: World, after: World, log: Seq<JsEventView>, next: u64, lost: Set<u64>)
    requires
        told(w, log, next, lost),
        after.server == w.server,
    ensures
        told(after, log, next, lost),
{
    assert forall|id: u64|
        agrees(after, #[trigger] phase_after(log + after.server.events, id), id, next, lost) by {
        assert(agrees(w, phase_after(log + w.server.events, id), id, next, lost));
    }
}

proof fn lemma_dropped_told(w: World, log: Seq<JsEventView>, next: u64, fd: i32, lost: Set<u64>)
    requires
        w.balanced(),
        w.known(next),
        told(w, log, next, lost),
    ensures
        told(w.dropped(fd), log, next, overtaken(w, fd, lost)),
{
    if w.server.conns.contains_key(fd) {
        let after = w.dropped(fd);
        let own = w.server.conns[fd].id;
        let more = overtaken(w, fd, lost);
        assert(w.accounted(w.server.conns[fd]));
        assert forall|id: u64|
            agrees(
                after,
                #[trigger] phase_after(log + after.server.events, id),
                id,
                next,
                more,
            ) by {
            assert(agrees(w, phase_after(log + w.server.events, id), id, next, lost));
            if id != own && w.server.by_id.contains_key(id) {
                assert(w.server.by_id[id] != fd);
            }
        }
    }
}

proof fn lemma_retire_told(
    w: World,
    log: Seq<JsEventView>,
    next: u64,
    fd: i32,
    code: u16,
    lost: Set<u64>,
)
    requires
        w.balanced(),
        w.known(next),
        told(w, log, next, lost),
    ensures
        told(w.retire(fd, code), log, next, lost),
{
    if w.server.conns.contains_key(fd) {
        let own = w.server.conns[fd].id;
        let after = w.retire(fd, code);
        assert(w.accounted(w.server.conns[fd]));
        assert(agrees(w, phase_after(log + w.server.events, own), own, next, lost));
        lemma_phase_push(log, w.server.events, JsEventView::Close { id: own, code });
        assert forall|id: u64|
            agrees(
                after,
                #[trigger] phase_after(log + after.server.events, id),
                id,
                next,
                lost,
            ) by {
            assert(agrees(w, phase_after(log + w.server.events, id), id, next, lost));
            if id != own && w.server.by_id.contains_key(id) {
                assert(w.server.by_id[id] != fd);
            }
        }
    }
}

proof fn lemma_pump_or_retire_told(
    w: World,
    log: Seq<JsEventView>,
    next: u64,
    fd: i32,
    lost: Set<u64>,
)
    requires
        w.balanced(),
        w.known(next),
        told(w, log, next, lost),
    ensures
        told(w.pump_or_retire(fd), log, next, lost),
{
    lemma_pump_balanced(w, fd);
    lemma_pump_told(w, log, next, fd, lost);
    lemma_retire_told(w.pump(fd).0, log, next, fd, 1000, lost);
}

proof fn lemma_pump_each_told(
    w: World,
    log: Seq<JsEventView>,
    next: u64,
    fds: Seq<i32>,
    lost: Set<u64>,
)
    requires
        w.balanced(),
        w.known(next),
        told(w, log, next, lost),
    ensures
        told(w.pump_each(fds), log, next, lost),
    decreases fds.len(),
{
    if fds.len() > 0 {
        lemma_pump_each_told(w, log, next, fds.drop_last(), lost);
        lemma_pump_each_balanced(w, fds.drop_last());
        lemma_pump_or_retire_told(w.pump_each(fds.drop_last()), log, next, fds.last(), lost);
    }
}

proof fn lemma_drain_commands_told(w: World, log: Seq<JsEventView>, next: u64, lost: Set<u64>)
    requires
        w.balanced(),
        told(w, log, next, lost),
    ensures
        told(w.drain_commands(), log, next, lost),
    decreases w.bridge.queue.len(),
{
    if w.bridge.queue.len() > 0 {
        let command = w.bridge.queue.first();
        let rest = w.unqueued();
        let after = rest.command(command);
        lemma_command_balanced(w);
        let id = match command {
            CmdView::Send { id, .. } => id,
            CmdView::Close { id } => id,
        };
        if w.server.by_id.contains_key(id) {
            let fd = w.server.by_id[id];
            let s = after.session(fd);
            assert(w.server.conns.contains_key(fd));
            assert(tells(w.session(fd), s, log));
            lemma_put_told(w, log, next, fd, s, lost);
            assert(after.server =~= w.put(fd, s).server);
            lemma_told_server(w.put(fd, s), after, log, next, lost);
        } else {
            lemma_told_server(w, after, log, next, lost);
        }
        lemma_drain_commands_told(after, log, next, lost);
    }
}

proof fn lemma_read_told(
    w: World,
    log: Seq<JsEventView>,
    next: u64,
    fd: i32,
    result: Result<i64, Option<i32>>,
    buf: Option<Seq<u8>>,
    lost: Set<u64>,
)
    requires
        w.balanced(),
        w.known(next),
        told(w, log, next, lost),
    ensures
        told(w.read(fd, result, buf), log, next, lost),
{
    if result matches Err(Some(errno)) && errno == w.server.errnos.canceled {
    } else if result matches Ok(n) && n > 0 && buf is Some {
        let bytes = buf->Some_0;
        let taken = w.read_bytes(fd, bytes);
        lemma_read_bytes_balanced(w, fd, bytes);
        lemma_read_bytes_told(w, log, next, fd, bytes, lost);
        lemma_pump_balanced(taken, fd);
        lemma_pump_told(taken, log, next, fd, lost);
        let (pumped, gone) = taken.pump(fd);
        if gone {
            lemma_retire_told(pumped, log, next, fd, 1000, lost);
        } else {
            lemma_told_server(pumped, w.read(fd, result, buf), log, next, lost);
        }
    } else {
        let recycled = w.recycle(buf);
        lemma_told_server(w, recycled, log, next, lost);
        lemma_retire_told(recycled, log, next, fd, 1006, lost);
        lemma_told_server(recycled.retire(fd, 1006), w.read(fd, result, buf), log, next, lost);
    }
}

proof fn lemma_read_bytes_told(
    w: World,
    log: Seq<JsEventView>,
    next: u64,
    fd: i32,
    bytes: Seq<u8>,
    lost: Set<u64>,
)
    requires
        w.balanced(),
        told(w, log, next, lost),
    ensures
        told(w.read_bytes(fd, bytes), log, next, lost),
{
    let after = w.read_bytes(fd, bytes);
    if w.server.config.native_echo && bytes.len() > crate::server::NATIVE_FUSED_MIN_READ {
        if w.server.conns.contains_key(fd) {
            lemma_session_wf(w, fd);
            let (s, read) = w.session(fd).echo_read(w.server.config, fd, bytes);
            let tried = w.put(fd, s);
            lemma_echo_read_tells(w.session(fd), w.server.config, fd, bytes, log);
            lemma_put_told(w, log, next, fd, s, lost);
            lemma_echo_read_keeps(w.session(fd), w.server.config, fd, bytes);
            lemma_put_balanced(w, fd, s);
            match read {
                NativeEchoReadView::Unclaimed(left) => {
                    lemma_on_bytes_told(tried, log, next, fd, left, lost);
                    lemma_told_server(tried.on_bytes(fd, left), after, log, next, lost);
                },
                _ => {
                    lemma_told_server(tried, after, log, next, lost);
                },
            }
        } else {
            lemma_told_server(w, after, log, next, lost);
        }
    } else {
        lemma_on_bytes_told(w, log, next, fd, bytes, lost);
        lemma_told_server(w.on_bytes(fd, bytes), after, log, next, lost);
    }
}

proof fn lemma_wrote_told(
    w: World,
    log: Seq<JsEventView>,
    next: u64,
    fd: i32,
    failed: bool,
    buf: Option<Seq<u8>>,
    lost: Set<u64>,
)
    requires
        w.balanced(),
        w.known(next),
        told(w, log, next, lost),
    ensures
        told(w.wrote(fd, failed, buf), log, next, lost),
{
    let recycled = w.recycle(buf);
    lemma_told_server(w, recycled, log, next, lost);
    if w.server.conns.contains_key(fd) {
        let before = w.session(fd);
        let s = Session {
            conn: before.conn.written(failed),
            state: before.state.refund(before.conn.written_refund(failed)),
            ..before
        };
        let settled = recycled.put(fd, s);
        lemma_session_wf(w, fd);
        lemma_put_balanced(recycled, fd, s);
        lemma_put_told(recycled, log, next, fd, s, lost);
        lemma_pump_or_retire_told(settled, log, next, fd, lost);
    } else {
        lemma_pump_or_retire_told(recycled, log, next, fd, lost);
    }
}

proof fn lemma_accept_told(w: World, log: Seq<JsEventView>, fd: i32, id: u64, lost: Set<u64>)
    requires
        w.balanced(),
        w.known(id),
        id < u64::MAX,
        told(w, log, id, lost),
    ensures
        told(w.accept(fd, id), log, (id + 1) as u64, overtaken(w, fd, lost)),
{
    let listening = w.listen();
    let free = listening.dropped(fd);
    let after = w.accept(fd, id);
    let more = overtaken(w, fd, lost);
    lemma_told_server(w, listening, log, id, lost);
    lemma_dropped_balanced(listening, fd);
    lemma_dropped_told(listening, log, id, fd, lost);
    if free.server.by_id.contains_key(id) {
        assert(free.accounted(free.server.conns[free.server.by_id[id]]));
    }
    assert forall|other: u64|
        agrees(after, #[trigger] phase_after(log + after.server.events, other), other, (id
            + 1) as u64, more) by {
        assert(agrees(free, phase_after(log + free.server.events, other), other, id, more));
        if other != id && free.server.by_id.contains_key(other) {
            assert(free.server.by_id[other] != fd);
        }
    }
}

/// Whatever operation finishes, Node is told of each connection in order: its
/// open, its messages, its close; never a close without an open, and nothing
/// after the close. `log` is everything that was handed over before.
pub proof fn law_events_stay_in_order(
    before: World,
    id: u64,
    completion: Completion,
    after: World,
    next: u64,
    log: Seq<JsEventView>,
    lost: Set<u64>,
)
    requires
        before.balanced(),
        before.known(id),
        id < u64::MAX,
        completed(before, id, completion, after, next),
        told(before, log, id, lost),
    ensures
        told(after, log, next, lost_after(before, completion, lost)),
{
    let kind = completion.user / 0x1_0000_0000;
    let fd = fd_of(completion.user);
    if kind == KIND_ACCEPT {
        match completion.result {
            Ok(accepted) => {
                lemma_accept_told(before, log, accepted as i32, id, lost);
            },
            Err(_) => {
                lemma_told_server(before, after, log, id, lost);
            },
        }
    } else if kind == KIND_WAKE {
        let buf = buffer_view(completion.buf);
        let order = choose|order: Seq<i32>|
            before.pump_order(order) && after == #[trigger] before.woken(buf, order);
        let marked = before.marked(buf);
        let drained = marked.drain_commands();
        lemma_marked_balanced(before, buf);
        lemma_told_server(before, marked, log, id, lost);
        lemma_drain_commands_balanced(marked);
        lemma_drain_commands_told(marked, log, id, lost);
        lemma_pump_each_told(drained, log, id, order, lost);
        lemma_told_server(drained.pump_each(order), after, log, id, lost);
    } else if kind == KIND_READ {
        lemma_read_told(before, log, id, fd, completion.result, buffer_view(completion.buf), lost);
    } else if kind == KIND_WRITE {
        let failed = completion.result is Err;
        lemma_wrote_told(before, log, id, fd, failed, buffer_view(completion.buf), lost);
    }
}

/// Handing the events over does not change their order: what is handed over
/// joins what was handed over before.
pub proof fn law_hand_over_keeps_order(
    before: World,
    after: World,
    log: Seq<JsEventView>,
    next: u64,
    lost: Set<u64>,
)
    requires
        told(before, log, next, lost),
        after.server.by_id == before.server.by_id,
        after.server.conns == before.server.conns,
        after.server.events.len() == 0,
    ensures
        told(after, log + before.server.events, next, lost),
{
    let longer = log + before.server.events;
    assert(longer + after.server.events =~= longer);
    assert forall|id: u64|
        agrees(
            after,
            #[trigger] phase_after(longer + after.server.events, id),
            id,
            next, lost,
) by {
        assert(agrees(before, phase_after(log + before.server.events, id), id, next, lost));
    }
}

/// A server with no connections has told Node nothing, which is in order.
pub proof fn law_order_at_start(w: World, next: u64)
    requires
        w.server.by_id == Map::<u64, i32>::empty(),
        w.server.events.len() == 0,
    ensures
        told(w, Seq::empty(), next, Set::empty()),
{
    assert(Seq::<JsEventView>::empty() + w.server.events =~= Seq::<JsEventView>::empty());
}

/// Node gets exactly one close for a connection that it was told of and that
/// goes, and none for a connection that it was not told of.
pub proof fn law_close_follows_open(
    w: World,
    log: Seq<JsEventView>,
    next: u64,
    fd: i32,
    code: u16,
    lost: Set<u64>,
)
    requires
        w.balanced(),
        w.known(next),
        told(w, log, next, lost),
        w.server.conns.contains_key(fd),
    ensures
        ({
            let conn = w.server.conns[fd];
            let after = w.retire(fd, code);
            let phase = phase_after(log + after.server.events, conn.id);
            if conn.opened {
                &&& phase is Closed
                &&& after.server.events == w.server.events.push(
                    JsEventView::Close { id: conn.id, code },
                )
            } else {
                &&& phase is Unknown
                &&& after.server.events == w.server.events
            }
        }),
{
    let conn = w.server.conns[fd];
    assert(agrees(w, phase_after(log + w.server.events, conn.id), conn.id, next, lost));
    lemma_phase_push(log, w.server.events, JsEventView::Close { id: conn.id, code });
}

/// Nothing that Node is told is out of order, whatever the connection.
pub proof fn law_nothing_out_of_order(
    w: World,
    log: Seq<JsEventView>,
    next: u64,
    lost: Set<u64>,
    id: u64,
)
    requires
        told(w, log, next, lost),
    ensures
        !(phase_after(log + w.server.events, id) is Broken),
{
    assert(agrees(w, phase_after(log + w.server.events, id), id, next, lost));
}

proof fn lemma_closed_or_unknown(events: Seq<JsEventView>, id: u64, i: int)
    requires
        phase_after(events, id) is Unknown || phase_after(events, id) is Closed,
        0 <= i < events.len(),
        events[i] == (JsEventView::Open { id }),
    ensures
        closes_after(events, i, id),
    decreases events.len(),
{
    let before = events.drop_last();
    let last = events.len() - 1;
    if events[last] matches JsEventView::Close { id: gone, .. } && gone == id {
    } else if i < last {
        assert(before[i] == events[i]);
        lemma_closed_or_unknown(before, id, i);
        let j = choose|j: int|
            i < j < before.len() && (#[trigger] before[j] matches JsEventView::Close {
                id: gone,
                ..
            } && gone == id);
        assert(events[j] == before[j]);
    }
}

/// Once every connection is gone, Node has been told the close of every one it
/// was told of, so that no handle is left with it.
pub proof fn law_everyone_gone_is_closed(w: World, log: Seq<JsEventView>, next: u64)
    requires
        told(w, log, next, Set::empty()),
        w.server.by_id == Map::<u64, i32>::empty(),
    ensures
        all_closed(log + w.server.events),
{
    let events = log + w.server.events;
    assert forall|i: int, id: u64|
        0 <= i < events.len() && #[trigger] events[i] == (JsEventView::Open {
            id,
        }) implies #[trigger] closes_after(events, i, id) by {
        assert(agrees(w, phase_after(events, id), id, next, Set::empty()));
        lemma_closed_or_unknown(events, id, i);
    }
}

} // verus!
