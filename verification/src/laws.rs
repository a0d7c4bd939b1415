//! What holds of the server as a whole, across its steps.
//!
//! The steps are those that the executable functions are proved to take; see
//! `completed` for what a finished operation does.

use crate::bridge::{
    lemma_queued_charge_push, message_charge, queued_charge, BridgeView, CmdView, Sent,
    MAX_OUTBOUND,
};
use crate::codec::{error_close_code, upgrade_answer, EventView, Located};
use crate::conn::{
    bad_request, close_frame, echo_run, lemma_drain_follows, lemma_server_frame_len, Config,
    ConnView, NativeEchoReadView, PumpView, Session, BAD_REQUEST, MAX_HANDSHAKE,
};
use crate::dispatch::forgotten;
use crate::messages::{ActionView, JsEventView, OpView};
use crate::routing::{tag_of, KIND_CLOSE, KIND_WAKE, KIND_WRITE};
use crate::server::{
    lemma_command_balanced, lemma_drain_commands_actions, lemma_drain_commands_balanced,
    lemma_marked_balanced, lemma_pump_each_bridge, lemma_queued_charge_none, lemma_session_wf,
    World,
};
use crate::wire::{first_byte, server_frame, unmasked, BINARY, TEXT};
use ramjet_ws::Error;
use vstd::prelude::*;
use vstd::utf8::{encode_utf8_first_scalar, valid_utf8};

verus! {

/// What is outstanding for a connection never goes over the cap: what the queue
/// and its buffers are charged together is exactly its budget.
pub proof fn law_outbound_bounded(w: World, fd: i32)
    requires
        w.balanced(),
        w.server.conns.contains_key(fd),
    ensures
        ({
            let conn = w.server.conns[fd];
            let outstanding = conn.charged() + queued_charge(w.bridge.queue, conn.id);
            &&& w.bridge.states[conn.id].pending == outstanding
            &&& outstanding <= MAX_OUTBOUND
        }),
{
    assert(w.accounted(w.server.conns[fd]));
}

/// A connection with nothing queued, nothing waiting and nothing being written
/// owes nothing: every byte that was charged has been given back.
pub proof fn law_idle_connection_owes_nothing(w: World, fd: i32)
    requires
        w.balanced(),
        w.server.conns.contains_key(fd),
        w.bridge.queue.len() == 0,
        w.server.conns[fd].out.len() == 0,
        !w.server.conns[fd].writing,
    ensures
        w.bridge.states[w.server.conns[fd].id].pending == 0,
{
    assert(w.accounted(w.server.conns[fd]));
}

/// A command for a connection that has gone is dropped.
pub proof fn law_gone_connection_takes_nothing(w: World, id: u64, data: Seq<u8>, binary: bool)
    requires
        !w.server.by_id.contains_key(id),
    ensures
        w.command(CmdView::Send { id, data, binary }) == w,
        w.command(CmdView::Close { id }) == w,
{
}

/// A new connection's id is nobody else's: no other connection has it, nothing
/// queued is for it, and JavaScript cannot name it yet.
pub proof fn law_ids_never_reused(w: World, id: u64, fd: i32)
    requires
        w.balanced(),
        w.known(id),
    ensures
        !w.server.by_id.contains_key(id),
        w.server.conns.contains_key(fd) ==> w.server.conns[fd].id != id,
        !w.bridge.states.contains_key(id),
        queued_charge(w.bridge.queue, id) == 0,
{
    if w.server.by_id.contains_key(id) {
        assert(w.accounted(w.server.conns[w.server.by_id[id]]));
    }
    lemma_queued_charge_none(w.bridge.queue, id);
}

/// A command that comes a moment too late never lands on the connection that
/// inherited the descriptor.
pub proof fn law_late_command_never_lands_on_a_newcomer(
    w: World,
    fd: i32,
    id: u64,
    late: u64,
    data: Seq<u8>,
    binary: bool,
)
    requires
        w.balanced(),
        w.known(id),
        late != id,
    ensures
        w.accepted(fd, id).command(CmdView::Send { id: late, data, binary }).server.conns[fd]
            == ConnView::fresh(id),
        w.accepted(fd, id).command(CmdView::Close { id: late }).server.conns[fd]
            == ConnView::fresh(id),
{
    let after = w.accepted(fd, id);
    if after.server.by_id.contains_key(late) {
        assert(w.server.by_id.contains_key(late));
        if w.server.by_id[late] == fd {
            assert(w.server.conns[fd].id == late);
        }
    }
}

/// Taking a refused command back leaves the bridge as it was before the command
/// was put to it: a message with its charge, or a close.
pub proof fn law_withdraw_undoes(b: BridgeView, id: u64, data: Seq<u8>, binary: bool)
    requires
        !b.wake_pending,
    ensures
        b.takes_message(id, data) ==> b.queued_message(id, data, binary).withdrawn() == b,
        b.queued(CmdView::Close { id }).withdrawn() == b,
{
    assert(b.queue.push(CmdView::Close { id }).drop_last() =~= b.queue);
    let sent = CmdView::Send { id, data, binary };
    assert(b.queue.push(sent).drop_last() =~= b.queue);
    if b.takes_message(id, data) {
        assert(b.queued_message(id, data, binary).withdrawn().states =~= b.states);
    }
}

/// What JavaScript puts to the bridge leaves the accounts balanced whatever the
/// reactor holds, no wake lost, and every id in use one that was given out. So
/// does the end of the reactor.
pub proof fn law_bridge_stays_balanced(
    w: World,
    next: u64,
    id: u64,
    data: Seq<u8>,
    binary: bool,
)
    requires
        w.balanced(),
        w.known(next),
        w.bridge.wf(),
    ensures
        w.bridge.takes_message(id, data) ==> ({
            let queued = w.bridge.queued_message(id, data, binary);
            w.bridged(queued).balanced() && w.bridged(queued).known(next) && queued.wf()
        }),
        ({
            let queued = w.bridge.queued(CmdView::Close { id });
            w.bridged(queued).balanced() && w.bridged(queued).known(next) && queued.wf()
        }),
        w.bridged(w.bridge.halted()).balanced(),
        w.bridged(w.bridge.halted()).known(next),
        w.bridge.halted().wf(),
{
    if w.bridge.takes_message(id, data) {
        let command = CmdView::Send { id, data, binary };
        let after = w.bridged(w.bridge.queued_message(id, data, binary));
        assert forall|fd: i32| #[trigger] after.server.conns.contains_key(fd) implies
            after.accounted(after.server.conns[fd]) by {
            assert(w.accounted(w.server.conns[fd]));
            lemma_queued_charge_push(w.bridge.queue, command, w.server.conns[fd].id);
        }
    }
    let close = CmdView::Close { id };
    let closing = w.bridged(w.bridge.queued(close));
    assert forall|fd: i32| #[trigger] closing.server.conns.contains_key(fd) implies
        closing.accounted(closing.server.conns[fd]) by {
        assert(w.accounted(w.server.conns[fd]));
        lemma_queued_charge_push(w.bridge.queue, close, w.server.conns[fd].id);
    }
    let stopped = w.bridged(w.bridge.halted());
    assert forall|fd: i32| #[trigger] stopped.server.conns.contains_key(fd) implies
        stopped.accounted(stopped.server.conns[fd]) by {
        assert(w.accounted(w.server.conns[fd]));
    }
}

/// Dropping the budgets of connections that are closed leaves the accounts
/// balanced and every id in use one that was given out.
pub proof fn law_forgetting_stays_balanced(w: World, next: u64, events: Seq<JsEventView>)
    requires
        w.balanced(),
        w.known(next),
    ensures
        w.bridged(w.bridge.budgeted(forgotten(w.bridge.states, events))).balanced(),
        w.bridged(w.bridge.budgeted(forgotten(w.bridge.states, events))).known(next),
{
    let after = w.bridged(w.bridge.budgeted(forgotten(w.bridge.states, events)));
    assert forall|fd: i32| #[trigger] after.server.conns.contains_key(fd) implies
        after.accounted(after.server.conns[fd]) by {
        assert(w.accounted(w.server.conns[fd]));
    }
}

/// A wake leaves nothing queued and no wake on its way, and the wake pipe is
/// read again: nothing that JavaScript put to the bridge before it is left
/// behind, and the next command wakes the reactor anew.
pub proof fn law_wake_leaves_nothing_queued(w: World, buf: Option<Seq<u8>>, order: Seq<i32>)
    requires
        w.balanced(),
    ensures
        w.woken(buf, order).bridge.queue.len() == 0,
        !w.woken(buf, order).bridge.wake_pending,
        w.woken(buf, order).actions.last() == (ActionView::Submit {
            op: OpView::ReadPooled { fd: w.server.wake },
            user: tag_of(KIND_WAKE, w.server.wake),
        }),
{
    let marked = w.marked(buf);
    lemma_marked_balanced(w, buf);
    lemma_drain_commands_balanced(marked);
    lemma_drain_commands_actions(marked);
    lemma_pump_each_bridge(marked.drain_commands(), order);
}

/// What the queue puts behind a connection's outbound bytes: each message to it
/// as a frame of its kind, a text that is not UTF-8 left out, until it is
/// closed; and a close frame for each close.
pub open spec fn frames_for(queue: Seq<CmdView>, id: u64, over: bool) -> Seq<u8>
    decreases queue.len(),
{
    if queue.len() == 0 {
        Seq::empty()
    } else {
        let rest = queue.drop_first();
        match queue.first() {
            CmdView::Send { id: to, data, binary } => if to == id && !over && (binary
                || valid_utf8(data)) {
                server_frame(
                    if binary {
                        BINARY
                    } else {
                        TEXT
                    },
                    data,
                ) + frames_for(rest, id, over)
            } else {
                frames_for(rest, id, over)
            },
            CmdView::Close { id: to } => if to == id {
                close_frame(1000) + frames_for(rest, id, true)
            } else {
                frames_for(rest, id, over)
            },
        }
    }
}

/// Everything queued for a connection goes behind its outbound bytes, each
/// message once, in the order in which JavaScript sent it, and nothing that is
/// queued for another connection does.
pub proof fn law_sends_go_out_in_order(w: World, fd: i32)
    requires
        w.balanced(),
        w.server.conns.contains_key(fd),
    ensures
        ({
            let conn = w.server.conns[fd];
            &&& w.drain_commands().server.conns.contains_key(fd)
            &&& w.drain_commands().server.conns[fd].out == conn.out + frames_for(
                w.bridge.queue,
                conn.id,
                conn.ignoring,
            )
        }),
    decreases w.bridge.queue.len(),
{
    let conn = w.server.conns[fd];
    if w.bridge.queue.len() == 0 {
        assert(conn.out + Seq::<u8>::empty() =~= conn.out);
    } else {
        let command = w.bridge.queue.first();
        let rest = w.unqueued();
        let after = rest.command(command);
        lemma_command_balanced(w);
        let now = after.server.conns[fd];
        assert(after.bridge.queue == w.bridge.queue.drop_first());
        law_sends_go_out_in_order(after, fd);
        let later = frames_for(after.bridge.queue, now.id, now.ignoring);
        match command {
            CmdView::Send { id: to, data, binary } => {
                if to == conn.id {
                    assert(w.server.by_id[to] == fd);
                    if conn.takes(data, binary) {
                        let frame = server_frame(
                            if binary {
                                BINARY
                            } else {
                                TEXT
                            },
                            data,
                        );
                        assert(conn.out + frame + later =~= conn.out + (frame + later));
                    }
                } else if w.server.by_id.contains_key(to) {
                    assert(w.server.by_id[to] != fd);
                }
            },
            CmdView::Close { id: to } => {
                if to == conn.id {
                    assert(w.server.by_id[to] == fd);
                    assert(conn.out + close_frame(1000) + later =~= conn.out + (close_frame(1000)
                        + later));
                } else if w.server.by_id.contains_key(to) {
                    assert(w.server.by_id[to] != fd);
                }
            },
        }
    }
}

/// Once a conversation is over, anything further from the peer is ignored.
pub proof fn law_over_is_over(s: Session, config: Config, bytes: Seq<u8>)
    requires
        s.conn.ignoring,
    ensures
        s.on_bytes(config, bytes) == s,
{
}

/// Pings, pongs and closes are answered here and never reach Node.
pub proof fn law_control_frames_stay_here(s: Session, config: Config, event: EventView)
    requires
        !(event is Text) && !(event is Binary),
    ensures
        s.on_event(config, event).0.events == s.events,
{
}

/// A connection whose conversation is over is closed once what waits is written:
/// as soon as the write in flight is done if nothing waits behind it, and else
/// after one more, which holds everything that waits.
pub proof fn law_closing_connection_ends(conn: ConnView, failed: bool, failed_again: bool)
    requires
        conn.wf(),
        conn.ignoring,
    ensures
        ({
            let settled = conn.written(failed);
            let (next, pump) = settled.pump();
            if settled.out.len() == 0 {
                pump is Close
            } else {
                &&& pump == PumpView::Write(settled.out)
                &&& next.written(failed_again).pump().1 is Close
            }
        }),
{
}

/// Whether an upgrade request, as far as it has come, is refused: it is no
/// upgrade, or it is longer than one may be.
pub open spec fn refused(request: Seq<u8>) -> bool {
    match upgrade_answer(request) {
        Ok(None) => request.len() > MAX_HANDSHAKE,
        Ok(Some((_, consumed))) => consumed > MAX_HANDSHAKE,
        Err(_) => true,
    }
}

/// A request that is refused is answered as a bad request, behind whatever waits
/// to go out; once the answer is written the connection is closed and gone. Node
/// hears nothing of it.
pub proof fn law_refused_request_is_answered_and_closed(
    w: World,
    fd: i32,
    n: i64,
    bytes: Seq<u8>,
    buf: Option<Seq<u8>>,
)
    requires
        w.balanced(),
        w.server.conns.contains_key(fd),
        w.server.conns[fd].request is Some,
        !w.server.conns[fd].ignoring,
        !w.server.conns[fd].writing,
        n > 0,
        refused(w.server.conns[fd].request->Some_0 + bytes),
    ensures
        ({
            let conn = w.server.conns[fd];
            let answered = w.read(fd, Ok(n), Some(bytes));
            let flushed = answered.wrote(fd, false, buf);
            &&& answered.actions.last() == (ActionView::Submit {
                op: OpView::write(fd, conn.out + bad_request()),
                user: tag_of(KIND_WRITE, fd),
            })
            &&& answered.server.events == w.server.events
            &&& flushed.actions.last() == (ActionView::Submit {
                op: OpView::Close { fd },
                user: tag_of(KIND_CLOSE, fd),
            })
            &&& flushed.server.events == w.server.events
            &&& !flushed.server.conns.contains_key(fd)
        }),
{
    let conn = w.server.conns[fd];
    lemma_session_wf(w, fd);
    let s = w.session(fd);
    let refused = s.conn.refuse();
    assert(s.on_bytes(w.server.config, bytes) == (Session { conn: refused, ..s }));
    lemma_bad_request_nonempty();
    assert(refused.out.len() > 0);
    let taken = w.read_bytes(fd, bytes);
    assert(w.put(fd, s).session(fd) == s);
    assert(taken.server.conns[fd] == refused);
}

proof fn lemma_bad_request_nonempty()
    ensures
        bad_request().len() > 0,
{
    reveal_strlit(
        "HTTP/1.1 400 Bad Request\r\nConnection: close\r\nContent-Length: 0\r\n\r\n",
    );
    encode_utf8_first_scalar(BAD_REQUEST@);
}

/// An upgrade that is accepted is answered with the response, behind whatever
/// waits to go out, and Node is told of the connection before anything that
/// came behind the request.
pub proof fn law_upgrade_opens(s: Session, config: Config, bytes: Seq<u8>)
    requires
        s.wf(),
        !s.conn.ignoring,
        s.conn.request is Some,
        upgrade_answer(s.conn.request->Some_0 + bytes) is Ok,
        upgrade_answer(s.conn.request->Some_0 + bytes)->Ok_0 is Some,
        !refused(s.conn.request->Some_0 + bytes),
    ensures
        ({
            let (response, consumed) = upgrade_answer(
                s.conn.request->Some_0 + bytes,
            )->Ok_0->Some_0;
            let after = s.on_bytes(config, bytes);
            &&& (s.conn.out + response).is_prefix_of(after.conn.out)
            &&& s.events.push(JsEventView::Open { id: s.conn.id }).is_prefix_of(after.events)
            &&& after.conn.opened
            &&& after.conn.request is None
        }),
{
    let request = s.conn.request->Some_0 + bytes;
    let (response, consumed) = upgrade_answer(request)->Ok_0->Some_0;
    let up = s.upgraded(response);
    lemma_drain_follows(up.decoding(up.conn.decoder.feed(request.skip(consumed))), config);
}

/// When a batch of echoed frames ends in a broken one, the replies to the valid
/// ones go out first, then the close frame with the code that the error earns,
/// and then the connection is closed.
pub proof fn law_valid_replies_go_before_the_close(
    s: Session,
    config: Config,
    fd: i32,
    bytes: Seq<u8>,
    e: Error,
)
    requires
        s.wf(),
        s.conn.can_echo_in_place(),
        s.conn.decoder.whole(bytes) == Ok::<Option<Located>, Error>(None),
        echo_run(s.conn.decoder, bytes).error == Some(e),
        echo_run(s.conn.decoder, bytes).packed.len() > 0,
        s.state.admits(echo_run(s.conn.decoder, bytes).packed.len() as int),
    ensures
        ({
            let packed = echo_run(s.conn.decoder, bytes).packed;
            let (after, read) = s.echo_read(config, fd, bytes);
            let (closing, pump) = after.conn.written(false).pump();
            &&& read == NativeEchoReadView::Submitted(OpView::write(fd, packed))
            &&& pump == PumpView::Write(close_frame(error_close_code(e)))
            &&& closing.written(false).pump().1 is Close
        }),
{
    let code = error_close_code(e);
    assert(s.conn.out + close_frame(code) =~= close_frame(code));
}

/// With native echo a data message is sent back as it came, as long as the
/// connection's budget has room for it, and Node hears nothing of it; without
/// room the connection is closed for violating policy.
pub proof fn law_echo_sends_the_message_back(
    s: Session,
    config: Config,
    data: Seq<u8>,
    binary: bool,
)
    requires
        config.native_echo,
    ensures
        ({
            let first = if binary {
                BINARY
            } else {
                TEXT
            };
            let (after, done) = s.on_message(config, data, binary);
            &&& after.events == s.events
            &&& if s.state.admits(message_charge(data)) {
                !done && after.conn.out == s.conn.out + server_frame(first, data)
            } else {
                done && after == s.close(1008)
            }
        }),
{
}

/// A whole frame that is echoed from the buffer it lies in is sent back with its
/// own kind and its payload unmasked, in one write.
pub proof fn law_echo_in_place_sends_the_frame_back(
    s: Session,
    config: Config,
    fd: i32,
    bytes: Seq<u8>,
    found: Located,
)
    requires
        s.conn.can_echo_in_place(),
        s.conn.decoder.whole(bytes) == Ok::<Option<Located>, Error>(Some(found)),
        found.lies_in(bytes, s.conn.decoder.limit),
        s.state.admits(message_charge(unmasked(bytes, found.start, found.end))),
    ensures
        ({
            let payload = unmasked(bytes, found.start, found.end);
            let (after, read) = s.echo_read(config, fd, bytes);
            &&& read matches NativeEchoReadView::Submitted(OpView::Write { fd: on, sent, .. })
            &&& on == fd && sent == server_frame(first_byte(found.kind), payload)
            &&& after.events == s.events
            &&& after.conn.writing
        }),
{
    let payload = unmasked(bytes, found.start, found.end);
    lemma_server_frame_len(first_byte(found.kind), payload);
    assert((bytes.take(found.start) + payload).skip(found.start) =~= payload);
}

/// Where Node asks for messages and they are not echoed, each reaches it as it
/// came, and nothing else happens.
pub proof fn law_message_reaches_node(s: Session, config: Config, data: Seq<u8>, binary: bool)
    requires
        !config.native_echo,
        config.wants_message,
    ensures
        s.on_message(config, data, binary) == (
            s.tell(JsEventView::Message { id: s.conn.id, data, binary }),
            false,
        ),
{
}

/// A text that is not UTF-8 is not sent, and its charge is given back: what the
/// connection has to send, and what any other connection has, is as it was.
pub proof fn law_text_must_be_utf8(w: World, id: u64, data: Seq<u8>)
    requires
        w.balanced(),
        w.server.by_id.contains_key(id),
        !valid_utf8(data),
    ensures
        ({
            let after = w.command(CmdView::Send { id, data, binary: false });
            &&& after.server == w.server
            &&& after.bridge.states[id] == w.bridge.states[id].refund(message_charge(data))
        }),
{
    let after = w.command(CmdView::Send { id, data, binary: false });
    let fd = w.server.by_id[id];
    assert(w.server.conns.contains_key(fd));
    assert(after.server.conns =~= w.server.conns);
}

proof fn lemma_put_all(b: BridgeView, commands: Seq<CmdView>, n: int)
    requires
        0 <= n <= commands.len(),
        forall|i: int|
            0 <= i < commands.len() ==> b.put_all(commands.take(i)).takes(#[trigger] commands[i]),
    ensures
        b.put_all(commands.take(n)).queue == b.queue + commands.take(n),
        b.put_all(commands.take(n)).wake_pending == (b.wake_pending || n > 0),
    decreases n,
{
    let front = commands.take(n);
    if n == 0 {
        assert(front =~= Seq::empty());
        assert(b.queue + front =~= b.queue);
    } else {
        lemma_put_all(b, commands, n - 1);
        assert(front.drop_last() =~= commands.take(n - 1));
        assert(b.put_all(commands.take(n - 1)).takes(commands[n - 1]));
        assert(b.queue + front =~= (b.queue + commands.take(n - 1)).push(commands[n - 1]));
    }
}

/// A run of commands, with no wake consumed in between, costs one wake byte: all
/// of them are queued behind what was there, in their order; the first asks for
/// the byte, unless one is on its way already, and no other does.
pub proof fn law_a_run_of_commands_costs_one_wake(b: BridgeView, commands: Seq<CmdView>)
    requires
        commands.len() > 0,
        forall|i: int|
            0 <= i < commands.len() ==> b.put_all(commands.take(i)).takes(#[trigger] commands[i]),
    ensures
        b.put_all(commands).queue == b.queue + commands,
        b.put_all(commands).wake_pending,
        b.answers(commands) == Seq::new(
            commands.len(),
            |i: int|
                if i == 0 && !b.wake_pending {
                    Sent::Wake
                } else {
                    Sent::Queued
                },
        ),
{
    let answers = Seq::new(
        commands.len(),
        |i: int|
            if i == 0 && !b.wake_pending {
                Sent::Wake
            } else {
                Sent::Queued
            },
    );
    assert(commands.take(commands.len() as int) =~= commands);
    lemma_put_all(b, commands, commands.len() as int);
    assert forall|i: int| 0 <= i < commands.len() implies b.answers(commands)[i]
        == answers[i] by {
        lemma_put_all(b, commands, i);
        assert(b.put_all(commands.take(i)).takes(commands[i]));
    }
    assert(b.answers(commands) =~= answers);
}

proof fn lemma_sent_all(b: BridgeView, commands: Seq<CmdView>, n: int)
    requires
        0 <= n <= commands.len(),
        !b.stopped,
    ensures
        b.sent_all(commands.take(n)) == (BridgeView {
            queue: b.queue + commands.take(n),
            wake_pending: b.wake_pending || n > 0,
            ..b
        }),
    decreases n,
{
    let front = commands.take(n);
    if n == 0 {
        assert(front =~= Seq::empty());
        assert(b.queue + front =~= b.queue);
    } else {
        lemma_sent_all(b, commands, n - 1);
        assert(front.drop_last() =~= commands.take(n - 1));
        assert(b.queue + front =~= (b.queue + commands.take(n - 1)).push(commands[n - 1]));
    }
}

/// While the reactor runs, a run of commands that are queued as they are, with no
/// wake consumed in between, costs one wake byte: all of them are queued behind
/// what was there, in their order, and nothing else changes; the first asks for
/// the byte, unless one is on its way already, and no other does.
pub proof fn law_a_run_of_sends_costs_one_wake(b: BridgeView, commands: Seq<CmdView>)
    requires
        commands.len() > 0,
        !b.stopped,
    ensures
        b.sent_all(commands) == (BridgeView {
            queue: b.queue + commands,
            wake_pending: true,
            ..b
        }),
        forall|i: int|
            0 <= i < commands.len() ==> b.sent_all(#[trigger] commands.take(i)).sent(commands[i]).1
                == if i == 0 && !b.wake_pending {
                Sent::Wake
            } else {
                Sent::Queued
            },
{
    assert(commands.take(commands.len() as int) =~= commands);
    lemma_sent_all(b, commands, commands.len() as int);
    assert forall|i: int| 0 <= i < commands.len() implies b.sent_all(
        #[trigger] commands.take(i),
    ).sent(commands[i]).1 == if i == 0 && !b.wake_pending {
        Sent::Wake
    } else {
        Sent::Queued
    } by {
        lemma_sent_all(b, commands, i);
    }
}

/// Once a wake is consumed, a command that is queued as it is asks for a byte of
/// its own while the reactor runs, and is on the queue by then.
pub proof fn law_a_send_after_a_consumed_wake_asks_for_a_fresh_one(
    b: BridgeView,
    command: CmdView,
)
    requires
        !b.stopped,
    ensures
        b.awake().sent(command) == (
            BridgeView { queue: b.queue.push(command), wake_pending: true, ..b },
            Sent::Wake,
        ),
{
}

/// Once a wake is consumed the next command asks for a byte of its own, and is on
/// the queue by then: a command that is queued after a drain always has a wake
/// byte, and a wake byte is never there before its command.
pub proof fn law_a_consumed_wake_is_followed_by_a_fresh_one(b: BridgeView, command: CmdView)
    requires
        b.awake().takes(command),
    ensures
        ({
            let (after, sent) = b.awake().put(command);
            &&& sent == Sent::Wake
            &&& after.queue == b.queue.push(command)
            &&& after.wake_pending
        }),
{
}

} // verus!
