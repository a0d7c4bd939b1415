//! What every turn of the reactor keeps up: no byte for a peer is lost or sent
//! twice, nothing waits that could go out, and everything that is to be read is
//! being read, once.

use crate::bridge::{lemma_queued_charge_push, CmdView, ConnectionState};
use crate::codec::{error_close_code, upgrade_answer, EventView};
use crate::conn::{
    alike, bad_request, close_frame, lemma_echo_read_keeps, lemma_on_bytes_follows, Config,
    ConnView, NativeEchoReadView, Session,
};
use crate::lanes::{batch_fits, lanes_agree};
use crate::laws::{frames_for, law_sends_go_out_in_order};
use crate::messages::{buffer_view, ActionView, Completion, JsEventView, OpView};
use crate::routing::{
    fd_of, law_tag_round_trip, tag_of, KIND_ACCEPT, KIND_READ, KIND_WAKE, KIND_WRITE,
};
use crate::server::{
    completed, lemma_command_balanced, lemma_drain_commands_actions,
    lemma_drain_commands_balanced, lemma_drain_commands_conns, lemma_marked_balanced,
    lemma_pump_each_balanced, lemma_session_wf, World,
};
use crate::steps::{framed, law_message_goes_out_whole};
use crate::turns::{
    accept_of, close_of, law_accepted_connection_is_read, law_finished_write_lets_the_next_go,
    law_read_answered_in_place, law_read_of_nothing_ends_the_connection,
    law_read_reaches_the_connection, read_of, sees_off, wake_of, write_of,
};
use vstd::prelude::*;
use vstd::utf8::valid_utf8;

verus! {

/// The bytes that an action sends on a descriptor.
pub open spec fn sends(action: ActionView, fd: i32) -> Seq<u8> {
    match action {
        ActionView::Submit { op: OpView::Write { fd: on, sent, .. }, .. } => if on == fd {
            sent
        } else {
            Seq::empty()
        },
        _ => Seq::empty(),
    }
}

/// The bytes that a run of actions sends on a descriptor, in their order.
pub open spec fn sent_on(actions: Seq<ActionView>, fd: i32) -> Seq<u8>
    decreases actions.len(),
{
    if actions.len() == 0 {
        Seq::empty()
    } else {
        sent_on(actions.drop_last(), fd) + sends(actions.last(), fd)
    }
}

/// The bytes that wait to go out on a descriptor.
pub open spec fn waiting(w: World, fd: i32) -> Seq<u8> {
    if w.server.conns.contains_key(fd) {
        w.server.conns[fd].out
    } else {
        Seq::empty()
    }
}

/// Everything for the peer on a descriptor: what is being sent, and behind it
/// what waits.
pub open spec fn for_peer(w: World, fd: i32) -> Seq<u8> {
    sent_on(w.actions, fd) + waiting(w, fd)
}

proof fn lemma_sent_push(actions: Seq<ActionView>, action: ActionView, fd: i32)
    ensures
        sent_on(actions.push(action), fd) == sent_on(actions, fd) + sends(action, fd),
{
    assert(actions.push(action).drop_last() =~= actions);
}

/// How often an action stands in a run of actions.
pub open spec fn times(actions: Seq<ActionView>, action: ActionView) -> int
    decreases actions.len(),
{
    if actions.len() == 0 {
        0
    } else {
        times(actions.drop_last(), action) + if actions.last() == action {
            1int
        } else {
            0
        }
    }
}

proof fn lemma_times_push(actions: Seq<ActionView>, last: ActionView, action: ActionView)
    ensures
        times(actions.push(last), action) == times(actions, action) + if last == action {
            1int
        } else {
            0
        },
{
    assert(actions.push(last).drop_last() =~= actions);
}

/// Whether a run of actions that became longer asks for no more reads and no more
/// connections than it did.
pub open spec fn asks_alike(a: Seq<ActionView>, b: Seq<ActionView>) -> bool {
    forall|action: ActionView|
        action matches ActionView::Submit { op, .. } && (op is ReadPooled || op is Accept)
            ==> #[trigger] times(b, action) == times(a, action)
}

proof fn lemma_asks_push(a: Seq<ActionView>, b: Seq<ActionView>, last: ActionView)
    requires
        asks_alike(a, b),
        last matches ActionView::Submit { op, .. } ==> !(op is ReadPooled) && !(op is Accept),
    ensures
        asks_alike(a, b.push(last)),
{
    assert forall|action: ActionView|
        action matches ActionView::Submit { op, .. } && (op is ReadPooled
            || op is Accept) implies #[trigger] times(b.push(last), action) == times(a, action) by {
        lemma_times_push(b, last, action);
    }
}

/// What pumping a connection does to it and to what is asked of the driver on its
/// descriptor.
pub open spec fn pumped_at(before: World, after: World, fd: i32) -> bool {
    let conn = before.server.conns[fd];
    let sent = sent_on(before.actions, fd);
    if !before.server.conns.contains_key(fd) {
        &&& !after.server.conns.contains_key(fd)
        &&& sent_on(after.actions, fd) == sent
    } else if !conn.writing && conn.out.len() > 0 {
        &&& after.server.conns.contains_key(fd)
        &&& after.server.conns[fd] == (ConnView {
            out: Seq::empty(),
            out_charged: 0,
            writing: true,
            writing_charged: conn.out_charged,
            ..conn
        })
        &&& sent_on(after.actions, fd) == sent + conn.out
    } else if !conn.writing && conn.close_when_flushed {
        &&& !after.server.conns.contains_key(fd)
        &&& sent_on(after.actions, fd) == sent
        &&& times(after.actions, close_of(fd)) == times(before.actions, close_of(fd)) + 1
        &&& conn.opened ==> tells_close(after.server.events, conn.id, 1000)
    } else {
        &&& after.server.conns.contains_key(fd)
        &&& after.server.conns[fd] == conn
        &&& sent_on(after.actions, fd) == sent
    }
}

/// Whether a run of events tells of a connection's close with this code.
pub open spec fn tells_close(events: Seq<JsEventView>, id: u64, code: u16) -> bool {
    exists|i: int|
        0 <= i < events.len() && #[trigger] events[i] == (JsEventView::Close { id, code })
}

proof fn lemma_tells_close(events: Seq<JsEventView>, longer: Seq<JsEventView>, id: u64, code: u16)
    requires
        events.is_prefix_of(longer),
    ensures
        tells_close(events, id, code) ==> tells_close(longer, id, code),
{
    if tells_close(events, id, code) {
        let i = choose|i: int|
            0 <= i < events.len() && #[trigger] events[i] == (JsEventView::Close { id, code });
        assert(longer[i] == events[i]);
    }
}

/// Whether nothing happened on a descriptor.
pub open spec fn untouched_at(before: World, after: World, fd: i32) -> bool {
    &&& after.server.conns.contains_key(fd) == before.server.conns.contains_key(fd)
    &&& after.server.conns[fd] == before.server.conns[fd]
    &&& sent_on(after.actions, fd) == sent_on(before.actions, fd)
    &&& times(after.actions, close_of(fd)) == times(before.actions, close_of(fd))
}

proof fn lemma_pump_at(w: World, at: i32, fd: i32)
    ensures
        at == fd ==> pumped_at(w, w.pump_or_retire(at), fd),
        at != fd ==> untouched_at(w, w.pump_or_retire(at), fd),
        asks_alike(w.actions, w.pump_or_retire(at).actions),
        w.server.events.is_prefix_of(w.pump_or_retire(at).server.events),
{
    if w.server.conns.contains_key(at) {
        let conn = w.server.conns[at];
        if !conn.writing && conn.out.len() > 0 {
            let write = write_of(at, conn.out);
            lemma_sent_push(w.actions, write, fd);
            lemma_times_push(w.actions, write, close_of(fd));
            lemma_asks_push(w.actions, w.actions, write);
            assert(w.pump_or_retire(at).actions == w.actions.push(write));
        } else if !conn.writing && conn.close_when_flushed {
            lemma_sent_push(w.actions, close_of(at), fd);
            lemma_times_push(w.actions, close_of(at), close_of(fd));
            lemma_asks_push(w.actions, w.actions, close_of(at));
            let told = w.pump_or_retire(at).server.events;
            assert(conn.opened ==> told[told.len() - 1] == (JsEventView::Close {
                id: conn.id,
                code: 1000,
            }));
        } else {
            assert(conn.pump().0 == conn);
        }
    }
    assert(sent_on(w.actions, fd) + Seq::<u8>::empty() =~= sent_on(w.actions, fd));
}

proof fn lemma_pump_each_at(w: World, order: Seq<i32>, fd: i32)
    requires
        order.no_duplicates(),
    ensures
        order.contains(fd) ==> pumped_at(w, w.pump_each(order), fd),
        !order.contains(fd) ==> untouched_at(w, w.pump_each(order), fd),
        asks_alike(w.actions, w.pump_each(order).actions),
        w.server.events.is_prefix_of(w.pump_each(order).server.events),
    decreases order.len(),
{
    if order.len() > 0 {
        let first = order.drop_last();
        let last = order.last();
        let here = w.pump_each(first);
        assert(first.no_duplicates()) by {
            assert forall|i: int, j: int|
                0 <= i < first.len() && 0 <= j < first.len() && i != j implies first[i]
                != first[j] by {
                assert(order[i] == first[i] && order[j] == first[j]);
            }
        }
        lemma_pump_each_at(w, first, fd);
        lemma_pump_at(here, last, fd);
        lemma_tells_close(
            here.server.events,
            w.pump_each(order).server.events,
            w.server.conns[fd].id,
            1000,
        );
        if last == fd {
            if first.contains(fd) {
                let i = choose|i: int| 0 <= i < first.len() && first[i] == fd;
                assert(order[i] == order[order.len() - 1]);
            }
            assert(order[order.len() - 1] == fd);
        } else if order.contains(fd) {
            let i = choose|i: int| 0 <= i < order.len() && order[i] == fd;
            assert(first[i] == fd);
        } else if first.contains(fd) {
            let i = choose|i: int| 0 <= i < first.len() && first[i] == fd;
            assert(order[i] == fd);
        }
    }
}

/// Whether JavaScript has asked for a connection to be closed.
pub open spec fn closing_queued(queue: Seq<CmdView>, id: u64) -> bool {
    exists|i: int| 0 <= i < queue.len() && #[trigger] queue[i] == (CmdView::Close { id })
}

/// The bytes of the messages that the queue puts behind a connection's bytes, as
/// they stand on the wire: all but those of its close frames.
pub open spec fn charge_for(queue: Seq<CmdView>, id: u64, over: bool) -> int
    decreases queue.len(),
{
    if queue.len() == 0 {
        0
    } else {
        let rest = queue.drop_first();
        match queue.first() {
            CmdView::Send { id: to, data, binary } => if to == id && !over && (binary
                || valid_utf8(data)) {
                framed(data.len()) + charge_for(rest, id, over)
            } else {
                charge_for(rest, id, over)
            },
            CmdView::Close { id: to } => charge_for(rest, id, over || to == id),
        }
    }
}

/// What is queued for a connection adds to what waits for its peer, the messages
/// with their charge, and a close among it ends the conversation. Nothing else of
/// the connection changes, and neither do the events for Node.
pub proof fn law_commands_touch_only_what_waits(w: World, fd: i32)
    requires
        w.balanced(),
        w.server.conns.contains_key(fd),
    ensures
        ({
            let conn = w.server.conns[fd];
            let after = w.drain_commands();
            let over = conn.ignoring || closing_queued(w.bridge.queue, conn.id);
            &&& after.server.conns.contains_key(fd)
            &&& after.server.conns[fd] == (ConnView {
                out: conn.out + frames_for(w.bridge.queue, conn.id, conn.ignoring),
                out_charged: after.server.conns[fd].out_charged,
                ignoring: over,
                close_when_flushed: over,
                ..conn
            })
            &&& after.server.conns[fd].out_charged == conn.out_charged + charge_for(
                w.bridge.queue,
                conn.id,
                conn.ignoring,
            )
            &&& after.server.events == w.server.events
            &&& after.server.config == w.server.config
            &&& after.server.by_id == w.server.by_id
        }),
    decreases w.bridge.queue.len(),
{
    let conn = w.server.conns[fd];
    let queue = w.bridge.queue;
    law_sends_go_out_in_order(w, fd);
    assert(w.accounted(conn));
    lemma_queued_charge_push(queue, CmdView::Close { id: 0 }, conn.id);
    if queue.len() > 0 {
        let command = queue.first();
        let after = w.unqueued().command(command);
        lemma_command_balanced(w);
        assert(w.server.by_id[conn.id] == fd);
        law_commands_touch_only_what_waits(after, fd);
        match command {
            CmdView::Send { id: to, data, binary } => {
                if to == conn.id {
                    law_message_goes_out_whole(conn, data, binary);
                    lemma_queued_charge_push(after.bridge.queue, command, conn.id);
                } else if w.server.by_id.contains_key(to) {
                    assert(w.server.by_id[to] != fd);
                }
            },
            CmdView::Close { id: to } => {
                if to != conn.id && w.server.by_id.contains_key(to) {
                    assert(w.server.by_id[to] != fd);
                }
            },
        }
        let rest = queue.drop_first();
        assert(after.bridge.queue == rest);
        assert(closing_queued(queue, conn.id) == (command == (CmdView::Close { id: conn.id })
            || closing_queued(rest, conn.id))) by {
            if closing_queued(rest, conn.id) {
                let i = choose|i: int|
                    0 <= i < rest.len() && #[trigger] rest[i] == (CmdView::Close { id: conn.id });
                assert(queue[i + 1] == rest[i]);
            }
            if command == (CmdView::Close { id: conn.id }) {
                assert(queue[0] == command);
            }
            if closing_queued(queue, conn.id) && command != (CmdView::Close { id: conn.id }) {
                let i = choose|i: int|
                    0 <= i < queue.len() && #[trigger] queue[i] == (CmdView::Close {
                        id: conn.id,
                    });
                assert(rest[i - 1] == queue[i]);
            }
        }
        assert(after.server.events == w.server.events);
        assert(after.server.by_id == w.server.by_id);
    }
}

/// A wake serves every connection, in whichever order they come: what was queued
/// for it goes behind what waits, and all of that goes out in one write, unless a
/// write is in flight, behind which it waits. A connection that is to close, with
/// nothing to send, goes with code 1000. Nothing else is sent on its descriptor.
pub proof fn law_wake_serves_every_connection(
    w: World,
    buf: Option<Seq<u8>>,
    order: Seq<i32>,
    fd: i32,
)
    requires
        w.balanced(),
        w.pump_order(order),
        w.server.conns.contains_key(fd),
    ensures
        ({
            let conn = w.server.conns[fd];
            let after = w.woken(buf, order);
            let now = after.server.conns[fd];
            let all = conn.out + frames_for(w.bridge.queue, conn.id, conn.ignoring);
            let over = conn.ignoring || closing_queued(w.bridge.queue, conn.id);
            let sent = sent_on(w.actions, fd);
            let charged = conn.out_charged + charge_for(w.bridge.queue, conn.id, conn.ignoring);
            if conn.writing || all.len() > 0 || !over {
                &&& after.server.conns.contains_key(fd)
                &&& now.id == conn.id && now.request == conn.request
                &&& now.decoder == conn.decoder && now.opened == conn.opened
                &&& now.ignoring == over && now.close_when_flushed == over
                &&& now.writing == (conn.writing || all.len() > 0)
                &&& if conn.writing {
                    &&& now.out == all && now.out_charged == charged
                    &&& now.writing_charged == conn.writing_charged
                    &&& sent_on(after.actions, fd) == sent
                } else {
                    &&& now.out.len() == 0 && now.out_charged == 0
                    &&& now.writing_charged == charged
                    &&& sent_on(after.actions, fd) == sent + all
                }
            } else {
                &&& !after.server.conns.contains_key(fd)
                &&& sent_on(after.actions, fd) == sent
                &&& times(after.actions, close_of(fd)) == times(w.actions, close_of(fd)) + 1
                &&& conn.opened ==> tells_close(after.server.events, conn.id, 1000)
            }
        }),
        w.server.events.is_prefix_of(w.woken(buf, order).server.events),
{
    let conn = w.server.conns[fd];
    let marked = w.marked(buf);
    let drained = marked.drain_commands();
    let pumped = drained.pump_each(order);
    lemma_marked_balanced(w, buf);
    law_commands_touch_only_what_waits(marked, fd);
    lemma_drain_commands_actions(marked);
    assert(order.to_set().contains(fd));
    assert(order.contains(fd));
    lemma_pump_each_at(drained, order, fd);
    if buf is Some {
        lemma_sent_push(w.actions, ActionView::Recycle { buf: buf->Some_0 }, fd);
        lemma_times_push(w.actions, ActionView::Recycle { buf: buf->Some_0 }, close_of(fd));
    }
    assert(sent_on(w.actions, fd) + Seq::<u8>::empty() =~= sent_on(w.actions, fd));
    assert(sent_on(marked.actions, fd) == sent_on(w.actions, fd));
    assert(times(marked.actions, close_of(fd)) == times(w.actions, close_of(fd)));
    let last = wake_of(w.server.wake);
    lemma_sent_push(pumped.actions, last, fd);
    lemma_times_push(pumped.actions, last, close_of(fd));
    let all = conn.out + frames_for(w.bridge.queue, conn.id, conn.ignoring);
    assert(drained.server.conns[fd].out == all);
    assert(sent_on(pumped.actions, fd) + Seq::<u8>::empty() =~= sent_on(pumped.actions, fd));
    if all.len() == 0 {
        assert(sent_on(w.actions, fd) + all =~= sent_on(w.actions, fd));
    }
    lemma_drain_commands_balanced(marked);
    assert(drained.accounted(drained.server.conns[fd]));
}

/// Whether nothing waits that could go out: bytes wait only behind a write in
/// flight, and so does the end of a connection that is to close.
pub open spec fn prompt(w: World, fd: i32) -> bool {
    w.server.conns.contains_key(fd) ==> {
        let conn = w.server.conns[fd];
        conn.out.len() > 0 || conn.close_when_flushed ==> conn.writing
    }
}

/// Whether the connection on a descriptor is what a session holds, but for what
/// of its bytes is being sent already.
pub open spec fn holds(w: World, fd: i32, s: Session) -> bool {
    let conn = w.server.conns[fd];
    &&& w.server.conns.contains_key(fd)
    &&& conn == (ConnView {
        out: conn.out,
        out_charged: conn.out_charged,
        writing: conn.writing,
        writing_charged: conn.writing_charged,
        ..s.conn
    })
    &&& w.bridge.states[conn.id] == s.state
    &&& w.server.events == s.events
}

/// What a turn that ends right comes to for each descriptor.
proof fn lemma_seen_off(
    before: World,
    fd: i32,
    s: Session,
    asked: Seq<ActionView>,
    again: bool,
    after: World,
    at: i32,
)
    requires
        sees_off(before, fd, s, asked, again, after),
    ensures
        for_peer(after, fd) == sent_on(asked, fd) + s.conn.out,
        sent_on(after.actions, fd) == sent_on(asked, fd) + if !s.conn.writing && s.conn.out.len()
            > 0 {
            s.conn.out
        } else {
            Seq::empty()
        },
        prompt(after, fd),
        after.server.conns.contains_key(fd) ==> holds(after, fd, s),
        !after.server.conns.contains_key(fd) ==> s.conn.close_when_flushed,
        s.events.is_prefix_of(after.server.events),
        at != fd ==> {
            &&& after.server.conns.contains_key(at) == before.server.conns.contains_key(at)
            &&& before.server.conns.contains_key(at) ==> after.server.conns[at]
                == before.server.conns[at]
            &&& sent_on(after.actions, at) == sent_on(asked, at)
        },
        forall|action: ActionView|
            action matches ActionView::Submit { op, .. } && (op is ReadPooled || op is Accept)
                ==> #[trigger] times(after.actions, action) == times(asked, action) + if action
                == read_of(fd) && again && !s.conn.close_when_flushed {
                1int
            } else {
                0
            },
{
    let conn = s.conn;
    let none = Seq::<u8>::empty();
    assert(asked + Seq::<ActionView>::empty() =~= asked);
    assert(asked + seq![read_of(fd)] =~= asked.push(read_of(fd)));
    let write = write_of(fd, conn.out);
    assert(asked + seq![write] + Seq::<ActionView>::empty() =~= asked.push(write));
    assert(asked + seq![write] + seq![read_of(fd)] =~= asked.push(write).push(read_of(fd)));
    assert(asked + seq![close_of(fd)] =~= asked.push(close_of(fd)));
    lemma_sent_push(asked, read_of(fd), fd);
    lemma_sent_push(asked, write, fd);
    lemma_sent_push(asked, close_of(fd), fd);
    lemma_sent_push(asked.push(write), read_of(fd), fd);
    lemma_sent_push(asked, read_of(fd), at);
    lemma_sent_push(asked, write, at);
    lemma_sent_push(asked, close_of(fd), at);
    lemma_sent_push(asked.push(write), read_of(fd), at);
    assert(sent_on(asked, fd) + none =~= sent_on(asked, fd));
    assert(sent_on(asked, at) + none =~= sent_on(asked, at));
    assert(sent_on(asked, fd) + conn.out + none =~= sent_on(asked, fd) + conn.out);
    if at != fd {
        let b = before.server.conns.remove(fd);
        let a = after.server.conns.remove(fd);
        assert(a.contains_key(at) == after.server.conns.contains_key(at));
        assert(b.contains_key(at) == before.server.conns.contains_key(at));
        assert(a[at] == after.server.conns[at] || !a.contains_key(at));
        assert(b[at] == before.server.conns[at] || !b.contains_key(at));
    }
    assert forall|action: ActionView|
        action matches ActionView::Submit { op, .. } && (op is ReadPooled
            || op is Accept) implies #[trigger] times(after.actions, action) == times(asked, action)
        + if action == read_of(fd) && again && !s.conn.close_when_flushed {
        1int
    } else {
        0
    } by {
        lemma_times_push(asked, read_of(fd), action);
        lemma_times_push(asked, write, action);
        lemma_times_push(asked, close_of(fd), action);
        lemma_times_push(asked.push(write), read_of(fd), action);
    }
}

/// Whether a read goes to the streaming decoder, as it does unless messages are
/// echoed and the fast lane claims it.
pub open spec fn streamed_read(w: World, fd: i32, bytes: Seq<u8>) -> bool {
    w.server.config.native_echo && bytes.len() > 128 ==> w.session(fd).echo_read(
        w.server.config,
        fd,
        bytes,
    ).1 is Unclaimed
}

/// Whether a read of a connection is answered right, whichever way it took: the
/// peer gets what the connection had for it and what the stream has for it, byte
/// for byte; and the connection's state, its budget and the events for Node are
/// those that the stream leaves it in.
pub open spec fn read_is_answered(before: World, fd: i32, bytes: Seq<u8>, after: World) -> bool {
    let streamed = before.session(fd).on_bytes(before.server.config, bytes);
    let conn = after.server.conns[fd];
    &&& for_peer(after, fd) == sent_on(before.actions, fd) + streamed.conn.out
    &&& streamed.events.is_prefix_of(after.server.events)
    &&& if after.server.conns.contains_key(fd) {
        &&& conn == (ConnView {
            decoder: conn.decoder,
            out: conn.out,
            out_charged: conn.out_charged,
            writing: conn.writing,
            writing_charged: conn.writing_charged,
            ..streamed.conn
        })
        &&& streamed_read(before, fd, bytes) ==> conn.decoder == streamed.conn.decoder
        &&& after.bridge.states[conn.id] == streamed.state
        &&& after.server.events == streamed.events
    } else {
        streamed.conn.close_when_flushed
    }
}

/// What a read comes to, given that the fast lane, where it claims the read,
/// answers it as the stream would.
pub proof fn lemma_read_is_answered(w: World, fd: i32, n: i64, bytes: Seq<u8>)
    requires
        w.balanced(),
        w.server.conns.contains_key(fd),
        n > 0,
        w.server.config.native_echo && bytes.len() > 128 ==> ({
            let (s, read) = w.session(fd).echo_read(w.server.config, fd, bytes);
            lanes_agree(w.session(fd), w.server.config, bytes, read, s)
        }),
    ensures
        read_is_answered(w, fd, bytes, w.read(fd, Ok(n), Some(bytes))),
{
    let before = w.session(fd);
    let config = w.server.config;
    let after = w.read(fd, Ok(n), Some(bytes));
    let sent = sent_on(w.actions, fd);
    let back = ActionView::Recycle { buf: bytes };
    lemma_sent_push(w.actions, back, fd);
    assert(sent + Seq::<u8>::empty() =~= sent);
    if streamed_read(w, fd, bytes) {
        let s = before.on_bytes(config, bytes);
        law_read_reaches_the_connection(w, fd, n, bytes);
        lemma_seen_off(w, fd, s, w.actions.push(back), true, after, fd);
    } else {
        let (s, read) = before.echo_read(config, fd, bytes);
        let streamed = before.on_bytes(config, bytes);
        law_read_answered_in_place(w, fd, n, bytes);
        assert(before.conn.can_echo_in_place());
        assert(streamed == before.on_frames(config, bytes));
        match read {
            NativeEchoReadView::Submitted(op) => {
                let write = ActionView::Submit { op, user: tag_of(KIND_WRITE, fd) };
                lemma_sent_push(w.actions, write, fd);
                lemma_seen_off(w, fd, s, w.actions.push(write), true, after, fd);
                assert(sent + op->sent + s.conn.out =~= sent + (op->sent + s.conn.out));
            },
            NativeEchoReadView::Rejected(held) => {
                let held = ActionView::Recycle { buf: held };
                lemma_sent_push(w.actions, held, fd);
                lemma_seen_off(w, fd, s, w.actions.push(held), true, after, fd);
                assert(Seq::<u8>::empty() + s.conn.out =~= s.conn.out);
            },
            _ => {},
        }
    }
}

/// Whether two sessions are the same but for the write in flight and for `sent`,
/// which the first has in front of what the second has to send.
pub open spec fn twins(a: Session, b: Session, sent: Seq<u8>) -> bool {
    &&& a.state == b.state
    &&& a.events == b.events
    &&& a.conn.out == sent + b.conn.out
    &&& b.conn == (ConnView {
        out: b.conn.out,
        out_charged: b.conn.out_charged,
        writing: b.conn.writing,
        writing_charged: b.conn.writing_charged,
        ..a.conn
    })
}

proof fn lemma_event_twins(
    a: Session,
    b: Session,
    config: Config,
    event: EventView,
    sent: Seq<u8>,
)
    requires
        twins(a, b, sent),
    ensures
        twins(a.on_event(config, event).0, b.on_event(config, event).0, sent),
        a.on_event(config, event).1 == b.on_event(config, event).1,
        a.on_event(config, event).0.conn.decoder == a.conn.decoder,
{
    assert forall|tail: Seq<u8>| #[trigger]
        (sent + b.conn.out + tail) == sent + (b.conn.out + tail) by {
        assert(sent + b.conn.out + tail =~= sent + (b.conn.out + tail));
    }
}

proof fn lemma_drain_twins(a: Session, b: Session, config: Config, sent: Seq<u8>)
    requires
        twins(a, b, sent),
    ensures
        twins(a.drain(config), b.drain(config), sent),
    decreases a.conn.decoder.fed.len() - a.conn.decoder.pulled,
{
    let decoder = a.conn.decoder;
    match decoder.next() {
        Ok(Some(event)) => {
            if decoder.pulled < decoder.fed.len() {
                let a1 = a.decoding(decoder.pull());
                let b1 = b.decoding(decoder.pull());
                lemma_event_twins(a1, b1, config, event, sent);
                if !a1.on_event(config, event).1 {
                    lemma_drain_twins(
                        a1.on_event(config, event).0,
                        b1.on_event(config, event).0,
                        config,
                        sent,
                    );
                }
            }
        },
        Ok(None) => {},
        Err(e) => {
            let frame = close_frame(error_close_code(e));
            assert(sent + b.conn.out + frame =~= sent + (b.conn.out + frame));
        },
    }
}

/// What the peer sends is answered the same whether or not what was there before
/// is being sent already: the answer goes behind it.
pub proof fn law_sending_does_not_matter_to_the_stream(
    a: Session,
    b: Session,
    config: Config,
    sent: Seq<u8>,
    bytes: Seq<u8>,
)
    requires
        twins(a, b, sent),
    ensures
        twins(a.on_bytes(config, bytes), b.on_bytes(config, bytes), sent),
{
    if !a.conn.ignoring {
        match a.conn.request {
            None => {
                lemma_drain_twins(a.fed(bytes), b.fed(bytes), config, sent);
            },
            Some(so_far) => {
                let request = so_far + bytes;
                let no = bad_request();
                assert(sent + b.conn.out + no =~= sent + (b.conn.out + no));
                match upgrade_answer(request) {
                    Ok(Some((response, consumed))) => {
                        assert(sent + b.conn.out + response =~= sent + (b.conn.out + response));
                        let rest = request.skip(consumed);
                        lemma_drain_twins(
                            a.upgraded(response).fed(rest),
                            b.upgraded(response).fed(rest),
                            config,
                            sent,
                        );
                    },
                    _ => {},
                }
            },
        }
    }
}

/// Whether two sessions, with what was sent on their descriptor so far, come to
/// the same: to the peer, to Node and to the budget.
pub open spec fn comes_to_the_same(
    a_sent: Seq<u8>,
    a: Session,
    b_sent: Seq<u8>,
    b: Session,
) -> bool {
    &&& a_sent + a.conn.out == b_sent + b.conn.out
    &&& a.events == b.events
    &&& a.state == b.state
    &&& a.conn.ignoring == b.conn.ignoring
    &&& a.conn.request == b.conn.request
    &&& a.conn.opened == b.conn.opened
    &&& !a.conn.ignoring ==> a.conn.decoder == b.conn.decoder
}

/// Whether a read is one part of the stream and no more: where the connection
/// stays, whatever comes next comes to what it would have come to in the same
/// read. The peer gets the same bytes, Node the same events, and the same is
/// charged, however the stream was cut.
pub open spec fn stream_goes_on(before: World, fd: i32, bytes: Seq<u8>, after: World) -> bool {
    after.server.conns.contains_key(fd) ==> forall|more: Seq<u8>|
        comes_to_the_same(
            sent_on(before.actions, fd),
            #[trigger] before.session(fd).on_bytes(before.server.config, bytes + more),
            sent_on(after.actions, fd),
            after.session(fd).on_bytes(before.server.config, more),
        )
}

/// A read that the streaming decoder takes is one part of the stream, given that
/// the decoder sees it so.
pub proof fn lemma_stream_goes_on(w: World, fd: i32, n: i64, bytes: Seq<u8>)
    requires
        w.balanced(),
        w.server.conns.contains_key(fd),
        n > 0,
        streamed_read(w, fd, bytes),
        forall|more: Seq<u8>|
            alike(
                #[trigger] w.session(fd).on_bytes(w.server.config, bytes + more),
                w.session(fd).on_bytes(w.server.config, bytes).on_bytes(w.server.config, more),
            ),
    ensures
        stream_goes_on(w, fd, bytes, w.read(fd, Ok(n), Some(bytes))),
{
    let config = w.server.config;
    let after = w.read(fd, Ok(n), Some(bytes));
    let s = w.session(fd).on_bytes(config, bytes);
    let back = ActionView::Recycle { buf: bytes };
    let asked = w.actions.push(back);
    let none = Seq::<u8>::empty();
    law_read_reaches_the_connection(w, fd, n, bytes);
    lemma_seen_off(w, fd, s, asked, true, after, fd);
    lemma_sent_push(w.actions, back, fd);
    let sent = sent_on(w.actions, fd);
    assert(sent + none =~= sent);
    if after.server.conns.contains_key(fd) {
        let now = after.session(fd);
        let gone = if !s.conn.writing && s.conn.out.len() > 0 {
            s.conn.out
        } else {
            none
        };
        assert(s.conn.out =~= gone + now.conn.out) by {
            assert(none + s.conn.out =~= s.conn.out);
            assert(s.conn.out + none =~= s.conn.out);
        }
        assert(twins(s, now, gone));
        assert forall|more: Seq<u8>|
            comes_to_the_same(
                sent,
                #[trigger] w.session(fd).on_bytes(config, bytes + more),
                sent + gone,
                now.on_bytes(config, more),
            ) by {
            let then = now.on_bytes(config, more);
            law_sending_does_not_matter_to_the_stream(s, now, config, gone, more);
            assert(sent + (gone + then.conn.out) =~= sent + gone + then.conn.out);
        }
    }
}

/// Whether a finished read did what it is for: where bytes came for a connection
/// that is there, they are answered right, and they are one part of its stream.
pub open spec fn read_does_right(
    before: World,
    fd: i32,
    result: Result<i64, Option<i32>>,
    buf: Option<Seq<u8>>,
    after: World,
) -> bool {
    before.server.conns.contains_key(fd) && result is Ok && result->Ok_0 > 0 && buf is Some ==> {
        let bytes = buf->Some_0;
        &&& before.server.config.native_echo ==> batch_fits(before.session(fd), bytes)
            ==> read_is_answered(before, fd, bytes, after)
        &&& streamed_read(before, fd, bytes) ==> {
            &&& read_is_answered(before, fd, bytes, after)
            &&& stream_goes_on(before, fd, bytes, after)
        }
    }
}

/// Whether a turn left a descriptor alone: the connection there is as it was, and
/// nothing is sent on it.
pub open spec fn left_alone(before: World, after: World, fd: i32) -> bool {
    &&& after.server.conns.contains_key(fd) == before.server.conns.contains_key(fd)
    &&& before.server.conns.contains_key(fd) ==> after.server.conns[fd]
        == before.server.conns[fd]
    &&& sent_on(after.actions, fd) == sent_on(before.actions, fd)
}

/// A read of one connection leaves every other alone, and asks for no other read.
proof fn lemma_read_elsewhere(
    w: World,
    at: i32,
    result: Result<i64, Option<i32>>,
    buf: Option<Seq<u8>>,
    fd: i32,
)
    requires
        w.balanced(),
    ensures
        at != fd ==> left_alone(w, w.read(at, result, buf), fd),
        forall|action: ActionView|
            action matches ActionView::Submit { op, .. } && (op is ReadPooled || op is Accept)
                && action != read_of(at) ==> #[trigger] times(
                w.read(at, result, buf).actions,
                action,
            ) == times(w.actions, action),
        prompt(w, at) ==> prompt(w.read(at, result, buf), at),
        ({
            let after = w.read(at, result, buf);
            let again = times(after.actions, read_of(at)) - times(w.actions, read_of(at));
            let came = result is Ok && result->Ok_0 > 0 && buf is Some;
            let stays = after.server.conns.contains_key(at)
                && !after.server.conns[at].close_when_flushed;
            &&& again == if came && stays {
                1int
            } else {
                0
            }
            &&& !came && stays ==> result == Err::<i64, Option<i32>>(
                Some(w.server.errnos.canceled),
            )
        }),
{
    let after = w.read(at, result, buf);
    let config = w.server.config;
    let none = Seq::<u8>::empty();
    assert(sent_on(w.actions, fd) + none =~= sent_on(w.actions, fd));
    if result is Ok && result->Ok_0 > 0 && buf is Some && w.server.conns.contains_key(at) {
        let n = result->Ok_0;
        let bytes = buf->Some_0;
        lemma_session_wf(w, at);
        let (asked, s) = if streamed_read(w, at, bytes) {
            law_read_reaches_the_connection(w, at, n, bytes);
            lemma_on_bytes_follows(w.session(at), config, bytes);
            (ActionView::Recycle { buf: bytes }, w.session(at).on_bytes(config, bytes))
        } else {
            law_read_answered_in_place(w, at, n, bytes);
            lemma_echo_read_keeps(w.session(at), config, at, bytes);
            let (s, read) = w.session(at).echo_read(config, at, bytes);
            match read {
                NativeEchoReadView::Submitted(op) => {
                    assert(op is Write && op->Write_fd == at);
                    (ActionView::Submit { op, user: tag_of(KIND_WRITE, at) }, s)
                },
                NativeEchoReadView::Rejected(held) => (ActionView::Recycle { buf: held }, s),
                _ => (ActionView::Recycle { buf: bytes }, s),
            }
        };
        let so_far = w.actions.push(asked);
        lemma_seen_off(w, at, s, so_far, true, after, fd);
        lemma_sent_push(w.actions, asked, fd);
        assert(at != fd ==> sends(asked, fd) == none);
        assert forall|action: ActionView|
            action matches ActionView::Submit { op, .. } && (op is ReadPooled
                || op is Accept) implies #[trigger] times(so_far, action) == times(
            w.actions,
            action,
        ) by {
            lemma_times_push(w.actions, asked, action);
        }
        assert(times(after.actions, read_of(at)) == times(so_far, read_of(at)) + if
            !s.conn.close_when_flushed {
            1int
        } else {
            0
        });
    } else {
        law_read_of_nothing_ends_the_connection(w, at, result, buf);
        let asked = match buf {
            Some(buf) => w.actions.push(ActionView::Recycle { buf }),
            None => w.actions,
        };
        if buf is Some {
            lemma_sent_push(w.actions, ActionView::Recycle { buf: buf->Some_0 }, fd);
        }
        lemma_sent_push(asked, close_of(at), fd);
        assert(sent_on(asked, fd) + none =~= sent_on(asked, fd));
        assert forall|action: ActionView|
            action matches ActionView::Submit { op, .. } && (op is ReadPooled
                || op is Accept) implies #[trigger] times(after.actions, action) == times(
            w.actions,
            action,
        ) by {
            if buf is Some {
                lemma_times_push(w.actions, ActionView::Recycle { buf: buf->Some_0 }, action);
            }
            lemma_times_push(asked, close_of(at), action);
        }
        assert(times(after.actions, read_of(at)) == times(w.actions, read_of(at)));
        if w.server.conns.contains_key(at) && at != fd {
            let b = w.server.conns.remove(at);
            let a = after.server.conns.remove(at);
            assert(a.contains_key(fd) == after.server.conns.contains_key(fd));
            assert(b.contains_key(fd) == w.server.conns.contains_key(fd));
            assert(a[fd] == after.server.conns[fd] || !a.contains_key(fd));
            assert(b[fd] == w.server.conns[fd] || !b.contains_key(fd));
        }
    }
}

/// A finished write leaves every other connection alone and asks for no read; what
/// its own connection has to send goes on where it was, unless the write failed.
proof fn lemma_wrote_elsewhere(
    w: World,
    at: i32,
    failed: bool,
    buf: Option<Seq<u8>>,
    fd: i32,
)
    requires
        w.balanced(),
    ensures
        at != fd ==> left_alone(w, w.wrote(at, failed, buf), fd),
        asks_alike(w.actions, w.wrote(at, failed, buf).actions),
        prompt(w.wrote(at, failed, buf), at),
        !failed && w.server.conns.contains_key(at) ==> for_peer(w.wrote(at, failed, buf), at)
            == for_peer(w, at),
        ({
            let after = w.wrote(at, failed, buf);
            after.server.conns.contains_key(at) ==> w.server.conns.contains_key(at)
                && after.server.conns[at].close_when_flushed
                == w.server.conns[at].close_when_flushed
        }),
{
    let after = w.wrote(at, failed, buf);
    let none = Seq::<u8>::empty();
    let asked = match buf {
        Some(buf) => w.actions.push(ActionView::Recycle { buf }),
        None => w.actions,
    };
    law_finished_write_lets_the_next_go(w, at, failed, buf);
    if buf is Some {
        let back = ActionView::Recycle { buf: buf->Some_0 };
        lemma_sent_push(w.actions, back, fd);
        lemma_sent_push(w.actions, back, at);
        lemma_asks_push(w.actions, w.actions, back);
    }
    assert(sent_on(w.actions, fd) + none =~= sent_on(w.actions, fd));
    assert(sent_on(w.actions, at) + none =~= sent_on(w.actions, at));
    assert(asks_alike(w.actions, asked));
    if w.server.conns.contains_key(at) {
        let conn = w.server.conns[at];
        let state = w.bridge.states[conn.id];
        if failed {
            lemma_sent_push(asked, close_of(at), fd);
            lemma_asks_push(w.actions, asked, close_of(at));
            assert(sent_on(asked, fd) + none =~= sent_on(asked, fd));
            if at != fd {
                let b = w.server.conns.remove(at);
                let a = after.server.conns.remove(at);
                assert(a.contains_key(fd) == after.server.conns.contains_key(fd));
                assert(b.contains_key(fd) == w.server.conns.contains_key(fd));
                assert(a[fd] == after.server.conns[fd] || !a.contains_key(fd));
                assert(b[fd] == w.server.conns[fd] || !b.contains_key(fd));
            }
        } else {
            let settled = Session {
                conn: ConnView { writing: false, writing_charged: 0, ..conn },
                state: ConnectionState {
                    pending: (state.pending - conn.writing_charged) as usize,
                    live: true,
                },
                events: w.server.events,
            };
            lemma_seen_off(w, at, settled, asked, false, after, fd);
        }
    }
}

/// A wake asks for one more read, of the wake pipe.
proof fn lemma_woken_asks(w: World, buf: Option<Seq<u8>>, order: Seq<i32>, action: ActionView)
    requires
        w.balanced(),
        w.pump_order(order),
        action matches ActionView::Submit { op, .. } && (op is ReadPooled || op is Accept),
    ensures
        times(w.woken(buf, order).actions, action) == times(w.actions, action) + if action
            == wake_of(w.server.wake) {
            1int
        } else {
            0
        },
{
    let marked = w.marked(buf);
    let drained = marked.drain_commands();
    if buf is Some {
        lemma_asks_push(w.actions, w.actions, ActionView::Recycle { buf: buf->Some_0 });
    }
    assert(asks_alike(w.actions, marked.actions));
    lemma_drain_commands_actions(marked);
    lemma_pump_each_at(drained, order, 0);
    assert(times(drained.pump_each(order).actions, action) == times(drained.actions, action));
    assert(times(marked.actions, action) == times(w.actions, action));
    lemma_times_push(drained.pump_each(order).actions, wake_of(w.server.wake), action);
}

/// Whether a finished operation is the read of a descriptor.
pub open spec fn finishes_read(completion: Completion, fd: i32) -> bool {
    completion.user == tag_of(KIND_READ, fd)
}

/// Whether a finished operation is a connection that was taken on a descriptor.
pub open spec fn takes_on(completion: Completion, fd: i32) -> bool {
    &&& completion.user / 0x1_0000_0000 == KIND_ACCEPT
    &&& completion.result is Ok && completion.result->Ok_0 as i32 == fd
}

proof fn lemma_tag_of_user(user: u64, kind: u64)
    requires
        user / 0x1_0000_0000 == kind,
    ensures
        user == tag_of(kind, fd_of(user)),
{
}

/// Whatever operation finishes, no byte for a peer is lost, none is sent twice and
/// none overtakes another: what is sent on its descriptor and what then waits is,
/// together, what waited, and behind it what JavaScript had queued for it, if it
/// was the wake. This speaks of every turn but three: a read of the connection
/// itself, of which more is said elsewhere, a write that failed, and a connection
/// that is taken on the descriptor.
pub proof fn law_no_byte_is_lost(
    before: World,
    id: u64,
    completion: Completion,
    after: World,
    next: u64,
    fd: i32,
)
    requires
        before.balanced(),
        before.known(id),
        completed(before, id, completion, after, next),
        before.server.conns.contains_key(fd),
        !finishes_read(completion, fd),
        !takes_on(completion, fd),
        completion.user == tag_of(KIND_WRITE, fd) ==> completion.result is Ok,
    ensures
        for_peer(after, fd) == for_peer(before, fd) + if completion.user / 0x1_0000_0000
            == KIND_WAKE {
            frames_for(
                before.bridge.queue,
                before.server.conns[fd].id,
                before.server.conns[fd].ignoring,
            )
        } else {
            Seq::empty()
        },
{
    let kind = completion.user / 0x1_0000_0000;
    let at = fd_of(completion.user);
    let buf = buffer_view(completion.buf);
    let conn = before.server.conns[fd];
    let none = Seq::<u8>::empty();
    let sent = sent_on(before.actions, fd);
    assert(sent + none =~= sent);
    assert(for_peer(before, fd) + none =~= for_peer(before, fd));
    lemma_tag_of_user(completion.user, kind);
    if kind == KIND_ACCEPT {
        let asked = accept_of(before.server.listener);
        lemma_sent_push(before.actions, asked, fd);
        match completion.result {
            Ok(accepted) => {
                let on = accepted as i32;
                law_accepted_connection_is_read(before, on, id);
                let first = before.actions.push(asked);
                assert(before.actions + seq![asked, read_of(on)] =~= first.push(read_of(on)));
                lemma_sent_push(first, read_of(on), fd);
                assert(after.server.conns.remove(on)[fd] == conn);
                assert(after.server.conns.remove(on).contains_key(fd));
            },
            Err(_) => {},
        }
    } else if kind == KIND_WAKE {
        let order = choose|order: Seq<i32>|
            before.pump_order(order) && after == #[trigger] before.woken(buf, order);
        law_wake_serves_every_connection(before, buf, order, fd);
        let all = conn.out + frames_for(before.bridge.queue, conn.id, conn.ignoring);
        assert(sent + all =~= for_peer(before, fd) + frames_for(
            before.bridge.queue,
            conn.id,
            conn.ignoring,
        ));
        assert(sent + all + waiting(after, fd) =~= sent + (all + waiting(after, fd)));
        if waiting(after, fd).len() == 0 {
            assert(sent + all + waiting(after, fd) =~= sent + all);
            assert(sent + waiting(after, fd) =~= sent);
        }
        if all.len() == 0 {
            assert(sent + all =~= sent);
        }
    } else if kind == KIND_READ {
        lemma_read_elsewhere(before, at, completion.result, buf, fd);
    } else if kind == KIND_WRITE {
        lemma_wrote_elsewhere(before, at, completion.result is Err, buf, fd);
    }
}

/// Whatever operation finishes, nothing waits that could go out, on any
/// descriptor, where that held before.
pub proof fn law_nothing_waits_that_could_go_out(
    before: World,
    id: u64,
    completion: Completion,
    after: World,
    next: u64,
    fd: i32,
)
    requires
        before.balanced(),
        before.known(id),
        completed(before, id, completion, after, next),
        prompt(before, fd),
    ensures
        prompt(after, fd),
{
    let kind = completion.user / 0x1_0000_0000;
    let at = fd_of(completion.user);
    let buf = buffer_view(completion.buf);
    if kind == KIND_ACCEPT {
        match completion.result {
            Ok(accepted) => {
                let on = accepted as i32;
                law_accepted_connection_is_read(before, on, id);
                if fd != on {
                    let b = before.server.conns.remove(on);
                    let a = after.server.conns.remove(on);
                    assert(a.contains_key(fd) == after.server.conns.contains_key(fd));
                    assert(b.contains_key(fd) == before.server.conns.contains_key(fd));
                    assert(a.contains_key(fd) ==> a[fd] == after.server.conns[fd]);
                    assert(b.contains_key(fd) ==> b[fd] == before.server.conns[fd]);
                }
            },
            Err(_) => {},
        }
    } else if kind == KIND_WAKE {
        let order = choose|order: Seq<i32>|
            before.pump_order(order) && after == #[trigger] before.woken(buf, order);
        if before.server.conns.contains_key(fd) {
            law_wake_serves_every_connection(before, buf, order, fd);
        } else {
            lemma_woken_stays_gone(before, buf, order, fd);
        }
    } else if kind == KIND_READ {
        lemma_read_elsewhere(before, at, completion.result, buf, fd);
    } else if kind == KIND_WRITE {
        lemma_wrote_elsewhere(before, at, completion.result is Err, buf, fd);
    }
}

proof fn lemma_woken_stays_gone(w: World, buf: Option<Seq<u8>>, order: Seq<i32>, fd: i32)
    requires
        w.balanced(),
        w.pump_order(order),
        !w.server.conns.contains_key(fd),
    ensures
        !w.woken(buf, order).server.conns.contains_key(fd),
{
    let marked = w.marked(buf);
    let drained = marked.drain_commands();
    lemma_marked_balanced(w, buf);
    lemma_drain_commands_conns(marked);
    assert(!drained.server.conns.dom().contains(fd));
    lemma_pump_each_at(drained, order, fd);
}

/// Whether a descriptor has as many reads in flight, `n`, as it is to have: one
/// where a connection is there and not to close, and never two.
pub open spec fn armed(w: World, fd: i32, n: int) -> bool {
    &&& 0 <= n <= 1
    &&& w.server.conns.contains_key(fd) && !w.server.conns[fd].close_when_flushed ==> n == 1
}

/// Whatever operation finishes, every connection that is there and not to close
/// has exactly one read in flight, and no descriptor ever has two: where `n` reads
/// were in flight on it, that many are, less the one that is done and with those
/// that are asked for. The driver cancels a read only where the descriptor is
/// being closed, and takes a connection only on a descriptor with no read in
/// flight.
pub proof fn law_open_connection_is_being_read(
    before: World,
    id: u64,
    completion: Completion,
    after: World,
    next: u64,
    fd: i32,
    n: int,
)
    requires
        before.balanced(),
        before.known(id),
        before.actions.len() == 0,
        completed(before, id, completion, after, next),
        armed(before, fd, n),
        finishes_read(completion, fd) ==> n == 1,
        finishes_read(completion, fd) && before.server.conns.contains_key(fd)
            ==> completion.result != Err::<i64, Option<i32>>(Some(before.server.errnos.canceled)),
        takes_on(completion, fd) ==> n == 0,
    ensures
        armed(
            after,
            fd,
            n - if finishes_read(completion, fd) {
                1int
            } else {
                0
            } + times(after.actions, read_of(fd)),
        ),
{
    let kind = completion.user / 0x1_0000_0000;
    let at = fd_of(completion.user);
    let buf = buffer_view(completion.buf);
    let read = read_of(fd);
    lemma_tag_of_user(completion.user, kind);
    law_tag_round_trip(KIND_READ, fd);
    assert(times(before.actions, read) == 0);
    if kind == KIND_ACCEPT {
        let asked = accept_of(before.server.listener);
        lemma_times_push(before.actions, asked, read);
        match completion.result {
            Ok(accepted) => {
                let on = accepted as i32;
                law_accepted_connection_is_read(before, on, id);
                let first = before.actions.push(asked);
                assert(before.actions + seq![asked, read_of(on)] =~= first.push(read_of(on)));
                lemma_times_push(first, read_of(on), read);
                if fd != on {
                    let b = before.server.conns.remove(on);
                    let a = after.server.conns.remove(on);
                    assert(a.contains_key(fd) == after.server.conns.contains_key(fd));
                    assert(b.contains_key(fd) == before.server.conns.contains_key(fd));
                    assert(a.contains_key(fd) ==> a[fd] == after.server.conns[fd]);
                    assert(b.contains_key(fd) ==> b[fd] == before.server.conns[fd]);
                }
            },
            Err(_) => {},
        }
    } else if kind == KIND_WAKE {
        let order = choose|order: Seq<i32>|
            before.pump_order(order) && after == #[trigger] before.woken(buf, order);
        lemma_woken_asks(before, buf, order, read);
        law_tag_round_trip(KIND_WAKE, before.server.wake);
        if before.server.conns.contains_key(fd) {
            assert(before.accounted(before.server.conns[fd]));
            law_wake_serves_every_connection(before, buf, order, fd);
        } else {
            lemma_woken_stays_gone(before, buf, order, fd);
        }
    } else if kind == KIND_READ {
        lemma_read_elsewhere(before, at, completion.result, buf, fd);
        if at != fd {
            law_tag_round_trip(KIND_READ, at);
            assert(read != read_of(at));
        } else if !before.server.conns.contains_key(fd) {
            law_read_of_nothing_ends_the_connection(before, fd, completion.result, buf);
        }
    } else if kind == KIND_WRITE {
        lemma_wrote_elsewhere(before, at, completion.result is Err, buf, fd);
        assert(times(after.actions, read) == times(before.actions, read));
    }
}

/// Whatever operation finishes, the listener is asked for the next connection
/// exactly where it was the listener that answered, and the wake pipe is read
/// again exactly where it was the wake pipe that was read: each is being asked
/// once, at any time.
pub proof fn law_listener_and_wake_pipe_are_asked_again(
    before: World,
    id: u64,
    completion: Completion,
    after: World,
    next: u64,
)
    requires
        before.balanced(),
        before.known(id),
        before.actions.len() == 0,
        completed(before, id, completion, after, next),
    ensures
        times(after.actions, accept_of(before.server.listener)) == if completion.user
            / 0x1_0000_0000 == KIND_ACCEPT {
            1int
        } else {
            0
        },
        times(after.actions, wake_of(before.server.wake)) == if completion.user / 0x1_0000_0000
            == KIND_WAKE {
            1int
        } else {
            0
        },
{
    let kind = completion.user / 0x1_0000_0000;
    let at = fd_of(completion.user);
    let buf = buffer_view(completion.buf);
    let accept = accept_of(before.server.listener);
    let wake = wake_of(before.server.wake);
    assert(times(before.actions, accept) == 0 && times(before.actions, wake) == 0);
    law_tag_round_trip(KIND_WAKE, before.server.wake);
    law_tag_round_trip(KIND_READ, at);
    if kind == KIND_ACCEPT {
        lemma_times_push(before.actions, accept, accept);
        lemma_times_push(before.actions, accept, wake);
        match completion.result {
            Ok(accepted) => {
                let on = accepted as i32;
                law_tag_round_trip(KIND_READ, on);
                law_accepted_connection_is_read(before, on, id);
                let first = before.actions.push(accept);
                assert(before.actions + seq![accept, read_of(on)] =~= first.push(read_of(on)));
                lemma_times_push(first, read_of(on), accept);
                lemma_times_push(first, read_of(on), wake);
            },
            Err(_) => {},
        }
    } else if kind == KIND_WAKE {
        let order = choose|order: Seq<i32>|
            before.pump_order(order) && after == #[trigger] before.woken(buf, order);
        lemma_woken_asks(before, buf, order, accept);
        lemma_woken_asks(before, buf, order, wake);
    } else if kind == KIND_READ {
        lemma_read_elsewhere(before, at, completion.result, buf, at);
        assert(accept != read_of(at) && wake != read_of(at));
    } else if kind == KIND_WRITE {
        lemma_wrote_elsewhere(before, at, completion.result is Err, buf, at);
        assert(times(after.actions, accept) == times(before.actions, accept));
        assert(times(after.actions, wake) == times(before.actions, wake));
    }
}

/// Whether a turn so far kept what the server was made with, took back nothing
/// that it had asked of the driver, and left the budget of an id alone that stands
/// for no connection.
pub open spec fn steady(before: World, after: World, id: u64) -> bool {
    &&& after.server.config == before.server.config
    &&& after.server.dispatching == before.server.dispatching
    &&& after.server.listener == before.server.listener
    &&& after.server.wake == before.server.wake
    &&& after.server.errnos == before.server.errnos
    &&& after.bridge.stopped == before.bridge.stopped
    &&& before.actions.is_prefix_of(after.actions)
    &&& !before.server.by_id.contains_key(id) ==> {
        &&& !after.server.by_id.contains_key(id)
        &&& after.bridge.states.contains_key(id) == before.bridge.states.contains_key(id)
        &&& after.bridge.states[id] == before.bridge.states[id]
    }
}

proof fn lemma_drain_steady(w: World, id: u64)
    requires
        w.balanced(),
    ensures
        steady(w, w.drain_commands(), id),
    decreases w.bridge.queue.len(),
{
    if w.bridge.queue.len() > 0 {
        let after = w.unqueued().command(w.bridge.queue.first());
        lemma_command_balanced(w);
        lemma_drain_steady(after, id);
        assert(steady(w, after, id));
    }
}

proof fn lemma_pump_each_steady(w: World, order: Seq<i32>, id: u64)
    requires
        w.balanced(),
    ensures
        steady(w, w.pump_each(order), id),
    decreases order.len(),
{
    if order.len() > 0 {
        let here = w.pump_each(order.drop_last());
        let fd = order.last();
        lemma_pump_each_steady(w, order.drop_last(), id);
        lemma_pump_each_balanced(w, order.drop_last());
        if here.server.conns.contains_key(fd) {
            assert(here.server.by_id.contains_key(here.server.conns[fd].id));
        }
        assert(steady(here, here.pump_or_retire(fd), id));
    }
}

/// A wake hands its buffer back first, if there is one, brings no connection, and
/// changes nothing beyond the connections and what is queued for them: a command
/// for an id that stands for none does nothing, not even to its budget.
pub proof fn law_wake_changes_nothing_else(
    w: World,
    buf: Option<Seq<u8>>,
    order: Seq<i32>,
    fd: i32,
    id: u64,
)
    requires
        w.balanced(),
        w.pump_order(order),
    ensures
        ({
            let after = w.woken(buf, order);
            let asked = match buf {
                Some(buf) => w.actions.push(ActionView::Recycle { buf }),
                None => w.actions,
            };
            &&& steady(World { actions: asked, ..w }, after, id)
            &&& after.server.conns.contains_key(fd) ==> w.server.conns.contains_key(fd)
        }),
{
    let marked = w.marked(buf);
    let drained = marked.drain_commands();
    let pumped = drained.pump_each(order);
    lemma_marked_balanced(w, buf);
    lemma_drain_commands_balanced(marked);
    lemma_drain_steady(marked, id);
    lemma_pump_each_steady(drained, order, id);
    if !w.server.conns.contains_key(fd) {
        lemma_woken_stays_gone(w, buf, order, fd);
    }
}

/// A read that brings bytes only adds to what is for the peer: nothing that was
/// sent or that waited is lost or overtaken.
pub proof fn law_read_adds_to_what_waits(w: World, fd: i32, n: i64, bytes: Seq<u8>)
    requires
        w.balanced(),
        w.server.conns.contains_key(fd),
        n > 0,
    ensures
        for_peer(w, fd).is_prefix_of(for_peer(w.read(fd, Ok(n), Some(bytes)), fd)),
{
    let config = w.server.config;
    let after = w.read(fd, Ok(n), Some(bytes));
    let sent = sent_on(w.actions, fd);
    let none = Seq::<u8>::empty();
    lemma_session_wf(w, fd);
    assert(sent + none =~= sent);
    if streamed_read(w, fd, bytes) {
        let back = ActionView::Recycle { buf: bytes };
        let s = w.session(fd).on_bytes(config, bytes);
        law_read_reaches_the_connection(w, fd, n, bytes);
        lemma_on_bytes_follows(w.session(fd), config, bytes);
        lemma_sent_push(w.actions, back, fd);
        lemma_seen_off(w, fd, s, w.actions.push(back), true, after, fd);
    } else {
        let (s, read) = w.session(fd).echo_read(config, fd, bytes);
        law_read_answered_in_place(w, fd, n, bytes);
        let asked = match read {
            NativeEchoReadView::Submitted(op) => ActionView::Submit {
                op,
                user: tag_of(KIND_WRITE, fd),
            },
            NativeEchoReadView::Rejected(held) => ActionView::Recycle { buf: held },
            _ => ActionView::Recycle { buf: bytes },
        };
        lemma_sent_push(w.actions, asked, fd);
        lemma_seen_off(w, fd, s, w.actions.push(asked), true, after, fd);
        assert(w.server.conns[fd].out.len() == 0);
        assert(for_peer(w, fd) =~= sent);
        assert(sent + sends(asked, fd) + s.conn.out =~= sent + (sends(asked, fd) + s.conn.out));
    }
}

} // verus!
