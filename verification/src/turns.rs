//! What one turn of the reactor comes to: every action it asks of the driver,
//! and everything that it changes.

use crate::bridge::{message_charge, CmdView, ConnectionState};
use crate::codec::EventView;
use crate::conn::{
    lemma_echo_read_keeps, lemma_on_bytes_follows, ConnView, NativeEchoReadView, Session,
};
use crate::messages::{buffer_view, ActionView, Completion, JsEventView, OpView};
use crate::routing::{
    law_tag_round_trip, tag_of, KIND_ACCEPT, KIND_CLOSE, KIND_READ, KIND_WAKE, KIND_WRITE,
};
use crate::server::{
    completed, fatal, lemma_put_balanced, lemma_read_bytes_balanced, lemma_session_wf, World,
};
use crate::steps::{
    framed, law_close_is_answered, law_message_goes_out_whole, told_to_go, with_frame,
};
use vstd::prelude::*;
use vstd::utf8::valid_utf8;

verus! {

/// Whether a turn changed nothing but what belongs to one connection: no other
/// connection, id or budget, nothing in the queue, and nothing that the server
/// was made with.
pub open spec fn only_changes(before: World, after: World, fd: i32, id: u64) -> bool {
    &&& after.server.conns.remove(fd) == before.server.conns.remove(fd)
    &&& after.server.by_id.remove(id) == before.server.by_id.remove(id)
    &&& after.bridge.states.remove(id) == before.bridge.states.remove(id)
    &&& after.bridge.queue == before.bridge.queue
    &&& after.bridge.wake_pending == before.bridge.wake_pending
    &&& after.bridge.stopped == before.bridge.stopped
    &&& after.server.config == before.server.config
    &&& after.server.dispatching == before.server.dispatching
    &&& after.server.listener == before.server.listener
    &&& after.server.wake == before.server.wake
    &&& after.server.errnos == before.server.errnos
}

/// Whether a connection is there, under its id, in this state.
pub open spec fn stands(w: World, fd: i32, s: Session) -> bool {
    &&& w.server.conns.contains_key(fd)
    &&& w.server.conns[fd] == s.conn
    &&& w.server.by_id.contains_key(s.conn.id)
    &&& w.server.by_id[s.conn.id] == fd
    &&& w.bridge.states.contains_key(s.conn.id)
    &&& w.bridge.states[s.conn.id] == s.state
    &&& w.server.events == s.events
}

/// Whether a connection that was in this state is gone: Node is told with this
/// code if it knew of the connection, and then its budget stays, closed.
pub open spec fn left(w: World, fd: i32, s: Session, code: u16) -> bool {
    &&& !w.server.conns.contains_key(fd)
    &&& !w.server.by_id.contains_key(s.conn.id)
    &&& if s.conn.opened {
        &&& w.bridge.states.contains_key(s.conn.id)
        &&& w.bridge.states[s.conn.id].pending == s.state.pending
        &&& !w.bridge.states[s.conn.id].live
        &&& w.server.events == s.events.push(JsEventView::Close { id: s.conn.id, code })
    } else {
        &&& !w.bridge.states.contains_key(s.conn.id)
        &&& w.server.events == s.events
    }
}

/// The read of a connection.
pub open spec fn read_of(fd: i32) -> ActionView {
    ActionView::Submit { op: OpView::ReadPooled { fd }, user: tag_of(KIND_READ, fd) }
}

/// The write of these bytes on a connection.
pub open spec fn write_of(fd: i32, sent: Seq<u8>) -> ActionView {
    ActionView::Submit {
        op: OpView::Write { fd, lead: Seq::empty(), sent },
        user: tag_of(KIND_WRITE, fd),
    }
}

/// The close of a connection.
pub open spec fn close_of(fd: i32) -> ActionView {
    ActionView::Submit { op: OpView::Close { fd }, user: tag_of(KIND_CLOSE, fd) }
}

/// The listener's next connection.
pub open spec fn accept_of(listener: i32) -> ActionView {
    ActionView::Submit {
        op: OpView::Accept { fd: listener },
        user: tag_of(KIND_ACCEPT, listener),
    }
}

/// The read of the wake pipe.
pub open spec fn wake_of(wake: i32) -> ActionView {
    ActionView::Submit { op: OpView::ReadPooled { fd: wake }, user: tag_of(KIND_WAKE, wake) }
}

/// Whether a turn ends right for a connection that came to the state `s` in it,
/// with `asked` asked of the driver so far. Everything that waits goes out in one
/// write, unless one is in flight; a connection that is to close, with nothing
/// left to send, is closed and goes with code 1000; and one that was read,
/// `again`, is read again unless it is to close.
pub open spec fn sees_off(
    before: World,
    fd: i32,
    s: Session,
    asked: Seq<ActionView>,
    again: bool,
    after: World,
) -> bool {
    let conn = s.conn;
    let read = if again && !conn.close_when_flushed {
        seq![read_of(fd)]
    } else {
        Seq::empty()
    };
    &&& only_changes(before, after, fd, conn.id)
    &&& if !conn.writing && conn.out.len() > 0 {
        let sending = ConnView {
            out: Seq::empty(),
            out_charged: 0,
            writing: true,
            writing_charged: conn.out_charged,
            ..conn
        };
        &&& stands(after, fd, Session { conn: sending, ..s })
        &&& after.actions == asked + seq![write_of(fd, conn.out)] + read
    } else if !conn.writing && conn.close_when_flushed {
        &&& left(after, fd, s, 1000)
        &&& after.actions == asked + seq![close_of(fd)]
    } else {
        &&& stands(after, fd, s)
        &&& after.actions == asked + read
    }
}

proof fn lemma_sees_off(
    before: World,
    fd: i32,
    s: Session,
    taken: World,
    asked: Seq<ActionView>,
)
    requires
        before.balanced(),
        taken.balanced(),
        only_changes(before, taken, fd, s.conn.id),
        stands(taken, fd, s),
        taken.actions == asked,
    ensures
        sees_off(before, fd, s, asked, false, taken.pump_or_retire(fd)),
        ({
            let more = !taken.server.conns[fd].close_when_flushed;
            let (pumped, gone) = taken.pump(fd);
            let after = if gone {
                pumped.retire(fd, 1000)
            } else if more {
                pumped.submit(OpView::ReadPooled { fd }, KIND_READ, fd)
            } else {
                pumped
            };
            sees_off(before, fd, s, asked, true, after)
        }),
{
    let conn = s.conn;
    let id = conn.id;
    assert(taken.session(fd) == s);
    let (pumped, gone) = taken.pump(fd);
    let once = taken.pump_or_retire(fd);
    let more = !conn.close_when_flushed;
    let after = if gone {
        pumped.retire(fd, 1000)
    } else if more {
        pumped.submit(OpView::ReadPooled { fd }, KIND_READ, fd)
    } else {
        pumped
    };
    assert(once.server.conns.remove(fd) =~= taken.server.conns.remove(fd));
    assert(once.server.by_id.remove(id) =~= taken.server.by_id.remove(id));
    assert(once.bridge.states.remove(id) =~= taken.bridge.states.remove(id));
    assert(after.server.conns.remove(fd) =~= taken.server.conns.remove(fd));
    assert(after.server.by_id.remove(id) =~= taken.server.by_id.remove(id));
    assert(after.bridge.states.remove(id) =~= taken.bridge.states.remove(id));
    assert(asked + Seq::<ActionView>::empty() =~= asked);
    assert(asked + seq![read_of(fd)] =~= asked.push(read_of(fd)));
    if !conn.writing && conn.out.len() > 0 {
        let write = write_of(fd, conn.out);
        assert(asked + seq![write] + Seq::<ActionView>::empty() =~= asked.push(write));
        assert(asked + seq![write] + seq![read_of(fd)] =~= asked.push(write).push(read_of(fd)));
        assert(once.actions =~= asked.push(write));
    } else if !conn.writing && conn.close_when_flushed {
        assert(asked + seq![close_of(fd)] =~= asked.push(close_of(fd)));
        assert(pumped.server.conns[fd] == conn);
        assert(pumped.bridge.states[id] == s.state);
    } else {
        assert(taken.server.conns[fd].pump().0 == conn);
    }
}

proof fn lemma_put_stands(w: World, fd: i32, s: Session)
    requires
        w.balanced(),
        w.server.conns.contains_key(fd),
        w.server.conns[fd].id == s.conn.id,
    ensures
        only_changes(w, w.put(fd, s), fd, s.conn.id),
        stands(w.put(fd, s), fd, s),
{
    let after = w.put(fd, s);
    assert(after.server.conns.remove(fd) =~= w.server.conns.remove(fd));
    assert(after.bridge.states.remove(s.conn.id) =~= w.bridge.states.remove(s.conn.id));
}

/// A read that the streaming decoder takes: what came is all that it takes, in
/// whichever way the connection is echoing, and the buffer goes back. The
/// connection, its budget and the events for Node come to what those bytes make
/// of them, everything that this leaves to be sent is, and the connection is read
/// again unless it is to close.
pub proof fn law_read_reaches_the_connection(w: World, fd: i32, n: i64, bytes: Seq<u8>)
    requires
        w.balanced(),
        w.server.conns.contains_key(fd),
        n > 0,
        w.server.config.native_echo && bytes.len() > 128 ==> w.session(fd).echo_read(
            w.server.config,
            fd,
            bytes,
        ).1 is Unclaimed,
    ensures
        stands(
            w.read_bytes(fd, bytes),
            fd,
            w.session(fd).on_bytes(w.server.config, bytes),
        ),
        sees_off(
            w,
            fd,
            w.session(fd).on_bytes(w.server.config, bytes),
            w.actions.push(ActionView::Recycle { buf: bytes }),
            true,
            w.read(fd, Ok(n), Some(bytes)),
        ),
{
    let s = w.session(fd).on_bytes(w.server.config, bytes);
    lemma_session_wf(w, fd);
    lemma_on_bytes_follows(w.session(fd), w.server.config, bytes);
    lemma_put_balanced(w, fd, s);
    lemma_put_stands(w, fd, s);
    let plain = w.put(fd, s);
    let taken = w.read_bytes(fd, bytes);
    lemma_echo_read_keeps(w.session(fd), w.server.config, fd, bytes);
    let (same, _) = w.session(fd).echo_read(w.server.config, fd, bytes);
    if w.server.config.native_echo && bytes.len() > 128 {
        assert(same == w.session(fd));
        assert(w.put(fd, same).server =~= w.server);
        assert(w.put(fd, same).bridge =~= w.bridge);
        assert(w.put(fd, same) =~= w);
    }
    assert(taken == plain.recycle(Some(bytes)));
    assert(taken.server == plain.server && taken.bridge == plain.bridge);
    assert(taken.balanced()) by {
        lemma_read_bytes_balanced(w, fd, bytes);
    }
    lemma_sees_off(w, fd, s, taken, w.actions.push(ActionView::Recycle { buf: bytes }));
}

/// A read that the fast lane answers: the write that it makes of the buffer is
/// submitted, and the connection comes to what the fast lane leaves it in.
pub proof fn law_read_answered_in_place(w: World, fd: i32, n: i64, bytes: Seq<u8>)
    requires
        w.balanced(),
        w.server.conns.contains_key(fd),
        n > 0,
        w.server.config.native_echo,
        bytes.len() > 128,
    ensures
        ({
            let (s, read) = w.session(fd).echo_read(w.server.config, fd, bytes);
            let after = w.read(fd, Ok(n), Some(bytes));
            match read {
                NativeEchoReadView::Unclaimed(left) => left == bytes && s == w.session(fd),
                NativeEchoReadView::Submitted(op) => sees_off(
                    w,
                    fd,
                    s,
                    w.actions.push(ActionView::Submit { op, user: tag_of(KIND_WRITE, fd) }),
                    true,
                    after,
                ),
                NativeEchoReadView::Rejected(held) => sees_off(
                    w,
                    fd,
                    s,
                    w.actions.push(ActionView::Recycle { buf: held }),
                    true,
                    after,
                ),
            }
        }),
{
    let (s, read) = w.session(fd).echo_read(w.server.config, fd, bytes);
    lemma_session_wf(w, fd);
    lemma_echo_read_keeps(w.session(fd), w.server.config, fd, bytes);
    lemma_put_balanced(w, fd, s);
    lemma_put_stands(w, fd, s);
    let tried = w.put(fd, s);
    let taken = w.read_bytes(fd, bytes);
    lemma_read_bytes_balanced(w, fd, bytes);
    match read {
        NativeEchoReadView::Unclaimed(_) => {},
        NativeEchoReadView::Submitted(op) => {
            assert(taken.server == tried.server && taken.bridge == tried.bridge);
            lemma_sees_off(w, fd, s, taken, taken.actions);
        },
        NativeEchoReadView::Rejected(held) => {
            assert(taken.server == tried.server && taken.bridge == tried.bridge);
            lemma_sees_off(w, fd, s, taken, taken.actions);
        },
    }
}

/// A read that came to nothing, at the end of the stream or with an error: the
/// buffer goes back if there is one, the connection is closed, and goes with code
/// 1006. A read that a close cancelled changes nothing, and bytes for a
/// connection that is gone only go back.
pub proof fn law_read_of_nothing_ends_the_connection(
    w: World,
    fd: i32,
    result: Result<i64, Option<i32>>,
    buf: Option<Seq<u8>>,
)
    requires
        w.balanced(),
    ensures
        ({
            let after = w.read(fd, result, buf);
            let asked = match buf {
                Some(buf) => w.actions.push(ActionView::Recycle { buf }),
                None => w.actions,
            };
            if result == Err::<i64, Option<i32>>(Some(w.server.errnos.canceled)) {
                after == w
            } else if result is Ok && result->Ok_0 > 0 && buf is Some {
                !w.server.conns.contains_key(fd) ==> after == (World { actions: asked, ..w })
            } else {
                &&& after.actions == asked.push(close_of(fd))
                &&& if w.server.conns.contains_key(fd) {
                    &&& left(after, fd, w.session(fd), 1006)
                    &&& only_changes(w, after, fd, w.server.conns[fd].id)
                } else {
                    after.server == w.server && after.bridge == w.bridge
                }
            }
        }),
{
    let after = w.read(fd, result, buf);
    if w.server.conns.contains_key(fd) {
        let id = w.server.conns[fd].id;
        if !(result is Ok && result->Ok_0 > 0 && buf is Some) {
            assert(after.server.conns.remove(fd) =~= w.server.conns.remove(fd));
            assert(after.server.by_id.remove(id) =~= w.server.by_id.remove(id));
            assert(after.bridge.states.remove(id) =~= w.bridge.states.remove(id));
        }
    }
}

/// A write that is done: the buffer goes back if there is one, what the write was
/// charged is given back, and what waits goes out. Where it failed, what waits is
/// given up with its charge, and the connection is closed.
pub proof fn law_finished_write_lets_the_next_go(
    w: World,
    fd: i32,
    failed: bool,
    buf: Option<Seq<u8>>,
)
    requires
        w.balanced(),
    ensures
        ({
            let after = w.wrote(fd, failed, buf);
            let asked = match buf {
                Some(buf) => w.actions.push(ActionView::Recycle { buf }),
                None => w.actions,
            };
            let conn = w.server.conns[fd];
            let state = w.bridge.states[conn.id];
            if !w.server.conns.contains_key(fd) {
                after == (World { actions: asked, ..w })
            } else if failed {
                let over = Session {
                    conn: ConnView {
                        writing: false,
                        writing_charged: 0,
                        out: Seq::empty(),
                        out_charged: 0,
                        close_when_flushed: true,
                        ignoring: true,
                        ..conn
                    },
                    state: ConnectionState {
                        pending: (state.pending - conn.writing_charged - conn.out_charged) as usize,
                        live: true,
                    },
                    events: w.server.events,
                };
                &&& left(after, fd, over, 1000)
                &&& only_changes(w, after, fd, conn.id)
                &&& after.actions == asked.push(close_of(fd))
            } else {
                let settled = Session {
                    conn: ConnView { writing: false, writing_charged: 0, ..conn },
                    state: ConnectionState {
                        pending: (state.pending - conn.writing_charged) as usize,
                        live: true,
                    },
                    events: w.server.events,
                };
                sees_off(w, fd, settled, asked, false, after)
            }
        }),
{
    let asked = match buf {
        Some(buf) => w.actions.push(ActionView::Recycle { buf }),
        None => w.actions,
    };
    let recycled = w.recycle(buf);
    if w.server.conns.contains_key(fd) {
        lemma_session_wf(w, fd);
        let s = w.session(fd);
        let settled = Session {
            conn: s.conn.written(failed),
            state: s.state.refund(s.conn.written_refund(failed)),
            ..s
        };
        lemma_put_balanced(recycled, fd, settled);
        lemma_put_stands(recycled, fd, settled);
        lemma_sees_off(recycled, fd, settled, recycled.put(fd, settled), asked);
        assert(asked + seq![close_of(fd)] =~= asked.push(close_of(fd)));
    }
}

/// Whatever connection the listener takes, and under whatever id, two things are
/// asked of the driver and no more: the listener's next connection, and the read of
/// this one.
pub proof fn law_accept_asks_for_the_next_and_reads(w: World, fd: i32, id: u64)
    ensures
        w.accept(fd, id).actions == w.actions + seq![accept_of(w.server.listener), read_of(fd)],
        w.actions.len() == 0 ==> w.accept(fd, id).actions == seq![
            accept_of(w.server.listener),
            read_of(fd),
        ],
{
    let asked = seq![accept_of(w.server.listener), read_of(fd)];
    assert(w.accept(fd, id).actions =~= w.actions + asked);
    if w.actions.len() == 0 {
        assert(w.actions + asked =~= asked);
    }
}

/// A connection that the listener takes is served from then on: the listener is
/// asked for the next one, and the connection is read. It is there, new, under
/// its own id, with a budget of its own; and no other connection changes, but for
/// one that the descriptor still stood for, which is gone.
pub proof fn law_accepted_connection_is_read(w: World, fd: i32, id: u64)
    requires
        w.balanced(),
        w.known(id),
    ensures
        ({
            let after = w.accept(fd, id);
            &&& after.actions == w.actions + seq![accept_of(w.server.listener), read_of(fd)]
            &&& stands(
                after,
                fd,
                Session {
                    conn: ConnView::fresh(id),
                    state: ConnectionState { pending: 0, live: true },
                    events: w.server.events,
                },
            )
            &&& !w.server.conns.contains_key(fd) ==> only_changes(w, after, fd, id)
            &&& w.server.conns.contains_key(fd) ==> {
                let gone = w.server.conns[fd];
                &&& !after.server.by_id.contains_key(gone.id)
                &&& after.bridge.states.contains_key(gone.id) == gone.opened
                &&& gone.opened ==> after.bridge.states[gone.id] == (ConnectionState {
                    pending: w.bridge.states[gone.id].pending,
                    live: false,
                })
            }
            &&& after.server.config == w.server.config
            &&& after.server.dispatching == w.server.dispatching
            &&& after.server.listener == w.server.listener
            &&& after.server.wake == w.server.wake
            &&& after.server.errnos == w.server.errnos
            &&& after.server.conns.remove(fd) == w.server.conns.remove(fd)
            &&& forall|other: u64|
                other != id && !(w.server.conns.contains_key(fd) && w.server.conns[fd].id == other)
                    ==> {
                    &&& #[trigger] after.server.by_id.contains_key(other)
                        == w.server.by_id.contains_key(other)
                    &&& after.server.by_id[other] == w.server.by_id[other]
                    &&& after.bridge.states.contains_key(other)
                        == w.bridge.states.contains_key(other)
                    &&& after.bridge.states[other] == w.bridge.states[other]
                }
            &&& after.bridge.queue == w.bridge.queue
            &&& after.bridge.wake_pending == w.bridge.wake_pending
            &&& after.bridge.stopped == w.bridge.stopped
        }),
{
    let after = w.accept(fd, id);
    law_accept_asks_for_the_next_and_reads(w, fd, id);
    assert(after.server.conns.remove(fd) =~= w.server.conns.remove(fd));
    if w.server.conns.contains_key(fd) {
        assert(w.accounted(w.server.conns[fd]));
    } else {
        assert(after.server.by_id.remove(id) =~= w.server.by_id.remove(id));
        assert(after.bridge.states.remove(id) =~= w.bridge.states.remove(id));
    }
}

/// A finished operation is told apart by its tag, and nothing but its tag: a
/// connection that was taken, a read, a write, a close, which changes nothing,
/// and the wake pipe.
pub proof fn law_completion_goes_by_its_tag(
    before: World,
    id: u64,
    completion: Completion,
    after: World,
    next: u64,
    fd: i32,
)
    requires
        completed(before, id, completion, after, next),
    ensures
        ({
            let buf = buffer_view(completion.buf);
            let user = completion.user;
            &&& user == tag_of(KIND_ACCEPT, fd) ==> match completion.result {
                Ok(on) => -0x8000_0000 <= on < 0x8000_0000 ==> after == before.accept(
                    on as i32,
                    id,
                ) && next == id + 1,
                Err(_) => after == (World {
                    actions: before.actions.push(accept_of(before.server.listener)),
                    ..before
                }) && next == id,
            }
            &&& user == tag_of(KIND_READ, fd) ==> after == before.read(fd, completion.result, buf)
                && next == id
            &&& user == tag_of(KIND_WRITE, fd) ==> after == before.wrote(
                fd,
                completion.result is Err,
                buf,
            ) && next == id
            &&& user == tag_of(KIND_CLOSE, fd) ==> after == before && next == id
            &&& user == tag_of(KIND_WAKE, fd) ==> next == id && exists|order: Seq<i32>|
                before.pump_order(order) && after == #[trigger] before.woken(buf, order)
        }),
{
    law_tag_round_trip(KIND_ACCEPT, fd);
    law_tag_round_trip(KIND_READ, fd);
    law_tag_round_trip(KIND_WRITE, fd);
    law_tag_round_trip(KIND_CLOSE, fd);
    law_tag_round_trip(KIND_WAKE, fd);
}

/// The reactor ends over a failed accept alone, and not where the pending
/// connection was aborted or reset, where the system calls that an invalid
/// argument, or where the call was interrupted.
pub proof fn law_only_the_listener_ends_the_reactor(w: World, completion: Completion)
    ensures
        ({
            let errnos = w.server.errnos;
            fatal(w.server, completion) <==> {
                &&& completion.user / 0x1_0000_0000 == KIND_ACCEPT
                &&& completion.result is Err
                &&& completion.result->Err_0 != Some(errnos.conn_aborted)
                &&& completion.result->Err_0 != Some(errnos.conn_reset)
                &&& completion.result->Err_0 != Some(errnos.invalid)
                &&& completion.result->Err_0 != Some(errnos.interrupted)
            }
        }),
{
}

/// What a command does to the connection that it is for. A message goes behind
/// everything that waits, as one frame of its kind, and keeps its charge; a
/// message that cannot go, because the conversation is over or because it is text
/// that is not UTF-8, gives its charge back. A close puts a close frame of code
/// 1000 there and ends the conversation. No other connection changes, and nothing
/// is asked of the driver.
pub proof fn law_command_does_what_it_says(w: World, id: u64, data: Seq<u8>, binary: bool)
    requires
        w.balanced(),
        w.server.by_id.contains_key(id),
    ensures
        ({
            let fd = w.server.by_id[id];
            let s = w.session(fd);
            let sent = w.command(CmdView::Send { id, data, binary });
            let closed = w.command(CmdView::Close { id });
            let first = if binary {
                0x82u8
            } else {
                0x81u8
            };
            &&& sent.actions == w.actions && closed.actions == w.actions
            &&& only_changes(w, sent, fd, id) && only_changes(w, closed, fd, id)
            &&& stands(closed, fd, told_to_go(s, 1000))
            &&& if s.conn.ignoring || (!binary && !valid_utf8(data)) {
                let pending = s.state.pending - framed(data.len());
                stands(
                    sent,
                    fd,
                    Session {
                        state: ConnectionState {
                            pending: if pending >= 0 {
                                pending as usize
                            } else {
                                0
                            },
                            live: true,
                        },
                        ..s
                    },
                )
            } else {
                stands(sent, fd, Session { conn: with_frame(s, first, data).conn, ..s })
            }
        }),
{
    let fd = w.server.by_id[id];
    let s = w.session(fd);
    assert(w.server.conns.contains_key(fd));
    lemma_session_wf(w, fd);
    assert(w.accounted(w.server.conns[fd]));
    law_message_goes_out_whole(s.conn, data, binary);
    law_close_is_answered(s, w.server.config, 1000);
    let sent = Session {
        conn: s.conn.deliver(data, binary),
        state: if s.conn.takes(data, binary) {
            s.state
        } else {
            s.state.refund(message_charge(data))
        },
        ..s
    };
    assert(s.on_event(w.server.config, EventView::Close(None)).0 == s.close(1000));
    lemma_put_stands(w, fd, sent);
    lemma_put_stands(w, fd, s.close(1000));
}

/// Bytes off the wire go to the connection on their descriptor, all of them, and
/// touch nothing else; where there is none, they do nothing.
pub proof fn law_bytes_go_to_their_connection(w: World, fd: i32, bytes: Seq<u8>)
    requires
        w.balanced(),
    ensures
        ({
            let after = w.on_bytes(fd, bytes);
            if w.server.conns.contains_key(fd) {
                let s = w.session(fd).on_bytes(w.server.config, bytes);
                &&& stands(after, fd, s)
                &&& only_changes(w, after, fd, s.conn.id)
                &&& after.actions == w.actions
            } else {
                after == w
            }
        }),
{
    if w.server.conns.contains_key(fd) {
        lemma_session_wf(w, fd);
        lemma_on_bytes_follows(w.session(fd), w.server.config, bytes);
        lemma_put_stands(w, fd, w.session(fd).on_bytes(w.server.config, bytes));
    }
}

/// A connection that is retired is gone, with Node told the code if it knew of the
/// connection, and nothing else changes.
pub proof fn law_retired_connection_is_gone(w: World, fd: i32, code: u16)
    requires
        w.balanced(),
    ensures
        ({
            let after = w.retire(fd, code);
            if w.server.conns.contains_key(fd) {
                &&& left(after, fd, w.session(fd), code)
                &&& only_changes(w, after, fd, w.server.conns[fd].id)
                &&& after.actions == w.actions
            } else {
                after == w
            }
        }),
{
    if w.server.conns.contains_key(fd) {
        let id = w.server.conns[fd].id;
        let after = w.retire(fd, code);
        assert(after.server.conns.remove(fd) =~= w.server.conns.remove(fd));
        assert(after.server.by_id.remove(id) =~= w.server.by_id.remove(id));
        assert(after.bridge.states.remove(id) =~= w.bridge.states.remove(id));
    }
}

/// A session is the connection on its descriptor, as it stands, with the budget
/// under its id and the events so far.
pub proof fn law_session_is_the_connection(w: World, fd: i32)
    ensures
        w.session(fd) == (Session {
            conn: w.server.conns[fd],
            state: w.bridge.states[w.server.conns[fd].id],
            events: w.server.events,
        }),
{
}

} // verus!
