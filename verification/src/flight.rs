//! What is in flight on a descriptor: one write at a time, and nothing on a
//! connection that is being closed.

use crate::conn::{
    lemma_echo_read_keeps, lemma_on_bytes_follows, Config, NativeEchoReadView, PumpView, Session,
};
use crate::messages::{buffer_view, ActionView, Completion, OpView};
use crate::routing::{
    fd_of, tag_of, KIND_ACCEPT, KIND_CLOSE, KIND_READ, KIND_WAKE, KIND_WRITE,
};
use crate::server::{
    completed, lemma_command_balanced, lemma_marked_balanced, lemma_put_balanced,
    lemma_session_wf, World, NATIVE_FUSED_MIN_READ,
};
use vstd::prelude::*;

verus! {

/// Whether an action submits a write on a descriptor.
pub open spec fn is_write(action: ActionView, fd: i32) -> bool {
    action matches ActionView::Submit { op: OpView::Write { fd: on, .. }, .. } && on == fd
}

/// Whether an action submits the close of a descriptor.
pub open spec fn is_close(action: ActionView, fd: i32) -> bool {
    action matches ActionView::Submit { op: OpView::Close { fd: on }, .. } && on == fd
}

/// How many writes on a descriptor a run of actions submits.
pub open spec fn writes(actions: Seq<ActionView>, fd: i32) -> nat
    decreases actions.len(),
{
    if actions.len() == 0 {
        0
    } else {
        writes(actions.drop_last(), fd) + if is_write(actions.last(), fd) {
            1nat
        } else {
            0
        }
    }
}

/// Whether a run of actions submits the close of a descriptor.
pub open spec fn closes(actions: Seq<ActionView>, fd: i32) -> bool {
    exists|i: int| 0 <= i < actions.len() && is_close(#[trigger] actions[i], fd)
}

/// Whether a connection is there and has a write in flight.
pub open spec fn in_flight(w: World, fd: i32) -> bool {
    w.server.conns.contains_key(fd) && w.server.conns[fd].writing
}

/// Whether a step so far submitted at most one write on a descriptor, and that
/// only if none was in flight, `busy`; kept a write that was; and closed only
/// what is gone.
pub open spec fn apart(w: World, fd: i32, busy: bool) -> bool {
    &&& writes(w.actions, fd) <= 1
    &&& writes(w.actions, fd) == 1 ==> in_flight(w, fd) && !busy
    &&& busy && w.server.conns.contains_key(fd) ==> w.server.conns[fd].writing
    &&& closes(w.actions, fd) ==> !w.server.conns.contains_key(fd)
}

proof fn lemma_act(w: World, action: ActionView, fd: i32)
    ensures
        writes(w.act(action).actions, fd) == writes(w.actions, fd) + if is_write(action, fd) {
            1nat
        } else {
            0
        },
        closes(w.act(action).actions, fd) == (closes(w.actions, fd) || is_close(action, fd)),
{
    let longer = w.act(action).actions;
    assert(longer.drop_last() =~= w.actions);
    assert(longer[w.actions.len() as int] == action);
    if closes(w.actions, fd) {
        let i = choose|i: int| 0 <= i < w.actions.len() && is_close(#[trigger] w.actions[i], fd);
        assert(longer[i] == w.actions[i]);
    }
    if closes(longer, fd) && !is_close(action, fd) {
        let i = choose|i: int| 0 <= i < longer.len() && is_close(#[trigger] longer[i], fd);
        assert(longer[i] == w.actions[i]);
    }
}

/// Pumping a connection, and forgetting it if it is being closed, keeps writes
/// apart.
proof fn lemma_pump_or_retire_apart(w: World, at: i32, fd: i32, busy: bool)
    requires
        apart(w, fd, busy),
    ensures
        apart(w.pump_or_retire(at), fd, busy),
{
    if w.server.conns.contains_key(at) {
        let (conn, pump) = w.server.conns[at].pump();
        let pumped = w.put(at, Session { conn, ..w.session(at) });
        match pump {
            PumpView::Idle => {},
            PumpView::Write(sent) => {
                lemma_act(
                    pumped,
                    ActionView::Submit {
                        op: OpView::write(at, sent),
                        user: tag_of(KIND_WRITE, at),
                    },
                    fd,
                );
            },
            PumpView::Close => {
                lemma_act(
                    pumped,
                    ActionView::Submit {
                        op: OpView::Close { fd: at },
                        user: tag_of(KIND_CLOSE, at),
                    },
                    fd,
                );
            },
        }
    }
}

proof fn lemma_pump_each_apart(w: World, fds: Seq<i32>, fd: i32, busy: bool)
    requires
        apart(w, fd, busy),
    ensures
        apart(w.pump_each(fds), fd, busy),
    decreases fds.len(),
{
    if fds.len() > 0 {
        lemma_pump_each_apart(w, fds.drop_last(), fd, busy);
        lemma_pump_or_retire_apart(w.pump_each(fds.drop_last()), fds.last(), fd, busy);
    }
}

proof fn lemma_drain_commands_apart(w: World, fd: i32, busy: bool)
    requires
        w.balanced(),
        apart(w, fd, busy),
    ensures
        apart(w.drain_commands(), fd, busy),
    decreases w.bridge.queue.len(),
{
    if w.bridge.queue.len() > 0 {
        lemma_command_balanced(w);
        lemma_drain_commands_apart(w.unqueued().command(w.bridge.queue.first()), fd, busy);
    }
}

proof fn lemma_on_bytes_apart(w: World, at: i32, bytes: Seq<u8>, fd: i32, busy: bool)
    requires
        w.balanced(),
        apart(w, fd, busy),
    ensures
        apart(w.on_bytes(at, bytes), fd, busy),
{
    if w.server.conns.contains_key(at) {
        lemma_session_wf(w, at);
        lemma_on_bytes_follows(w.session(at), w.server.config, bytes);
    }
}

proof fn lemma_read_bytes_apart(w: World, at: i32, bytes: Seq<u8>, fd: i32, busy: bool)
    requires
        w.balanced(),
        apart(w, fd, busy),
        !closes(w.actions, at),
    ensures
        apart(w.read_bytes(at, bytes), fd, busy),
{
    let config = w.server.config;
    if config.native_echo && bytes.len() > NATIVE_FUSED_MIN_READ {
        if w.server.conns.contains_key(at) {
            lemma_session_wf(w, at);
            let before = w.session(at);
            let (s, read) = before.echo_read(config, at, bytes);
            let tried = w.put(at, s);
            lemma_echo_read_keeps(before, config, at, bytes);
            lemma_put_balanced(w, at, s);
            lemma_echo_read_writing(before, config, at, bytes);
            match read {
                NativeEchoReadView::Unclaimed(left) => {
                    lemma_on_bytes_apart(tried, at, left, fd, busy);
                    lemma_act(tried.on_bytes(at, left), ActionView::Recycle { buf: left }, fd);
                },
                NativeEchoReadView::Submitted(op) => {
                    lemma_act(
                        tried,
                        ActionView::Submit { op, user: tag_of(KIND_WRITE, at) },
                        fd,
                    );
                },
                NativeEchoReadView::Rejected(held) => {
                    lemma_act(tried, ActionView::Recycle { buf: held }, fd);
                },
            }
        } else {
            lemma_act(w, ActionView::Recycle { buf: bytes }, fd);
        }
    } else {
        lemma_on_bytes_apart(w, at, bytes, fd, busy);
        lemma_act(w.on_bytes(at, bytes), ActionView::Recycle { buf: bytes }, fd);
    }
}

/// An echo is submitted only where no write is in flight, and is one from then
/// on; without an echo nothing changes there.
proof fn lemma_echo_read_writing(s: Session, config: Config, fd: i32, bytes: Seq<u8>)
    requires
        s.wf(),
    ensures
        ({
            let (after, read) = s.echo_read(config, fd, bytes);
            match read {
                NativeEchoReadView::Submitted(op) => {
                    &&& !s.conn.writing && after.conn.writing
                    &&& op is Write && op->Write_fd == fd
                },
                _ => after.conn.writing == s.conn.writing,
            }
        }),
{
}

proof fn lemma_read_apart(
    w: World,
    at: i32,
    result: Result<i64, Option<i32>>,
    buf: Option<Seq<u8>>,
    fd: i32,
)
    requires
        w.balanced(),
        w.actions.len() == 0,
    ensures
        apart(w.read(at, result, buf), fd, in_flight(w, fd)),
{
    let busy = in_flight(w, fd);
    assert(apart(w, fd, busy));
    if result matches Err(Some(errno)) && errno == w.server.errnos.canceled {
    } else if result matches Ok(n) && n > 0 && buf is Some {
        let taken = w.read_bytes(at, buf->Some_0);
        lemma_read_bytes_apart(w, at, buf->Some_0, fd, busy);
        lemma_pump_or_retire_apart(taken, at, fd, busy);
        lemma_act(
            taken.pump(at).0,
            ActionView::Submit {
                op: OpView::ReadPooled { fd: at },
                user: tag_of(KIND_READ, at),
            },
            fd,
        );
    } else {
        let recycled = w.recycle(buf);
        if buf is Some {
            lemma_act(w, ActionView::Recycle { buf: buf->Some_0 }, fd);
        }
        lemma_act(
            recycled.retire(at, 1006),
            ActionView::Submit { op: OpView::Close { fd: at }, user: tag_of(KIND_CLOSE, at) },
            fd,
        );
    }
}

/// Whether a finished operation is the write on a descriptor.
pub open spec fn finishes_write(completion: Completion, fd: i32) -> bool {
    completion.user / 0x1_0000_0000 == KIND_WRITE && fd_of(completion.user) == fd
}

/// Whatever operation finishes, at most one write is submitted on a descriptor,
/// and only where none is in flight: either none was, or it is the one that is
/// done. From then on one is.
pub proof fn law_one_write_in_flight(
    before: World,
    id: u64,
    completion: Completion,
    after: World,
    next: u64,
    fd: i32,
)
    requires
        before.balanced(),
        before.actions.len() == 0,
        completed(before, id, completion, after, next),
    ensures
        writes(after.actions, fd) <= 1,
        writes(after.actions, fd) == 1 ==> {
            &&& in_flight(after, fd)
            &&& !in_flight(before, fd) || finishes_write(completion, fd)
        },
{
    lemma_completed_apart(before, id, completion, after, next, fd);
}

/// Whatever operation finishes, a write in flight stays noted as such until it
/// is the one that is done or its connection goes.
pub proof fn law_write_in_flight_is_remembered(
    before: World,
    id: u64,
    completion: Completion,
    after: World,
    next: u64,
    fd: i32,
)
    requires
        before.balanced(),
        before.actions.len() == 0,
        completed(before, id, completion, after, next),
        in_flight(before, fd),
        !finishes_write(completion, fd),
        completion.user / 0x1_0000_0000 != KIND_ACCEPT,
    ensures
        after.server.conns.contains_key(fd) ==> in_flight(after, fd),
{
    lemma_completed_apart(before, id, completion, after, next, fd);
}

/// Whatever operation finishes, a descriptor whose close is submitted belongs to
/// no connection any more, so that nothing else is asked of it.
pub proof fn law_closed_is_forgotten(
    before: World,
    id: u64,
    completion: Completion,
    after: World,
    next: u64,
    fd: i32,
)
    requires
        before.balanced(),
        before.actions.len() == 0,
        completed(before, id, completion, after, next),
        closes(after.actions, fd),
    ensures
        !after.server.conns.contains_key(fd),
{
    lemma_completed_apart(before, id, completion, after, next, fd);
}

proof fn lemma_completed_apart(
    before: World,
    id: u64,
    completion: Completion,
    after: World,
    next: u64,
    fd: i32,
)
    requires
        before.balanced(),
        before.actions.len() == 0,
        completed(before, id, completion, after, next),
    ensures
        ({
            let busy = in_flight(before, fd) && !finishes_write(completion, fd)
                && completion.user / 0x1_0000_0000 != KIND_ACCEPT;
            apart(after, fd, busy)
        }),
        completion.user / 0x1_0000_0000 == KIND_ACCEPT ==> writes(after.actions, fd) == 0,
{
    let kind = completion.user / 0x1_0000_0000;
    let at = fd_of(completion.user);
    let busy = in_flight(before, fd) && !finishes_write(completion, fd) && kind != KIND_ACCEPT;
    let buf = buffer_view(completion.buf);
    if kind == KIND_ACCEPT {
        let listening = before.listen();
        lemma_act(
            before,
            ActionView::Submit {
                op: OpView::Accept { fd: before.server.listener },
                user: tag_of(KIND_ACCEPT, before.server.listener),
            },
            fd,
        );
        match completion.result {
            Ok(accepted) => {
                let on = accepted as i32;
                lemma_act(
                    listening.accepted(on, id),
                    ActionView::Submit {
                        op: OpView::ReadPooled { fd: on },
                        user: tag_of(KIND_READ, on),
                    },
                    fd,
                );
            },
            Err(_) => {},
        }
    } else if kind == KIND_WAKE {
        let order = choose|order: Seq<i32>|
            before.pump_order(order) && after == #[trigger] before.woken(buf, order);
        let marked = before.marked(buf);
        if buf is Some {
            lemma_act(before, ActionView::Recycle { buf: buf->Some_0 }, fd);
        }
        assert(apart(marked, fd, busy));
        lemma_marked_balanced(before, buf);
        lemma_drain_commands_apart(marked, fd, busy);
        lemma_pump_each_apart(marked.drain_commands(), order, fd, busy);
        lemma_act(
            marked.drain_commands().pump_each(order),
            ActionView::Submit {
                op: OpView::ReadPooled { fd: before.server.wake },
                user: tag_of(KIND_WAKE, before.server.wake),
            },
            fd,
        );
    } else if kind == KIND_READ {
        lemma_read_apart(before, at, completion.result, buffer_view(completion.buf), fd);
    } else if kind == KIND_WRITE {
        let failed = completion.result is Err;
        let recycled = before.recycle(buf);
        if buf is Some {
            lemma_act(before, ActionView::Recycle { buf: buf->Some_0 }, fd);
        }
        let settled = if before.server.conns.contains_key(at) {
            let s = before.session(at);
            recycled.put(
                at,
                Session {
                    conn: s.conn.written(failed),
                    state: s.state.refund(s.conn.written_refund(failed)),
                    ..s
                },
            )
        } else {
            recycled
        };
        assert(apart(settled, fd, busy));
        lemma_pump_or_retire_apart(settled, at, fd, busy);
    }
}

} // verus!
