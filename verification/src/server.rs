//! The reactor's side of the boundary: every connection, and what each finished
//! operation does to them.

use crate::bridge::{
    fits, lemma_queued_charge_push, message_charge, queued_charge, Bridge, BridgeView, Cmd,
    CmdView, ConnectionState, MAX_OUTBOUND,
};
use crate::codec::upgrade_answer;
use crate::conn::{
    alike, keeps, lemma_echo_read_keeps, lemma_on_bytes_follows, session, upgrades_alone, Config,
    Conn, ConnView, NativeEchoRead, NativeEchoReadView, Pump, PumpView, Session,
};
use crate::dispatch::{batch_bytes, batch_retains, forget_closed, forgotten, Batch};
use crate::lanes::{batch_fits, lanes_agree};
use crate::messages::{
    actions_view, buffer_view, events_view, Action, ActionView, Completion, JsEvent, JsEventView,
    Op, OpView,
};
use crate::routing::{
    fd_of, tag, tag_fd, tag_kind, tag_of, ConnectionIds, KIND_ACCEPT, KIND_CLOSE, KIND_READ,
    KIND_WAKE, KIND_WRITE,
};
use crate::upkeep::{
    lemma_read_is_answered, lemma_stream_goes_on, read_does_right, streamed_read,
};
use std::collections::HashMap;
use vstd::prelude::*;
use vstd::std_specs::iter::IteratorSpec;

verus! {

broadcast use vstd::std_specs::hash::group_hash_axioms;

/// Reads up to this size go through the streaming decoder even when echoing: a
/// lone tiny frame is faster there than by holding its pooled receive buffer
/// until the write completes.
pub const NATIVE_FUSED_MIN_READ: usize = 128;

/// The system's error numbers that the reactor tells apart.
#[derive(Clone, Copy)]
pub struct Errnos {
    /// A pending connection was aborted before it was taken.
    pub conn_aborted: i32,
    /// A pending connection was reset before it was taken.
    pub conn_reset: i32,
    /// What some systems report for such a connection.
    pub invalid: i32,
    /// The call was interrupted.
    pub interrupted: i32,
    /// The operation was cancelled by a close.
    pub canceled: i32,
}

impl Errnos {
    /// Whether a failed accept says nothing about the listener: the pending
    /// connection died before it was taken, or the call was interrupted.
    pub open spec fn retries(self, errno: Option<i32>) -> bool {
        errno matches Some(errno) && {
            ||| errno == self.conn_aborted
            ||| errno == self.conn_reset
            ||| errno == self.invalid
            ||| errno == self.interrupted
        }
    }

    /// Whether a failed accept is tried again.
    pub fn retries_accept(&self, errno: Option<i32>) -> (again: bool)
        ensures
            again == self.retries(errno),
    {
        match errno {
            Some(errno) => errno == self.conn_aborted || errno == self.conn_reset || errno
                == self.invalid || errno == self.interrupted,
            None => false,
        }
    }
}

/// Every connection on the reactor.
pub struct Server {
    conns: HashMap<i32, Conn>,
    by_id: HashMap<u64, i32>,
    config: Config,
    dispatching: bool,
    events: Vec<JsEvent>,
    listener: i32,
    wake: i32,
    errnos: Errnos,
}

/// A server by what it holds.
#[verifier::ext_equal]
pub struct ServerView {
    /// The connections by descriptor.
    pub conns: Map<i32, ConnView>,
    /// The descriptors by connection id. An id maps to a descriptor only here.
    pub by_id: Map<u64, i32>,
    /// What is done with messages.
    pub config: Config,
    /// Whether anything takes the events.
    pub dispatching: bool,
    /// The events for Node that have come up, oldest first.
    pub events: Seq<JsEventView>,
    /// The listening socket.
    pub listener: i32,
    /// The reactor's end of the wake pipe.
    pub wake: i32,
    /// The system's error numbers.
    pub errnos: Errnos,
}

impl View for Server {
    type V = ServerView;

    closed spec fn view(&self) -> ServerView {
        ServerView {
            conns: self.conns@.map_values(|conn: Conn| conn@),
            by_id: self.by_id@,
            config: self.config,
            dispatching: self.dispatching,
            events: events_view(self.events@),
            listener: self.listener,
            wake: self.wake,
            errnos: self.errnos,
        }
    }
}

/// The server, the bridge and what the driver has been asked, at one moment.
#[verifier::ext_equal]
pub struct World {
    pub server: ServerView,
    pub bridge: BridgeView,
    pub actions: Seq<ActionView>,
}

/// A server, a bridge and a run of actions as a world.
pub open spec fn world(server: Server, bridge: Bridge, actions: Seq<Action>) -> World {
    World { server: server@, bridge: bridge@, actions: actions_view(actions) }
}

/// Whether every write in a run of actions starts inside its buffer.
pub open spec fn actions_wf(actions: Seq<Action>) -> bool {
    forall|i: int| 0 <= i < actions.len() ==> (#[trigger] actions[i]).wf()
}

impl World {
    /// What holds between any two steps.
    pub open spec fn balanced(self) -> bool {
        // Ids and descriptors stand for each other.
        &&& forall|id: u64| #[trigger]
            self.server.by_id.contains_key(id) ==> self.server.conns.contains_key(
                self.server.by_id[id],
            ) && self.server.conns[self.server.by_id[id]].id == id
        &&& forall|fd: i32| #[trigger]
            self.server.conns.contains_key(fd) ==> self.server.by_id.contains_key(
                self.server.conns[fd].id,
            ) && self.server.by_id[self.server.conns[fd].id] == fd
        // A connection's budget is what its buffers and the queue are charged,
        // and within the cap.
        &&& forall|fd: i32| #[trigger]
            self.server.conns.contains_key(fd) ==> self.accounted(self.server.conns[fd])
        // Only a connection that is there is live.
        &&& forall|id: u64| #[trigger]
            self.bridge.states.contains_key(id) && self.bridge.states[id].live
                ==> self.server.by_id.contains_key(id)
        &&& fits(self.bridge.queue)
    }

    /// Whether a connection keeps what every connection keeps, and its budget is
    /// exactly what its buffers and the queue are charged, within the cap.
    pub open spec fn accounted(self, conn: ConnView) -> bool {
        &&& conn.wf()
        &&& self.bridge.states.contains_key(conn.id)
        &&& self.bridge.states[conn.id].live
        &&& self.bridge.states[conn.id].pending == conn.charged() + queued_charge(
            self.bridge.queue,
            conn.id,
        )
        &&& self.bridge.states[conn.id].pending <= MAX_OUTBOUND
    }

    /// Whether every id in use was given out before `next`.
    pub open spec fn known(self, next: u64) -> bool {
        &&& forall|id: u64| #[trigger] self.bridge.states.contains_key(id) ==> id < next
        &&& forall|i: int|
            0 <= i < self.bridge.queue.len() ==> (#[trigger] self.bridge.queue[i] matches
                CmdView::Send { id, .. } ==> id < next)
    }

    /// A connection with its budget and the events so far.
    pub open spec fn session(self, fd: i32) -> Session {
        Session {
            conn: self.server.conns[fd],
            state: self.bridge.states[self.server.conns[fd].id],
            events: self.server.events,
        }
    }

    /// The world with a connection in another state.
    pub open spec fn put(self, fd: i32, s: Session) -> World {
        World {
            server: ServerView {
                conns: self.server.conns.insert(fd, s.conn),
                events: s.events,
                ..self.server
            },
            bridge: BridgeView {
                states: self.bridge.states.insert(s.conn.id, s.state),
                ..self.bridge
            },
            ..self
        }
    }

    /// The world with its bridge in another state.
    pub open spec fn bridged(self, bridge: BridgeView) -> World {
        World { bridge, ..self }
    }

    /// The world with nothing asked of the driver.
    pub open spec fn silent(self) -> World {
        World { actions: Seq::empty(), ..self }
    }

    /// The world with one more action.
    pub open spec fn act(self, action: ActionView) -> World {
        World { actions: self.actions.push(action), ..self }
    }

    /// The world with an operation submitted under its tag.
    pub open spec fn submit(self, op: OpView, kind: u64, fd: i32) -> World {
        self.act(ActionView::Submit { op, user: tag_of(kind, fd) })
    }

    /// The world with a buffer handed back, if there is one.
    pub open spec fn recycle(self, buf: Option<Seq<u8>>) -> World {
        match buf {
            Some(buf) => self.act(ActionView::Recycle { buf }),
            None => self,
        }
    }

    /// What bytes off the wire do; bytes for a connection that is gone do
    /// nothing.
    pub open spec fn on_bytes(self, fd: i32, bytes: Seq<u8>) -> World {
        if self.server.conns.contains_key(fd) {
            self.put(fd, self.session(fd).on_bytes(self.server.config, bytes))
        } else {
            self
        }
    }

    /// What the connection has for the driver is submitted; and whether it is
    /// being closed and should be forgotten.
    pub open spec fn pump(self, fd: i32) -> (World, bool) {
        if self.server.conns.contains_key(fd) {
            let (conn, pump) = self.server.conns[fd].pump();
            let pumped = self.put(fd, Session { conn, ..self.session(fd) });
            match pump {
                PumpView::Idle => (pumped, false),
                PumpView::Write(sent) => (
                    pumped.submit(OpView::write(fd, sent), KIND_WRITE, fd),
                    false,
                ),
                PumpView::Close => (pumped.submit(OpView::Close { fd }, KIND_CLOSE, fd), true),
            }
        } else {
            (self, false)
        }
    }

    /// The world without a connection. Its budget stays, closed, as long as
    /// Node knows the connection.
    pub open spec fn dropped(self, fd: i32) -> World {
        if self.server.conns.contains_key(fd) {
            let conn = self.server.conns[fd];
            World {
                server: ServerView {
                    conns: self.server.conns.remove(fd),
                    by_id: self.server.by_id.remove(conn.id),
                    ..self.server
                },
                bridge: BridgeView {
                    states: if conn.opened {
                        self.bridge.states.insert(conn.id, self.bridge.states[conn.id].closed())
                    } else {
                        self.bridge.states.remove(conn.id)
                    },
                    ..self.bridge
                },
                ..self
            }
        } else {
            self
        }
    }

    /// The world without a connection, with Node told of it if it was told of
    /// the connection at all.
    pub open spec fn retire(self, fd: i32, code: u16) -> World {
        let after = self.dropped(fd);
        if self.server.conns.contains_key(fd) && self.server.conns[fd].opened {
            World {
                server: ServerView {
                    events: after.server.events.push(
                        JsEventView::Close { id: self.server.conns[fd].id, code },
                    ),
                    ..after.server
                },
                ..after
            }
        } else {
            after
        }
    }

    /// The connection is pumped, and forgotten if it is being closed.
    pub open spec fn pump_or_retire(self, fd: i32) -> World {
        let (pumped, gone) = self.pump(fd);
        if gone {
            pumped.retire(fd, 1000)
        } else {
            pumped
        }
    }

    /// Connections are pumped one after the other, and forgotten if they are
    /// being closed.
    pub open spec fn pump_each(self, fds: Seq<i32>) -> World
        decreases fds.len(),
    {
        if fds.len() == 0 {
            self
        } else {
            self.pump_each(fds.drop_last()).pump_or_retire(fds.last())
        }
    }

    /// What one command does. A command for a connection that is gone is
    /// dropped: JavaScript cannot have known, and the id can never have been
    /// reassigned to someone else.
    pub open spec fn command(self, command: CmdView) -> World {
        match command {
            CmdView::Send { id, data, binary } => if self.server.by_id.contains_key(id) {
                let fd = self.server.by_id[id];
                let s = self.session(fd);
                self.put(
                    fd,
                    Session {
                        conn: s.conn.deliver(data, binary),
                        state: if s.conn.takes(data, binary) {
                            s.state
                        } else {
                            s.state.refund(message_charge(data))
                        },
                        ..s
                    },
                )
            } else {
                self
            },
            CmdView::Close { id } => if self.server.by_id.contains_key(id) {
                let fd = self.server.by_id[id];
                self.put(fd, self.session(fd).close(1000))
            } else {
                self
            },
        }
    }

    /// The world without its oldest command.
    pub open spec fn unqueued(self) -> World {
        World {
            bridge: BridgeView { queue: self.bridge.queue.drop_first(), ..self.bridge },
            ..self
        }
    }

    /// What everything that JavaScript has queued does, oldest first.
    pub open spec fn drain_commands(self) -> World
        decreases self.bridge.queue.len(),
    {
        if self.bridge.queue.len() == 0 {
            self
        } else {
            self.unqueued().command(self.bridge.queue.first()).drain_commands()
        }
    }

    /// The world with a new connection on a descriptor. A connection that the
    /// descriptor still stood for is gone.
    pub open spec fn accepted(self, fd: i32, id: u64) -> World {
        let free = self.dropped(fd);
        World {
            server: ServerView {
                conns: free.server.conns.insert(fd, ConnView::fresh(id)),
                by_id: free.server.by_id.insert(id, fd),
                ..free.server
            },
            bridge: BridgeView {
                states: free.bridge.states.insert(id, ConnectionState::fresh()),
                ..free.bridge
            },
            ..free
        }
    }
}

/// A step that keeps what every step keeps leaves the world balanced.
pub proof fn lemma_put_balanced(w: World, fd: i32, s: Session)
    requires
        w.balanced(),
        w.server.conns.contains_key(fd),
        keeps(w.session(fd), s),
    ensures
        w.put(fd, s).balanced(),
        forall|next: u64| w.known(next) ==> w.put(fd, s).known(next),
{
    let after = w.put(fd, s);
    assert(w.accounted(w.server.conns[fd]));
    assert forall|other: i32| #[trigger] after.server.conns.contains_key(other) implies {
        &&& after.server.by_id.contains_key(after.server.conns[other].id)
        &&& after.server.by_id[after.server.conns[other].id] == other
        &&& after.accounted(after.server.conns[other])
    } by {
        if other != fd {
            assert(w.server.conns.contains_key(other));
            assert(w.accounted(w.server.conns[other]));
        }
    }
}

/// In a balanced world every connection is in order.
pub proof fn lemma_session_wf(w: World, fd: i32)
    requires
        w.balanced(),
        w.server.conns.contains_key(fd),
    ensures
        w.session(fd).wf(),
{
    let conn = w.server.conns[fd];
    assert(w.accounted(conn));
    lemma_queued_charge_push(w.bridge.queue, CmdView::Close { id: 0 }, conn.id);
}

/// Pumping leaves the world balanced.
pub proof fn lemma_pump_balanced(w: World, fd: i32)
    requires
        w.balanced(),
    ensures
        w.pump(fd).0.balanced(),
        forall|next: u64| w.known(next) ==> w.pump(fd).0.known(next),
        w.pump(fd).1 ==> w.server.conns.contains_key(fd) && w.pump(fd).0.server == w.server,
{
    if w.server.conns.contains_key(fd) {
        lemma_session_wf(w, fd);
        let s = Session { conn: w.server.conns[fd].pump().0, ..w.session(fd) };
        lemma_put_balanced(w, fd, s);
        if w.pump(fd).1 {
            assert(w.pump(fd).0.server =~= w.server);
        }
    }
}

/// A world without a connection is balanced.
pub proof fn lemma_dropped_balanced(w: World, fd: i32)
    requires
        w.balanced(),
    ensures
        w.dropped(fd).balanced(),
        !w.dropped(fd).server.conns.contains_key(fd),
        forall|next: u64| w.known(next) ==> w.dropped(fd).known(next),
{
    let after = w.dropped(fd);
    if w.server.conns.contains_key(fd) {
        let gone = w.server.conns[fd];
        assert(w.accounted(gone));
        assert forall|other: i32| #[trigger] after.server.conns.contains_key(other) implies {
            &&& after.server.by_id.contains_key(after.server.conns[other].id)
            &&& after.server.by_id[after.server.conns[other].id] == other
            &&& after.accounted(after.server.conns[other])
        } by {
            assert(w.server.conns.contains_key(other));
            assert(w.accounted(w.server.conns[other]));
        }
    }
}

/// Retiring a connection leaves the world balanced.
pub proof fn lemma_retire_balanced(w: World, fd: i32, code: u16)
    requires
        w.balanced(),
    ensures
        w.retire(fd, code).balanced(),
        !w.retire(fd, code).server.conns.contains_key(fd),
        forall|next: u64| w.known(next) ==> w.retire(fd, code).known(next),
{
    lemma_dropped_balanced(w, fd);
    let dropped = w.dropped(fd);
    let after = w.retire(fd, code);
    assert(after.server.conns == dropped.server.conns);
    assert(after.server.by_id == dropped.server.by_id);
    assert(after.bridge == dropped.bridge);
    assert forall|other: i32| #[trigger] after.server.conns.contains_key(other) implies
        after.accounted(after.server.conns[other]) by {
        assert(dropped.accounted(dropped.server.conns[other]));
    }
}

/// Pumping a connection and forgetting it if it is being closed leaves the
/// world balanced.
pub proof fn lemma_pump_or_retire_balanced(w: World, fd: i32)
    requires
        w.balanced(),
    ensures
        w.pump_or_retire(fd).balanced(),
        forall|next: u64| w.known(next) ==> w.pump_or_retire(fd).known(next),
{
    lemma_pump_balanced(w, fd);
    lemma_retire_balanced(w.pump(fd).0, fd, 1000);
}

/// Pumping connections one after the other leaves the world balanced.
pub proof fn lemma_pump_each_balanced(w: World, fds: Seq<i32>)
    requires
        w.balanced(),
    ensures
        w.pump_each(fds).balanced(),
        forall|next: u64| w.known(next) ==> w.pump_each(fds).known(next),
    decreases fds.len(),
{
    if fds.len() > 0 {
        lemma_pump_each_balanced(w, fds.drop_last());
        lemma_pump_or_retire_balanced(w.pump_each(fds.drop_last()), fds.last());
    }
}

/// Carrying out the oldest command leaves the world balanced: what it was
/// charged passes from the queue to the connection's buffer, or is given back.
pub proof fn lemma_command_balanced(w: World)
    requires
        w.balanced(),
        w.bridge.queue.len() > 0,
    ensures
        w.unqueued().command(w.bridge.queue.first()).balanced(),
        forall|next: u64|
            w.known(next) ==> w.unqueued().command(w.bridge.queue.first()).known(next),
{
    let command = w.bridge.queue.first();
    let rest = w.unqueued();
    let after = rest.command(command);
    assert(w.bridge.queue[0] == command);
    assert forall|i: int| 0 <= i < rest.bridge.queue.len() implies #[trigger] rest.bridge.queue[i]
        == w.bridge.queue[i + 1] by {}
    assert forall|other: i32| #[trigger] after.server.conns.contains_key(other) implies {
        &&& after.server.by_id.contains_key(after.server.conns[other].id)
        &&& after.server.by_id[after.server.conns[other].id] == other
        &&& after.accounted(after.server.conns[other])
    } by {
        assert(w.server.conns.contains_key(other));
        assert(w.accounted(w.server.conns[other]));
        lemma_queued_charge_push(rest.bridge.queue, command, w.server.conns[other].id);
        match command {
            CmdView::Send { id, data, binary } => {
                crate::conn::lemma_server_frame_len(crate::wire::BINARY, data);
                crate::conn::lemma_server_frame_len(crate::wire::TEXT, data);
            },
            CmdView::Close { .. } => {},
        }
    }
    assert forall|next: u64| w.known(next) implies after.known(next) by {
        assert forall|i: int| 0 <= i < after.bridge.queue.len() implies (
        #[trigger] after.bridge.queue[i] matches CmdView::Send { id, .. } ==> id < next) by {
            assert(after.bridge.queue[i] == w.bridge.queue[i + 1]);
        }
    }
}

/// Carrying out every command leaves the world balanced and the queue empty.
pub proof fn lemma_drain_commands_balanced(w: World)
    requires
        w.balanced(),
    ensures
        w.drain_commands().balanced(),
        w.drain_commands().bridge.queue.len() == 0,
        forall|next: u64| w.known(next) ==> w.drain_commands().known(next),
    decreases w.bridge.queue.len(),
{
    if w.bridge.queue.len() > 0 {
        lemma_command_balanced(w);
        lemma_drain_commands_balanced(w.unqueued().command(w.bridge.queue.first()));
    }
}

/// A queue that holds no message for a connection is charged nothing for it.
pub proof fn lemma_queued_charge_none(queue: Seq<CmdView>, id: u64)
    requires
        forall|i: int|
            0 <= i < queue.len() ==> (#[trigger] queue[i] matches CmdView::Send { id: to, .. }
                ==> to != id),
    ensures
        queued_charge(queue, id) == 0,
    decreases queue.len(),
{
    if queue.len() > 0 {
        assert(queue.first() == queue[0]);
        let rest = queue.drop_first();
        assert forall|i: int| 0 <= i < rest.len() implies (#[trigger] rest[i] matches
            CmdView::Send { id: to, .. } ==> to != id) by {
            assert(rest[i] == queue[i + 1]);
        }
        lemma_queued_charge_none(rest, id);
    }
}

/// A new connection under an id that was never given out leaves the world
/// balanced.
pub proof fn lemma_accepted_balanced(w: World, fd: i32, id: u64)
    requires
        w.balanced(),
        w.known(id),
        id < u64::MAX,
    ensures
        w.accepted(fd, id).balanced(),
        w.accepted(fd, id).known((id + 1) as u64),
{
    lemma_dropped_balanced(w, fd);
    let free = w.dropped(fd);
    let after = w.accepted(fd, id);
    lemma_queued_charge_none(free.bridge.queue, id);
    assert(!free.server.by_id.contains_key(id)) by {
        if free.server.by_id.contains_key(id) {
            assert(free.accounted(free.server.conns[free.server.by_id[id]]));
        }
    }
    assert forall|other: i32| #[trigger] after.server.conns.contains_key(other) implies {
        &&& after.server.by_id.contains_key(after.server.conns[other].id)
        &&& after.server.by_id[after.server.conns[other].id] == other
        &&& after.accounted(after.server.conns[other])
    } by {
        if other != fd {
            assert(free.server.conns.contains_key(other));
            assert(free.accounted(free.server.conns[other]));
        }
    }
}

/// Whether two worlds are the same but for the decoder of the connection on a
/// descriptor, and for that only where its conversation is over.
pub open spec fn alike_at(a: World, b: World, fd: i32) -> bool {
    &&& a.bridge == b.bridge
    &&& a.actions == b.actions
    &&& if a.server.conns.contains_key(fd) {
        &&& b.server.conns.contains_key(fd)
        &&& alike(a.session(fd), b.session(fd))
        &&& a.server == (ServerView {
            conns: b.server.conns.insert(fd, a.server.conns[fd]),
            ..b.server
        })
    } else {
        a.server == b.server
    }
}

/// What two reads of one connection come to, cut or not, is alike for the world
/// where it is alike for the connection.
proof fn lemma_cut_alike(w: World, fd: i32, bytes: Seq<u8>, more: Seq<u8>)
    requires
        w.balanced(),
        w.server.conns.contains_key(fd),
        alike(
            w.session(fd).on_bytes(w.server.config, bytes + more),
            w.session(fd).on_bytes(w.server.config, bytes).on_bytes(w.server.config, more),
        ),
    ensures
        alike_at(w.on_bytes(fd, bytes + more), w.on_bytes(fd, bytes).on_bytes(fd, more), fd),
{
    let config = w.server.config;
    lemma_session_wf(w, fd);
    lemma_on_bytes_follows(w.session(fd), config, bytes);
    lemma_on_bytes_follows(w.session(fd), config, bytes + more);
    let after = w.on_bytes(fd, bytes);
    assert(after.session(fd) == w.session(fd).on_bytes(config, bytes));
    lemma_on_bytes_follows(after.session(fd), config, more);
    let once = w.on_bytes(fd, bytes + more);
    let cut = after.on_bytes(fd, more);
    assert(once.session(fd) == w.session(fd).on_bytes(config, bytes + more));
    assert(cut.session(fd) == after.session(fd).on_bytes(config, more));
    assert(once.bridge.states =~= cut.bridge.states);
    assert(once.server.conns =~= cut.server.conns.insert(fd, once.server.conns[fd]));
}

/// The server and the bridge with nothing asked of the driver.
pub open spec fn quiet(server: Server, bridge: Bridge) -> World {
    world(server, bridge, Seq::empty())
}

impl Server {
    /// A server with no connections yet.
    pub fn new(
        listener: i32,
        wake: i32,
        config: Config,
        dispatching: bool,
        errnos: Errnos,
    ) -> (server: Server)
        ensures
            server@ == (ServerView {
                conns: Map::empty(),
                by_id: Map::empty(),
                config,
                dispatching,
                events: Seq::empty(),
                listener,
                wake,
                errnos,
            }),
    {
        let server = Server {
            conns: HashMap::new(),
            by_id: HashMap::new(),
            config,
            dispatching,
            events: Vec::new(),
            listener,
            wake,
            errnos,
        };
        assert(server@.conns =~= Map::empty());
        assert(server@.events =~= Seq::empty());
        server
    }

    /// Take a connection out, to change it.
    fn lift(&mut self, fd: i32) -> (conn: Option<Conn>)
        ensures
            match conn {
                Some(conn) => old(self)@.conns.contains_key(fd) && conn@ == old(self)@.conns[fd],
                None => !old(self)@.conns.contains_key(fd),
            },
            final(self)@ == (ServerView { conns: old(self)@.conns.remove(fd), ..old(self)@ }),
    {
        let conn: Option<Conn> = self.conns.remove(&fd);
        assert(self@.conns =~= old(self)@.conns.remove(fd));
        conn
    }

    /// Put a connection in.
    fn lay(&mut self, fd: i32, conn: Conn)
        ensures
            final(self)@ == (ServerView {
                conns: old(self)@.conns.insert(fd, conn@),
                ..old(self)@
            }),
    {
        self.conns.insert(fd, conn);
        assert(self@.conns =~= old(self)@.conns.insert(fd, conn@));
    }

    /// Plaintext bytes off the wire. How the stream is cut into reads makes no
    /// difference: had more bytes come along with these, that would have come to
    /// what they come to now. An upgrade with nothing behind it is answered and
    /// told to Node, and the conversation goes on.
    pub fn on_bytes(&mut self, bridge: &mut Bridge, fd: i32, bytes: &[u8])
        requires
            quiet(*old(self), *old(bridge)).balanced(),
        ensures
            quiet(*final(self), *final(bridge)) == quiet(*old(self), *old(bridge)).on_bytes(
                fd,
                bytes@,
            ),
            quiet(*final(self), *final(bridge)).balanced(),
            old(self)@.conns.contains_key(fd) && upgrades_alone(old(self)@.conns[fd], bytes@)
                ==> quiet(*final(self), *final(bridge)) == quiet(*old(self), *old(bridge)).put(
                fd,
                quiet(*old(self), *old(bridge)).session(fd).upgraded(
                    upgrade_answer(
                        old(self)@.conns[fd].request->Some_0 + bytes@,
                    )->Ok_0->Some_0.0,
                ),
            ),
            forall|more: Seq<u8>|
                alike_at(
                    #[trigger] quiet(*old(self), *old(bridge)).on_bytes(fd, bytes@ + more),
                    quiet(*final(self), *final(bridge)).on_bytes(fd, more),
                    fd,
                ),
    {
        let ghost before = quiet(*self, *bridge);
        if let Some(mut conn) = self.lift(fd) {
            proof {
                lemma_session_wf(before, fd);
                assert(before.accounted(before.server.conns[fd]));
                lemma_on_bytes_follows(before.session(fd), before.server.config, bytes@);
                lemma_put_balanced(
                    before,
                    fd,
                    before.session(fd).on_bytes(before.server.config, bytes@),
                );
            }
            let id: u64 = conn.id();
            if let Some(mut state) = bridge.state(id) {
                assert(session(conn, state, self.events@) == before.session(fd));
                conn.on_bytes(&mut state, &mut self.events, self.config, bytes);
                bridge.set_state(id, state);
                self.lay(fd, conn);
            }
            assert(self@.conns =~= before.on_bytes(fd, bytes@).server.conns);
            proof {
                let after = quiet(*self, *bridge);
                assert(after =~= before.on_bytes(fd, bytes@));
                assert forall|more: Seq<u8>|
                    alike_at(
                        #[trigger] before.on_bytes(fd, bytes@ + more),
                        after.on_bytes(fd, more),
                        fd,
                    ) by {
                    lemma_cut_alike(before, fd, bytes@, more);
                }
            }
        } else {
            assert(self@.conns =~= before.server.conns);
        }
    }
}

impl Server {
    /// The descriptors of all connections, in no particular order.
    fn fds(&self) -> (fds: Vec<i32>)
        ensures
            fds@.no_duplicates(),
            fds@.to_set() == self@.conns.dom(),
    {
        let mut fds: Vec<i32> = Vec::new();
        let keys = self.conns.keys();
        let ghost all = IteratorSpec::remaining(&keys);
        for fd in iter: keys
            invariant
                iter.seq() == all,
                fds@.len() == iter.index(),
                forall|i: int| 0 <= i < fds@.len() ==> fds@[i] == *all[i],
        {
            fds.push(*fd);
        }
        assert(fds@ =~= all.unref());
        assert(self@.conns.dom() =~= self.conns@.dom());
        fds
    }
}

impl World {
    /// What a finished read does: `n` bytes that came in `buf`, or an error.
    ///
    /// Whatever came is answered in place where that applies, and goes to the
    /// connection otherwise; then the connection is pumped and read again,
    /// unless it is closing. At the end of the stream or on an error the
    /// connection is retired: the peer went without a close frame, which is 1006
    /// by convention.
    pub open spec fn read(
        self,
        fd: i32,
        result: Result<i64, Option<i32>>,
        buf: Option<Seq<u8>>,
    ) -> World {
        if result matches Err(Some(errno)) && errno == self.server.errnos.canceled {
            self
        } else if result matches Ok(n) && n > 0 && buf is Some {
            let taken = self.read_bytes(fd, buf->Some_0);
            let more = taken.server.conns.contains_key(fd)
                && !taken.server.conns[fd].close_when_flushed;
            let (pumped, gone) = taken.pump(fd);
            if gone {
                pumped.retire(fd, 1000)
            } else if more {
                pumped.submit(OpView::ReadPooled { fd }, KIND_READ, fd)
            } else {
                pumped
            }
        } else {
            self.recycle(buf).retire(fd, 1006).submit(OpView::Close { fd }, KIND_CLOSE, fd)
        }
    }

    /// What the bytes of a read do.
    pub open spec fn read_bytes(self, fd: i32, bytes: Seq<u8>) -> World {
        if self.server.config.native_echo && bytes.len() > NATIVE_FUSED_MIN_READ {
            if self.server.conns.contains_key(fd) {
                let (s, read) = self.session(fd).echo_read(self.server.config, fd, bytes);
                let tried = self.put(fd, s);
                match read {
                    NativeEchoReadView::Unclaimed(left) => tried.on_bytes(fd, left).recycle(
                        Some(left),
                    ),
                    NativeEchoReadView::Submitted(op) => tried.submit(op, KIND_WRITE, fd),
                    NativeEchoReadView::Rejected(held) => tried.recycle(Some(held)),
                }
            } else {
                self.recycle(Some(bytes))
            }
        } else {
            self.on_bytes(fd, bytes).recycle(Some(bytes))
        }
    }

    /// What a finished write does: what it was charged is given back, and the
    /// connection is pumped.
    pub open spec fn wrote(self, fd: i32, failed: bool, buf: Option<Seq<u8>>) -> World {
        let recycled = self.recycle(buf);
        let settled = if self.server.conns.contains_key(fd) {
            let s = self.session(fd);
            recycled.put(
                fd,
                Session {
                    conn: s.conn.written(failed),
                    state: s.state.refund(s.conn.written_refund(failed)),
                    ..s
                },
            )
        } else {
            recycled
        };
        settled.pump_or_retire(fd)
    }

    /// The world with the wake marked as consumed.
    pub open spec fn marked(self, buf: Option<Seq<u8>>) -> World {
        World {
            bridge: BridgeView { wake_pending: false, ..self.bridge },
            ..self.recycle(buf)
        }
    }

    /// What a wake does, with the connections pumped in this order: everything
    /// queued is carried out, every connection is pumped, and the wake pipe is
    /// read again.
    pub open spec fn woken(self, buf: Option<Seq<u8>>, order: Seq<i32>) -> World {
        self.marked(buf).drain_commands().pump_each(order).submit(
            OpView::ReadPooled { fd: self.server.wake },
            KIND_WAKE,
            self.server.wake,
        )
    }

    /// Whether this is an order of all connections, each once.
    pub open spec fn pump_order(self, order: Seq<i32>) -> bool {
        &&& order.no_duplicates()
        &&& order.to_set() == self.server.conns.dom()
    }

    /// The listening socket is asked for the next connection.
    pub open spec fn listen(self) -> World {
        self.submit(
            OpView::Accept { fd: self.server.listener },
            KIND_ACCEPT,
            self.server.listener,
        )
    }

    /// What a new connection does: the listener is asked for the next one, and
    /// the connection is read.
    pub open spec fn accept(self, fd: i32, id: u64) -> World {
        self.listen().accepted(fd, id).submit(OpView::ReadPooled { fd }, KIND_READ, fd)
    }
}

/// Marking the wake leaves the world balanced.
pub proof fn lemma_marked_balanced(w: World, buf: Option<Seq<u8>>)
    requires
        w.balanced(),
    ensures
        w.marked(buf).balanced(),
        forall|next: u64| w.known(next) ==> w.marked(buf).known(next),
{
    let marked = w.marked(buf);
    assert forall|fd: i32| #[trigger] marked.server.conns.contains_key(fd) implies
        marked.accounted(marked.server.conns[fd]) by {
        assert(w.accounted(w.server.conns[fd]));
    }
}

/// Carrying out commands brings no connection and takes none away.
pub proof fn lemma_drain_commands_conns(w: World)
    requires
        w.balanced(),
    ensures
        w.drain_commands().server.conns.dom() == w.server.conns.dom(),
        w.drain_commands().server.wake == w.server.wake,
    decreases w.bridge.queue.len(),
{
    if w.bridge.queue.len() > 0 {
        let after = w.unqueued().command(w.bridge.queue.first());
        lemma_command_balanced(w);
        assert(after.server.conns.dom() =~= w.server.conns.dom());
        lemma_drain_commands_conns(after);
    }
}

impl Server {
    /// Submit whatever this connection has pending. Returns true once it is
    /// being closed and should be forgotten.
    pub fn pump(&mut self, bridge: &Bridge, actions: &mut Vec<Action>, fd: i32) -> (gone: bool)
        requires
            world(*old(self), *bridge, old(actions)@).balanced(),
            actions_wf(old(actions)@),
        ensures
            (world(*final(self), *bridge, final(actions)@), gone) == world(
                *old(self),
                *bridge,
                old(actions)@,
            ).pump(fd),
            actions_wf(final(actions)@),
    {
        let ghost before = world(*self, *bridge, actions@);
        if let Some(mut conn) = self.lift(fd) {
            assert(before.accounted(before.server.conns[fd]));
            let pump: Pump = conn.pump();
            self.lay(fd, conn);
            let ghost pumped = before.put(
                fd,
                Session { conn: conn@, ..before.session(fd) },
            );
            assert(pumped.server =~= self@);
            assert(pumped.bridge.states =~= before.bridge.states);
            match pump {
                Pump::Idle => {
                    assert(pumped =~= world(*self, *bridge, actions@));
                    false
                },
                Pump::Write(buf) => {
                    actions.push(
                        Action::Submit { op: Op::Write { fd, buf }, user: tag(KIND_WRITE, fd) },
                    );
                    assert(world(*self, *bridge, actions@) =~= before.pump(fd).0);
                    false
                },
                Pump::Close => {
                    actions.push(
                        Action::Submit { op: Op::Close { fd }, user: tag(KIND_CLOSE, fd) },
                    );
                    assert(world(*self, *bridge, actions@) =~= before.pump(fd).0);
                    true
                },
            }
        } else {
            assert(self@.conns =~= before.server.conns);
            false
        }
    }

    /// Forget a connection. Node is not told.
    fn drop_conn(&mut self, bridge: &mut Bridge, fd: i32) -> (opened: Option<u64>)
        requires
            quiet(*old(self), *old(bridge)).balanced(),
        ensures
            quiet(*final(self), *final(bridge)) == quiet(*old(self), *old(bridge)).dropped(fd),
            opened == if old(self)@.conns.contains_key(fd) && old(self)@.conns[fd].opened {
                Some(old(self)@.conns[fd].id)
            } else {
                None
            },
    {
        let ghost before = quiet(*self, *bridge);
        if let Some(conn) = self.lift(fd) {
            assert(before.accounted(before.server.conns[fd]));
            let id: u64 = conn.id();
            self.by_id.remove(&id);
            let opened: Option<u64> = if conn.opened() {
                if let Some(mut state) = bridge.state(id) {
                    state.close();
                    bridge.set_state(id, state);
                }
                Some(id)
            } else {
                bridge.drop_state(id);
                None
            };
            assert(quiet(*self, *bridge) =~= before.dropped(fd));
            opened
        } else {
            assert(self@.conns =~= before.server.conns);
            None
        }
    }

    /// Tell Node a connection is gone and forget it. Node is only told of
    /// connections that were reported open, so it never sees a close it has no
    /// open for.
    pub fn retire(&mut self, bridge: &mut Bridge, fd: i32, code: u16)
        requires
            quiet(*old(self), *old(bridge)).balanced(),
        ensures
            quiet(*final(self), *final(bridge)) == quiet(*old(self), *old(bridge)).retire(fd, code),
            quiet(*final(self), *final(bridge)).balanced(),
    {
        let ghost before = quiet(*self, *bridge);
        proof {
            lemma_retire_balanced(before, fd, code);
        }
        if let Some(id) = self.drop_conn(bridge, fd) {
            let ghost told = self@.events;
            self.events.push(JsEvent::Close { id, code });
            assert(self@.events =~= told.push(JsEventView::Close { id, code }));
        }
        assert(quiet(*self, *bridge) =~= before.retire(fd, code));
    }

    /// Carry out one command.
    fn command(&mut self, bridge: &mut Bridge, command: Cmd)
        requires
            exists|before: World|
                {
                    &&& #[trigger] before.balanced()
                    &&& before.bridge.queue.len() > 0
                    &&& before.bridge.queue.first() == command@
                    &&& before.unqueued() == quiet(*old(self), *old(bridge))
                },
        ensures
            quiet(*final(self), *final(bridge)) == quiet(*old(self), *old(bridge)).command(
                command@,
            ),
    {
        let ghost rest = quiet(*self, *bridge);
        let ghost before = choose|before: World|
            {
                &&& #[trigger] before.balanced()
                &&& before.bridge.queue.len() > 0
                &&& before.bridge.queue.first() == command@
                &&& before.unqueued() == rest
            };
        assert(before.bridge.queue[0] == command@);
        match command {
            Cmd::Send { id, data, binary } => {
                let known: Option<i32> = match self.by_id.get(&id) {
                    Some(fd) => Some(*fd),
                    None => None,
                };
                if let Some(fd) = known {
                    assert(before.server.by_id.contains_key(id));
                    assert(before.accounted(before.server.conns[fd]));
                    proof {
                        lemma_queued_charge_push(rest.bridge.queue, command@, id);
                    }
                    if let Some(mut conn) = self.lift(fd) {
                        if let Some(mut state) = bridge.state(id) {
                            conn.deliver(&mut state, data, binary);
                            bridge.set_state(id, state);
                            self.lay(fd, conn);
                        }
                    }
                    assert(quiet(*self, *bridge) =~= rest.command(command@));
                }
            },
            Cmd::Close { id } => {
                let known: Option<i32> = match self.by_id.get(&id) {
                    Some(fd) => Some(*fd),
                    None => None,
                };
                if let Some(fd) = known {
                    assert(before.server.by_id.contains_key(id));
                    assert(before.accounted(before.server.conns[fd]));
                    if let Some(mut conn) = self.lift(fd) {
                        conn.send_close(1000);
                        self.lay(fd, conn);
                    }
                    assert(quiet(*self, *bridge) =~= rest.command(command@));
                }
            },
        }
    }

    /// Carry out everything JavaScript has queued since the last wake.
    pub fn drain_commands(&mut self, bridge: &mut Bridge)
        requires
            quiet(*old(self), *old(bridge)).balanced(),
        ensures
            quiet(*final(self), *final(bridge)) == quiet(
                *old(self),
                *old(bridge),
            ).drain_commands(),
            quiet(*final(self), *final(bridge)).balanced(),
            final(bridge)@.queue.len() == 0,
    {
        let ghost target = quiet(*self, *bridge).drain_commands();
        proof {
            lemma_drain_commands_balanced(quiet(*self, *bridge));
        }
        loop
            invariant
                quiet(*self, *bridge).balanced(),
                quiet(*self, *bridge).drain_commands() == target,
                target == quiet(*old(self), *old(bridge)).drain_commands(),
                target.balanced(),
                target.bridge.queue.len() == 0,
            decreases bridge@.queue.len(),
        {
            let ghost before = quiet(*self, *bridge);
            match bridge.next_command() {
                Some(command) => {
                    assert(before.unqueued() =~= quiet(*self, *bridge));
                    proof {
                        lemma_command_balanced(before);
                    }
                    self.command(bridge, command);
                },
                None => {
                    return;
                },
            }
        }
    }
}

/// What a finished read does leaves the world balanced.
pub proof fn lemma_read_bytes_balanced(w: World, fd: i32, bytes: Seq<u8>)
    requires
        w.balanced(),
    ensures
        w.read_bytes(fd, bytes).balanced(),
        forall|next: u64| w.known(next) ==> w.read_bytes(fd, bytes).known(next),
{
    if w.server.conns.contains_key(fd) {
        lemma_session_wf(w, fd);
        lemma_on_bytes_follows(w.session(fd), w.server.config, bytes);
        lemma_put_balanced(w, fd, w.session(fd).on_bytes(w.server.config, bytes));
        lemma_echo_read_keeps(w.session(fd), w.server.config, fd, bytes);
        let (s, read) = w.session(fd).echo_read(w.server.config, fd, bytes);
        let tried = w.put(fd, s);
        lemma_put_balanced(w, fd, s);
        if read is Unclaimed {
            assert(read->Unclaimed_0 == bytes);
            lemma_session_wf(tried, fd);
            lemma_on_bytes_follows(tried.session(fd), w.server.config, bytes);
            lemma_put_balanced(tried, fd, tried.session(fd).on_bytes(w.server.config, bytes));
        }
    }
}

/// Settling a finished write leaves the world balanced.
pub proof fn lemma_wrote_balanced(w: World, fd: i32, failed: bool, buf: Option<Seq<u8>>)
    requires
        w.balanced(),
    ensures
        w.wrote(fd, failed, buf).balanced(),
        forall|next: u64| w.known(next) ==> w.wrote(fd, failed, buf).known(next),
{
    let recycled = w.recycle(buf);
    if w.server.conns.contains_key(fd) {
        lemma_session_wf(w, fd);
        let s = w.session(fd);
        let settled = Session {
            conn: s.conn.written(failed),
            state: s.state.refund(s.conn.written_refund(failed)),
            ..s
        };
        lemma_put_balanced(recycled, fd, settled);
        lemma_pump_or_retire_balanced(recycled.put(fd, settled), fd);
    } else {
        lemma_pump_or_retire_balanced(recycled, fd);
    }
}

/// Whether the fast lane, where it is tried with bytes, answers them as the stream
/// would, as far as the budget has room for the answers together.
pub open spec fn lane_holds(w: World, fd: i32, bytes: Seq<u8>) -> bool {
    let before = w.session(fd);
    let (after, read) = before.echo_read(w.server.config, fd, bytes);
    w.server.conns.contains_key(fd) && w.server.config.native_echo && bytes.len()
        > NATIVE_FUSED_MIN_READ && batch_fits(before, bytes) ==> lanes_agree(
        before,
        w.server.config,
        bytes,
        read,
        after,
    )
}

/// Whether the streaming decoder, where it takes bytes, sees them as one part of
/// the stream: more bytes come to the same with them or behind them.
pub open spec fn stream_holds(w: World, fd: i32, bytes: Seq<u8>) -> bool {
    w.server.conns.contains_key(fd) && streamed_read(w, fd, bytes) ==> forall|more: Seq<u8>|
        alike(
            #[trigger] w.session(fd).on_bytes(w.server.config, bytes + more),
            w.session(fd).on_bytes(w.server.config, bytes).on_bytes(w.server.config, more),
        )
}

/// A finished read does what it is for.
proof fn lemma_read_does_right(w: World, fd: i32, n: i64, bytes: Seq<u8>)
    requires
        w.balanced(),
        n > 0,
        lane_holds(w, fd, bytes),
        stream_holds(w, fd, bytes),
    ensures
        read_does_right(w, fd, Ok(n), Some(bytes), w.read(fd, Ok(n), Some(bytes))),
{
    if w.server.conns.contains_key(fd) {
        let before = w.session(fd);
        lemma_session_wf(w, fd);
        lemma_echo_read_keeps(before, w.server.config, fd, bytes);
        if streamed_read(w, fd, bytes) {
            lemma_read_is_answered(w, fd, n, bytes);
            lemma_stream_goes_on(w, fd, n, bytes);
        } else if batch_fits(before, bytes) {
            lemma_read_is_answered(w, fd, n, bytes);
        }
    }
}

/// What `Server::on_bytes` says of the world, said of the connection.
proof fn lemma_stream_holds(w: World, here: World, after: World, fd: i32, bytes: Seq<u8>)
    requires
        w.server.conns.contains_key(fd) ==> here.server.conns.contains_key(fd) && here.session(fd)
            == w.session(fd),
        here.server.config == w.server.config,
        after == here.on_bytes(fd, bytes),
        forall|more: Seq<u8>|
            alike_at(
                #[trigger] here.on_bytes(fd, bytes + more),
                after.on_bytes(fd, more),
                fd,
            ),
    ensures
        stream_holds(w, fd, bytes),
{
    if w.server.conns.contains_key(fd) {
        let config = w.server.config;
        let s = w.session(fd).on_bytes(config, bytes);
        assert(after.session(fd) == s);
        assert forall|more: Seq<u8>|
            alike(
                #[trigger] w.session(fd).on_bytes(config, bytes + more),
                s.on_bytes(config, more),
            ) by {
            let once = here.on_bytes(fd, bytes + more);
            let then = after.on_bytes(fd, more);
            assert(alike_at(once, then, fd));
            assert(once.session(fd) == w.session(fd).on_bytes(config, bytes + more));
            assert(then.session(fd) == s.on_bytes(config, more));
        }
    }
}

impl Server {
    /// A read on a connection is done. The bytes are answered in place where
    /// that applies, and go to the connection otherwise.
    fn read_bytes(
        &mut self,
        bridge: &mut Bridge,
        actions: &mut Vec<Action>,
        fd: i32,
        buf: Vec<u8>,
    )
        requires
            world(*old(self), *old(bridge), old(actions)@).balanced(),
            actions_wf(old(actions)@),
        ensures
            world(*final(self), *final(bridge), final(actions)@) == world(
                *old(self),
                *old(bridge),
                old(actions)@,
            ).read_bytes(fd, buf@),
            actions_wf(final(actions)@),
            lane_holds(world(*old(self), *old(bridge), old(actions)@), fd, buf@),
            stream_holds(world(*old(self), *old(bridge), old(actions)@), fd, buf@),
    {
        let ghost before = world(*self, *bridge, actions@);
        let ghost bytes = buf@;
        proof {
            lemma_read_bytes_balanced(before, fd, bytes);
            assert(quiet(*self, *bridge).balanced());
        }
        if !(self.config.native_echo && buf.len() > NATIVE_FUSED_MIN_READ) {
            let ghost here = quiet(*self, *bridge);
            self.on_bytes(bridge, fd, buf.as_slice());
            proof {
                lemma_stream_holds(before, here, quiet(*self, *bridge), fd, bytes);
            }
            actions.push(Action::Recycle { buf });
            assert(world(*self, *bridge, actions@) =~= before.read_bytes(fd, bytes));
            return;
        }
        if let Some(mut conn) = self.lift(fd) {
            proof {
                lemma_session_wf(before, fd);
                lemma_echo_read_keeps(before.session(fd), before.server.config, fd, bytes);
                lemma_put_balanced(
                    before,
                    fd,
                    before.session(fd).echo_read(before.server.config, fd, bytes).0,
                );
                assert(before.accounted(before.server.conns[fd]));
            }
            let id: u64 = conn.id();
            if let Some(mut state) = bridge.state(id) {
                assert(session(conn, state, self.events@) == before.session(fd));
                let read: NativeEchoRead = conn.try_native_echo_read(
                    &mut state,
                    &mut self.events,
                    self.config,
                    fd,
                    buf,
                );
                bridge.set_state(id, state);
                self.lay(fd, conn);
                let ghost tried = before.put(
                    fd,
                    before.session(fd).echo_read(before.server.config, fd, bytes).0,
                );
                assert(world(*self, *bridge, actions@) =~= tried);
                match read {
                    NativeEchoRead::Unclaimed(buf) => {
                        let ghost here = quiet(*self, *bridge);
                        assert(here.balanced());
                        self.on_bytes(bridge, fd, buf.as_slice());
                        proof {
                            lemma_stream_holds(before, here, quiet(*self, *bridge), fd, bytes);
                        }
                        actions.push(Action::Recycle { buf });
                    },
                    NativeEchoRead::Submitted(op) => {
                        actions.push(Action::Submit { op, user: tag(KIND_WRITE, fd) });
                    },
                    NativeEchoRead::Rejected(buf) => {
                        actions.push(Action::Recycle { buf });
                    },
                }
                assert(world(*self, *bridge, actions@) =~= before.read_bytes(fd, bytes));
            }
        } else {
            actions.push(Action::Recycle { buf });
            assert(world(*self, *bridge, actions@) =~= before.read_bytes(fd, bytes));
        }
    }

    /// A read on a connection is done.
    pub fn on_read(
        &mut self,
        bridge: &mut Bridge,
        actions: &mut Vec<Action>,
        fd: i32,
        result: Result<i64, Option<i32>>,
        buf: Option<Vec<u8>>,
    )
        requires
            world(*old(self), *old(bridge), old(actions)@).balanced(),
            actions_wf(old(actions)@),
        ensures
            world(*final(self), *final(bridge), final(actions)@) == world(
                *old(self),
                *old(bridge),
                old(actions)@,
            ).read(fd, result, buffer_view(buf)),
            world(*final(self), *final(bridge), final(actions)@).balanced(),
            actions_wf(final(actions)@),
            read_does_right(
                world(*old(self), *old(bridge), old(actions)@),
                fd,
                result,
                buffer_view(buf),
                world(*final(self), *final(bridge), final(actions)@),
            ),
    {
        let ghost before = world(*self, *bridge, actions@);
        if let Err(Some(errno)) = result {
            if errno == self.errnos.canceled {
                return;
            }
        }
        match (result, buf) {
            (Ok(n), Some(buf)) if n > 0 => {
                let ghost taken = before.read_bytes(fd, buf@);
                proof {
                    lemma_read_bytes_balanced(before, fd, buf@);
                    lemma_pump_balanced(taken, fd);
                    lemma_retire_balanced(taken.pump(fd).0, fd, 1000);
                }
                let ghost bytes = buf@;
                self.read_bytes(bridge, actions, fd, buf);
                proof {
                    lemma_read_does_right(before, fd, n, bytes);
                }
                let more: bool = self.reads_on(fd);
                if self.pump(bridge, actions, fd) {
                    let ghost pumped = world(*self, *bridge, actions@);
                    assert(quiet(*self, *bridge).balanced());
                    self.retire(bridge, fd, 1000);
                    assert(world(*self, *bridge, actions@) =~= pumped.retire(fd, 1000));
                } else if more {
                    let ghost pumped = world(*self, *bridge, actions@);
                    actions.push(
                        Action::Submit { op: Op::ReadPooled { fd }, user: tag(KIND_READ, fd) },
                    );
                    assert(world(*self, *bridge, actions@) =~= pumped.submit(
                        OpView::ReadPooled { fd },
                        KIND_READ,
                        fd,
                    ));
                }
            },
            (_, buf) => {
                // End of stream or a dead connection: the peer went without a
                // close frame, which is 1006 by convention.
                self.on_gone(bridge, actions, fd, buf);
            },
        }
    }

    /// The peer of a connection went without a close frame.
    fn on_gone(
        &mut self,
        bridge: &mut Bridge,
        actions: &mut Vec<Action>,
        fd: i32,
        buf: Option<Vec<u8>>,
    )
        requires
            world(*old(self), *old(bridge), old(actions)@).balanced(),
            actions_wf(old(actions)@),
        ensures
            world(*final(self), *final(bridge), final(actions)@) == world(
                *old(self),
                *old(bridge),
                old(actions)@,
            ).recycle(buffer_view(buf)).retire(fd, 1006).submit(
                OpView::Close { fd },
                KIND_CLOSE,
                fd,
            ),
            world(*final(self), *final(bridge), final(actions)@).balanced(),
            actions_wf(final(actions)@),
    {
        let ghost before = world(*self, *bridge, actions@);
        let ghost recycled = before.recycle(buffer_view(buf));
        if let Some(buf) = buf {
            actions.push(Action::Recycle { buf });
        }
        assert(world(*self, *bridge, actions@) =~= recycled);
        proof {
            lemma_retire_balanced(recycled, fd, 1006);
            assert(quiet(*self, *bridge).balanced());
        }
        self.retire(bridge, fd, 1006);
        assert(world(*self, *bridge, actions@) =~= recycled.retire(fd, 1006));
        actions.push(Action::Submit { op: Op::Close { fd }, user: tag(KIND_CLOSE, fd) });
        assert(world(*self, *bridge, actions@) =~= recycled.retire(fd, 1006).submit(
            OpView::Close { fd },
            KIND_CLOSE,
            fd,
        ));
    }

    /// Whether a connection is there and not closing.
    fn reads_on(&self, fd: i32) -> (more: bool)
        ensures
            more == (self@.conns.contains_key(fd) && !self@.conns[fd].close_when_flushed),
    {
        match self.conns.get(&fd) {
            Some(conn) => !conn.closing(),
            None => false,
        }
    }

    /// A write on a connection is done.
    pub fn on_write(
        &mut self,
        bridge: &mut Bridge,
        actions: &mut Vec<Action>,
        fd: i32,
        failed: bool,
        buf: Option<Vec<u8>>,
    )
        requires
            world(*old(self), *old(bridge), old(actions)@).balanced(),
            actions_wf(old(actions)@),
        ensures
            world(*final(self), *final(bridge), final(actions)@) == world(
                *old(self),
                *old(bridge),
                old(actions)@,
            ).wrote(fd, failed, buffer_view(buf)),
            world(*final(self), *final(bridge), final(actions)@).balanced(),
            actions_wf(final(actions)@),
    {
        let ghost before = world(*self, *bridge, actions@);
        proof {
            lemma_wrote_balanced(before, fd, failed, buffer_view(buf));
        }
        let ghost back = buffer_view(buf);
        let ghost recycled = before.recycle(back);
        if let Some(buf) = buf {
            actions.push(Action::Recycle { buf });
        }
        assert(world(*self, *bridge, actions@) =~= recycled);
        let ghost mut settled = recycled;
        if let Some(mut conn) = self.lift(fd) {
            let id: u64 = conn.id();
            proof {
                lemma_session_wf(before, fd);
                assert(before.accounted(before.server.conns[fd]));
                let s = before.session(fd);
                let done = Session {
                    conn: s.conn.written(failed),
                    state: s.state.refund(s.conn.written_refund(failed)),
                    ..s
                };
                settled = recycled.put(fd, done);
                lemma_put_balanced(recycled, fd, done);
            }
            if let Some(mut state) = bridge.state(id) {
                conn.written(&mut state, failed);
                bridge.set_state(id, state);
                self.lay(fd, conn);
            }
        }
        assert(world(*self, *bridge, actions@) =~= settled);
        proof {
            lemma_pump_balanced(settled, fd);
        }
        if self.pump(bridge, actions, fd) {
            let ghost pumped = world(*self, *bridge, actions@);
            assert(quiet(*self, *bridge).balanced());
            self.retire(bridge, fd, 1000);
            assert(world(*self, *bridge, actions@) =~= pumped.retire(fd, 1000));
        }
    }

    /// The wake pipe was read. The byte itself carries nothing; its arrival is
    /// the whole message.
    pub fn on_wake(
        &mut self,
        bridge: &mut Bridge,
        actions: &mut Vec<Action>,
        buf: Option<Vec<u8>>,
    )
        requires
            world(*old(self), *old(bridge), old(actions)@).balanced(),
            actions_wf(old(actions)@),
        ensures
            exists|order: Seq<i32>|
                {
                    &&& world(*old(self), *old(bridge), old(actions)@).pump_order(order)
                    &&& world(*final(self), *final(bridge), final(actions)@) == #[trigger] world(
                        *old(self),
                        *old(bridge),
                        old(actions)@,
                    ).woken(buffer_view(buf), order)
                },
            world(*final(self), *final(bridge), final(actions)@).balanced(),
            final(bridge)@.wf(),
            actions_wf(final(actions)@),
    {
        let ghost before = world(*self, *bridge, actions@);
        let ghost back = buffer_view(buf);
        let ghost recycled = before.recycle(back);
        if let Some(buf) = buf {
            actions.push(Action::Recycle { buf });
        }
        assert(world(*self, *bridge, actions@) =~= recycled);
        bridge.consume_wake();
        let ghost marked = world(*self, *bridge, actions@);
        proof {
            assert(marked =~= before.marked(back));
            lemma_marked_balanced(before, back);
            assert(quiet(*self, *bridge).balanced());
            lemma_drain_commands_balanced(marked);
            lemma_drain_commands_conns(marked);
            lemma_drain_commands_actions(marked);
            assert(quiet(*self, *bridge) =~= marked.silent());
        }
        self.drain_commands(bridge);
        let ghost drained = marked.drain_commands();
        assert(world(*self, *bridge, actions@) =~= drained);
        let fds: Vec<i32> = self.fds();
        let mut i: usize = 0;
        assert(fds@.take(0) =~= Seq::empty());
        while i < fds.len()
            invariant
                i <= fds@.len(),
                drained.balanced(),
                drained.bridge.queue.len() == 0,
                !drained.bridge.wake_pending,
                world(*self, *bridge, actions@) == drained.pump_each(fds@.take(i as int)),
                actions_wf(actions@),
            decreases fds@.len() - i,
        {
            let fd: i32 = fds[i];
            let ghost here = drained.pump_each(fds@.take(i as int));
            assert(fds@.take(i + 1).drop_last() =~= fds@.take(i as int));
            proof {
                lemma_pump_each_balanced(drained, fds@.take(i as int));
                lemma_pump_balanced(here, fd);
            }
            if self.pump(bridge, actions, fd) {
                let ghost pumped = world(*self, *bridge, actions@);
                assert(quiet(*self, *bridge).balanced());
                self.retire(bridge, fd, 1000);
                assert(world(*self, *bridge, actions@) =~= pumped.retire(fd, 1000));
            }
            i += 1;
        }
        assert(fds@.take(i as int) =~= fds@);
        proof {
            lemma_pump_each_balanced(drained, fds@);
            lemma_pump_each_bridge(drained, fds@);
        }
        let ghost pumped = world(*self, *bridge, actions@);
        let wake: i32 = self.wake;
        actions.push(
            Action::Submit { op: Op::ReadPooled { fd: wake }, user: tag(KIND_WAKE, wake) },
        );
        assert(world(*self, *bridge, actions@) =~= pumped.submit(
            OpView::ReadPooled { fd: wake },
            KIND_WAKE,
            wake,
        ));
        assert(world(*self, *bridge, actions@) == before.woken(back, fds@));
    }
}

/// Carrying out commands asks nothing of the driver and marks no wake.
pub proof fn lemma_drain_commands_actions(w: World)
    ensures
        w.drain_commands().actions == w.actions,
        w.drain_commands().bridge.wake_pending == w.bridge.wake_pending,
        w.silent().drain_commands() == w.drain_commands().silent(),
    decreases w.bridge.queue.len(),
{
    if w.bridge.queue.len() > 0 {
        let after = w.unqueued().command(w.bridge.queue.first());
        assert(w.silent().unqueued().command(w.bridge.queue.first()) =~= after.silent());
        lemma_drain_commands_actions(after);
    }
}

/// Pumping connections leaves the queue and the wake pipe alone.
pub proof fn lemma_pump_each_bridge(w: World, fds: Seq<i32>)
    ensures
        w.pump_each(fds).bridge.queue == w.bridge.queue,
        w.pump_each(fds).bridge.wake_pending == w.bridge.wake_pending,
        w.pump_each(fds).server.wake == w.server.wake,
    decreases fds.len(),
{
    if fds.len() > 0 {
        lemma_pump_each_bridge(w, fds.drop_last());
    }
}

/// What a finished operation does: `after` is what the world comes to, and
/// `next` the id after the last one given out, where `id` was that before. A
/// close that is done does nothing: the connection was retired when the close
/// was decided.
pub open spec fn completed(
    before: World,
    id: u64,
    completion: Completion,
    after: World,
    next: u64,
) -> bool {
    let kind = completion.user / 0x1_0000_0000;
    let fd = fd_of(completion.user);
    if kind == KIND_ACCEPT {
        match completion.result {
            Ok(accepted) => after == before.accept(accepted as i32, id) && next == id + 1,
            Err(errno) => before.server.errnos.retries(errno) && after == before.listen() && next
                == id,
        }
    } else {
        &&& next == id
        &&& if kind == KIND_WAKE {
            exists|order: Seq<i32>|
                before.pump_order(order) && after == #[trigger] before.woken(
                    buffer_view(completion.buf),
                    order,
                )
        } else if kind == KIND_READ {
            after == before.read(
                fd,
                completion.result,
                buffer_view(completion.buf),
            )
        } else if kind == KIND_WRITE {
            after == before.wrote(fd, completion.result is Err, buffer_view(completion.buf))
        } else {
            after == before
        }
    }
}

/// Whether a finished operation ends the reactor: an accept that failed for the
/// listener's own sake.
pub open spec fn fatal(server: ServerView, completion: Completion) -> bool {
    &&& completion.user / 0x1_0000_0000 == KIND_ACCEPT
    &&& completion.result matches Err(errno) && !server.errnos.retries(errno)
}

/// Every id in use was given out, whatever a step other than an accept did.
pub proof fn lemma_read_known(
    w: World,
    fd: i32,
    result: Result<i64, Option<i32>>,
    buf: Option<Seq<u8>>,
)
    requires
        w.balanced(),
    ensures
        forall|next: u64| w.known(next) ==> w.read(fd, result, buf).known(next),
{
    if result matches Ok(n) && n > 0 && buf is Some {
        let taken = w.read_bytes(fd, buf->Some_0);
        lemma_read_bytes_balanced(w, fd, buf->Some_0);
        lemma_pump_balanced(taken, fd);
        lemma_retire_balanced(taken.pump(fd).0, fd, 1000);
    } else {
        lemma_retire_balanced(w.recycle(buf), fd, 1006);
    }
}

/// Every id in use was given out, whatever a wake did.
pub proof fn lemma_woken_known(w: World, buf: Option<Seq<u8>>, order: Seq<i32>)
    requires
        w.balanced(),
    ensures
        forall|next: u64| w.known(next) ==> w.woken(buf, order).known(next),
{
    let marked = w.marked(buf);
    let drained = marked.drain_commands();
    let pumped = drained.pump_each(order);
    lemma_marked_balanced(w, buf);
    lemma_drain_commands_balanced(marked);
    lemma_pump_each_balanced(drained, order);
    assert(w.woken(buf, order).bridge == pumped.bridge);
    assert forall|next: u64| w.known(next) implies w.woken(buf, order).known(next) by {
        assert(marked.known(next));
        assert(drained.known(next));
        assert(pumped.known(next));
    }
}

impl Server {
    /// What the driver is asked first: a connection, and the wake pipe, whose
    /// parked read is what makes waiting interruptible.
    pub fn start(&self) -> (actions: Vec<Action>)
        ensures
            actions_view(actions@) == seq![
                ActionView::Submit {
                    op: OpView::Accept { fd: self@.listener },
                    user: tag_of(KIND_ACCEPT, self@.listener),
                },
                ActionView::Submit {
                    op: OpView::ReadPooled { fd: self@.wake },
                    user: tag_of(KIND_WAKE, self@.wake),
                },
            ],
            actions_wf(actions@),
    {
        let mut actions: Vec<Action> = Vec::new();
        actions.push(
            Action::Submit {
                op: Op::Accept { fd: self.listener },
                user: tag(KIND_ACCEPT, self.listener),
            },
        );
        actions.push(
            Action::Submit {
                op: Op::ReadPooled { fd: self.wake },
                user: tag(KIND_WAKE, self.wake),
            },
        );
        assert(actions_view(actions@) =~= seq![
            ActionView::Submit {
                op: OpView::Accept { fd: self@.listener },
                user: tag_of(KIND_ACCEPT, self@.listener),
            },
            ActionView::Submit {
                op: OpView::ReadPooled { fd: self@.wake },
                user: tag_of(KIND_WAKE, self@.wake),
            },
        ]);
        actions
    }

    /// Ask the listener for the next connection.
    fn listen(&self, actions: &mut Vec<Action>)
        requires
            actions_wf(old(actions)@),
        ensures
            actions_view(final(actions)@) == actions_view(old(actions)@).push(
                ActionView::Submit {
                    op: OpView::Accept { fd: self@.listener },
                    user: tag_of(KIND_ACCEPT, self@.listener),
                },
            ),
            actions_wf(final(actions)@),
    {
        let listener: i32 = self.listener;
        actions.push(
            Action::Submit { op: Op::Accept { fd: listener }, user: tag(KIND_ACCEPT, listener) },
        );
        assert(actions_view(actions@) =~= actions_view(old(actions)@).push(
            ActionView::Submit {
                op: OpView::Accept { fd: self@.listener },
                user: tag_of(KIND_ACCEPT, self@.listener),
            },
        ));
    }

    /// The listener has a new connection.
    pub fn on_accept(
        &mut self,
        bridge: &mut Bridge,
        actions: &mut Vec<Action>,
        fd: i32,
        id: u64,
    )
        requires
            world(*old(self), *old(bridge), old(actions)@).balanced(),
            world(*old(self), *old(bridge), old(actions)@).known(id),
            id < u64::MAX,
            actions_wf(old(actions)@),
        ensures
            world(*final(self), *final(bridge), final(actions)@) == world(
                *old(self),
                *old(bridge),
                old(actions)@,
            ).accept(fd, id),
            world(*final(self), *final(bridge), final(actions)@).balanced(),
            world(*final(self), *final(bridge), final(actions)@).known((id + 1) as u64),
            actions_wf(final(actions)@),
    {
        let ghost before = world(*self, *bridge, actions@);
        let ghost listening = before.listen();
        proof {
            lemma_accepted_balanced(listening, fd, id);
            lemma_dropped_balanced(listening, fd);
        }
        self.listen(actions);
        assert(world(*self, *bridge, actions@) =~= listening);
        assert(quiet(*self, *bridge).balanced());
        self.drop_conn(bridge, fd);
        assert(world(*self, *bridge, actions@) =~= listening.dropped(fd));
        self.lay(fd, Conn::new(id));
        self.by_id.insert(id, fd);
        bridge.set_state(id, ConnectionState::new());
        assert(world(*self, *bridge, actions@) =~= listening.accepted(fd, id));
        actions.push(Action::Submit { op: Op::ReadPooled { fd }, user: tag(KIND_READ, fd) });
        assert(world(*self, *bridge, actions@) =~= before.accept(fd, id));
    }

    /// An operation is done. Returns what to ask of the driver next, or the
    /// error that ends the reactor.
    pub fn on_completion(
        &mut self,
        bridge: &mut Bridge,
        ids: &mut ConnectionIds,
        completion: Completion,
    ) -> (r: Result<Vec<Action>, Option<i32>>)
        requires
            quiet(*old(self), *old(bridge)).balanced(),
            quiet(*old(self), *old(bridge)).known(old(ids).next),
            old(ids).next < u64::MAX,
        ensures
            match r {
                Ok(actions) => {
                    &&& completed(
                        quiet(*old(self), *old(bridge)),
                        old(ids).next,
                        completion,
                        world(*final(self), *final(bridge), actions@),
                        final(ids).next,
                    )
                    &&& actions_wf(actions@)
                    &&& completion.user / 0x1_0000_0000 == KIND_READ ==> read_does_right(
                        quiet(*old(self), *old(bridge)),
                        fd_of(completion.user),
                        completion.result,
                        buffer_view(completion.buf),
                        world(*final(self), *final(bridge), actions@),
                    )
                },
                Err(errno) => {
                    &&& completion.result is Err && completion.result->Err_0 == errno
                    &&& quiet(*final(self), *final(bridge)) == quiet(*old(self), *old(bridge))
                    &&& final(ids).next == old(ids).next
                },
            },
            r is Err <==> fatal(old(self)@, completion),
            quiet(*final(self), *final(bridge)).balanced(),
            quiet(*final(self), *final(bridge)).known(final(ids).next),
            old(bridge)@.wf() ==> final(bridge)@.wf(),
    {
        let ghost before = quiet(*self, *bridge);
        let mut actions: Vec<Action> = Vec::new();
        assert(world(*self, *bridge, actions@) =~= before);
        let kind: u64 = tag_kind(completion.user);
        let fd: i32 = tag_fd(completion.user);
        let ghost buf = buffer_view(completion.buf);
        if kind == KIND_ACCEPT {
            match completion.result {
                Ok(accepted) => {
                    let id: u64 = ids.allocate();
                    self.on_accept(bridge, &mut actions, accepted as i32, id);
                },
                Err(errno) => {
                    // The pending connection died before it was taken, which
                    // says nothing about the listener.
                    if !self.errnos.retries_accept(errno) {
                        return Err(errno);
                    }
                    self.listen(&mut actions);
                    assert(world(*self, *bridge, actions@) =~= before.listen());
                },
            }
        } else if kind == KIND_WAKE {
            self.on_wake(bridge, &mut actions, completion.buf);
            proof {
                let order = choose|order: Seq<i32>|
                    before.pump_order(order) && world(*self, *bridge, actions@)
                        == #[trigger] before.woken(buf, order);
                lemma_woken_known(before, buf, order);
            }
        } else if kind == KIND_READ {
            proof {
                lemma_read_known(before, fd, completion.result, buf);
            }
            self.on_read(bridge, &mut actions, fd, completion.result, completion.buf);
        } else if kind == KIND_WRITE {
            let failed: bool = completion.result.is_err();
            proof {
                lemma_wrote_balanced(before, fd, failed, buf);
            }
            self.on_write(bridge, &mut actions, fd, failed, completion.buf);
        }
        assert(quiet(*self, *bridge) =~= world(*self, *bridge, actions@).silent());
        Ok(actions)
    }
}

impl Server {
    /// Hand over the events that have come up, with what they retain. Where
    /// nobody takes events, they are dropped.
    pub fn dispatch_events(&mut self, bridge: &mut Bridge) -> (batch: Option<Batch>)
        requires
            quiet(*old(self), *old(bridge)).balanced(),
        ensures
            final(self)@ == (ServerView { events: Seq::empty(), ..old(self)@ }),
            batch is Some <==> old(self)@.dispatching && old(self)@.events.len() > 0,
            batch matches Some(batch) ==> {
                &&& events_view(batch.events@) == old(self)@.events
                &&& batch_retains(batch.events@, batch.bytes)
            },
            final(bridge)@ == if old(self)@.dispatching {
                old(bridge)@
            } else {
                (BridgeView {
                    states: forgotten(old(bridge)@.states, old(self)@.events),
                    ..old(bridge)@
                })
            },
            quiet(*final(self), *final(bridge)).balanced(),
            forall|next: u64|
                quiet(*old(self), *old(bridge)).known(next) ==> quiet(
                    *final(self),
                    *final(bridge),
                ).known(next),
    {
        let ghost before = quiet(*self, *bridge);
        let mut events: Vec<JsEvent> = Vec::new();
        std::mem::swap(&mut events, &mut self.events);
        assert(self@.events =~= Seq::empty());
        let batch: Option<Batch> = if self.dispatching {
            if events.is_empty() {
                None
            } else {
                let bytes: usize = batch_bytes(&events);
                Some(Batch { events, bytes })
            }
        } else {
            forget_closed(bridge, &events);
            None
        };
        proof {
            let after = quiet(*self, *bridge);
            assert forall|fd: i32| #[trigger] after.server.conns.contains_key(fd) implies
                after.accounted(after.server.conns[fd]) by {
                assert(before.accounted(before.server.conns[fd]));
            }
        }
        batch
    }
}

/// A server shows all that it holds: every connection, every id and every event.
proof fn lemma_server_shows_everything(server: Server, fd: i32)
    ensures
        server@.conns.dom() == server.conns@.dom(),
        server.conns@.contains_key(fd) ==> server@.conns[fd] == server.conns@[fd]@,
        server@.by_id == server.by_id@,
        server@.config == server.config,
        server@.dispatching == server.dispatching,
        server@.events == events_view(server.events@),
        server@.listener == server.listener,
        server@.wake == server.wake,
        server@.errnos == server.errnos,
{
    assert(server@.conns.dom() =~= server.conns@.dom());
}

} // verus!
