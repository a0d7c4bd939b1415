//! The JavaScript side's half of the boundary to the reactor: what it may send,
//! and the queue that it goes through.
//!
//! A bridge is shared by both threads. Whoever holds it serialises the calls;
//! none of them blocks.

use crate::wire::{frame_len, header_len};
use std::collections::HashMap;
use std::collections::VecDeque;
use vstd::prelude::*;

verus! {

broadcast use vstd::std_specs::hash::group_hash_axioms;

/// Most bytes allowed to be outstanding for one connection, 4 MiB: queued on the
/// bridge, or encoded into its outbound buffer and not yet written.
///
/// Without a cap a peer that reads slowly, or not at all, makes the server
/// buffer everything that is produced for it until memory runs out.
pub const MAX_OUTBOUND: usize = 4 * 1024 * 1024;

/// One connection's outbound budget.
#[derive(Clone, Copy, PartialEq, Eq, Structural, Debug)]
pub struct ConnectionState {
    /// Encoded bytes charged to the connection and not yet written.
    pub pending: usize,
    /// Whether the connection still takes anything.
    pub live: bool,
}

impl ConnectionState {
    /// The budget of a connection that was just accepted.
    pub open spec fn fresh() -> ConnectionState {
        ConnectionState { pending: 0, live: true }
    }

    /// Whether `bytes` more may be charged.
    pub open spec fn admits(self, bytes: int) -> bool {
        self.live && self.pending + bytes <= MAX_OUTBOUND
    }

    /// The budget with `bytes` more charged.
    pub open spec fn charge(self, bytes: int) -> ConnectionState {
        ConnectionState { pending: (self.pending + bytes) as usize, ..self }
    }

    /// The budget with `bytes` given back.
    pub open spec fn refund(self, bytes: int) -> ConnectionState {
        ConnectionState {
            pending: if bytes <= self.pending {
                (self.pending - bytes) as usize
            } else {
                0
            },
            ..self
        }
    }

    /// The budget of a connection that is gone.
    pub open spec fn closed(self) -> ConnectionState {
        ConnectionState { live: false, ..self }
    }

    /// The budget of a connection that was just accepted.
    pub fn new() -> (state: ConnectionState)
        ensures
            state == ConnectionState::fresh(),
    {
        ConnectionState { pending: 0, live: true }
    }

    /// Charge `bytes` if the connection is live and stays under the cap.
    /// Returns whether they were charged.
    pub fn reserve(&mut self, bytes: usize) -> (charged: bool)
        ensures
            charged == old(self).admits(bytes as int),
            *final(self) == if charged {
                old(self).charge(bytes as int)
            } else {
                *old(self)
            },
    {
        if !self.live {
            return false;
        }
        match self.pending.checked_add(bytes) {
            Some(next) => {
                if next <= MAX_OUTBOUND {
                    self.pending = next;
                    true
                } else {
                    false
                }
            },
            None => false,
        }
    }

    /// Give `bytes` back, down to nothing pending.
    pub fn release(&mut self, bytes: usize)
        ensures
            *final(self) == old(self).refund(bytes as int),
    {
        self.pending = self.pending.saturating_sub(bytes);
    }

    /// The connection is gone; nothing more is charged to it.
    pub fn close(&mut self)
        ensures
            *final(self) == old(self).closed(),
    {
        self.live = false;
    }
}

/// What JavaScript asks the reactor to do.
pub enum Cmd {
    /// Send a message on a connection.
    Send {
        id: u64,
        data: Vec<u8>,
        binary: bool,
    },
    /// Close a connection.
    Close {
        id: u64,
    },
}

/// A command by the bytes it carries.
#[verifier::ext_equal]
pub enum CmdView {
    Send {
        id: u64,
        data: Seq<u8>,
        binary: bool,
    },
    Close {
        id: u64,
    },
}

impl View for Cmd {
    type V = CmdView;

    open spec fn view(&self) -> CmdView {
        match self {
            Cmd::Send { id, data, binary } => CmdView::Send {
                id: *id,
                data: data@,
                binary: *binary,
            },
            Cmd::Close { id } => CmdView::Close { id: *id },
        }
    }
}

/// The encoded length of a message with this payload.
pub open spec fn message_charge(data: Seq<u8>) -> int {
    (data.len() + header_len(data.len())) as int
}

/// What a queued command is charged to the connection `id`.
pub open spec fn command_charge(command: CmdView, id: u64) -> int {
    match command {
        CmdView::Send { id: to, data, .. } => if to == id {
            message_charge(data)
        } else {
            0
        },
        CmdView::Close { .. } => 0,
    }
}

/// What a queue of commands is charged to the connection `id`.
pub open spec fn queued_charge(queue: Seq<CmdView>, id: u64) -> int
    decreases queue.len(),
{
    if queue.len() == 0 {
        0
    } else {
        command_charge(queue.first(), id) + queued_charge(queue.drop_first(), id)
    }
}

/// A queue's charge is never negative, and one more command adds its own.
pub proof fn lemma_queued_charge_push(queue: Seq<CmdView>, command: CmdView, id: u64)
    ensures
        queued_charge(queue, id) >= 0,
        queued_charge(queue.push(command), id) == queued_charge(queue, id) + command_charge(
            command,
            id,
        ),
    decreases queue.len(),
{
    let longer = queue.push(command);
    if queue.len() == 0 {
        assert(longer.drop_first() =~= queue);
    } else {
        lemma_queued_charge_push(queue.drop_first(), command, id);
        assert(longer.drop_first() =~= queue.drop_first().push(command));
    }
}

/// Whether no message in a queue is over a connection's cap by itself.
pub open spec fn fits(queue: Seq<CmdView>) -> bool {
    forall|i: int|
        0 <= i < queue.len() ==> (#[trigger] queue[i] matches CmdView::Send { data, .. }
            ==> data.len() <= MAX_OUTBOUND)
}

/// What became of a command that was put to the bridge.
#[derive(Clone, Copy, PartialEq, Eq, Structural, Debug)]
pub enum Sent {
    /// It was not queued.
    Refused,
    /// It was queued, and the reactor is already being woken.
    Queued,
    /// It was queued, and the reactor is to be woken: write one byte to the
    /// wake pipe.
    Wake,
}

/// A bridge by what it holds.
#[verifier::ext_equal]
pub struct BridgeView {
    /// The commands that the reactor has not taken yet, oldest first.
    pub queue: Seq<CmdView>,
    /// The budgets of the connections that JavaScript can still name.
    pub states: Map<u64, ConnectionState>,
    /// Whether a wake byte is on its way to the reactor.
    pub wake_pending: bool,
    /// Whether the reactor has stopped.
    pub stopped: bool,
}

impl BridgeView {
    /// No wake is lost and none is idle: a wake byte is on its way exactly while
    /// a command waits. And no message waits that is over a connection's cap by
    /// itself.
    pub open spec fn wf(self) -> bool {
        &&& self.queue.len() > 0 <==> self.wake_pending
        &&& fits(self.queue)
    }

    /// Whether a message with this payload is taken for the connection `id`:
    /// the connection is there and live, the message fits its budget, and the
    /// reactor runs.
    pub open spec fn takes_message(self, id: u64, data: Seq<u8>) -> bool {
        &&& self.states.contains_key(id)
        &&& self.states[id].admits(message_charge(data))
        &&& !self.stopped
    }

    /// The bridge with one more command in its queue.
    pub open spec fn queued(self, command: CmdView) -> BridgeView {
        BridgeView { queue: self.queue.push(command), wake_pending: true, ..self }
    }

    /// The bridge with a message charged to its connection and queued.
    pub open spec fn queued_message(self, id: u64, data: Seq<u8>, binary: bool) -> BridgeView {
        BridgeView {
            states: self.states.insert(id, self.states[id].charge(message_charge(data))),
            ..self.queued(CmdView::Send { id, data, binary })
        }
    }

    /// What putting a command to the bridge answers, if it is taken.
    pub open spec fn answer(self) -> Sent {
        if self.wake_pending {
            Sent::Queued
        } else {
            Sent::Wake
        }
    }

    /// The bridge once a command was queued as it is, and the answer: it is taken
    /// while the reactor runs.
    pub open spec fn sent(self, command: CmdView) -> (BridgeView, Sent) {
        if self.stopped {
            (self, Sent::Refused)
        } else {
            (self.queued(command), self.answer())
        }
    }

    /// The bridge once a run of commands was queued as they are.
    pub open spec fn sent_all(self, commands: Seq<CmdView>) -> BridgeView
        decreases commands.len(),
    {
        if commands.len() == 0 {
            self
        } else {
            self.sent_all(commands.drop_last()).sent(commands.last()).0
        }
    }

    /// Whether a command is taken: a message where there is room for it, a close
    /// while the reactor runs.
    pub open spec fn takes(self, command: CmdView) -> bool {
        match command {
            CmdView::Send { id, data, .. } => self.takes_message(id, data),
            CmdView::Close { .. } => !self.stopped,
        }
    }

    /// The bridge once a command was put to it, and the answer. Where it is not
    /// taken, the bridge is as it was.
    pub open spec fn put(self, command: CmdView) -> (BridgeView, Sent) {
        if self.takes(command) {
            (
                match command {
                    CmdView::Send { id, data, binary } => self.queued_message(id, data, binary),
                    CmdView::Close { .. } => self.queued(command),
                },
                self.answer(),
            )
        } else {
            (self, Sent::Refused)
        }
    }

    /// The bridge once a run of commands was put to it.
    pub open spec fn put_all(self, commands: Seq<CmdView>) -> BridgeView
        decreases commands.len(),
    {
        if commands.len() == 0 {
            self
        } else {
            self.put_all(commands.drop_last()).put(commands.last()).0
        }
    }

    /// What each command of a run is answered.
    pub open spec fn answers(self, commands: Seq<CmdView>) -> Seq<Sent> {
        Seq::new(
            commands.len(),
            |i: int| self.put_all(commands.take(i)).put(commands[i]).1,
        )
    }

    /// The bridge once the wake byte has arrived.
    pub open spec fn awake(self) -> BridgeView {
        BridgeView { wake_pending: false, ..self }
    }

    /// The bridge once the reactor has stopped.
    pub open spec fn halted(self) -> BridgeView {
        BridgeView { stopped: true, ..self }
    }

    /// The bridge with other budgets.
    pub open spec fn budgeted(self, states: Map<u64, ConnectionState>) -> BridgeView {
        BridgeView { states, ..self }
    }

    /// The bridge without its newest command, whose charge is given back, and
    /// with no wake byte on its way.
    pub open spec fn withdrawn(self) -> BridgeView {
        let asleep = BridgeView { wake_pending: false, ..self };
        if self.queue.len() == 0 {
            asleep
        } else {
            let rest = BridgeView { queue: self.queue.drop_last(), ..asleep };
            match self.queue.last() {
                CmdView::Send { id, data, .. } => if self.states.contains_key(id) {
                    rest.budgeted(
                        self.states.insert(id, self.states[id].refund(message_charge(data))),
                    )
                } else {
                    rest
                },
                CmdView::Close { .. } => rest,
            }
        }
    }
}

/// The JavaScript side's half of the boundary: the queue, and what may go on it.
pub struct Bridge {
    queue: VecDeque<Cmd>,
    states: HashMap<u64, ConnectionState>,
    wake_pending: bool,
    stopped: bool,
}

impl View for Bridge {
    type V = BridgeView;

    closed spec fn view(&self) -> BridgeView {
        BridgeView {
            queue: self.queue@.map_values(|command: Cmd| command@),
            states: self.states@,
            wake_pending: self.wake_pending,
            stopped: self.stopped,
        }
    }
}

impl Bridge {
    /// A bridge that nothing has crossed.
    pub fn new() -> (bridge: Bridge)
        ensures
            bridge@ == (BridgeView {
                queue: Seq::empty(),
                states: Map::empty(),
                wake_pending: false,
                stopped: false,
            }),
            bridge@.wf(),
    {
        let bridge = Bridge {
            queue: VecDeque::new(),
            states: HashMap::new(),
            wake_pending: false,
            stopped: false,
        };
        assert(bridge@.queue =~= Seq::empty());
        bridge
    }

    /// Queue a command. Queue insertion comes before the wake, so the reactor
    /// never sees a wake without the command that caused it; and the queue is
    /// drained wholesale, so a wake that is already on its way is enough.
    /// A message is queued as it is, without being charged: that is what
    /// `send_message` does first.
    pub fn send(&mut self, command: Cmd) -> (sent: Sent)
        ensures
            (final(self)@, sent) == old(self)@.sent(command@),
            old(self)@.wf() && fits(seq![command@]) ==> final(self)@.wf(),
    {
        if self.stopped {
            return Sent::Refused;
        }
        self.queue.push_back(command);
        assert(self@.queue =~= old(self)@.queue.push(command@));
        assert(seq![command@][0] == command@);
        if self.wake_pending {
            Sent::Queued
        } else {
            self.wake_pending = true;
            Sent::Wake
        }
    }

    /// Charge a message to its connection and queue it. It is charged before it
    /// is queued, so the answer is about this message rather than about the one
    /// before it. Where it is refused, the bridge is as it was.
    pub fn send_message(&mut self, id: u64, data: Vec<u8>, binary: bool) -> (sent: Sent)
        ensures
            (final(self)@, sent) == old(self)@.put(CmdView::Send { id, data: data@, binary }),
            old(self)@.wf() ==> final(self)@.wf(),
    {
        if data.len() > MAX_OUTBOUND || self.stopped {
            return Sent::Refused;
        }
        let mut state: ConnectionState = match self.states.get(&id) {
            Some(state) => *state,
            None => {
                return Sent::Refused;
            },
        };
        let charged: usize = frame_len(data.len());
        if !state.reserve(charged) {
            return Sent::Refused;
        }
        self.states.insert(id, state);
        self.send(Cmd::Send { id, data, binary })
    }

    /// Queue the closing of a connection.
    pub fn close(&mut self, id: u64) -> (sent: Sent)
        ensures
            (final(self)@, sent) == old(self)@.put(CmdView::Close { id }),
            old(self)@.wf() ==> final(self)@.wf(),
    {
        self.send(Cmd::Close { id })
    }

    /// The wake byte for the newest command could not be written: take the
    /// command back, so that it is not queued, and what it was charged. A
    /// command that asks for a wake byte is the only one in the queue.
    pub fn withdraw(&mut self)
        requires
            old(self)@.wf(),
        ensures
            final(self)@ == old(self)@.withdrawn(),
            old(self)@.queue.len() <= 1 ==> final(self)@.wf(),
    {
        self.wake_pending = false;
        assert(self.queue@.len() > 0 ==> self@.queue.last() == self.queue@.last()@);
        match self.queue.pop_back() {
            Some(Cmd::Send { id, data, .. }) => {
                let known: Option<ConnectionState> = match self.states.get(&id) {
                    Some(state) => Some(*state),
                    None => None,
                };
                if let Some(mut state) = known {
                    state.release(frame_len(data.len()));
                    self.states.insert(id, state);
                }
            },
            Some(Cmd::Close { .. }) => {},
            None => {},
        }
        assert(old(self)@.queue.len() > 0 ==> self@.queue =~= old(self)@.queue.drop_last());
        assert(old(self)@.queue.len() == 0 ==> self@.queue =~= old(self)@.queue);
    }

    /// What putting a command to the bridge came to, once the wake byte that its
    /// answer may have asked for was written, or could not be. Returns whether
    /// the command is queued; where its byte could not be written, it is taken
    /// back.
    pub fn settle(&mut self, sent: Sent, written: bool) -> (queued: bool)
        requires
            old(self)@.wf(),
        ensures
            queued == (sent == Sent::Queued || (sent == Sent::Wake && written)),
            final(self)@ == if sent == Sent::Wake && !written {
                old(self)@.withdrawn()
            } else {
                old(self)@
            },
            sent != Sent::Wake || written || old(self)@.queue.len() <= 1 ==> final(self)@.wf(),
    {
        match sent {
            Sent::Refused => false,
            Sent::Queued => true,
            Sent::Wake => {
                if !written {
                    self.withdraw();
                }
                written
            },
        }
    }

    /// The wake byte has arrived. Marked before the queue is drained: a command
    /// that comes later asks for a byte of its own.
    pub fn consume_wake(&mut self)
        ensures
            final(self)@ == old(self)@.awake(),
    {
        self.wake_pending = false;
    }

    /// The oldest command, if there is one.
    pub(crate) fn next_command(&mut self) -> (command: Option<Cmd>)
        ensures
            match command {
                Some(command) => {
                    &&& old(self)@.queue.len() > 0
                    &&& command@ == old(self)@.queue.first()
                    &&& final(self)@ == (BridgeView {
                        queue: old(self)@.queue.drop_first(),
                        ..old(self)@
                    })
                },
                None => old(self)@.queue.len() == 0 && final(self)@ == old(self)@,
            },
    {
        let command: Option<Cmd> = self.queue.pop_front();
        assert(command is Some ==> self@.queue =~= old(self)@.queue.drop_first());
        assert(command is None ==> self@.queue =~= old(self)@.queue);
        command
    }

    /// The reactor has stopped: nothing is queued from now on.
    pub fn stop(&mut self)
        ensures
            final(self)@ == old(self)@.halted(),
    {
        self.stopped = true;
    }

    /// The budget of a connection, if there is one.
    pub fn state(&self, id: u64) -> (state: Option<ConnectionState>)
        ensures
            state == if self@.states.contains_key(id) {
                Some(self@.states[id])
            } else {
                None
            },
    {
        match self.states.get(&id) {
            Some(state) => Some(*state),
            None => None,
        }
    }

    /// Set the budget of a connection.
    pub(crate) fn set_state(&mut self, id: u64, state: ConnectionState)
        ensures
            final(self)@ == (BridgeView {
                states: old(self)@.states.insert(id, state),
                ..old(self)@
            }),
    {
        self.states.insert(id, state);
    }

    /// JavaScript no longer names a connection: drop its budget, once it is
    /// closed.
    pub fn forget(&mut self, id: u64)
        ensures
            final(self)@ == (BridgeView {
                states: if old(self)@.states.contains_key(id) && !old(self)@.states[id].live {
                    old(self)@.states.remove(id)
                } else {
                    old(self)@.states
                },
                ..old(self)@
            }),
    {
        if let Some(state) = self.state(id) {
            if !state.live {
                self.drop_state(id);
            }
        }
    }

    /// Drop the budget of a connection.
    pub(crate) fn drop_state(&mut self, id: u64)
        ensures
            final(self)@ == (BridgeView { states: old(self)@.states.remove(id), ..old(self)@ }),
    {
        self.states.remove(&id);
    }
}

/// A command shows all that it holds: every byte of its message.
pub proof fn law_command_shows_everything(command: Cmd)
    ensures
        match command {
            Cmd::Send { id, data, binary } => command@ == (CmdView::Send {
                id,
                data: data@,
                binary,
            }),
            Cmd::Close { id } => command@ == CmdView::Close { id },
        },
{
}

/// A bridge shows all that it holds.
proof fn lemma_bridge_shows_everything(bridge: Bridge, i: int)
    ensures
        bridge@.queue.len() == bridge.queue@.len(),
        0 <= i < bridge.queue@.len() ==> bridge@.queue[i] == bridge.queue@[i]@,
        bridge@.states == bridge.states@,
        bridge@.wake_pending == bridge.wake_pending,
        bridge@.stopped == bridge.stopped,
{
}

} // verus!
