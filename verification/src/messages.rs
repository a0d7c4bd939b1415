//! What passes between the reactor, the driver under it and Node.

use vstd::prelude::*;

verus! {

/// An event for Node. Every user-visible event crosses through one queue, which
/// is what keeps a connection's open, messages and close in order.
#[derive(Debug, PartialEq, Eq)]
pub enum JsEvent {
    /// A connection was established.
    Open {
        id: u64,
    },
    /// A message arrived.
    Message {
        id: u64,
        data: Vec<u8>,
        binary: bool,
    },
    /// A connection is gone.
    Close {
        id: u64,
        code: u16,
    },
}

/// An event for Node by the bytes it carries.
#[verifier::ext_equal]
pub enum JsEventView {
    Open {
        id: u64,
    },
    Message {
        id: u64,
        data: Seq<u8>,
        binary: bool,
    },
    Close {
        id: u64,
        code: u16,
    },
}

impl View for JsEvent {
    type V = JsEventView;

    open spec fn view(&self) -> JsEventView {
        match self {
            JsEvent::Open { id } => JsEventView::Open { id: *id },
            JsEvent::Message { id, data, binary } => JsEventView::Message {
                id: *id,
                data: data@,
                binary: *binary,
            },
            JsEvent::Close { id, code } => JsEventView::Close { id: *id, code: *code },
        }
    }
}

/// A run of events by the bytes they carry.
pub open spec fn events_view(events: Seq<JsEvent>) -> Seq<JsEventView> {
    events.map_values(|event: JsEvent| event@)
}

/// One operation for the driver.
#[derive(Debug, PartialEq, Eq)]
pub enum Op {
    /// Accept a connection on a listening socket.
    Accept {
        fd: i32,
    },
    /// Read into a buffer from the driver's pool.
    ReadPooled {
        fd: i32,
    },
    /// Write the whole buffer.
    Write {
        fd: i32,
        buf: Vec<u8>,
    },
    /// Write the buffer from `start` on.
    WriteFrom {
        fd: i32,
        buf: Vec<u8>,
        start: usize,
    },
    /// Close the descriptor.
    Close {
        fd: i32,
    },
}

/// An operation by what it does: a write is the bytes that go out, and those that
/// its buffer holds in front of them.
#[verifier::ext_equal]
pub enum OpView {
    Accept {
        fd: i32,
    },
    ReadPooled {
        fd: i32,
    },
    Write {
        fd: i32,
        lead: Seq<u8>,
        sent: Seq<u8>,
    },
    Close {
        fd: i32,
    },
}

impl OpView {
    /// The write of a whole buffer.
    pub open spec fn write(fd: i32, sent: Seq<u8>) -> OpView {
        OpView::Write { fd, lead: Seq::empty(), sent }
    }
}

impl Op {
    /// A write starts inside its buffer, which the driver asks for.
    pub open spec fn wf(self) -> bool {
        self matches Op::WriteFrom { buf, start, .. } ==> start <= buf@.len()
    }
}

impl View for Op {
    type V = OpView;

    open spec fn view(&self) -> OpView {
        match self {
            Op::Accept { fd } => OpView::Accept { fd: *fd },
            Op::ReadPooled { fd } => OpView::ReadPooled { fd: *fd },
            Op::Write { fd, buf } => OpView::Write { fd: *fd, lead: Seq::empty(), sent: buf@ },
            Op::WriteFrom { fd, buf, start } => OpView::Write {
                fd: *fd,
                lead: buf@.take(*start as int),
                sent: buf@.skip(*start as int),
            },
            Op::Close { fd } => OpView::Close { fd: *fd },
        }
    }
}

/// What the reactor asks of the driver.
#[derive(Debug, PartialEq, Eq)]
pub enum Action {
    /// Submit an operation under a tag.
    Submit {
        op: Op,
        user: u64,
    },
    /// Hand a buffer back to the pool.
    Recycle {
        buf: Vec<u8>,
    },
}

/// An action by what it does, and the bytes of its buffer.
#[verifier::ext_equal]
pub enum ActionView {
    Submit {
        op: OpView,
        user: u64,
    },
    Recycle {
        buf: Seq<u8>,
    },
}

impl View for Action {
    type V = ActionView;

    open spec fn view(&self) -> ActionView {
        match self {
            Action::Submit { op, user } => ActionView::Submit { op: op@, user: *user },
            Action::Recycle { buf } => ActionView::Recycle { buf: buf@ },
        }
    }
}

impl Action {
    /// A write starts inside its buffer.
    pub open spec fn wf(self) -> bool {
        self matches Action::Submit { op, .. } ==> op.wf()
    }
}

/// A run of actions by what they do.
pub open spec fn actions_view(actions: Seq<Action>) -> Seq<ActionView> {
    actions.map_values(|action: Action| action@)
}

/// A buffer that came back, by its bytes.
pub open spec fn buffer_view(buf: Option<Vec<u8>>) -> Option<Seq<u8>> {
    match buf {
        Some(buf) => Some(buf@),
        None => None,
    }
}

/// A finished operation.
pub struct Completion {
    /// The tag it was submitted under.
    pub user: u64,
    /// The new descriptor or the byte count, or the system's error number where
    /// it gave one.
    pub result: Result<i64, Option<i32>>,
    /// The buffer that comes back with it.
    pub buf: Option<Vec<u8>>,
}

/// An event, an operation and an action show all that they hold: every byte of a
/// message, of a write and of a buffer.
pub proof fn law_views_show_everything(
    event: JsEvent,
    op: Op,
    action: Action,
    buf: Vec<u8>,
)
    ensures
        match event {
            JsEvent::Open { id } => event@ == JsEventView::Open { id },
            JsEvent::Message { id, data, binary } => event@ == (JsEventView::Message {
                id,
                data: data@,
                binary,
            }),
            JsEvent::Close { id, code } => event@ == (JsEventView::Close { id, code }),
        },
        match op {
            Op::Accept { fd } => op@ == OpView::Accept { fd },
            Op::ReadPooled { fd } => op@ == OpView::ReadPooled { fd },
            Op::Write { fd, buf } => op@ is Write && op@->Write_fd == fd && op@->lead.len() == 0
                && op@->sent == buf@,
            Op::WriteFrom { fd, buf, start } => op@ is Write && op@->Write_fd == fd && (op.wf()
                ==> op@->lead.len() == start && op@->lead + op@->sent == buf@),
            Op::Close { fd } => op@ == OpView::Close { fd },
        },
        match action {
            Action::Submit { op, user } => action@ == (ActionView::Submit { op: op@, user }),
            Action::Recycle { buf } => action@ == (ActionView::Recycle { buf: buf@ }),
        },
        buffer_view(Some(buf)) == Some(buf@),
        buffer_view(None) is None,
{
    if let Op::WriteFrom { fd, buf, start } = op {
        if op.wf() {
            assert(buf@.take(start as int) + buf@.skip(start as int) =~= buf@);
        }
    }
}

/// A run of events, and a run of actions, shows each of them, in their order.
pub proof fn law_runs_show_everything(events: Seq<JsEvent>, actions: Seq<Action>, i: int)
    ensures
        events_view(events).len() == events.len(),
        0 <= i < events.len() ==> events_view(events)[i] == events[i]@,
        actions_view(actions).len() == actions.len(),
        0 <= i < actions.len() ==> actions_view(actions)[i] == actions[i]@,
{
}

} // verus!
