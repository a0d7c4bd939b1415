//! What a call from JavaScript comes to, from the bridge to the wire.

use crate::bridge::{message_charge, BridgeView, CmdView, ConnectionState, Sent};
use crate::laws::frames_for;
use crate::server::World;
use crate::steps::{close_bytes, framed};
use crate::upkeep::{closing_queued, for_peer, law_wake_serves_every_connection, sent_on, waiting};
use crate::wire::server_frame;
use vstd::prelude::*;
use vstd::utf8::valid_utf8;

verus! {

/// A message is charged what it takes on the wire.
pub proof fn law_message_is_charged_its_frame(data: Seq<u8>, first: u8)
    ensures
        message_charge(data) == framed(data.len()),
        message_charge(data) == server_frame(first, data).len(),
{
}

/// A message is taken exactly where its connection is there and live, the reactor
/// runs, and the message's frame fits under the 4 MiB that may be outstanding. Then
/// it is queued behind everything, its connection's budget holds its frame too,
/// and a wake byte is asked for unless one is on its way. Where it is not taken,
/// nothing changes.
pub proof fn law_message_is_taken_where_there_is_room(
    b: BridgeView,
    id: u64,
    data: Seq<u8>,
    binary: bool,
)
    ensures
        b.put(CmdView::Send { id, data, binary }) == if b.states.contains_key(id)
            && b.states[id].live && b.states[id].pending + framed(data.len()) <= 4_194_304
            && !b.stopped {
            (
                BridgeView {
                    queue: b.queue.push(CmdView::Send { id, data, binary }),
                    states: b.states.insert(
                        id,
                        ConnectionState {
                            pending: (b.states[id].pending + framed(data.len())) as usize,
                            live: true,
                        },
                    ),
                    wake_pending: true,
                    stopped: false,
                },
                if b.wake_pending {
                    Sent::Queued
                } else {
                    Sent::Wake
                },
            )
        } else {
            (b, Sent::Refused)
        },
{
}

/// A close, and any command that is queued as it is, is taken exactly while the
/// reactor runs: it is queued behind everything, nothing is charged, and a wake
/// byte is asked for unless one is on its way.
pub proof fn law_close_is_taken_while_the_reactor_runs(b: BridgeView, id: u64, command: CmdView)
    ensures
        ({
            let answer = if b.wake_pending {
                Sent::Queued
            } else {
                Sent::Wake
            };
            let close = CmdView::Close { id };
            &&& b.stopped ==> b.put(close) == (b, Sent::Refused)
            &&& b.stopped ==> b.sent(command) == (b, Sent::Refused)
            &&& !b.stopped ==> b.put(close) == (
                BridgeView { queue: b.queue.push(close), wake_pending: true, ..b },
                answer,
            )
            &&& !b.stopped ==> b.sent(command) == (
                BridgeView { queue: b.queue.push(command), wake_pending: true, ..b },
                answer,
            )
        }),
{
}

/// Consuming a wake only notes that none is on its way; stopping only notes that;
/// and what is queued stays as it is.
pub proof fn law_wake_and_stop_keep_what_is_queued(b: BridgeView)
    ensures
        b.awake() == (BridgeView { wake_pending: false, ..b }),
        b.halted() == (BridgeView { stopped: true, ..b }),
{
}

/// The command that was queued last is taken back with what it was charged, and no
/// wake byte is on its way; what was queued before it stays.
pub proof fn law_withdrawing_takes_the_last_back(b: BridgeView)
    requires
        b.queue.len() > 0,
    ensures
        ({
            let after = b.withdrawn();
            &&& after.queue == b.queue.drop_last()
            &&& !after.wake_pending
            &&& after.stopped == b.stopped
            &&& after.states.dom() == b.states.dom()
            &&& forall|id: u64| #[trigger]
                b.states.contains_key(id) ==> after.states[id] == ConnectionState {
                    pending: match b.queue.last() {
                        CmdView::Send { id: to, data, .. } => if to != id {
                            b.states[id].pending
                        } else if b.states[id].pending >= framed(data.len()) {
                            (b.states[id].pending - framed(data.len())) as usize
                        } else {
                            0
                        },
                        CmdView::Close { .. } => b.states[id].pending,
                    },
                    live: b.states[id].live,
                }
        }),
{
    assert(b.withdrawn().states.dom() =~= b.states.dom());
}

/// What one command puts behind a connection's bytes.
pub open spec fn frame_of(command: CmdView, id: u64, over: bool) -> Seq<u8> {
    match command {
        CmdView::Send { id: to, data, binary } => if to == id && !over && (binary || valid_utf8(
            data,
        )) {
            server_frame(
                if binary {
                    0x82
                } else {
                    0x81
                },
                data,
            )
        } else {
            Seq::empty()
        },
        CmdView::Close { id: to } => if to == id {
            close_bytes(1000)
        } else {
            Seq::empty()
        },
    }
}

/// A command that is queued last is carried out last: its frame goes behind those
/// of all before it, unless one of those was a close and this is a message.
pub proof fn law_last_command_goes_last(
    queue: Seq<CmdView>,
    command: CmdView,
    id: u64,
    over: bool,
)
    ensures
        frames_for(queue.push(command), id, over) == frames_for(queue, id, over) + frame_of(
            command,
            id,
            over || closing_queued(queue, id),
        ),
    decreases queue.len(),
{
    let longer = queue.push(command);
    let none = Seq::<u8>::empty();
    if queue.len() == 0 {
        assert(longer.drop_first() =~= queue);
        assert(frames_for(longer.drop_first(), id, true) == none);
        assert(frames_for(longer.drop_first(), id, over) == none);
        assert(longer.first() == command);
        assert(!closing_queued(queue, id));
        let frame = frame_of(command, id, over);
        assert(none + frame =~= frame);
        assert(frame + none =~= frame);
        assert(close_bytes(1000) =~= crate::conn::close_frame(1000));
        match command {
            CmdView::Send { .. } => {},
            CmdView::Close { .. } => {},
        }
    } else {
        let first = queue.first();
        let rest = queue.drop_first();
        let close = CmdView::Close { id };
        assert(longer.first() == first);
        assert(longer.drop_first() =~= rest.push(command));
        let then = over || first == close;
        law_last_command_goes_last(rest, command, id, then);
        assert((over || closing_queued(queue, id)) == (then || closing_queued(rest, id))) by {
            if closing_queued(rest, id) {
                let i = choose|i: int| 0 <= i < rest.len() && #[trigger] rest[i] == close;
                assert(queue[i + 1] == rest[i]);
            }
            if first == close {
                assert(queue[0] == close);
            }
            if closing_queued(queue, id) && first != close {
                let i = choose|i: int| 0 <= i < queue.len() && #[trigger] queue[i] == close;
                assert(rest[i - 1] == queue[i]);
            }
        }
        let tail = frame_of(command, id, then || closing_queued(rest, id));
        let middle = frames_for(rest, id, then);
        match first {
            CmdView::Send { id: to, data, binary } => {
                let frame = server_frame(
                    if binary {
                        0x82
                    } else {
                        0x81
                    },
                    data,
                );
                assert(frame + (middle + tail) =~= frame + middle + tail);
            },
            CmdView::Close { id: to } => {
                let frame = crate::conn::close_frame(1000);
                assert(frame + (middle + tail) =~= frame + middle + tail);
            },
        }
    }
}

/// A message that JavaScript sends arrives: at the next wake its frame, whole and
/// of its kind, goes behind everything that its connection had for its peer, and
/// is sent unless a write is in flight, behind which it waits. A text that is not
/// UTF-8 does not, nor does a message behind a close.
pub proof fn law_message_from_javascript_arrives(
    w: World,
    fd: i32,
    data: Seq<u8>,
    binary: bool,
    buf: Option<Seq<u8>>,
    order: Seq<i32>,
)
    requires
        w.balanced(),
        w.server.conns.contains_key(fd),
        w.pump_order(order),
        w.bridge.takes_message(w.server.conns[fd].id, data),
    ensures
        ({
            let conn = w.server.conns[fd];
            let send = CmdView::Send { id: conn.id, data, binary };
            let after = w.bridged(w.bridge.put(send).0).woken(buf, order);
            let before = for_peer(w, fd) + frames_for(w.bridge.queue, conn.id, conn.ignoring);
            let goes = !conn.ignoring && !closing_queued(w.bridge.queue, conn.id) && (binary
                || valid_utf8(data));
            &&& goes ==> for_peer(after, fd) == before + server_frame(
                if binary {
                    0x82
                } else {
                    0x81
                },
                data,
            )
            &&& goes && !conn.writing ==> waiting(after, fd).len() == 0
            &&& !goes ==> for_peer(after, fd) == before
        }),
{
    let conn = w.server.conns[fd];
    let id = conn.id;
    let send = CmdView::Send { id, data, binary };
    let queued = w.bridged(w.bridge.put(send).0);
    assert(w.server.by_id.contains_key(id));
    assert(queued.balanced()) by {
        assert(queued.bridge == w.bridge.queued_message(id, data, binary));
        assert forall|at: i32| #[trigger] queued.server.conns.contains_key(at) implies
            queued.accounted(queued.server.conns[at]) by {
            assert(w.accounted(w.server.conns[at]));
            crate::bridge::lemma_queued_charge_push(
                w.bridge.queue,
                send,
                w.server.conns[at].id,
            );
        }
    }
    law_wake_serves_every_connection(queued, buf, order, fd);
    law_last_command_goes_last(w.bridge.queue, send, id, conn.ignoring);
    let after = queued.woken(buf, order);
    let earlier = frames_for(w.bridge.queue, id, conn.ignoring);
    let frame = frame_of(send, id, conn.ignoring || closing_queued(w.bridge.queue, id));
    let all = conn.out + (earlier + frame);
    let sent = sent_on(w.actions, fd);
    assert(queued.actions == w.actions);
    assert(sent + all =~= for_peer(w, fd) + earlier + frame);
    if waiting(after, fd).len() == 0 {
        assert(sent_on(after.actions, fd) + waiting(after, fd) =~= sent_on(after.actions, fd));
    }
    if all.len() == 0 {
        assert(sent + all =~= sent);
    }
    if frame.len() == 0 {
        assert(for_peer(w, fd) + earlier + frame =~= for_peer(w, fd) + earlier);
    }
}

} // verus!
