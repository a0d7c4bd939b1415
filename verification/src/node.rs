//! What the JavaScript side keeps: the application before it listens, and the
//! connections whose handles it has built.

use crate::conn::Config;
use crate::dispatch::tells_close;
use crate::messages::{events_view, JsEvent, JsEventView};
use std::collections::HashMap;
use vstd::prelude::*;
use vstd::std_specs::iter::IteratorSpec;

verus! {

broadcast use vstd::std_specs::hash::group_hash_axioms;

/// Messages up to this size are copied into a buffer that Node owns, 4 KiB:
/// below it a copy is cheaper than handing the bytes over and being told when
/// they are no longer used.
pub const SMALL_MESSAGE_COPY_MAX: usize = 4 * 1024;

/// What JavaScript is told when it asks for something that cannot be.
#[derive(Clone, Copy, PartialEq, Eq, Structural, Debug)]
pub enum AppError {
    /// The handlers ask for messages and for them to be echoed before they get
    /// there.
    EchoAndMessage,
    /// The application listens already, or has tried to.
    ListenTwice,
    /// The connection is closed and its handle is gone.
    Closed,
}

impl AppError {
    /// The reason as JavaScript reads it.
    pub open spec fn reason(self) -> &'static str {
        match self {
            AppError::EchoAndMessage => "nativeEcho and message are mutually exclusive",
            AppError::ListenTwice => "listen() called twice on one App",
            AppError::Closed => "connection is already closed",
        }
    }

    /// The reason as JavaScript reads it.
    pub fn message(&self) -> (message: &'static str)
        ensures
            message@ == self.reason()@,
    {
        match self {
            AppError::EchoAndMessage => "nativeEcho and message are mutually exclusive",
            AppError::ListenTwice => "listen() called twice on one App",
            AppError::Closed => "connection is already closed",
        }
    }
}

/// Which handlers JavaScript registers, and whether messages are echoed.
#[derive(Clone, Copy)]
pub struct Handlers {
    pub native_echo: bool,
    pub open: bool,
    pub message: bool,
    pub close: bool,
}

/// A WebSocket server that may not listen yet.
pub struct WsApp {
    config: Config,
    dispatching: bool,
    listening: bool,
    started: bool,
}

/// An application by what it holds.
pub struct WsAppView {
    /// What is done with messages.
    pub config: Config,
    /// Whether handlers are registered that take events.
    pub dispatching: bool,
    /// Whether `listen` was called.
    pub listening: bool,
    /// Whether the reactor was given what it needs.
    pub started: bool,
}

impl View for WsApp {
    type V = WsAppView;

    closed spec fn view(&self) -> WsAppView {
        WsAppView {
            config: self.config,
            dispatching: self.dispatching,
            listening: self.listening,
            started: self.started,
        }
    }
}

/// What is done with messages while no handlers are registered.
pub open spec fn no_config() -> Config {
    Config { native_echo: false, wants_message: false }
}

/// A server with no handlers that does not listen yet.
pub fn app() -> (app: WsApp)
    ensures
        app@ == (WsAppView {
            config: no_config(),
            dispatching: false,
            listening: false,
            started: false,
        }),
{
    WsApp {
        config: Config { native_echo: false, wants_message: false },
        dispatching: false,
        listening: false,
        started: false,
    }
}

/// What the reactor is started with.
pub struct Start {
    pub config: Config,
    pub dispatching: bool,
}

impl WsApp {
    /// Register handlers for a route. The pattern is accepted and ignored: every
    /// connection is served by the one handler set. Echoing and a message
    /// handler exclude each other. Gives the application itself back, so that
    /// `listen` can be chained behind it.
    pub fn ws(&mut self, _pattern: &str, handlers: Handlers) -> (r: Result<&mut WsApp, AppError>)
        ensures
            match r {
                Ok(app) => {
                    &&& !(handlers.native_echo && handlers.message)
                    &&& app@ == (WsAppView {
                        config: Config {
                            native_echo: handlers.native_echo,
                            wants_message: handlers.message,
                        },
                        dispatching: true,
                        ..old(self)@
                    })
                    &&& *final(self) == *final(app)
                },
                Err(e) => {
                    &&& handlers.native_echo && handlers.message
                    &&& e == AppError::EchoAndMessage
                    &&& *final(self) == *old(self)
                },
            },
    {
        if handlers.native_echo && handlers.message {
            return Err(AppError::EchoAndMessage);
        }
        self.config =
        Config { native_echo: handlers.native_echo, wants_message: handlers.message };
        self.dispatching = true;
        Ok(self)
    }

    /// Take the one chance to listen. It stays taken, whether or not the port
    /// can then be bound.
    pub fn listen(&mut self) -> (r: Result<(), AppError>)
        ensures
            match r {
                Ok(_) => !old(self)@.listening,
                Err(e) => old(self)@.listening && e == AppError::ListenTwice,
            },
            final(self)@ == (WsAppView { listening: true, ..old(self)@ }),
    {
        if self.listening {
            return Err(AppError::ListenTwice);
        }
        self.listening = true;
        Ok(())
    }

    /// The port is bound: hand the reactor what it is started with, once. The
    /// application keeps none of it.
    pub fn start(&mut self) -> (r: Result<Start, AppError>)
        ensures
            match r {
                Ok(start) => {
                    &&& !old(self)@.started
                    &&& start.config == old(self)@.config
                    &&& start.dispatching == old(self)@.dispatching
                    &&& final(self)@ == (WsAppView {
                        config: no_config(),
                        dispatching: false,
                        started: true,
                        ..old(self)@
                    })
                },
                Err(e) => {
                    &&& old(self)@.started
                    &&& e == AppError::ListenTwice
                    &&& final(self)@ == old(self)@
                },
            },
    {
        if self.started {
            return Err(AppError::ListenTwice);
        }
        let start: Start = Start { config: self.config, dispatching: self.dispatching };
        self.config = Config { native_echo: false, wants_message: false };
        self.dispatching = false;
        self.started = true;
        Ok(start)
    }
}

/// Whether a message from JavaScript goes out as binary: a string is text and
/// anything else is binary, and an explicit flag overrides both.
pub fn is_binary(string: bool, flag: Option<bool>) -> (binary: bool)
    ensures
        binary == match flag {
            Some(flag) => flag,
            None => !string,
        },
{
    match flag {
        Some(flag) => flag,
        None => !string,
    }
}

/// Whether a message of this length is copied into a buffer that Node owns,
/// rather than handed over.
pub fn copies_message(len: usize) -> (copies: bool)
    ensures
        copies == (len <= SMALL_MESSAGE_COPY_MAX),
{
    len <= SMALL_MESSAGE_COPY_MAX
}

/// The connections that JavaScript was told of and not yet told the close of,
/// each with its handle once that is built.
pub struct Connections<H> {
    entries: HashMap<u64, Option<H>>,
}

impl<H> View for Connections<H> {
    type V = Map<u64, Option<H>>;

    closed spec fn view(&self) -> Map<u64, Option<H>> {
        self.entries@
    }
}

impl<H> Connections<H> {
    /// No connections.
    pub fn new() -> (connections: Connections<H>)
        ensures
            connections@ == Map::<u64, Option<H>>::empty(),
    {
        Connections { entries: HashMap::new() }
    }

    /// A connection was established. Its handle is built on first use.
    pub fn register_connection(&mut self, id: u64)
        ensures
            final(self)@ == old(self)@.insert(id, None),
    {
        self.entries.insert(id, None);
    }

    /// The handle of a connection, if it is built. Where it is not, the caller
    /// builds one and has it remembered.
    pub fn ws_for(&self, id: u64) -> (r: Result<Option<&H>, AppError>)
        ensures
            match r {
                Ok(Some(handle)) => self@.contains_key(id) && self@[id] == Some(*handle),
                Ok(None) => self@.contains_key(id) && self@[id] is None,
                Err(e) => !self@.contains_key(id) && e == AppError::Closed,
            },
    {
        match self.entries.get(&id) {
            Some(Some(handle)) => Ok(Some(handle)),
            Some(None) => Ok(None),
            None => Err(AppError::Closed),
        }
    }

    /// Keep the handle that was built for a connection, if the connection is
    /// still there.
    pub fn remember(&mut self, id: u64, handle: H)
        ensures
            final(self)@ == remembered(old(self)@, id, handle),
    {
        if self.entries.contains_key(&id) {
            self.entries.insert(id, Some(handle));
        }
    }

    /// Drop a connection. Returns its handle, which is to be released on the
    /// thread that owns it.
    pub fn forget_ws(&mut self, id: u64) -> (handle: Option<H>)
        ensures
            final(self)@ == old(self)@.remove(id),
            handle == if old(self)@.contains_key(id) {
                old(self)@[id]
            } else {
                None
            },
    {
        match self.entries.remove(&id) {
            Some(handle) => handle,
            None => None,
        }
    }
}

/// The connections with a handle kept, if its connection is there.
pub open spec fn remembered<H>(
    connections: Map<u64, Option<H>>,
    id: u64,
    handle: H,
) -> Map<u64, Option<H>> {
    if connections.contains_key(id) {
        connections.insert(id, Some(handle))
    } else {
        connections
    }
}

/// The connections whose handle is built.
pub open spec fn handled<H>(connections: Map<u64, Option<H>>) -> Set<u64> {
    connections.dom().filter(|id: u64| connections[id] is Some)
}

/// The connections among these whose handle is built.
spec fn handled_among<H>(connections: Map<u64, Option<H>>, ids: Seq<u64>) -> Set<u64> {
    ids.to_set().filter(|id: u64| connections[id] is Some)
}

/// One more connection adds itself if its handle is built.
proof fn lemma_handled_among_push<H>(connections: Map<u64, Option<H>>, ids: Seq<u64>, i: int)
    requires
        0 <= i < ids.len(),
        ids.no_duplicates(),
        handled_among(connections, ids.take(i)).finite(),
    ensures
        handled_among(connections, ids.take(i + 1)).finite(),
        handled_among(connections, ids.take(i + 1)).len() == handled_among(
            connections,
            ids.take(i),
        ).len() + if connections[ids[i]] is Some {
            1int
        } else {
            0
        },
{
    let before = handled_among(connections, ids.take(i));
    let after = handled_among(connections, ids.take(i + 1));
    assert(ids.take(i + 1) =~= ids.take(i).push(ids[i]));
    assert forall|id: u64| #[trigger] ids.take(i + 1).contains(id) == (ids.take(i).contains(id)
        || id == ids[i]) by {
        if ids.take(i).contains(id) {
            let k = choose|k: int| 0 <= k < i && ids.take(i)[k] == id;
            assert(ids.take(i + 1)[k] == id);
        }
        assert(ids.take(i + 1)[i] == ids[i]);
    }
    assert(!ids.take(i).contains(ids[i]));
    if connections[ids[i]] is Some {
        assert(after =~= before.insert(ids[i]));
    } else {
        assert(after =~= before);
    }
}

/// How many connections have a handle, as far as 32 bits count. Once every
/// connection has closed this is zero, or each has left an object behind.
pub fn handle_count<H>(connections: &Connections<H>) -> (count: u32)
    ensures
        count == handled(connections@).len() % 0x1_0000_0000,
        handled(connections@).finite(),
{
    let mut built: usize = 0;
    let keys = connections.entries.keys();
    let ghost all = IteratorSpec::remaining(&keys);
    let ghost ids = all.unref();
    let len: usize = connections.entries.len();
    proof {
        ids.unique_seq_to_set();
        assert(handled_among(connections@, ids.take(0)) =~= Set::<u64>::empty());
    }
    for id in iter: keys
        invariant
            iter.seq() == all,
            ids == all.unref(),
            ids.no_duplicates(),
            ids.to_set() == connections@.dom(),
            built == handled_among(connections@, ids.take(iter.index() as int)).len(),
            handled_among(connections@, ids.take(iter.index() as int)).finite(),
            built <= iter.index() <= ids.len(),
            ids.len() == len,
    {
        proof {
            lemma_handled_among_push(connections@, ids, iter.index() as int);
        }
        if let Ok(Some(_)) = connections.ws_for(*id) {
            built = built + 1;
        }
    }
    proof {
        assert(ids.take(ids.len() as int) =~= ids);
        assert(handled_among(connections@, ids) =~= handled(connections@));
        let wide: u64 = built as u64;
        assert(wide as u32 == wide % 0x1_0000_0000) by (bit_vector);
    }
    (built as u64) as u32
}

/// What is to be done about an event.
pub enum Delivery<H> {
    /// No handler asks for it. A handle that is no longer needed comes with it,
    /// to be released.
    Done(Option<H>),
    /// Its handler is called: look up the connection's handle, say that the
    /// handler is being entered, and call it.
    Call(JsEvent),
}

/// Whether a handler asks for an event.
pub open spec fn handles(handlers: Handlers, event: JsEventView) -> bool {
    match event {
        JsEventView::Open { .. } => handlers.open,
        JsEventView::Message { .. } => handlers.message,
        JsEventView::Close { .. } => handlers.close,
    }
}

/// The connections once an event was taken: an open brings its connection
/// before anything is called; a close that no handler asks for takes it away.
pub open spec fn taken<H>(
    connections: Map<u64, Option<H>>,
    handlers: Handlers,
    event: JsEventView,
) -> Map<u64, Option<H>> {
    match event {
        JsEventView::Open { id } => connections.insert(id, None),
        JsEventView::Message { .. } => connections,
        JsEventView::Close { id, .. } => if handlers.close {
            connections
        } else {
            connections.remove(id)
        },
    }
}

/// The connections once an event's handler is being entered: a close takes its
/// connection away first, so that a handler that throws leaves nothing behind.
pub open spec fn entered<H>(
    connections: Map<u64, Option<H>>,
    event: JsEventView,
) -> Map<u64, Option<H>> {
    match event {
        JsEventView::Close { id, .. } => connections.remove(id),
        _ => connections,
    }
}

/// The handle that goes with a close, to be released.
pub open spec fn released<H>(connections: Map<u64, Option<H>>, event: JsEventView) -> Option<H> {
    match event {
        JsEventView::Close { id, .. } => if connections.contains_key(id) {
            connections[id]
        } else {
            None
        },
        _ => None,
    }
}

impl<H> Connections<H> {
    /// Take an event, in the order in which they came.
    pub fn deliver(&mut self, handlers: &Handlers, event: JsEvent) -> (delivery: Delivery<H>)
        ensures
            final(self)@ == taken(old(self)@, *handlers, event@),
            match delivery {
                Delivery::Call(called) => handles(*handlers, event@) && called == event,
                Delivery::Done(handle) => {
                    &&& !handles(*handlers, event@)
                    &&& handle == released(old(self)@, event@)
                },
            },
    {
        match event {
            JsEvent::Open { id } => {
                self.register_connection(id);
                if handlers.open {
                    Delivery::Call(event)
                } else {
                    Delivery::Done(None)
                }
            },
            JsEvent::Message { .. } => {
                if handlers.message {
                    Delivery::Call(event)
                } else {
                    Delivery::Done(None)
                }
            },
            JsEvent::Close { id, .. } => {
                if handlers.close {
                    Delivery::Call(event)
                } else {
                    Delivery::Done(self.forget_ws(id))
                }
            },
        }
    }

    /// An event's handler is about to be called, with the connection's handle in
    /// hand. Returns a handle that is no longer needed, to be released first.
    pub fn entering(&mut self, event: &JsEvent) -> (handle: Option<H>)
        ensures
            final(self)@ == entered(old(self)@, event@),
            handle == released(old(self)@, event@),
    {
        match event {
            JsEvent::Close { id, .. } => self.forget_ws(*id),
            JsEvent::Open { .. } => None,
            JsEvent::Message { .. } => None,
        }
    }
}

/// No handlers at all.
pub open spec fn no_handlers() -> Handlers {
    Handlers { native_echo: false, open: false, message: false, close: false }
}

/// The connections once a run of events was taken with no handler called.
pub open spec fn abandoned<H>(
    connections: Map<u64, Option<H>>,
    events: Seq<JsEventView>,
) -> Map<u64, Option<H>>
    decreases events.len(),
{
    if events.len() == 0 {
        connections
    } else {
        taken(abandoned(connections, events.drop_last()), no_handlers(), events.last())
    }
}

/// The handles that are to be released once a run of events was taken with no
/// handler called, in the order of the closes.
pub open spec fn all_released<H>(
    connections: Map<u64, Option<H>>,
    events: Seq<JsEventView>,
) -> Seq<H>
    decreases events.len(),
{
    if events.len() == 0 {
        Seq::empty()
    } else {
        let before = all_released(connections, events.drop_last());
        match released(abandoned(connections, events.drop_last()), events.last()) {
            Some(handle) => before.push(handle),
            None => before,
        }
    }
}

impl<H> Connections<H> {
    /// A handler threw, and these events of its batch are left: take them with no
    /// handler called, so that a connection whose close is among them leaves no
    /// handle behind. Returns the handles that are no longer needed, to be
    /// released.
    pub fn abandon(&mut self, rest: Vec<JsEvent>) -> (handles: Vec<H>)
        ensures
            final(self)@ == abandoned(old(self)@, events_view(rest@)),
            handles@ == all_released(old(self)@, events_view(rest@)),
    {
        let ghost events = events_view(rest@);
        let ghost before = self@;
        let mut handles: Vec<H> = Vec::new();
        let none: Handlers = Handlers {
            native_echo: false,
            open: false,
            message: false,
            close: false,
        };
        assert(events.take(0) =~= Seq::empty());
        for event in iter: rest
            invariant
                none == no_handlers(),
                events == events_view(iter.seq()),
                self@ == abandoned(before, events.take(iter.index() as int)),
                handles@ == all_released(before, events.take(iter.index() as int)),
        {
            let ghost i = iter.index() as int;
            assert(events.take(i + 1).drop_last() =~= events.take(i));
            assert(events[i] == event@);
            match self.deliver(&none, event) {
                Delivery::Done(Some(handle)) => {
                    handles.push(handle);
                },
                Delivery::Done(None) => {},
                Delivery::Call(_) => {},
            }
        }
        assert(events.take(events.len() as int) =~= events);
        handles
    }
}

/// The connections that JavaScript knows once it knows these and an event is
/// delivered.
pub open spec fn known_after(known: Set<u64>, event: JsEventView) -> Set<u64> {
    match event {
        JsEventView::Open { id } => known.insert(id),
        JsEventView::Message { .. } => known,
        JsEventView::Close { id, .. } => known.remove(id),
    }
}

/// The connections that JavaScript knows after a run of events.
pub open spec fn known_after_all(events: Seq<JsEventView>) -> Set<u64>
    decreases events.len(),
{
    if events.len() == 0 {
        Set::empty()
    } else {
        known_after(known_after_all(events.drop_last()), events.last())
    }
}

/// Whether every open in a run of events is followed by the connection's close.
pub open spec fn all_closed(events: Seq<JsEventView>) -> bool {
    forall|i: int, id: u64|
        0 <= i < events.len() && #[trigger] events[i] == (JsEventView::Open { id })
            ==> #[trigger] closes_after(events, i, id)
}

/// Whether a connection's close comes behind an index.
pub open spec fn closes_after(events: Seq<JsEventView>, i: int, id: u64) -> bool {
    exists|j: int|
        i < j < events.len() && (#[trigger] events[j] matches JsEventView::Close { id: gone, .. }
            && gone == id)
}

/// Delivering an event, with or without a handler for it and with or without
/// its connection's handle built on the way, leaves exactly the connections
/// that JavaScript knows after it.
pub proof fn law_delivery_tracks_connections<H>(
    connections: Map<u64, Option<H>>,
    handlers: Handlers,
    event: JsEventView,
    id: u64,
    built: Option<H>,
)
    ensures
        ({
            let taken = taken(connections, handlers, event);
            let looked_up = match built {
                Some(handle) => remembered(taken, id, handle),
                None => taken,
            };
            let after = if handles(handlers, event) {
                entered(looked_up, event)
            } else {
                taken
            };
            after.dom() == known_after(connections.dom(), event)
        }),
{
    let taken = taken(connections, handlers, event);
    let looked_up = match built {
        Some(handle) => remembered(taken, id, handle),
        None => taken,
    };
    let after = if handles(handlers, event) {
        entered(looked_up, event)
    } else {
        taken
    };
    assert(after.dom() =~= known_after(connections.dom(), event));
}

proof fn lemma_known_unclosed(events: Seq<JsEventView>, id: u64)
    requires
        known_after_all(events).contains(id),
    ensures
        exists|i: int|
            0 <= i < events.len() && #[trigger] events[i] == (JsEventView::Open { id })
                && !closes_after(events, i, id),
    decreases events.len(),
{
    let before = events.drop_last();
    let last = events.len() - 1;
    if events.last() == (JsEventView::Open { id }) {
        assert(events[last] == (JsEventView::Open { id }));
        assert(!closes_after(events, last, id));
    } else {
        lemma_known_unclosed(before, id);
        let i = choose|i: int|
            0 <= i < before.len() && #[trigger] before[i] == (JsEventView::Open { id })
                && !closes_after(before, i, id);
        assert(events[i] == before[i]);
        if closes_after(events, i, id) {
            let j = choose|j: int|
                i < j < events.len() && (#[trigger] events[j] matches JsEventView::Close {
                    id: gone,
                    ..
                } && gone == id);
            if j < last {
                assert(before[j] == events[j]);
            }
        }
    }
}

/// After every connection has closed no handle is left: where each open in the
/// events that were delivered is followed by its close, JavaScript knows no
/// connection, and the count of handles is zero.
pub proof fn law_no_handles_left<H>(events: Seq<JsEventView>, connections: Map<u64, Option<H>>)
    requires
        all_closed(events),
        connections.dom() == known_after_all(events),
    ensures
        connections =~= Map::empty(),
        handled(connections).len() == 0,
{
    assert forall|id: u64| !known_after_all(events).contains(id) by {
        if known_after_all(events).contains(id) {
            lemma_known_unclosed(events, id);
        }
    }
    assert(connections.dom() =~= Set::empty());
    assert(handled(connections) =~= Set::empty());
}

/// Where a batch was delivered up to a throw and the rest of it was abandoned,
/// the connections are those that JavaScript knows after the whole batch, so
/// that what comes later finds them.
pub proof fn law_abandoning_tracks_connections<H>(
    connections: Map<u64, Option<H>>,
    delivered: Seq<JsEventView>,
    rest: Seq<JsEventView>,
)
    requires
        connections.dom() == known_after_all(delivered),
    ensures
        abandoned(connections, rest).dom() == known_after_all(delivered + rest),
    decreases rest.len(),
{
    if rest.len() == 0 {
        assert(delivered + rest =~= delivered);
    } else {
        let all = delivered + rest;
        law_abandoning_tracks_connections(connections, delivered, rest.drop_last());
        assert(all.drop_last() =~= delivered + rest.drop_last());
        law_delivery_tracks_connections(
            abandoned(connections, rest.drop_last()),
            no_handlers(),
            rest.last(),
            0,
            None,
        );
    }
}

/// A handler that throws leaves no handle behind either: where a batch was
/// delivered up to a throw, and the rest of it was abandoned, JavaScript knows no
/// connection and the count of handles is zero once each open, delivered or
/// abandoned, is followed by its close.
pub proof fn law_throwing_handler_leaves_no_handles<H>(
    connections: Map<u64, Option<H>>,
    delivered: Seq<JsEventView>,
    rest: Seq<JsEventView>,
)
    requires
        connections.dom() == known_after_all(delivered),
        all_closed(delivered + rest),
    ensures
        abandoned(connections, rest) =~= Map::empty(),
        handled(abandoned(connections, rest)).len() == 0,
{
    law_abandoning_tracks_connections(connections, delivered, rest);
    law_no_handles_left(delivered + rest, abandoned(connections, rest));
}

/// A handler is called for an event exactly where it is registered.
pub proof fn law_registered_handler_is_called(
    handlers: Handlers,
    id: u64,
    data: Seq<u8>,
    binary: bool,
    code: u16,
)
    ensures
        handles(handlers, JsEventView::Open { id }) == handlers.open,
        handles(handlers, JsEventView::Message { id, data, binary }) == handlers.message,
        handles(handlers, JsEventView::Close { id, code }) == handlers.close,
{
}

/// An open brings its connection, with no handle yet. A message changes nothing. A
/// close takes its connection away, when its handler is entered or at once where
/// there is none, and what is to be released is that connection's handle. No event
/// touches another connection, and no other event has a handle released.
pub proof fn law_events_touch_their_own_connection<H>(
    connections: Map<u64, Option<H>>,
    handlers: Handlers,
    id: u64,
    data: Seq<u8>,
    binary: bool,
    code: u16,
)
    ensures
        ({
            let open = JsEventView::Open { id };
            let message = JsEventView::Message { id, data, binary };
            let close = JsEventView::Close { id, code };
            let handle = if connections.contains_key(id) {
                connections[id]
            } else {
                None
            };
            &&& taken(connections, handlers, open) == connections.insert(id, None)
            &&& entered(connections, open) == connections
            &&& released(connections, open) == None::<H>
            &&& taken(connections, handlers, message) == connections
            &&& entered(connections, message) == connections
            &&& released(connections, message) == None::<H>
            &&& handlers.close ==> taken(connections, handlers, close) == connections
            &&& !handlers.close ==> taken(connections, handlers, close) == connections.remove(id)
            &&& entered(connections, close) == connections.remove(id)
            &&& released(connections, close) == handle
        }),
{
}

/// A handle that was built is there afterwards, exactly where its connection is,
/// and no other connection's handle changes.
pub proof fn law_handle_is_remembered<H>(
    connections: Map<u64, Option<H>>,
    id: u64,
    handle: H,
    other: u64,
)
    ensures
        ({
            let after = remembered(connections, id, handle);
            &&& after.dom() == connections.dom()
            &&& connections.contains_key(id) ==> after[id] == Some(handle)
            &&& other != id ==> after[other] == connections[other]
        }),
{
    assert(remembered(connections, id, handle).dom() =~= connections.dom());
}

/// Whether a run of events tells of a connection's open.
pub open spec fn tells_open(events: Seq<JsEventView>, id: u64) -> bool {
    exists|i: int| 0 <= i < events.len() && #[trigger] events[i] == (JsEventView::Open { id })
}

/// Where a handler threw, the handle of every connection whose close is among what
/// is left of the batch is released, and a connection that is not named there
/// keeps its handle.
pub proof fn law_abandoned_handles_are_released<H>(
    connections: Map<u64, Option<H>>,
    rest: Seq<JsEventView>,
    id: u64,
    handle: H,
)
    requires
        connections.contains_key(id),
        connections[id] == Some(handle),
        !tells_open(rest, id),
    ensures
        if tells_close(rest, id) {
            &&& all_released(connections, rest).contains(handle)
            &&& !abandoned(connections, rest).contains_key(id)
        } else {
            &&& abandoned(connections, rest).contains_key(id)
            &&& abandoned(connections, rest)[id] == Some(handle)
        },
    decreases rest.len(),
{
    if rest.len() == 0 {
    } else {
        let front = rest.drop_last();
        let last = rest.last();
        let end = rest.len() - 1;
        assert(rest[end] == last);
        assert(!tells_open(front, id)) by {
            if tells_open(front, id) {
                let i = choose|i: int|
                    0 <= i < front.len() && #[trigger] front[i] == (JsEventView::Open { id });
                assert(rest[i] == front[i]);
            }
        }
        law_abandoned_handles_are_released(connections, front, id, handle);
        if tells_close(front, id) {
            let i = choose|i: int|
                0 <= i < front.len() && (#[trigger] front[i] matches JsEventView::Close {
                    id: gone,
                    ..
                } && gone == id);
            assert(rest[i] == front[i]);
            let before = all_released(connections, front);
            let k = choose|k: int| 0 <= k < before.len() && before[k] == handle;
            let all = all_released(connections, rest);
            assert(all[k] == handle);
        } else if tells_close(rest, id) {
            let i = choose|i: int|
                0 <= i < rest.len() && (#[trigger] rest[i] matches JsEventView::Close {
                    id: gone,
                    ..
                } && gone == id);
            if i < end {
                assert(front[i] == rest[i]);
            }
            let all = all_released(connections, rest);
            assert(all[all.len() - 1] == handle);
        } else {
            assert(!(last matches JsEventView::Close { id: gone, .. } && gone == id));
        }
    }
}

/// A connection's handle is counted exactly where it is built.
pub proof fn law_built_handles_are_counted<H>(connections: Map<u64, Option<H>>, id: u64)
    ensures
        handled(connections).contains(id) <==> connections.contains_key(id) && connections[id]
            is Some,
{
}

/// What JavaScript reads.
pub proof fn law_reasons()
    ensures
        AppError::EchoAndMessage.reason()@ == "nativeEcho and message are mutually exclusive"@,
        AppError::ListenTwice.reason()@ == "listen() called twice on one App"@,
        AppError::Closed.reason()@ == "connection is already closed"@,
{
}

} // verus!
