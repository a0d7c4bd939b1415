use ramjet_node::messages::JsEvent;
use ramjet_node::node::{
    app, copies_message, handle_count, is_binary, AppError, Connections, Delivery, Handlers,
    SMALL_MESSAGE_COPY_MAX,
};

fn every_handler() -> Handlers {
    Handlers { native_echo: false, open: true, message: true, close: true }
}

#[test]
fn echo_and_a_message_handler_exclude_each_other() {
    let mut server = app();
    let both = Handlers { native_echo: true, open: false, message: true, close: false };
    assert_eq!(server.ws("/*", both).err(), Some(AppError::EchoAndMessage));
    assert_eq!(
        AppError::EchoAndMessage.message(),
        "nativeEcho and message are mutually exclusive"
    );
    // Nothing was registered.
    assert!(server.listen().is_ok());
    let start = server.start().unwrap_or_else(|_| panic!("started twice"));
    assert!(!start.dispatching && !start.config.native_echo && !start.config.wants_message);
}

#[test]
fn the_reactor_gets_what_was_registered_last() {
    let mut server = app();
    assert!(server.ws("/*", every_handler()).is_ok());
    let echo = Handlers { native_echo: true, open: true, message: false, close: false };
    assert!(server.ws("/another", echo).is_ok());
    assert!(server.listen().is_ok());
    let start = server.start().unwrap_or_else(|_| panic!("started twice"));
    assert!(start.dispatching && start.config.native_echo && !start.config.wants_message);
}

#[test]
fn listen_is_chained_behind_ws() {
    let mut server = app();
    let echo = Handlers { native_echo: true, open: false, message: false, close: true };
    let listened = match server.ws("/*", echo) {
        Ok(chained) => chained.listen(),
        Err(e) => Err(e),
    };
    assert_eq!(listened, Ok(()));
    // It was the same application.
    assert_eq!(server.listen(), Err(AppError::ListenTwice));
    let start = server.start().unwrap_or_else(|_| panic!("started twice"));
    assert!(start.dispatching && start.config.native_echo && !start.config.wants_message);
}

#[test]
fn an_app_listens_once_even_if_the_port_is_taken() {
    let mut server = app();
    assert!(server.listen().is_ok());
    // The port could not be bound, so nothing was started; it stays that way.
    assert_eq!(server.listen(), Err(AppError::ListenTwice));
    assert_eq!(AppError::ListenTwice.message(), "listen() called twice on one App");
    assert!(server.start().is_ok());
    assert!(matches!(server.start(), Err(AppError::ListenTwice)));
}

#[test]
fn a_string_is_text_and_a_flag_overrides() {
    assert!(!is_binary(true, None));
    assert!(is_binary(false, None));
    assert!(is_binary(true, Some(true)));
    assert!(!is_binary(false, Some(false)));
}

#[test]
fn small_messages_are_copied() {
    assert_eq!(SMALL_MESSAGE_COPY_MAX, 4096);
    assert!(copies_message(0));
    assert!(copies_message(4096));
    assert!(!copies_message(4097));
}

#[test]
fn a_handle_is_built_once_and_kept() {
    let mut connections: Connections<&str> = Connections::new();
    assert_eq!(connections.ws_for(1), Err(AppError::Closed));
    assert_eq!(AppError::Closed.message(), "connection is already closed");
    connections.register_connection(1);
    assert_eq!(connections.ws_for(1), Ok(None));
    assert_eq!(handle_count(&connections), 0);
    connections.remember(1, "one");
    assert_eq!(connections.ws_for(1), Ok(Some(&"one")));
    assert_eq!(handle_count(&connections), 1);
    // A handle for a connection that has gone is not kept.
    connections.remember(2, "two");
    assert_eq!(connections.ws_for(2), Err(AppError::Closed));
    assert_eq!(connections.forget_ws(1), Some("one"));
    assert_eq!(connections.forget_ws(1), None);
    assert_eq!(handle_count(&connections), 0);
}

#[test]
fn handles_are_counted_apart_from_connections() {
    let mut connections: Connections<u8> = Connections::new();
    for id in 1..=5 {
        connections.register_connection(id);
    }
    connections.remember(2, 20);
    connections.remember(4, 40);
    connections.remember(5, 50);
    assert_eq!(handle_count(&connections), 3);
    assert_eq!(connections.forget_ws(4), Some(40));
    assert_eq!(connections.forget_ws(3), None);
    assert_eq!(handle_count(&connections), 2);
}

#[test]
fn events_call_their_handlers() {
    let handlers = every_handler();
    let mut connections: Connections<&str> = Connections::new();
    let open = connections.deliver(&handlers, JsEvent::Open { id: 3 });
    assert!(matches!(open, Delivery::Call(JsEvent::Open { id: 3 })));
    assert_eq!(connections.ws_for(3), Ok(None));
    connections.remember(3, "three");
    let message = JsEvent::Message { id: 3, data: vec![1, 2], binary: true };
    match connections.deliver(&handlers, message) {
        Delivery::Call(event) => {
            assert_eq!(event, JsEvent::Message { id: 3, data: vec![1, 2], binary: true });
            assert_eq!(connections.entering(&event), None);
        }
        Delivery::Done(_) => panic!("no call"),
    }
    assert_eq!(connections.ws_for(3), Ok(Some(&"three")));
    match connections.deliver(&handlers, JsEvent::Close { id: 3, code: 1001 }) {
        Delivery::Call(event) => {
            // Still there for the handler to be looked up, gone before it runs.
            assert_eq!(connections.ws_for(3), Ok(Some(&"three")));
            assert_eq!(connections.entering(&event), Some("three"));
            assert_eq!(connections.ws_for(3), Err(AppError::Closed));
        }
        Delivery::Done(_) => panic!("no call"),
    }
    assert_eq!(handle_count(&connections), 0);
}

#[test]
fn without_handlers_a_close_still_forgets() {
    let handlers = Handlers { native_echo: true, open: false, message: false, close: false };
    let mut connections: Connections<&str> = Connections::new();
    assert!(matches!(
        connections.deliver(&handlers, JsEvent::Open { id: 9 }),
        Delivery::Done(None)
    ));
    connections.remember(9, "nine");
    let message = JsEvent::Message { id: 9, data: Vec::new(), binary: false };
    assert!(matches!(connections.deliver(&handlers, message), Delivery::Done(None)));
    assert!(matches!(
        connections.deliver(&handlers, JsEvent::Close { id: 9, code: 1000 }),
        Delivery::Done(Some("nine"))
    ));
    assert_eq!(connections.ws_for(9), Err(AppError::Closed));
}

#[test]
fn no_handles_are_left_once_every_connection_has_closed() {
    let handlers = every_handler();
    let mut connections: Connections<u64> = Connections::new();
    for id in 1..=100u64 {
        connections.deliver(&handlers, JsEvent::Open { id });
        connections.remember(id, id);
    }
    assert_eq!(handle_count(&connections), 100);
    for id in 1..=100u64 {
        let event = JsEvent::Close { id, code: 1006 };
        if let Delivery::Call(event) = connections.deliver(&handlers, event) {
            assert_eq!(connections.entering(&event), Some(id));
        }
    }
    assert_eq!(handle_count(&connections), 0);
}

#[test]
fn a_throwing_handler_leaves_no_handles() {
    let handlers = every_handler();
    let mut connections: Connections<u64> = Connections::new();
    for id in 1..=3u64 {
        connections.deliver(&handlers, JsEvent::Open { id });
        connections.remember(id, id * 10);
    }
    // The close handler throws for the first, with the rest of the batch left.
    if let Delivery::Call(event) =
        connections.deliver(&handlers, JsEvent::Close { id: 1, code: 1000 })
    {
        assert_eq!(connections.entering(&event), Some(10));
    }
    let rest = vec![
        JsEvent::Message { id: 3, data: vec![1], binary: true },
        JsEvent::Close { id: 3, code: 1000 },
        JsEvent::Open { id: 4 },
        JsEvent::Close { id: 2, code: 1006 },
    ];
    assert_eq!(connections.abandon(rest), [30, 20]);
    assert_eq!(handle_count(&connections), 0);
    assert_eq!(connections.ws_for(2), Err(AppError::Closed));
    assert_eq!(connections.ws_for(3), Err(AppError::Closed));
    // What opened meanwhile is known, so that its messages find it.
    assert_eq!(connections.ws_for(4), Ok(None));
    assert_eq!(connections.abandon(Vec::new()), []);
}
