use axum::extract::ws::Message;
use exchange_core::broadcast::{handle_event, handle_socket, ws_handler, AppState, SessionEvent};
use exchange_core::types::{
    EventType, IncomingMarketType, MarketType, MatchEvent, OrderKind,
};
use tokio::sync::mpsc::{unbounded_channel, UnboundedReceiver};

fn event(user: &str, market: MarketType, event_type: EventType) -> MatchEvent {
    MatchEvent {
        order_id: "o1".to_string(),
        user_id: user.to_string(),
        matched_with: "o2".to_string(),
        quantity: 1,
        price: 100,
        order_kind: OrderKind::Limit,
        market,
        event_type,
    }
}

fn connect(state: &mut AppState, user: &str) -> UnboundedReceiver<Message> {
    let (tx, rx) = unbounded_channel::<Message>();
    state.register(user.to_string(), tx);
    rx
}

fn frames(rx: &mut UnboundedReceiver<Message>) -> Vec<String> {
    let mut got = Vec::new();
    while let Ok(message) = rx.try_recv() {
        match message {
            Message::Text(text) => got.push(text),
            other => panic!("unexpected frame {:?}", other),
        }
    }
    got
}

#[test]
fn broadcaster_fan_out() {
    let mut state = AppState::new();
    let mut u1 = connect(&mut state, "U1");
    let mut u2 = connect(&mut state, "U2");
    let mut u3 = connect(&mut state, "U3");
    state.subscribe("U2".to_string(), MarketType::TATA_INR);
    state.subscribe("U3".to_string(), MarketType::TATA_INR);

    let sent = handle_event(&event("U1", MarketType::TATA_INR, EventType::PartialFill), "partial", &state);
    assert_eq!(sent, vec!["U1", "U2", "U3"]);
    assert_eq!(frames(&mut u1), vec!["partial"]);
    assert_eq!(frames(&mut u2), vec!["partial"]);
    assert_eq!(frames(&mut u3), vec!["partial"]);

    let sent = handle_event(&event("U1", MarketType::TATA_INR, EventType::FullFill), "full", &state);
    assert_eq!(sent, vec!["U1"]);
    assert_eq!(frames(&mut u1), vec!["full"]);
    assert!(frames(&mut u2).is_empty());
    assert!(frames(&mut u3).is_empty());
}

#[test]
fn unfilled_signal_goes_to_the_sender_only() {
    let mut state = AppState::new();
    let mut u1 = connect(&mut state, "U1");
    let mut u2 = connect(&mut state, "U2");
    state.subscribe("U2".to_string(), MarketType::TATA_INR);
    let sent =
        handle_event(&event("U1", MarketType::TATA_INR, EventType::MarketPartialFill), "tail", &state);
    assert_eq!(sent, vec!["U1"]);
    assert_eq!(frames(&mut u1), vec!["tail"]);
    assert!(frames(&mut u2).is_empty());
}

#[test]
fn followers_of_another_market_get_nothing() {
    let mut state = AppState::new();
    let mut u1 = connect(&mut state, "U1");
    let mut u2 = connect(&mut state, "U2");
    state.subscribe("U2".to_string(), MarketType::JIO_INR);
    let sent = handle_event(&event("U1", MarketType::TATA_INR, EventType::PartialFill), "frame", &state);
    assert_eq!(sent, vec!["U1"]);
    assert_eq!(frames(&mut u1), vec!["frame"]);
    assert!(frames(&mut u2).is_empty());
}

#[test]
fn sender_who_follows_the_market_gets_the_event_twice() {
    let mut state = AppState::new();
    let mut u1 = connect(&mut state, "U1");
    state.subscribe("U1".to_string(), MarketType::TATA_INR);
    let sent = handle_event(&event("U1", MarketType::TATA_INR, EventType::PartialFill), "frame", &state);
    assert_eq!(sent, vec!["U1", "U1"]);
    assert_eq!(frames(&mut u1), vec!["frame", "frame"]);
}

#[test]
fn subscribing_twice_lists_once() {
    let mut state = AppState::new();
    let mut u2 = connect(&mut state, "U2");
    state.subscribe("U2".to_string(), MarketType::TATA_INR);
    state.subscribe("U2".to_string(), MarketType::TATA_INR);
    let sent = handle_event(&event("U1", MarketType::TATA_INR, EventType::PartialFill), "frame", &state);
    assert_eq!(sent, vec!["U2"]);
    assert_eq!(frames(&mut u2), vec!["frame"]);
}

#[test]
fn absent_users_are_skipped() {
    let mut state = AppState::new();
    let mut u2 = connect(&mut state, "U2");
    let mut u3 = connect(&mut state, "U3");
    state.subscribe("U2".to_string(), MarketType::TATA_INR);
    state.subscribe("U3".to_string(), MarketType::TATA_INR);
    state.deregister("U2");
    let sent = handle_event(&event("U1", MarketType::TATA_INR, EventType::PartialFill), "frame", &state);
    assert_eq!(sent, vec!["U3"]);
    assert!(frames(&mut u2).is_empty());
    assert_eq!(frames(&mut u3), vec!["frame"]);
    let sent = handle_event(&event("U1", MarketType::TATA_INR, EventType::FullFill), "f", &state);
    assert!(sent.is_empty());
}

#[test]
fn later_session_replaces_the_earlier() {
    let mut state = AppState::new();
    let mut old = connect(&mut state, "U1");
    let mut new = connect(&mut state, "U1");
    let sent = handle_event(&event("U1", MarketType::TATA_INR, EventType::FullFill), "f", &state);
    assert_eq!(sent, vec!["U1"]);
    assert!(frames(&mut old).is_empty());
    assert_eq!(frames(&mut new), vec!["f"]);
}

#[test]
fn closed_endpoint_does_not_stop_the_fan_out() {
    let mut state = AppState::new();
    let gone = connect(&mut state, "U2");
    drop(gone);
    let mut u3 = connect(&mut state, "U3");
    state.subscribe("U2".to_string(), MarketType::TATA_INR);
    state.subscribe("U3".to_string(), MarketType::TATA_INR);
    let sent = handle_event(&event("U1", MarketType::TATA_INR, EventType::PartialFill), "frame", &state);
    assert_eq!(sent, vec!["U2", "U3"]);
    assert_eq!(frames(&mut u3), vec!["frame"]);
}

#[test]
fn session_needs_a_user() {
    assert_eq!(ws_handler(Some("U1".to_string())), Ok("U1".to_string()));
    assert_eq!(ws_handler(None), Err("Missing user_id".to_string()));
}

#[test]
fn session_reports_change_the_registry() {
    let mut state = AppState::new();
    let (tx, mut rx) = unbounded_channel::<Message>();
    handle_socket(&mut state, "U2".to_string(), SessionEvent::Opened(tx));
    handle_socket(&mut state, "U2".to_string(), SessionEvent::Unreadable);
    let partial = event("U1", MarketType::JIO_INR, EventType::PartialFill);
    assert!(handle_event(&partial, "before", &state).is_empty());
    handle_socket(
        &mut state,
        "U2".to_string(),
        SessionEvent::Received(IncomingMarketType::SubscribeOrderbook(MarketType::JIO_INR)),
    );
    assert_eq!(handle_event(&partial, "during", &state), vec!["U2"]);
    assert_eq!(frames(&mut rx), vec!["during"]);
    handle_socket(&mut state, "U2".to_string(), SessionEvent::Closed);
    assert!(handle_event(&partial, "after", &state).is_empty());
    assert!(frames(&mut rx).is_empty());
}

#[test]
fn command_subscribes() {
    let mut state = AppState::new();
    let mut u2 = connect(&mut state, "U2");
    state.apply_command(
        "U2".to_string(),
        IncomingMarketType::SubscribeOrderbook(MarketType::TATA_INR),
    );
    let sent = handle_event(&event("U9", MarketType::TATA_INR, EventType::PartialFill), "frame", &state);
    assert_eq!(sent, vec!["U2"]);
    assert_eq!(frames(&mut u2), vec!["frame"]);
}
