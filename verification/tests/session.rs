use entangle::crdt::{CrdtEngine, RemoteUpdateError};
use entangle::protocol::{decode_message, encode_sync_step1, encode_sync_step2, encode_update, SyncMessage};
use entangle::session::{
    connect, handle_incoming, hash_str, take_content, Action, Backoff, Connection, Event, Failure,
    SessionConfig,
};

fn seeded(text: &str) -> CrdtEngine {
    let mut engine = CrdtEngine::new();
    engine.seed(text);
    engine
}

fn sent(action: Action) -> Vec<u8> {
    match action {
        Action::Send(bytes) => bytes,
        other => panic!("nothing sent: {other:?}"),
    }
}

#[test]
fn config_holds_what_it_is_given() {
    let config = SessionConfig {
        ws_url: "ws://h/r/x".to_string(),
        file_path: std::path::PathBuf::from("x.txt"),
        debounce_ms: 300,
        poll_interval_ms: 2000,
    };
    assert_eq!(config.ws_url, "ws://h/r/x");
    assert_eq!(config.file_path.to_str(), Some("x.txt"));
    assert_eq!((config.debounce_ms, config.poll_interval_ms), (300, 2000));
}

#[test]
fn delays_double_up_to_the_limit() {
    let mut backoff = Backoff::new();
    let delays: Vec<u64> = (0..8).map(|_| backoff.next_delay()).collect();
    assert_eq!(
        delays,
        vec![1_000, 2_000, 4_000, 8_000, 16_000, 30_000, 30_000, 30_000]
    );
}

#[test]
fn equal_texts_have_equal_hashes() {
    assert_eq!(hash_str("hello"), hash_str(&"hel".to_string().replace("hel", "hello")));
    assert_ne!(hash_str("hello"), hash_str("hello "));
    assert_ne!(hash_str(""), 0);
}

#[test]
fn connection_starts_with_a_request() {
    let engine = seeded("hello");
    let (conn, request) = connect(&engine);
    assert!(!conn.debounce_pending);
    assert_eq!(conn.last_poll_hash, hash_str("hello"));
    assert_eq!(request, encode_sync_step1(&engine.state_vector_bytes()));
}

#[test]
fn request_is_replied_to_with_what_is_missing() {
    let mut sharer = seeded("hello");
    let mut joiner = CrdtEngine::new();
    let (_, request) = connect(&joiner);
    let mut hash = 7;
    let reply = sent(handle_incoming(&request, &mut sharer, &mut hash));
    assert_eq!(hash, 7);
    assert!(matches!(decode_message(&reply), Some(SyncMessage::SyncStep2(_))));
    let action = handle_incoming(&reply, &mut joiner, &mut hash);
    assert!(matches!(action, Action::WriteFile(text) if text == "hello"));
    assert_eq!(joiner.current_text(), "hello");
    assert_eq!(hash, hash_str("hello"));
}

#[test]
fn broadcast_edit_reaches_a_peer() {
    let mut a = seeded("hello");
    let mut b = CrdtEngine::new();
    let all = a.encode_state_as_update(&b.state_vector_bytes());
    b.apply_remote_update(&all).unwrap();
    let (mut conn_a, _) = connect(&a);
    let (mut conn_b, _) = connect(&b);
    let message = sent(conn_a.step(&mut a, Event::FileRead(Some("hello, wörld".to_string()))));
    assert_eq!(conn_a.last_poll_hash, hash_str("hello, wörld"));
    let action = conn_b.step(&mut b, Event::Binary(message));
    assert!(matches!(action, Action::WriteFile(text) if text == "hello, wörld"));
    assert_eq!(b.current_text(), a.current_text());
}

#[test]
fn remote_update_is_not_echoed() {
    let mut a = seeded("hello");
    let (mut conn, _) = connect(&a);
    let mut b = CrdtEngine::new();
    let all = a.encode_state_as_update(&b.state_vector_bytes());
    b.apply_remote_update(&all).unwrap();
    let update = b.apply_local_edit("hello!").unwrap();
    let written = match conn.step(&mut a, Event::Binary(encode_update(&update))) {
        Action::WriteFile(text) => text,
        other => panic!("not written: {other:?}"),
    };
    let action = conn.step(&mut a, Event::Polled(Some(written.clone())));
    assert!(matches!(action, Action::Wait));
    assert!(!conn.debounce_pending);
    let action = conn.step(&mut a, Event::FileRead(Some(written)));
    assert!(matches!(action, Action::Wait));
}

#[test]
fn update_that_changes_no_text_is_not_written() {
    let mut a = seeded("hello");
    let nothing = a.encode_state_as_update(&a.state_vector_bytes());
    let mut hash = 7;
    let action = handle_incoming(&encode_sync_step2(&nothing), &mut a, &mut hash);
    assert!(matches!(action, Action::Wait));
    assert_eq!(hash, 7);
}

#[test]
fn unknown_messages_are_ignored() {
    let mut a = seeded("hello");
    let mut hash = 7;
    let action = handle_incoming(&[1, 0, 1, 5], &mut a, &mut hash);
    assert!(matches!(action, Action::Wait));
    assert_eq!((a.current_text(), hash), ("hello", 7));
}

#[test]
fn broken_update_ends_the_connection() {
    let mut a = seeded("hello");
    let mut hash = 7;
    let action = handle_incoming(&encode_update(&[0xff, 0xff]), &mut a, &mut hash);
    match action {
        Action::Fail(failure) => {
            assert_eq!(failure.message(), "failed to apply remote update");
            assert!(matches!(failure, Failure::Update(RemoteUpdateError::Decode(_))));
        }
        other => panic!("no failure: {other:?}"),
    }
    assert_eq!((a.current_text(), hash), ("hello", 7));
}

#[test]
fn file_event_starts_the_debounce() {
    let mut a = seeded("hello");
    let (mut conn, _) = connect(&a);
    let action = conn.step(&mut a, Event::FileChanged);
    assert!(matches!(action, Action::ArmDebounce));
    assert!(conn.debounce_pending);
    // Polling leaves the file alone meanwhile.
    assert!(matches!(conn.step(&mut a, Event::PollTick), Action::Wait));
    // Another change starts it anew.
    assert!(matches!(conn.step(&mut a, Event::FileChanged), Action::ArmDebounce));
    let action = conn.step(&mut a, Event::DebounceElapsed { suppressed: false });
    assert!(matches!(action, Action::DisarmAndRead));
    assert!(!conn.debounce_pending);
}

#[test]
fn own_write_is_skipped() {
    let mut a = seeded("hello");
    let mut conn = Connection { debounce_pending: true, last_poll_hash: 1 };
    let action = conn.step(&mut a, Event::DebounceElapsed { suppressed: true });
    assert!(matches!(action, Action::DisarmDebounce));
    assert!(!conn.debounce_pending);
    assert_eq!(conn.last_poll_hash, 1);
}

#[test]
fn poll_notices_a_change_once() {
    let mut a = seeded("hello");
    let (mut conn, _) = connect(&a);
    assert!(matches!(conn.step(&mut a, Event::PollTick), Action::ReadForPoll));
    let same = conn.step(&mut a, Event::Polled(Some("hello".to_string())));
    assert!(matches!(same, Action::Wait));
    let changed = conn.step(&mut a, Event::Polled(Some("hello!".to_string())));
    assert!(matches!(changed, Action::ArmDebounce));
    assert!(conn.debounce_pending);
    assert_eq!(conn.last_poll_hash, hash_str("hello!"));
    conn.step(&mut a, Event::DebounceElapsed { suppressed: true });
    let again = conn.step(&mut a, Event::Polled(Some("hello!".to_string())));
    assert!(matches!(again, Action::Wait));
}

#[test]
fn file_that_cannot_be_read_changes_nothing() {
    let mut a = seeded("hello");
    let (mut conn, _) = connect(&a);
    assert!(matches!(conn.step(&mut a, Event::Polled(None)), Action::Wait));
    assert!(matches!(conn.step(&mut a, Event::FileRead(None)), Action::Wait));
    assert_eq!(conn.last_poll_hash, hash_str("hello"));
    assert_eq!(a.current_text(), "hello");
}

#[test]
fn content_already_taken_is_not_sent() {
    let mut a = seeded("hello");
    let mut hash = 0;
    assert!(matches!(take_content("hello", &mut a, &mut hash), Action::Wait));
    assert_eq!(hash, hash_str("hello"));
    let message = sent(take_content("hello you", &mut a, &mut hash));
    assert!(matches!(decode_message(&message), Some(SyncMessage::Update(_))));
    assert_eq!(hash, hash_str("hello you"));
}

#[test]
fn socket_events() {
    let mut a = seeded("hello");
    let (mut conn, _) = connect(&a);
    let pong = conn.step(&mut a, Event::Ping(vec![1, 2]));
    assert!(matches!(pong, Action::Pong(payload) if payload == [1, 2]));
    assert!(matches!(conn.step(&mut a, Event::OtherMessage), Action::Wait));
    assert!(matches!(conn.step(&mut a, Event::Interrupted), Action::Stop));
    match conn.step(&mut a, Event::Closed) {
        Action::Fail(failure) => assert_eq!(failure.message(), "WebSocket connection closed"),
        other => panic!("no failure: {other:?}"),
    }
    match conn.step(&mut a, Event::SocketError("reset".to_string())) {
        Action::Fail(failure) => assert_eq!(failure.message(), "WebSocket error: reset"),
        other => panic!("no failure: {other:?}"),
    }
}

#[test]
fn a_message_that_declares_too_much_is_ignored() {
    let mut a = seeded("hello");
    let mut hash = 7;
    let mut data = vec![0, 2];
    data.extend_from_slice(&[0xff, 0xff, 0xff, 0xff, 0xff, 0xff, 0xff, 0xff, 0xff, 0x01, 5]);
    let action = handle_incoming(&data, &mut a, &mut hash);
    assert!(matches!(action, Action::Wait));
    assert_eq!((a.current_text(), hash), ("hello", 7));
}

#[test]
fn an_early_update_is_written_once_it_can_be_taken() {
    let mut a = seeded("hello");
    let mut b = CrdtEngine::new();
    let all = a.encode_state_as_update(&b.state_vector_bytes());
    let edit = a.apply_local_edit("hello!").unwrap();
    let (mut conn, _) = connect(&b);
    let early = conn.step(&mut b, Event::Binary(encode_update(&edit)));
    assert!(matches!(early, Action::Wait));
    let action = conn.step(&mut b, Event::Binary(encode_sync_step2(&all)));
    assert!(matches!(action, Action::WriteFile(text) if text == "hello!"));
}
