use key_value_store::{Action, Connection, Event, MemoryStore};

/// Feeds one chunk of client bytes through the connection, answering from
/// `store`, and appends what the server writes to `out`. Returns whether the
/// connection stays open.
fn feed(store: &mut MemoryStore, conn: &mut Connection, chunk: &str, out: &mut String) -> bool {
    let mut action = conn.step(Event::Received(chunk.as_bytes().to_vec()));
    loop {
        match action {
            Action::Read => return true,
            Action::Close => return false,
            Action::Dispatch(request) => {
                let reply = store.execute(request);
                action = conn.step(Event::Answered(Ok(reply)));
            }
            Action::Send(text) => {
                out.push_str(&text);
                action = conn.step(Event::Written(true));
            }
        }
    }
}

#[test]
fn store_request_is_answered_done() {
    let mut store = MemoryStore::new();
    let mut conn = Connection::new();
    let mut out = String::new();
    assert!(feed(&mut store, &mut conn, "STORE$key$value$", &mut out));
    assert_eq!(out, "DONE$");
}

#[test]
fn load_after_store_finds_value() {
    let mut store = MemoryStore::new();
    let mut conn = Connection::new();
    let mut out = String::new();
    assert!(feed(&mut store, &mut conn, "STORE$k$v$", &mut out));
    assert!(feed(&mut store, &mut conn, "LOAD$k$", &mut out));
    assert_eq!(out, "DONE$FOUND$v$");
}

#[test]
fn load_of_missing_key_is_not_found() {
    let mut store = MemoryStore::new();
    let mut conn = Connection::new();
    let mut out = String::new();
    assert!(feed(&mut store, &mut conn, "LOAD$missing$", &mut out));
    assert_eq!(out, "NOTFOUND$");
}

#[test]
fn piggybacked_requests_are_answered_in_order() {
    let mut store = MemoryStore::new();
    let mut conn = Connection::new();
    let mut out = String::new();
    assert!(feed(&mut store, &mut conn, "STORE$a$one$STORE$a$two$LOAD$a$", &mut out));
    assert_eq!(out, "DONE$DONE$FOUND$two$");
}

#[test]
fn fragmented_request_is_answered_once_after_last_fragment() {
    let mut store = MemoryStore::new();
    let mut conn = Connection::new();
    let mut out = String::new();
    for fragment in ["STO", "RE$k", "ey$v", "alu"] {
        assert!(feed(&mut store, &mut conn, fragment, &mut out));
        assert_eq!(out, "");
    }
    assert!(feed(&mut store, &mut conn, "e$", &mut out));
    assert_eq!(out, "DONE$");
}

#[test]
fn malformed_input_closes_without_output() {
    let mut store = MemoryStore::new();
    let mut conn = Connection::new();
    let mut out = String::new();
    assert!(!feed(&mut store, &mut conn, "STORE$1$v$", &mut out));
    assert_eq!(out, "");
}

#[test]
fn uppercase_key_closes_without_output() {
    let mut store = MemoryStore::new();
    let mut conn = Connection::new();
    let mut out = String::new();
    assert!(!feed(&mut store, &mut conn, "STORE$A$v$abc", &mut out));
    assert_eq!(out, "");
}

#[test]
fn request_followed_by_start_of_another_stays_open() {
    let mut store = MemoryStore::new();
    let mut conn = Connection::new();
    let mut out = String::new();
    assert!(feed(&mut store, &mut conn, "LOAD$a$L", &mut out));
    assert_eq!(out, "NOTFOUND$");
    assert!(feed(&mut store, &mut conn, "OAD$a$", &mut out));
    assert_eq!(out, "NOTFOUND$NOTFOUND$");
}

#[test]
fn last_write_wins_across_connections() {
    let mut store = MemoryStore::new();
    let mut a = Connection::new();
    let mut b = Connection::new();
    let mut out = String::new();
    assert!(feed(&mut store, &mut a, "STORE$x$a$", &mut out));
    assert!(feed(&mut store, &mut b, "STORE$x$b$", &mut out));
    assert!(feed(&mut store, &mut a, "LOAD$x$", &mut out));
    assert_eq!(out, "DONE$DONE$FOUND$b$");
}

#[test]
fn end_of_input_closes() {
    let mut conn = Connection::new();
    assert!(matches!(conn.step(Event::Received(Vec::new())), Action::Close));
}

#[test]
fn store_failure_closes() {
    let mut conn = Connection::new();
    assert!(matches!(conn.step(Event::Received(b"LOAD$k$".to_vec())), Action::Dispatch(_)));
    assert!(matches!(conn.step(Event::Answered(Err(key_value_store::TaskError))), Action::Close));
}

#[test]
fn failed_write_closes() {
    let mut conn = Connection::new();
    assert!(matches!(conn.step(Event::Received(b"LOAD$k$LOAD$j$".to_vec())), Action::Dispatch(_)));
    assert!(matches!(conn.step(Event::Written(false)), Action::Close));
}

#[test]
fn second_request_waits_for_first_response_to_be_written() {
    let mut conn = Connection::new();
    assert!(matches!(conn.step(Event::Received(b"LOAD$k$LOAD$j$".to_vec())), Action::Dispatch(_)));
    match conn.step(Event::Answered(Ok(key_value_store::Reply::NotFound))) {
        Action::Send(text) => assert_eq!(text, "NOTFOUND$"),
        _ => panic!("expected a response"),
    }
    match conn.step(Event::Written(true)) {
        Action::Dispatch(key_value_store::Request::Load(l)) => assert_eq!(l.key, "j"),
        _ => panic!("expected the second request"),
    }
    assert!(matches!(conn.step(Event::Written(true)), Action::Read));
}
