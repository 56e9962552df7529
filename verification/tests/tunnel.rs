use sdproxy::session::SessionTable;
use sdproxy::tunnel::{
    handle_client, handle_http_raw, handle_tls_connection, handle_xhttp_get, handle_xhttp_post, route,
    route_raw, route_tls, Connection, Phase,
};
use sdproxy::wire::{Action, Event, Flush, NetEvent, Outcome};

fn after(events: Vec<NetEvent>) -> Connection {
    let mut connection = handle_client("up", 2222);
    for event in events {
        connection = connection.step(event);
    }
    connection
}

fn bytes(b: &[u8]) -> NetEvent {
    Event::Bytes(b.to_vec())
}

fn plain(first: &[u8]) -> Connection {
    after(vec![bytes(b"P"), bytes(first)])
}

fn secure(first: &[u8]) -> Connection {
    after(vec![bytes(b"\x16"), Event::Done, bytes(first)])
}

#[test]
fn every_client_without_tls_is_read() {
    assert_eq!(after(vec![]).action(), Action::Peek { limit: 1, wait: Some(5) });
    assert_eq!(after(vec![bytes(b"\x16")]).action(), Action::StartTls);
    for other in [bytes(b"G"), bytes(b""), Event::TimedOut, Event::Failed] {
        assert_eq!(after(vec![other]).action(), Action::Read { limit: 8192, wait: Some(5) });
    }
}

#[test]
fn a_failed_handshake_is_no_error() {
    assert_eq!(
        after(vec![bytes(b"\x16"), Event::Failed]).action(),
        Action::Finish { outcome: Outcome::Closed }
    );
}

#[test]
fn a_silent_client_is_let_go() {
    for nothing in [bytes(b""), Event::TimedOut, Event::Failed] {
        assert_eq!(
            after(vec![bytes(b"x"), nothing]).action(),
            Action::Finish { outcome: Outcome::Closed }
        );
    }
}

#[test]
fn headers_over_tls_are_read_until_complete() {
    let connection = secure(b"GET /abcdef HTTP/1.1\r\n\r");
    assert_eq!(connection.action(), Action::Read { limit: 4096, wait: Some(10) });
    let connection = connection.step(bytes(b"\n"));
    assert_eq!(connection.phase, Phase::SessionDial { id: "abcdef".to_string() });
}

#[test]
fn headers_that_stop_early_still_count() {
    for end in [bytes(b""), Event::TimedOut, Event::Failed] {
        let connection = secure(b"GET /abcdef").step(end);
        assert_eq!(connection.phase, Phase::SessionDial { id: "abcdef".to_string() });
    }
    let mut long = b"GET /abcdef ".to_vec();
    long.resize(65535, b'x');
    let connection = secure(&long);
    assert_eq!(connection.action(), Action::Read { limit: 4096, wait: Some(10) });
    let connection = connection.step(bytes(b"x"));
    assert_eq!(connection.phase, Phase::SessionDial { id: "abcdef".to_string() });
}

#[test]
fn no_request_over_tls_is_tunnelled_without_its_bytes() {
    for connection in [secure(b"SSH-2.0-x\r\n\r\n"), secure(b"")] {
        assert_eq!(connection.action(), Action::Connect { port: 2222 });
        let connection = connection.step(Event::Done);
        assert_eq!(connection.action(), Action::Relay);
        let connection = connection.step(Event::Failed);
        assert_eq!(connection.action(), Action::Finish { outcome: Outcome::Closed });
    }
    assert_eq!(after(vec![bytes(b"\x16"), Event::Done, Event::TimedOut]).phase, Phase::Dial);
}

#[test]
fn no_request_without_tls_is_tunnelled_with_its_bytes() {
    let connection = plain(b"SSH-2.0-x\xff");
    assert_eq!(connection.action(), Action::Connect { port: 2222 });
    let connection = connection.step(Event::Done);
    assert_eq!(connection.action(), Action::WriteServer { bytes: b"SSH-2.0-x\xff".to_vec() });
    assert_eq!(connection.step(Event::Done).action(), Action::Relay);
    let failed = Action::Finish { outcome: Outcome::Failed };
    assert_eq!(plain(b"SSH").step(Event::Failed).action(), failed);
    assert_eq!(plain(b"SSH").step(Event::Done).step(Event::Failed).action(), failed);
}

#[test]
fn other_paths_are_greeted_and_tunnelled() {
    for connection in [plain(b"GET / HTTP/1.1\r\n\r\n"), secure(b"POST /abcde H\r\n\r\n"), plain(b"X /")] {
        let greeting = b"HTTP/1.1 101 (up)\r\n\r\nHTTP/1.1 200 (up)\r\n\r\n".to_vec();
        assert_eq!(connection.action(), Action::Write { bytes: greeting, flush: Flush::Must });
        let connection = connection.step(Event::Done);
        assert_eq!(connection.action(), Action::Connect { port: 2222 });
        assert_eq!(connection.step(Event::Done).action(), Action::Relay);
    }
    let failed = Action::Finish { outcome: Outcome::Failed };
    assert_eq!(plain(b"GET /").step(Event::Failed).action(), failed);
    assert_eq!(plain(b"GET /").step(Event::Done).step(Event::Failed).action(), failed);
}

fn streaming() -> Connection {
    plain(b"GET /ssh/id7 HTTP/1.1").step(Event::Done).step(Event::Done).step(Event::Done)
}

#[test]
fn a_session_is_opened_and_named() {
    for connection in [plain(b"GET /ssh/id7"), secure(b"GET /ssh/id7/x H\r\n\r\n")] {
        assert_eq!(connection.action(), Action::Connect { port: 2222 });
        let connection = connection.step(Event::Done);
        assert_eq!(connection.action(), Action::OpenSession { id: "id7".to_string() });
        let connection = connection.step(Event::Done);
        let head = "HTTP/1.1 200 OK\r\nContent-Type: application/octet-stream\r\n\
                    Connection: keep-alive\r\nX-Session-ID: id7\r\nX-Status: up\r\n\r\n";
        assert_eq!(
            connection.action(),
            Action::Write { bytes: head.as_bytes().to_vec(), flush: Flush::Must }
        );
        let connection = connection.step(Event::Done);
        assert_eq!(connection.action(), Action::ReadServer { limit: 16384, wait: Some(120) });
    }
    let failed = Action::Finish { outcome: Outcome::Failed };
    assert_eq!(plain(b"GET /ssh").step(Event::Failed).action(), failed);
    assert_eq!(
        plain(b"GET /ssh").step(Event::Done).step(Event::Done).step(Event::Failed).action(),
        failed
    );
}

#[test]
fn a_download_is_sent_as_it_comes() {
    let mut connection = streaming();
    let mut stream: Vec<u8> = Vec::new();
    for piece in [&b"hello"[..], &b"\r\n\xff"[..]] {
        connection = connection.step(bytes(piece));
        match connection.action() {
            Action::Write { bytes, flush } => {
                assert_eq!(flush, Flush::Try);
                stream.extend_from_slice(&bytes);
            }
            other => panic!("{:?}", other),
        }
        connection = connection.step(Event::Done);
        assert_eq!(connection.action(), Action::ReadServer { limit: 16384, wait: Some(120) });
    }
    assert_eq!(stream, b"hello\r\n\xff".to_vec());
}

#[test]
fn a_session_is_closed_however_its_stream_stops() {
    for connection in [
        streaming().step(bytes(b"")),
        streaming().step(Event::TimedOut),
        streaming().step(Event::Failed),
        streaming().step(bytes(b"x")).step(Event::Failed),
    ] {
        assert_eq!(connection.action(), Action::CloseSession { id: "id7".to_string() });
        let connection = connection.step(Event::Done);
        assert_eq!(connection.action(), Action::Finish { outcome: Outcome::Closed });
    }
}

#[test]
fn an_upload_is_delivered_and_answered() {
    for connection in [
        plain(b"POST /ssh/id7 HTTP/1.1\r\nContent-Length: 8\r\n\r\nab"),
        secure(b"POST /ssh/id7 HTTP/1.1\r\nContent-Length: 8\r\n\r\nab"),
    ] {
        assert_eq!(connection.action(), Action::Read { limit: 6, wait: None });
        let connection = connection.step(bytes(b"c\xff\x00"));
        assert_eq!(connection.action(), Action::Read { limit: 3, wait: None });
        let connection = connection.step(bytes(b"fgh"));
        assert_eq!(
            connection.action(),
            Action::Deliver { id: "id7".to_string(), body: b"abc\xff\x00fgh".to_vec() }
        );
        let connection = connection.step(Event::Done);
        assert_eq!(
            connection.action(),
            Action::Write {
                bytes: b"HTTP/1.1 200 OK\r\nContent-Length: 0\r\n\r\n".to_vec(),
                flush: Flush::Skip,
            }
        );
        let failed = Connection { status: "up".to_string(), ssh_port: 2222, phase: Phase::Answer };
        assert_eq!(connection, failed);
        assert_eq!(failed.step(Event::Failed).action(), Action::Finish { outcome: Outcome::Failed });
        let connection = connection.step(Event::Done);
        assert_eq!(connection.action(), Action::Finish { outcome: Outcome::Closed });
    }
}

#[test]
fn an_upload_that_stops_is_delivered_and_one_that_fails_is_not() {
    let request = b"POST /ssh/id7 H\r\ncontent-length: 9\r\n\r\nabc";
    assert_eq!(
        plain(request).step(bytes(b"")).action(),
        Action::Deliver { id: "id7".to_string(), body: b"abc".to_vec() }
    );
    assert_eq!(
        plain(request).step(Event::Failed).action(),
        Action::Finish { outcome: Outcome::Failed }
    );
}

#[test]
fn the_body_is_what_the_text_holds_after_the_blank_line() {
    assert_eq!(
        handle_xhttp_post("POST /ssh/id7\r\n\r\né\r\n\r\n", "/ssh/id7"),
        Phase::Deliver { id: "id7".to_string(), body: "é\r\n\r\n".as_bytes().to_vec() }
    );
    assert_eq!(
        handle_xhttp_post("POST /abcdef", "/abcdef"),
        Phase::Deliver { id: "abcdef".to_string(), body: b"POST /abcdef".to_vec() }
    );
}

#[test]
fn bytes_of_a_first_read_that_are_no_text_are_replaced() {
    let replaced = "a\u{fffd}b".as_bytes().to_vec();
    let expected = Phase::Deliver { id: "abcdef".to_string(), body: replaced };
    assert_eq!(handle_http_raw(b"POST /abcdef\r\n\r\na\xffb".to_vec()), expected);
    assert_eq!(handle_tls_connection(b"POST /abcdef\r\n\r\na\xffb"), expected);
}

#[test]
fn bytes_of_a_first_read_that_are_text_stay() {
    let request = "POST /abcdef\r\nContent-Length: 3\r\n\r\na\u{e9}\0";
    let expected = Phase::Deliver { id: "abcdef".to_string(), body: "a\u{e9}\0".as_bytes().to_vec() };
    assert_eq!(handle_http_raw(request.as_bytes().to_vec()), expected);
    assert_eq!(handle_tls_connection(request.as_bytes()), expected);
}

#[test]
fn a_path_has_one_session_for_both_ways() {
    for path in ["/abcdef", "/ssh/abcdef", "/abcdef/up"] {
        assert_eq!(handle_xhttp_get(path), Phase::SessionDial { id: "abcdef".to_string() });
        assert_eq!(
            route(&format!("POST {}\r\n\r\n", path)),
            Some(Phase::Deliver { id: "abcdef".to_string(), body: vec![] })
        );
    }
}

#[test]
fn other_methods_on_a_session_are_let_go() {
    let closed = Phase::Over { outcome: Outcome::Closed };
    assert_eq!(route("HEAD /abcdef"), Some(closed));
    assert_eq!(route("get /abcdef"), Some(Phase::Over { outcome: Outcome::Closed }));
    assert_eq!(route("HEAD"), None);
    assert_eq!(route("HEAD /"), Some(Phase::Greet));
}

#[test]
fn texts_are_routed_with_and_without_tls() {
    assert_eq!(route_tls("", b""), Phase::Dial);
    assert_eq!(route_tls("GET /abcdef", b""), Phase::Dial);
    assert_eq!(route_tls("GET", b"GET"), Phase::Dial);
    assert_eq!(route_tls("GET /", b"GET /"), Phase::Greet);
    assert_eq!(route_raw("GET", b"GET".to_vec()), Phase::DialWith { data: b"GET".to_vec() });
    assert_eq!(route_raw("GET /", b"GET /".to_vec()), Phase::Greet);
}

#[test]
fn a_tunnel_connection_that_ended_stays_so() {
    let over = plain(b"HEAD /abcdef").step(Event::Done).step(bytes(b"x")).step(Event::Failed);
    assert_eq!(over.action(), Action::Finish { outcome: Outcome::Closed });
}

#[test]
fn nothing_at_all_is_let_go_without_tls() {
    let closed = Phase::Over { outcome: Outcome::Closed };
    assert_eq!(handle_http_raw(vec![]), closed);
    assert_eq!(route_raw("GET /abcdef", vec![]), closed);
}

#[test]
fn an_upload_cut_anywhere_over_tls_is_delivered() {
    let connection = secure(b"POST /ssh/id7 H\r\nContent-Le")
        .step(bytes(b"ngth: 5\r\n\r"))
        .step(bytes(b"\nab"))
        .step(bytes(b"c"))
        .step(bytes(b"de"));
    assert_eq!(
        connection.action(),
        Action::Deliver { id: "id7".to_string(), body: b"abcde".to_vec() }
    );
    let connection = secure(b"POST /ssh/id7 H\r\nContent-Length: 99")
        .step(Event::TimedOut)
        .step(bytes(b"x"))
        .step(bytes(b""));
    assert_eq!(
        connection.action(),
        Action::Deliver {
            id: "id7".to_string(),
            body: b"POST /ssh/id7 H\r\nContent-Length: 99x".to_vec(),
        }
    );
}

/// Drives a connection, and keeps the table of sessions and what was sent.
fn driven(first: &[u8], table: &mut SessionTable<u8>, events: Vec<NetEvent>) -> (Connection, Vec<u8>) {
    let mut connection = plain(first);
    let mut told: Vec<u8> = Vec::new();
    for event in events {
        match connection.action() {
            Action::OpenSession { id } => table.insert(id, 7),
            Action::CloseSession { id } => table.remove(&id),
            Action::Write { bytes, .. } if event == Event::Done => told.extend_from_slice(&bytes),
            _ => {}
        }
        connection = connection.step(event);
    }
    (connection, told)
}

#[test]
fn a_session_is_in_the_table_while_its_stream_lasts() {
    let mut table = SessionTable::new();
    table.insert("other".to_string(), 1);
    let done = || Event::Done;
    driven(b"GET /ssh/id7", &mut table, vec![done()]);
    assert_eq!(table.get("id7"), None);
    driven(b"GET /ssh/id7", &mut table, vec![done(), done(), done(), bytes(b"x"), done()]);
    assert_eq!(table.get("id7"), Some(&7));
    let (over, _) = driven(b"GET /ssh/id7", &mut table, vec![done(), done(), done(), Event::TimedOut, done()]);
    assert_eq!(over.action(), Action::Finish { outcome: Outcome::Closed });
    assert_eq!(table.get("id7"), None);
    driven(b"GET /ssh/id7", &mut table, vec![done(), done(), Event::Failed]);
    assert_eq!(table.get("id7"), Some(&7));
    driven(b"POST /ssh/other\r\n\r\nx", &mut table, vec![done(), done()]);
    assert_eq!(table.get("other"), Some(&1));
}

#[test]
fn a_broken_stream_was_sent_up_to_the_last_piece() {
    let mut table = SessionTable::new();
    let done = || Event::Done;
    let events = vec![done(), done(), done(), bytes(b"ab"), done(), bytes(b"cd"), Event::Failed, done()];
    let (over, told) = driven(b"GET /ssh/id7", &mut table, events);
    assert_eq!(over.action(), Action::Finish { outcome: Outcome::Closed });
    let head = "HTTP/1.1 200 OK\r\nContent-Type: application/octet-stream\r\n\
                Connection: keep-alive\r\nX-Session-ID: id7\r\nX-Status: up\r\n\r\n";
    assert_eq!(told, format!("{}ab", head).into_bytes());
}
