use sdproxy::session::SessionTable;
use sdproxy::split::{
    downlink, downlink_read, handle_http_xhttp_raw, handle_tls_xhttp, handle_xhttp_client,
    handle_xhttp_get, handle_xhttp_post, route, route_raw, route_tls, uplink, Connection, Downlink, Phase,
};
use sdproxy::wire::{Action, Event, Flush, NetEvent, Outcome};

fn after(events: Vec<NetEvent>) -> Connection {
    let mut connection = handle_xhttp_client("up", 2222);
    for event in events {
        connection = connection.step(event);
    }
    connection
}

fn bytes(b: &[u8]) -> NetEvent {
    Event::Bytes(b.to_vec())
}

fn plain(first: &[u8]) -> Connection {
    after(vec![bytes(b"POS"), bytes(first)])
}

fn secure(first: &[u8]) -> Connection {
    after(vec![bytes(b"\x16\x03\x01"), Event::Done, bytes(first)])
}

#[test]
fn the_first_byte_decides_on_tls() {
    assert_eq!(after(vec![]).action(), Action::Peek { limit: 3, wait: Some(10) });
    assert_eq!(after(vec![bytes(b"\x16")]).action(), Action::StartTls);
    for first in [&b"G"[..], &b"P"[..], &b"H"[..], &b"S"[..], &b"\x00\x16"[..]] {
        assert_eq!(after(vec![bytes(first)]).action(), Action::Read { limit: 8192, wait: Some(10) });
    }
    for nothing in [bytes(b""), Event::TimedOut, Event::Failed] {
        assert_eq!(after(vec![nothing]).action(), Action::Finish { outcome: Outcome::Closed });
    }
}

#[test]
fn a_failed_handshake_is_reported() {
    assert_eq!(
        after(vec![bytes(b"\x16"), Event::Failed]).action(),
        Action::Finish { outcome: Outcome::Failed }
    );
}

#[test]
fn headers_are_read_until_they_are_complete() {
    let connection = secure(b"GET /abc HTTP/1.1\r\n");
    assert_eq!(connection.action(), Action::Read { limit: 8192, wait: Some(15) });
    let connection = connection.step(bytes(b"\r\n"));
    assert_eq!(connection.phase, Phase::SessionDial { id: "abc".to_string() });
}

#[test]
fn incomplete_headers_end_the_connection() {
    for end in [bytes(b""), Event::TimedOut, Event::Failed] {
        let connection = secure(b"GET /abc HTTP/1.1\r\n").step(end);
        assert_eq!(connection.action(), Action::Finish { outcome: Outcome::Closed });
    }
    assert_eq!(handle_tls_xhttp(vec![b'x'; 65536]), Phase::Over { outcome: Outcome::Closed });
    assert_eq!(handle_tls_xhttp(vec![b'x'; 65535]), Phase::Headers { buf: vec![b'x'; 65535] });
}

#[test]
fn headers_without_a_request_are_an_error() {
    for head in [&b"\r\n\r\n"[..], &b"SSH-2.0\r\n\r\nGET /abc"[..]] {
        assert_eq!(
            secure(head).action(),
            Action::Finish { outcome: Outcome::InvalidHttp }
        );
    }
}

#[test]
fn what_is_no_request_is_passed_on() {
    let connection = plain(b"SSH-2.0-x\r\n");
    assert_eq!(connection.action(), Action::Connect { port: 2222 });
    let connection = connection.step(Event::Done);
    assert_eq!(connection.action(), Action::WriteServer { bytes: b"SSH-2.0-x\r\n".to_vec() });
    let connection = connection.step(Event::Done);
    assert_eq!(connection.action(), Action::Relay);
    let connection = connection.step(Event::Done);
    assert_eq!(connection.action(), Action::Finish { outcome: Outcome::Closed });
    assert_eq!(plain(b"").action(), Action::Connect { port: 2222 });
    assert_eq!(plain(b"\xff\xff").step(Event::Done).action(), Action::WriteServer { bytes: vec![255, 255] });
}

#[test]
fn a_failure_to_pass_on_is_reported() {
    let failed = Action::Finish { outcome: Outcome::Failed };
    assert_eq!(plain(b"SSH").step(Event::Failed).action(), failed);
    assert_eq!(plain(b"SSH").step(Event::Done).step(Event::Failed).action(), failed);
    assert_eq!(after(vec![bytes(b"x"), Event::TimedOut]).action(), failed);
    assert_eq!(after(vec![bytes(b"x"), Event::Failed]).action(), failed);
}

#[test]
fn a_download_opens_its_session() {
    for connection in [plain(b"GET /split/id7/0?x HTTP/1.1\r\n"), secure(b"GET /id7 H\r\n\r\n")] {
        assert_eq!(connection.action(), Action::Connect { port: 2222 });
        let connection = connection.step(Event::Done);
        assert_eq!(connection.action(), Action::OpenSession { id: "id7".to_string() });
        let connection = connection.step(Event::Done);
        let head = "HTTP/1.1 200 OK\r\nTransfer-Encoding: chunked\r\nX-Session-ID: id7\r\nX-Status: up\r\n\r\n";
        assert_eq!(
            connection.action(),
            Action::Write { bytes: head.as_bytes().to_vec(), flush: Flush::Skip }
        );
        assert_eq!(connection.step(Event::Done).action(), Action::NextDownstream);
    }
    let failed = Action::Finish { outcome: Outcome::Failed };
    assert_eq!(plain(b"GET /id7").step(Event::Failed).action(), failed);
    assert_eq!(
        plain(b"GET /id7").step(Event::Done).step(Event::Done).step(Event::Failed).action(),
        failed
    );
}

fn streaming() -> Connection {
    plain(b"GET /id7").step(Event::Done).step(Event::Done).step(Event::Done)
}

#[test]
fn a_download_is_sent_in_chunks() {
    let mut connection = streaming();
    let mut stream: Vec<u8> = Vec::new();
    for piece in [&b"hello"[..], &b"0123456789abcdef"[..]] {
        connection = connection.step(bytes(piece));
        match connection.action() {
            Action::Write { bytes, flush } => {
                assert_eq!(flush, Flush::Try);
                stream.extend_from_slice(&bytes);
            }
            other => panic!("{:?}", other),
        }
        connection = connection.step(Event::Done);
        assert_eq!(connection.action(), Action::NextDownstream);
    }
    assert_eq!(stream, b"5\r\nhello\r\n10\r\n0123456789abcdef\r\n".to_vec());
}

#[test]
fn a_download_ends_without_an_error() {
    let closed = Action::Finish { outcome: Outcome::Closed };
    assert_eq!(streaming().step(Event::Closed).action(), closed);
    assert_eq!(streaming().step(bytes(b"x")).step(Event::Failed).action(), closed);
}

#[test]
fn an_upload_reaches_its_session_whole() {
    for connection in [
        plain(b"POST /id7/3 HTTP/1.1\r\nContent-Length: 8\r\n\r\n\xff\x00"),
        secure(b"POST /id7/3 HTTP/1.1\r\nContent-Length: 8\r\n\r\n\xff\x00"),
    ] {
        assert_eq!(connection.action(), Action::Read { limit: 6, wait: None });
        let connection = connection.step(bytes(b"cde"));
        assert_eq!(connection.action(), Action::Read { limit: 3, wait: None });
        let connection = connection.step(bytes(b"fgh"));
        assert_eq!(
            connection.action(),
            Action::Deliver { id: "id7".to_string(), body: b"\xff\x00cdefgh".to_vec() }
        );
        let connection = connection.step(Event::Done);
        assert_eq!(
            connection.action(),
            Action::Write {
                bytes: b"HTTP/1.1 200 OK\r\nContent-Length: 0\r\n\r\n".to_vec(),
                flush: Flush::Skip,
            }
        );
        let connection = connection.step(Event::Done);
        assert_eq!(connection.action(), Action::Finish { outcome: Outcome::Closed });
    }
}

#[test]
fn an_upload_may_come_at_once_or_stop_early() {
    assert_eq!(
        plain(b"POST /id7 H\r\ncontent-length: 2\r\n\r\nabc").action(),
        Action::Deliver { id: "id7".to_string(), body: b"abc".to_vec() }
    );
    assert_eq!(
        plain(b"POST /id7 H\r\n\r\nabc").action(),
        Action::Deliver { id: "id7".to_string(), body: b"abc".to_vec() }
    );
    assert_eq!(
        plain(b"POST /id7 H\r\ncontent-length: 9\r\n\r\nabc").step(bytes(b"")).action(),
        Action::Deliver { id: "id7".to_string(), body: b"abc".to_vec() }
    );
    assert_eq!(
        plain(b"POST /id7 H\r\ncontent-length: 9\r\n\r\nabc").step(Event::Failed).action(),
        Action::Finish { outcome: Outcome::Failed }
    );
}

#[test]
fn an_upload_without_a_blank_line_loses_four_bytes() {
    assert_eq!(
        handle_xhttp_post(b"POST /id7", "/id7", None),
        Phase::Deliver { id: "id7".to_string(), body: b" /id7".to_vec() }
    );
    assert_eq!(
        handle_xhttp_post(b"POST", "/id7", Some(1)),
        Phase::Collect { id: "id7".to_string(), body: vec![], length: 1 }
    );
}

#[test]
fn an_answer_that_fails_is_reported() {
    let connection = plain(b"POST /id7 H\r\n\r\nabc").step(Event::Done).step(Event::Failed);
    assert_eq!(connection.action(), Action::Finish { outcome: Outcome::Failed });
}

#[test]
fn other_methods_are_let_go() {
    for method in ["HEAD", "get", "PUT", "GETX"] {
        let closed = Phase::Over { outcome: Outcome::Closed };
        assert_eq!(handle_http_xhttp_raw(format!("{} /abc", method).into_bytes()), closed);
        assert_eq!(handle_tls_xhttp(format!("{} /abc\r\n\r\n", method).into_bytes()), closed);
        assert_eq!(route(method, "/abc", None, b""), closed);
    }
}

#[test]
fn requests_are_routed_by_what_they_say() {
    let request = Some(("GET".to_string(), "/xhttp/id7".to_string()));
    assert_eq!(route_raw(request, None, vec![]), handle_xhttp_get("/id7"));
    assert_eq!(route_raw(None, Some(4), vec![1]), Phase::Dial { data: vec![1] });
    assert_eq!(route_tls(None, Some(4), vec![1]), Phase::Over { outcome: Outcome::InvalidHttp });
    let request = Some(("POST".to_string(), "/id7".to_string()));
    assert_eq!(
        route_tls(request, Some(1), b"\r\n\r\nx".to_vec()),
        Phase::Deliver { id: "id7".to_string(), body: b"x".to_vec() }
    );
}

#[test]
fn the_length_counts_where_it_stands() {
    let connection = secure(b"POST /id7 H\r\n\r\ncontent-length: 20");
    assert_eq!(connection.action(), Action::Read { limit: 2, wait: None });
}

#[test]
fn what_ssh_sends_is_handed_on() {
    assert_eq!(downlink_read(), Action::ReadServer { limit: 16384, wait: Some(600) });
    let hand = || Downlink::Hand { data: b"abc".to_vec() };
    assert_eq!(downlink(Downlink::Read, bytes(b"abc")), hand());
    for end in [bytes(b""), Event::TimedOut, Event::Failed] {
        assert_eq!(downlink(Downlink::Read, end), Downlink::Over);
    }
    assert_eq!(downlink(hand(), Event::Done), Downlink::Read);
    assert_eq!(downlink(hand(), Event::Failed), Downlink::Over);
    assert_eq!(downlink(Downlink::Over, bytes(b"abc")), Downlink::Over);
}

#[test]
fn uploads_are_written_while_the_session_is_active() {
    assert_eq!(uplink(Some(vec![1]), true, true), Some(vec![1]));
    assert_eq!(uplink(Some(vec![1]), true, false), None);
    assert_eq!(uplink(Some(vec![1]), false, false), Some(vec![1]));
    assert_eq!(uplink(None, true, true), None);
    assert_eq!(uplink(None, false, true), None);
}

#[test]
fn a_split_connection_that_ended_stays_so() {
    let over = plain(b"HEAD /abc").step(Event::Done).step(bytes(b"x")).step(Event::Failed);
    assert_eq!(over.action(), Action::Finish { outcome: Outcome::Closed });
}

#[test]
fn an_upload_in_pieces_over_tls_is_delivered() {
    let connection = secure(b"POST /id7/3 H\r\nContent-Le")
        .step(bytes(b"ngth: 5\r\n\r"))
        .step(bytes(b"\n\xff"))
        .step(bytes(b"b"))
        .step(bytes(b""));
    assert_eq!(
        connection.action(),
        Action::Deliver { id: "id7".to_string(), body: b"\xffb".to_vec() }
    );
}

/// Drives a connection, and keeps the table of sessions and what was sent.
fn driven(first: &[u8], table: &mut SessionTable<u8>, events: Vec<NetEvent>) -> (Connection, Vec<u8>) {
    let mut connection = plain(first);
    let mut told: Vec<u8> = Vec::new();
    for event in events {
        match connection.action() {
            Action::OpenSession { id } => table.insert(id, 7),
            Action::CloseSession { id } => table.remove(&id),
            Action::Write { bytes, .. } if event == Event::Done => told.extend_from_slice(&bytes),
            _ => {}
        }
        connection = connection.step(event);
    }
    (connection, told)
}

const HEAD: &str =
    "HTTP/1.1 200 OK\r\nTransfer-Encoding: chunked\r\nX-Session-ID: id7\r\nX-Status: up\r\n\r\n";

#[test]
fn a_session_stays_in_the_table() {
    let mut table = SessionTable::new();
    table.insert("other".to_string(), 1);
    let done = || Event::Done;
    let (_, told) = driven(b"GET /id7", &mut table, vec![done()]);
    assert!(told.is_empty() && table.get("id7").is_none());
    let (_, told) = driven(b"GET /id7", &mut table, vec![done(), done()]);
    assert!(told.is_empty());
    assert_eq!(table.get("id7"), Some(&7));
    let (over, _) = driven(b"GET /id7", &mut table, vec![done(), done(), done(), Event::Closed]);
    assert_eq!(over.action(), Action::Finish { outcome: Outcome::Closed });
    assert_eq!(table.get("id7"), Some(&7));
    driven(b"POST /other\r\n\r\nx", &mut table, vec![done(), done()]);
    assert_eq!(table.get("other"), Some(&1));
}

#[test]
fn a_stream_that_breaks_was_sent_up_to_the_last_piece() {
    let mut table = SessionTable::new();
    let done = || Event::Done;
    let events = vec![
        done(), done(), done(), bytes(b"ab"), done(), bytes(b"c"), done(), bytes(b"de"), Event::Failed,
    ];
    let (over, told) = driven(b"GET /id7", &mut table, events);
    assert_eq!(over.action(), Action::Finish { outcome: Outcome::Closed });
    assert_eq!(told, format!("{}2\r\nab\r\n1\r\nc\r\n", HEAD).into_bytes());
}

#[test]
fn paths_of_one_session_meet() {
    let id = || "id7".to_string();
    assert_eq!(route("GET", "/xhttp/id7", None, b""), Phase::SessionDial { id: id() });
    assert_eq!(
        route("POST", "/id7/12?x", Some(1), b"\r\n\r\n"),
        Phase::Collect { id: id(), body: vec![], length: 1 }
    );
}
