use sdproxy::proxy::{handle_client, service_for, service_for_text, Connection, Phase};
use sdproxy::wire::{Action, Event, Flush, NetEvent, Outcome};

fn after(events: Vec<NetEvent>) -> Connection {
    let mut connection = handle_client("up");
    for event in events {
        connection = connection.step(event);
    }
    connection
}

fn bytes(b: &[u8]) -> NetEvent {
    Event::Bytes(b.to_vec())
}

fn greeted() -> Vec<NetEvent> {
    vec![Event::Done, bytes(b"GET / HTTP/1.1\r\n\r\n"), Event::Done]
}

#[test]
fn a_client_is_greeted_first() {
    assert_eq!(
        after(vec![]).action(),
        Action::Write { bytes: b"HTTP/1.1 101 up\r\n\r\n".to_vec(), flush: Flush::Skip }
    );
    assert_eq!(after(vec![Event::Done]).action(), Action::Read { limit: 1024, wait: None });
    for request in [&b""[..], &b"x"[..]] {
        assert_eq!(
            after(vec![Event::Done, bytes(request)]).action(),
            Action::Write { bytes: b"HTTP/1.1 200 up\r\n\r\n".to_vec(), flush: Flush::Skip }
        );
    }
    assert_eq!(after(greeted()).action(), Action::Peek { limit: 8192, wait: Some(1) });
}

#[test]
fn a_client_is_tunnelled_to_the_service_it_asks_for() {
    for (asked, port) in [
        (bytes(b"SSH-2.0-x\r\n"), 22),
        (bytes(b"...SSH"), 22),
        (bytes(b""), 22),
        (bytes(b"\xff\xfeSSH\xff"), 22),
        (bytes(b"ssh"), 1194),
        (bytes(b"\xff"), 1194),
        (Event::TimedOut, 22),
        (Event::Failed, 22),
    ] {
        let mut events = greeted();
        events.push(asked);
        let connection = after(events);
        assert_eq!(connection.action(), Action::Connect { port });
        let connection = connection.step(Event::Done);
        assert_eq!(connection.action(), Action::Relay);
        let connection = connection.step(Event::Done);
        assert_eq!(connection.action(), Action::Finish { outcome: Outcome::Closed });
    }
}

#[test]
fn services_are_judged_by_text_and_by_bytes() {
    assert_eq!(service_for_text("SSH"), 22);
    assert_eq!(service_for_text(""), 22);
    assert_eq!(service_for_text("OpenVPN"), 1194);
    assert_eq!(service_for(b"SSH"), 22);
    assert_eq!(service_for(b""), 22);
    assert_eq!(service_for(b"\x00\x0e8"), 1194);
    assert_eq!(service_for(b"SS\xffH"), 1194);
}

#[test]
fn a_failure_while_greeting_is_reported() {
    for n in 0..3 {
        let mut events = greeted();
        events.truncate(n);
        events.push(Event::Failed);
        assert_eq!(after(events).action(), Action::Finish { outcome: Outcome::Failed });
    }
}

#[test]
fn an_unreachable_service_is_no_error() {
    let mut events = greeted();
    events.push(Event::TimedOut);
    events.push(Event::Failed);
    assert_eq!(after(events).action(), Action::Finish { outcome: Outcome::Closed });
}

#[test]
fn stray_events_change_nothing() {
    let connection = after(vec![Event::Closed, Event::TimedOut]);
    assert_eq!(connection, Connection { status: "up".to_string(), phase: Phase::Upgrade });
}

#[test]
fn a_plain_connection_that_ended_stays_so() {
    let over = Connection { status: "up".to_string(), phase: Phase::Over { outcome: Outcome::Failed } };
    let over = over.step(Event::Done).step(bytes(b"x")).step(Event::Failed);
    assert_eq!(over.action(), Action::Finish { outcome: Outcome::Failed });
}

#[test]
fn what_a_client_was_told_fits_how_its_connection_ended() {
    let replies = [&b"HTTP/1.1 101 up\r\n\r\n"[..], &b"HTTP/1.1 200 up\r\n\r\n"[..]];
    for (events, outcome, count) in [
        (vec![Event::Failed], Outcome::Failed, 0),
        (vec![Event::Done, Event::Failed], Outcome::Failed, 1),
        (vec![Event::Done, bytes(b"x"), Event::Failed], Outcome::Failed, 1),
        (
            vec![Event::Done, bytes(b"x"), Event::Done, Event::TimedOut, Event::Failed],
            Outcome::Closed,
            2,
        ),
    ] {
        let mut connection = handle_client("up");
        let mut told: Vec<u8> = Vec::new();
        for event in events {
            if let (Action::Write { bytes, .. }, true) = (connection.action(), event == Event::Done) {
                told.extend_from_slice(&bytes);
            }
            connection = connection.step(event);
        }
        assert_eq!(connection.action(), Action::Finish { outcome });
        assert_eq!(told, replies[..count].concat());
    }
}
