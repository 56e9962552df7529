//! The plain proxy: it greets every client with two replies, looks at what
//! the client sends next, and tunnels to the SSH or the VPN service.
use vstd::prelude::*;
use vstd::utf8::{decode_utf8, encode_utf8, valid_utf8};

use crate::args::{
    after_first, as_port, first_flag, first_value, follower, lemma_first_flag, port, port_or, text,
    text_or, texts,
};
use crate::reply::{
    accept_reply, accept_text, lemma_plain_replies, upgrade_reply, upgrade_text,
};
use crate::request::{decode_lossy, utf8_lossy};
use crate::text::{chars_of, mentions, occurs, occurs_at};
use crate::wire::{Action, ActionView, Event, EventView, Flush, NetAction, NetEvent, Outcome};

verus! {

/// The port to listen on that the arguments ask for.
pub open spec fn port_given(args: Seq<Seq<char>>) -> nat {
    port_or(after_first(args, "--port"@, "-p"@, 1), 8080)
}

/// The port for QUIC that the arguments name.
pub open spec fn quic_port_given(args: Seq<Seq<char>>) -> nat {
    port_or(after_first(args, "--quic-port"@, "--quic-port"@, 1), 8001)
}

/// The status that the arguments give.
pub open spec fn status_given(args: Seq<Seq<char>>) -> Seq<char> {
    text_or(after_first(args, "--status"@, "-s"@, 1), "@SDProxy"@)
}

/// The port to listen on: the value of the first `--port` or `-p`, 8080 when
/// it is missing or is no port number.
pub fn get_port(args: &[String]) -> (r: u16)
    ensures
        r == port_or(after_first(texts(args@), "--port"@, "-p"@, 1), 8080),
        r == port_given(texts(args@)),
{
    port(first_value(args, "--port", "-p", 1), 8080)
}

/// The port for QUIC: the value of the first `--quic-port`, 8001 when it is
/// missing or is no port number.
pub fn get_quic_port(args: &[String]) -> (r: u16)
    ensures
        r == port_or(after_first(texts(args@), "--quic-port"@, "--quic-port"@, 1), 8001),
        r == quic_port_given(texts(args@)),
{
    port(first_value(args, "--quic-port", "--quic-port", 1), 8001)
}

/// The status that replies carry: the value of the first `--status` or `-s`.
pub fn get_status(args: &[String]) -> (r: String)
    ensures
        r@ == text_or(after_first(texts(args@), "--status"@, "-s"@, 1), "@SDProxy"@),
        r@ == status_given(texts(args@)),
{
    text(first_value(args, "--status", "-s", 1), "@SDProxy")
}

/// The service that a client wants, by the port it listens on: SSH when the
/// client names it or sends nothing, else the VPN.
pub open spec fn service_port(data: Seq<char>) -> u16 {
    if occurs(data, "SSH"@) || data.len() == 0 {
        22
    } else {
        1194
    }
}

/// The service that a client wants, judged by the text it sent.
pub fn service_for_text(data: &str) -> (r: u16)
    ensures
        r == service_port(data@),
{
    let chars = chars_of(data);
    if chars.len() == 0 || mentions(chars.as_slice(), "SSH") {
        22
    } else {
        1194
    }
}

/// The service that a client wants, judged by the bytes it sent.
pub fn service_for(bytes: &[u8]) -> (r: u16)
    ensures
        r == service_port(utf8_lossy(bytes@)),
        valid_utf8(bytes@) ==> r == service_port(decode_utf8(bytes@)),
{
    let data = decode_lossy(bytes);
    service_for_text(data.as_str())
}

/// How far a connection has come.
#[derive(Clone, Copy, Debug, PartialEq, Eq, Structural)]
pub enum Phase {
    /// The first reply is on its way.
    Upgrade,
    /// The client's request is awaited.
    Request,
    /// The second reply is on its way.
    Accept,
    /// What the client sends next is looked at.
    Sniff,
    /// The service on this port is being connected to.
    Dial { port: u16 },
    /// Bytes are copied both ways.
    Relay,
    /// The connection has ended.
    Over { outcome: Outcome },
}

/// A connection of the plain proxy.
#[derive(Debug, PartialEq, Eq)]
pub struct Connection {
    pub status: String,
    pub phase: Phase,
}

/// What is asked of the network in a phase.
pub open spec fn pending(status: Seq<char>, phase: Phase) -> ActionView {
    match phase {
        Phase::Upgrade => Action::Write {
            bytes: encode_utf8(upgrade_text(status)),
            flush: Flush::Skip,
        },
        Phase::Request => Action::Read { limit: 1024, wait: None },
        Phase::Accept => Action::Write {
            bytes: encode_utf8(accept_text(status)),
            flush: Flush::Skip,
        },
        Phase::Sniff => Action::Peek { limit: 8192, wait: Some(1) },
        Phase::Dial { port } => Action::Connect { port },
        Phase::Relay => Action::Relay,
        Phase::Over { outcome } => Action::Finish { outcome },
    }
}

/// The phase after an event. A failure of either reply or of the request ends
/// the connection with that error; a service that cannot be reached ends it
/// without one. A client that cannot be looked at, or sends nothing for a
/// second, gets SSH. An event that is no answer to the pending action changes
/// nothing.
pub open spec fn next(phase: Phase, event: EventView) -> Phase {
    match (phase, event) {
        (Phase::Upgrade, Event::Done) => Phase::Request,
        (Phase::Request, Event::Bytes(_)) => Phase::Accept,
        (Phase::Accept, Event::Done) => Phase::Sniff,
        (Phase::Upgrade | Phase::Request | Phase::Accept, Event::Failed) => Phase::Over {
            outcome: Outcome::Failed,
        },
        (Phase::Sniff, Event::Bytes(b)) => Phase::Dial { port: service_port(utf8_lossy(b)) },
        (Phase::Sniff, Event::TimedOut | Event::Failed) => Phase::Dial { port: 22 },
        (Phase::Dial { .. }, Event::Done) => Phase::Relay,
        (Phase::Dial { .. }, Event::Failed) => Phase::Over { outcome: Outcome::Closed },
        (Phase::Relay, Event::Done | Event::Failed) => Phase::Over { outcome: Outcome::Closed },
        _ => phase,
    }
}

/// A connection that was just accepted.
pub fn handle_client(status: &str) -> (r: Connection)
    ensures
        r.status@ == status@,
        r.phase == Phase::Upgrade,
{
    Connection { status: status.to_string(), phase: Phase::Upgrade }
}

impl Connection {
    /// What to ask of the network now.
    pub fn action(&self) -> (r: NetAction)
        ensures
            r@ == pending(self.status@, self.phase),
    {
        match self.phase {
            Phase::Upgrade => Action::Write {
                bytes: upgrade_reply(self.status.as_str()),
                flush: Flush::Skip,
            },
            Phase::Request => Action::Read { limit: 1024, wait: None },
            Phase::Accept => Action::Write {
                bytes: accept_reply(self.status.as_str()),
                flush: Flush::Skip,
            },
            Phase::Sniff => Action::Peek { limit: 8192, wait: Some(1) },
            Phase::Dial { port } => Action::Connect { port },
            Phase::Relay => Action::Relay,
            Phase::Over { outcome } => Action::Finish { outcome },
        }
    }

    /// The connection after what became of the action.
    pub fn step(self, event: NetEvent) -> (r: Connection)
        ensures
            r.status == self.status,
            r.phase == next(self.phase, event@),
    {
        let phase = match (self.phase, event) {
            (Phase::Upgrade, Event::Done) => Phase::Request,
            (Phase::Request, Event::Bytes(_)) => Phase::Accept,
            (Phase::Accept, Event::Done) => Phase::Sniff,
            (Phase::Upgrade | Phase::Request | Phase::Accept, Event::Failed) => Phase::Over {
                outcome: Outcome::Failed,
            },
            (Phase::Sniff, Event::Bytes(b)) => Phase::Dial { port: service_for(b.as_slice()) },
            (Phase::Sniff, Event::TimedOut | Event::Failed) => Phase::Dial { port: 22 },
            (Phase::Dial { .. }, Event::Done) => Phase::Relay,
            (Phase::Dial { .. }, Event::Failed) => Phase::Over { outcome: Outcome::Closed },
            (Phase::Relay, Event::Done | Event::Failed) => Phase::Over { outcome: Outcome::Closed },
            (phase, _) => phase,
        };
        Connection { status: self.status, phase }
    }
}

/// The phase after a series of events.
pub open spec fn run(phase: Phase, events: Seq<EventView>) -> Phase
    decreases events.len(),
{
    if events.len() == 0 {
        phase
    } else {
        next(run(phase, events.drop_last()), events.last())
    }
}

/// The bytes that reached the client through completed writes.
pub open spec fn sent(status: Seq<char>, phase: Phase, events: Seq<EventView>) -> Seq<u8>
    decreases events.len(),
{
    if events.len() == 0 {
        seq![]
    } else {
        let before = sent(status, phase, events.drop_last());
        match (pending(status, run(phase, events.drop_last())), events.last()) {
            (Action::Write { bytes, .. }, Event::Done) => before + bytes,
            _ => before,
        }
    }
}

/// Whatever the network does, a client is told 101 before its request is
/// awaited, and 101 and 200, in this order and nothing else, before the proxy
/// looks for the service it wants, connects to it or copies bytes. A
/// connection that ended without an error told its client both; one that
/// ended with an error told it nothing, or 101 alone.
pub proof fn lemma_greeted_first(status: Seq<char>, events: Seq<EventView>)
    ensures
        match run(Phase::Upgrade, events) {
            Phase::Upgrade => sent(status, Phase::Upgrade, events) == Seq::<u8>::empty(),
            Phase::Request | Phase::Accept => sent(status, Phase::Upgrade, events) == encode_utf8(
                upgrade_text(status),
            ),
            Phase::Sniff | Phase::Dial { .. } | Phase::Relay => sent(status, Phase::Upgrade, events)
                == encode_utf8(upgrade_text(status)) + encode_utf8(accept_text(status)),
            Phase::Over { outcome: Outcome::Closed } => sent(status, Phase::Upgrade, events)
                == encode_utf8(upgrade_text(status)) + encode_utf8(accept_text(status)),
            Phase::Over { outcome: Outcome::Failed } => {
                ||| sent(status, Phase::Upgrade, events) == Seq::<u8>::empty()
                ||| sent(status, Phase::Upgrade, events) == encode_utf8(upgrade_text(status))
            },
            Phase::Over { outcome: Outcome::InvalidHttp } => false,
        },
    decreases events.len(),
{
    if events.len() > 0 {
        lemma_greeted_first(status, events.drop_last());
        assert(Seq::<u8>::empty() + encode_utf8(upgrade_text(status)) =~= encode_utf8(
            upgrade_text(status),
        ));
    }
}

/// A client that is greeted and sends its request is tunnelled to the service
/// that it asks for next, or to SSH when it stays silent.
pub proof fn lemma_tunnelled(request: Seq<u8>, asked: Seq<u8>)
    ensures
        ({
            let greeted: Seq<EventView> = seq![Event::Done, Event::Bytes(request), Event::Done];
            &&& run(Phase::Upgrade, greeted) == Phase::Sniff
            &&& next(Phase::Sniff, Event::Bytes(asked)) == (Phase::Dial {
                port: service_port(utf8_lossy(asked)),
            })
            &&& next(Phase::Sniff, Event::TimedOut) == (Phase::Dial { port: 22 })
            &&& forall|port: u16| #[trigger]
                next(Phase::Dial { port }, Event::Done) == Phase::Relay
        }),
{
    let three: Seq<EventView> = seq![Event::Done, Event::Bytes(request), Event::Done];
    let two: Seq<EventView> = seq![Event::Done, Event::Bytes(request)];
    let one: Seq<EventView> = seq![Event::Done];
    assert(three.drop_last() =~= two);
    assert(two.drop_last() =~= one);
    assert(one.drop_last() =~= seq![]);
    assert(run(Phase::Upgrade, seq![]) == Phase::Upgrade);
    assert(run(Phase::Upgrade, one) == Phase::Request);
    assert(run(Phase::Upgrade, two) == Phase::Accept);
}

/// No client is ever tunnelled to a service other than SSH and the VPN.
pub proof fn lemma_known_services(events: Seq<EventView>)
    ensures
        run(Phase::Upgrade, events) matches Phase::Dial { port } ==> port == 22 || port == 1194,
    decreases events.len(),
{
    if events.len() > 0 {
        lemma_known_services(events.drop_last());
    }
}

/// A connection that has ended stays as it ended.
pub proof fn lemma_over_stays(outcome: Outcome, events: Seq<EventView>)
    ensures
        run(Phase::Over { outcome }, events) == (Phase::Over { outcome }),
    decreases events.len(),
{
    if events.len() > 0 {
        lemma_over_stays(outcome, events.drop_last());
    }
}

/// A client whose text holds `SSH` anywhere, or is empty, is connected to port
/// 22, and every other one to port 1194.
pub proof fn lemma_service(before: Seq<char>, after: Seq<char>, other: Seq<char>)
    requires
        other.len() > 0,
        forall|i: int|
            #![trigger other[i]]
            0 <= i <= other.len() - 3 ==> !(other[i] == 'S' && other[i + 1] == 'S' && other[i + 2]
                == 'H'),
    ensures
        service_port(before + seq!['S', 'S', 'H'] + after) == 22,
        service_port(Seq::<char>::empty()) == 22,
        service_port(other) == 1194,
{
    reveal_strlit("SSH");
    let text = before + seq!['S', 'S', 'H'] + after;
    let n = before.len() as int;
    assert(text.subrange(n, n + 3) =~= "SSH"@);
    assert(occurs_at(text, "SSH"@, n));
    if occurs(other, "SSH"@) {
        let i = choose|i: int| occurs_at(other, "SSH"@, i);
        let piece = other.subrange(i, i + 3);
        assert(piece[0] == other[i] && piece[1] == other[i + 1] && piece[2] == other[i + 2]);
    }
}

/// The port that a client asks for is the one that is dialled: 22 when the text
/// of what it sent holds `SSH` anywhere, when it sent no text, when it sent
/// nothing in time and when it cannot be looked at; 1194 for every other text.
pub proof fn lemma_dialled(status: Seq<char>, asked: Seq<u8>, at: int)
    ensures
        ({
            let text = utf8_lossy(asked);
            let dialled = pending(status, next(Phase::Sniff, Event::Bytes(asked)));
            &&& text.len() == 0 ==> dialled == (Action::Connect::<Seq<u8>, Seq<char>> { port: 22 })
            &&& 0 <= at <= text.len() - 3 && text[at] == 'S' && text[at + 1] == 'S' && text[at + 2]
                == 'H' ==> dialled == (Action::Connect::<Seq<u8>, Seq<char>> { port: 22 })
            &&& text.len() > 0 && (forall|i: int|
                #![trigger text[i]]
                0 <= i <= text.len() - 3 ==> !(text[i] == 'S' && text[i + 1] == 'S' && text[i + 2]
                    == 'H')) ==> dialled == (Action::Connect::<Seq<u8>, Seq<char>> { port: 1194 })
        }),
        pending(status, next(Phase::Sniff, Event::TimedOut)) == (Action::Connect::<
            Seq<u8>,
            Seq<char>,
        > { port: 22 }),
        pending(status, next(Phase::Sniff, Event::Failed)) == (Action::Connect::<
            Seq<u8>,
            Seq<char>,
        > { port: 22 }),
{
    let text = utf8_lossy(asked);
    if text.len() == 0 {
        assert(text =~= seq![]);
        lemma_service(seq![], seq![], seq!['x']);
    }
    if 0 <= at <= text.len() - 3 && text[at] == 'S' && text[at + 1] == 'S' && text[at + 2] == 'H' {
        assert(text =~= text.take(at) + seq!['S', 'S', 'H'] + text.skip(at + 3));
        lemma_service(text.take(at), text.skip(at + 3), seq!['x']);
    }
    if text.len() > 0 && (forall|i: int|
        #![trigger text[i]]
        0 <= i <= text.len() - 3 ==> !(text[i] == 'S' && text[i + 1] == 'S' && text[i + 2]
            == 'H')) {
        lemma_service(seq![], seq![], text);
    }
}

/// What is asked of the network on the way to a tunnel: the two replies, one
/// read of up to 1024 bytes for as long as it takes, a look at up to 8192 bytes
/// for a second, a connection to the port that was chosen, and the copying.
pub proof fn lemma_asked(status: Seq<char>, port: u16, outcome: Outcome)
    ensures
        pending(status, Phase::Upgrade) == (Action::Write::<Seq<u8>, Seq<char>> {
            bytes: encode_utf8("HTTP/1.1 101 "@ + status + "\r\n\r\n"@),
            flush: Flush::Skip,
        }),
        pending(status, Phase::Request) == (Action::Read::<Seq<u8>, Seq<char>> {
            limit: 1024,
            wait: None,
        }),
        pending(status, Phase::Accept) == (Action::Write::<Seq<u8>, Seq<char>> {
            bytes: encode_utf8("HTTP/1.1 200 "@ + status + "\r\n\r\n"@),
            flush: Flush::Skip,
        }),
        pending(status, Phase::Sniff) == (Action::Peek::<Seq<u8>, Seq<char>> {
            limit: 8192,
            wait: Some(1),
        }),
        pending(status, Phase::Dial { port }) == (Action::Connect::<Seq<u8>, Seq<char>> { port }),
        pending(status, Phase::Relay) == (Action::Relay::<Seq<u8>, Seq<char>>),
        pending(status, Phase::Over { outcome }) == (Action::Finish::<Seq<u8>, Seq<char>> {
            outcome,
        }),
{
    lemma_plain_replies(status);
}

/// How every action's end moves a connection on, whatever bytes came: nothing
/// that fails before the service is chosen is passed over, an unreachable
/// service and a broken tunnel are no errors, and no other event changes
/// anything.
pub proof fn lemma_moves(port: u16, event: EventView)
    ensures
        next(Phase::Upgrade, event) == (match event {
            Event::Done => Phase::Request,
            Event::Failed => Phase::Over { outcome: Outcome::Failed },
            _ => Phase::Upgrade,
        }),
        next(Phase::Request, event) == (match event {
            Event::Bytes(_) => Phase::Accept,
            Event::Failed => Phase::Over { outcome: Outcome::Failed },
            _ => Phase::Request,
        }),
        next(Phase::Accept, event) == (match event {
            Event::Done => Phase::Sniff,
            Event::Failed => Phase::Over { outcome: Outcome::Failed },
            _ => Phase::Accept,
        }),
        event is Done || event is Closed ==> next(Phase::Sniff, event) == Phase::Sniff,
        next(Phase::Dial { port }, event) == (match event {
            Event::Done => Phase::Relay,
            Event::Failed => Phase::Over { outcome: Outcome::Closed },
            _ => Phase::Dial { port },
        }),
        next(Phase::Relay, event) == (match event {
            Event::Done | Event::Failed => Phase::Over { outcome: Outcome::Closed },
            _ => Phase::Relay,
        }),
{
}

/// The options are what follows their first flags, wherever these stand and
/// whatever else is given: a port if it is one, a text as it is; else the
/// defaults.
pub proof fn lemma_options(
    args: Seq<Seq<char>>,
    port_at: int,
    quic_port_at: int,
    status_at: int,
)
    requires
        first_flag(args, "--port"@, "-p"@, 1, port_at),
        first_flag(args, "--quic-port"@, "--quic-port"@, 1, quic_port_at),
        first_flag(args, "--status"@, "-s"@, 1, status_at),
    ensures
        port_given(args) == as_port(follower(args, port_at), 8080),
        quic_port_given(args) == as_port(follower(args, quic_port_at), 8001),
        status_given(args) == (if status_at + 1 < args.len() {
            args[status_at + 1]
        } else {
            "@SDProxy"@
        }),
{
    lemma_first_flag(args, "--port"@, "-p"@, 1, port_at, 8080, seq![]);
    lemma_first_flag(args, "--quic-port"@, "--quic-port"@, 1, quic_port_at, 8001, seq![]);
    lemma_first_flag(args, "--status"@, "-s"@, 1, status_at, 0, "@SDProxy"@);
}

} // verus!
