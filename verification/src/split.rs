//! The split proxy: one long reply carries a session down to the client, and
//! uploads carry it up, each on a connection of its own.
use tokio_rustls::rustls::ServerConfig;
use vstd::prelude::*;
use vstd::slice::{slice_subrange, slice_to_vec};
use vstd::utf8::{decode_utf8, encode_utf8, valid_utf8};

use crate::args::{
    after_first, as_port, first_flag, first_value, follower, lemma_first_flag, port, port_or, text,
    text_or, texts,
};
use crate::number::{digits, zeros};
use crate::path::{extract_path_info, path_info};
use crate::reply::{
    bytes_of, chunk, chunked_head, chunked_head_text, concat, frame, frames, lemma_concat_last,
    lemma_frames_last, lemma_stream_read_back, received_reply, received_text, unchunk,
};
use crate::request::{
    blank_line, body_length, content_length, decode_lossy, extract_content_length_from_bytes, find,
    first_at, header_end, lemma_blank_line, lemma_body_length, lemma_length_found,
    lemma_no_blank_line, lemma_occurs_extends, lemma_occurs_first, lemma_request_line, length_view,
    named_at, parse_http_request, request_line, request_view, unnamed,
    utf8_lossy,
};
use crate::session::after_action;
use crate::text::{chars_of, is_blank, is_space, is_word, occurs, occurs_at, spells};
use crate::tls::{
    asks_clients, default_config, every_group, every_suite, nested, offer, pem_certs, pem_keys,
    read_certs, read_keys, same_but_protocols, served_groups, served_identity, served_protocols, served_suites,
    speaks_tls12, speaks_tls13, Identity, SetupError,
};
use crate::wire::{
    appended, arrivals, awaited, delivery, rest_of_upload, Action, ActionView, Event, EventView,
    Flush, NetAction, NetEvent, Outcome,
};

verus! {

/// The port to listen on that the arguments ask for.
pub open spec fn port_given(args: Seq<Seq<char>>) -> nat {
    port_or(after_first(args, "--port"@, "-p"@, 0), 443)
}

/// The port of the SSH service that the arguments name.
pub open spec fn ssh_port_given(args: Seq<Seq<char>>) -> nat {
    port_or(after_first(args, "--ssh-port"@, "--ssh-port"@, 0), 22)
}

/// The status that the arguments give.
pub open spec fn status_given(args: Seq<Seq<char>>) -> Seq<char> {
    text_or(after_first(args, "--status"@, "-s"@, 0), "@SDProxy"@)
}

/// The port to listen on: the value of the first `--port` or `-p`, 443 when
/// it is missing or is no port number.
pub fn get_port(args: &[String]) -> (r: u16)
    ensures
        r == port_or(after_first(texts(args@), "--port"@, "-p"@, 0), 443),
        r == port_given(texts(args@)),
{
    port(first_value(args, "--port", "-p", 0), 443)
}

/// The port of the SSH service: the value of the first `--ssh-port`, 22 when
/// it is missing or is no port number.
pub fn get_ssh_port(args: &[String]) -> (r: u16)
    ensures
        r == port_or(after_first(texts(args@), "--ssh-port"@, "--ssh-port"@, 0), 22),
        r == ssh_port_given(texts(args@)),
{
    port(first_value(args, "--ssh-port", "--ssh-port", 0), 22)
}

/// The status that replies carry: the value of the first `--status` or `-s`.
pub fn get_status(args: &[String]) -> (r: String)
    ensures
        r@ == text_or(after_first(texts(args@), "--status"@, "-s"@, 0), "@SDProxy"@),
        r@ == status_given(texts(args@)),
{
    text(first_value(args, "--status", "-s", 0), "@SDProxy")
}

/// How far a connection has come. `B` holds bytes and `T` text.
#[derive(Debug, PartialEq, Eq)]
pub enum Phase<B, T> {
    /// The first bytes are looked at.
    Sniff,
    /// The TLS handshake is under way.
    Handshake,
    /// The headers are being read over TLS; these bytes have come.
    Headers { buf: B },
    /// The first bytes are being read without TLS.
    FirstRead,
    /// SSH is being connected to for a client that sent no request.
    Dial { data: B },
    /// What that client sent is on its way to SSH.
    Forward { data: B },
    /// Bytes are copied both ways.
    Relay,
    /// SSH is being connected to for a new session.
    SessionDial { id: T },
    /// The session is being opened.
    Register { id: T },
    /// The head of the session's stream is on its way to the client.
    Head { id: T },
    /// Bytes from SSH are awaited.
    Await,
    /// Bytes from SSH are on their way to the client.
    Chunk { data: B },
    /// An upload is being read; its body will have `length` bytes.
    Collect { id: T, body: B, length: usize },
    /// The upload is being handed to its session.
    Deliver { id: T, body: B },
    /// The answer to the upload is on its way.
    Answer,
    /// The connection has ended.
    Over { outcome: Outcome },
}

/// A phase as the network side holds it.
pub type NetPhase = Phase<Vec<u8>, String>;

/// A phase as contracts speak of it.
pub type PhaseView = Phase<Seq<u8>, Seq<char>>;

impl View for Phase<Vec<u8>, String> {
    type V = Phase<Seq<u8>, Seq<char>>;

    open spec fn view(&self) -> Phase<Seq<u8>, Seq<char>> {
        match *self {
            Phase::Sniff => Phase::Sniff,
            Phase::Handshake => Phase::Handshake,
            Phase::Headers { buf } => Phase::Headers { buf: buf@ },
            Phase::FirstRead => Phase::FirstRead,
            Phase::Dial { data } => Phase::Dial { data: data@ },
            Phase::Forward { data } => Phase::Forward { data: data@ },
            Phase::Relay => Phase::Relay,
            Phase::SessionDial { id } => Phase::SessionDial { id: id@ },
            Phase::Register { id } => Phase::Register { id: id@ },
            Phase::Head { id } => Phase::Head { id: id@ },
            Phase::Await => Phase::Await,
            Phase::Chunk { data } => Phase::Chunk { data: data@ },
            Phase::Collect { id, body, length } => Phase::Collect { id: id@, body: body@, length },
            Phase::Deliver { id, body } => Phase::Deliver { id: id@, body: body@ },
            Phase::Answer => Phase::Answer,
            Phase::Over { outcome } => Phase::Over { outcome },
        }
    }
}

/// Where the body of an upload begins: after the blank line, or at the fifth
/// byte when there is none.
pub open spec fn body_start(req: Seq<u8>) -> int {
    match find(req, blank_line()) {
        Some(n) => n + 4,
        None => 4,
    }
}

/// An upload of which `body` has come: it is read on until `length` bytes
/// have come, and then handed over, with whatever came beyond.
pub open spec fn upload(id: Seq<char>, body: Seq<u8>, length: usize) -> PhaseView {
    if body.len() < length {
        Phase::Collect { id, body, length }
    } else {
        Phase::Deliver { id, body }
    }
}

/// The phase after the first bytes of an upload, given the length that its
/// headers state; no stated length counts as none to come.
pub open spec fn upload_phase(req: Seq<u8>, path: Seq<char>, length: Option<nat>) -> PhaseView {
    upload(
        path_info(path).0,
        req.skip(body_start(req)),
        body_length(length),
    )
}

/// The phase after a request, given the length that its headers state: a
/// download opens a session, an upload is read to its end, and any other
/// method ends the connection.
pub open spec fn request_phase(
    method: Seq<char>,
    path: Seq<char>,
    length: Option<nat>,
    req: Seq<u8>,
) -> PhaseView {
    if method == "GET"@ {
        Phase::SessionDial { id: path_info(path).0 }
    } else if method == "POST"@ {
        upload_phase(req, path, length)
    } else {
        closed()
    }
}

/// The phase after a first read without TLS, given what it says: what is no
/// request is passed on to SSH.
pub open spec fn raw_phase(
    request: Option<(Seq<char>, Seq<char>)>,
    length: Option<nat>,
    data: Seq<u8>,
) -> PhaseView {
    match request {
        None => Phase::Dial { data },
        Some((method, path)) => request_phase(method, path, length, data),
    }
}

/// The phase after the headers have come over TLS, given what they say: what
/// is no request is an error.
pub open spec fn tls_phase(
    request: Option<(Seq<char>, Seq<char>)>,
    length: Option<nat>,
    buf: Seq<u8>,
) -> PhaseView {
    match request {
        None => Phase::Over { outcome: Outcome::InvalidHttp },
        Some((method, path)) => request_phase(method, path, length, buf),
    }
}

/// The phase after some bytes have come over TLS, `decode` being how bytes
/// are read as text. Once the headers are complete their first line decides;
/// headers that are not complete within 65536 bytes end the connection.
pub open spec fn headers_phase(buf: Seq<u8>, decode: spec_fn(Seq<u8>) -> Seq<char>) -> PhaseView {
    match find(buf, blank_line()) {
        Some(n) => tls_phase(
            request_line(decode(buf.take(n))),
            content_length(decode(buf)),
            buf,
        ),
        None => if buf.len() >= 65536 {
            closed()
        } else {
            Phase::Headers { buf }
        },
    }
}

/// What is asked of the network in a phase.
pub open spec fn pending(status: Seq<char>, ssh_port: u16, phase: PhaseView) -> ActionView {
    match phase {
        Phase::Sniff => Action::Peek { limit: 3, wait: Some(10) },
        Phase::Handshake => Action::StartTls,
        Phase::Headers { .. } => Action::Read { limit: 8192, wait: Some(15) },
        Phase::FirstRead => Action::Read { limit: 8192, wait: Some(10) },
        Phase::Dial { .. } => Action::Connect { port: ssh_port },
        Phase::Forward { data } => Action::WriteServer { bytes: data },
        Phase::Relay => Action::Relay,
        Phase::SessionDial { .. } => Action::Connect { port: ssh_port },
        Phase::Register { id } => Action::OpenSession { id },
        Phase::Head { id } => Action::Write {
            bytes: encode_utf8(chunked_head_text(id, status)),
            flush: Flush::Skip,
        },
        Phase::Await => Action::NextDownstream,
        Phase::Chunk { data } => Action::Write { bytes: frame(data), flush: Flush::Try },
        Phase::Collect { body, length, .. } => Action::Read {
            limit: if body.len() < length {
                (length - body.len()) as usize
            } else {
                0
            },
            wait: None,
        },
        Phase::Deliver { id, body } => Action::Deliver { id, body },
        Phase::Answer => Action::Write { bytes: encode_utf8(received_text()), flush: Flush::Skip },
        Phase::Over { outcome } => Action::Finish { outcome },
    }
}

/// The end of a connection without an error.
pub open spec fn closed() -> PhaseView {
    Phase::Over { outcome: Outcome::Closed }
}

/// The end of a connection with the error that the network reported.
pub open spec fn failed() -> PhaseView {
    Phase::Over { outcome: Outcome::Failed }
}

/// The phase after an event. An event that is no answer to the pending action
/// changes nothing.
pub open spec fn next(phase: PhaseView, event: EventView) -> PhaseView {
    match (phase, event) {
        (Phase::Sniff, Event::Bytes(b)) => if b.len() == 0 {
            closed()
        } else if b[0] == 0x16 {
            Phase::Handshake
        } else {
            Phase::FirstRead
        },
        (Phase::Sniff, Event::TimedOut | Event::Failed) => closed(),
        (Phase::Handshake, Event::Done) => Phase::Headers { buf: seq![] },
        (Phase::Handshake, Event::Failed) => failed(),
        (Phase::Headers { buf }, Event::Bytes(b)) => if b.len() == 0 {
            closed()
        } else {
            headers_phase(buf + b, |s: Seq<u8>| utf8_lossy(s))
        },
        (Phase::Headers { .. }, Event::TimedOut | Event::Failed) => closed(),
        (Phase::FirstRead, Event::Bytes(b)) => raw_phase(
            request_line(utf8_lossy(b)),
            content_length(utf8_lossy(b)),
            b,
        ),
        (Phase::FirstRead, Event::TimedOut | Event::Failed) => failed(),
        (Phase::Dial { data }, Event::Done) => Phase::Forward { data },
        (Phase::Dial { .. }, Event::Failed) => failed(),
        (Phase::Forward { .. }, Event::Done) => Phase::Relay,
        (Phase::Forward { .. }, Event::Failed) => failed(),
        (Phase::Relay, Event::Done | Event::Failed) => closed(),
        (Phase::SessionDial { id }, Event::Done) => Phase::Register { id },
        (Phase::SessionDial { .. }, Event::Failed) => failed(),
        (Phase::Register { id }, Event::Done) => Phase::Head { id },
        (Phase::Head { .. }, Event::Done) => Phase::Await,
        (Phase::Head { .. }, Event::Failed) => failed(),
        (Phase::Await, Event::Bytes(data)) => Phase::Chunk { data },
        (Phase::Await, Event::Closed) => closed(),
        (Phase::Chunk { .. }, Event::Done) => Phase::Await,
        (Phase::Chunk { .. }, Event::Failed) => closed(),
        (Phase::Collect { id, body, length }, Event::Bytes(b)) => if b.len() == 0 {
            Phase::Deliver { id, body }
        } else {
            upload(id, body + b, length)
        },
        (Phase::Collect { .. }, Event::Failed) => failed(),
        (Phase::Deliver { .. }, Event::Done) => Phase::Answer,
        (Phase::Answer, Event::Done) => closed(),
        (Phase::Answer, Event::Failed) => failed(),
        _ => phase,
    }
}

/// The network's form of an upload of which `body` has come.
fn keep_reading(id: String, body: Vec<u8>, length: usize) -> (r: NetPhase)
    ensures
        r@ == upload(id@, body@, length),
{
    if body.len() < length {
        Phase::Collect { id, body, length }
    } else {
        Phase::Deliver { id, body }
    }
}

/// The phase after the first bytes of an upload, given the length that its
/// headers state.
pub fn handle_xhttp_post(req: &[u8], path: &str, length: Option<usize>) -> (r: NetPhase)
    requires
        req@.len() >= 4,
    ensures
        r@ == upload_phase(req@, path@, length_view(length)),
{
    let total: usize = req.len();
    let start: usize = match header_end(req) {
        Some(n) => n + 4,
        None => 4,
    };
    let body = slice_to_vec(slice_subrange(req, start, total));
    assert(body@ =~= req@.skip(body_start(req@)));
    let (id, _) = extract_path_info(path);
    keep_reading(id, body, length.unwrap_or(0))
}

/// The phase after a request for a download.
pub fn handle_xhttp_get(path: &str) -> (r: NetPhase)
    ensures
        r@ == (Phase::SessionDial::<Seq<u8>, Seq<char>> { id: path_info(path@).0 }),
{
    let (id, _) = extract_path_info(path);
    Phase::SessionDial { id }
}

/// The phase after a request, given the length that its headers state.
pub fn route(method: &str, path: &str, length: Option<usize>, req: &[u8]) -> (r: NetPhase)
    requires
        method@ == "POST"@ ==> req@.len() >= 4,
    ensures
        r@ == request_phase(method@, path@, length_view(length), req@),
{
    let m = chars_of(method);
    if spells(m.as_slice(), "GET") {
        handle_xhttp_get(path)
    } else if spells(m.as_slice(), "POST") {
        handle_xhttp_post(req, path, length)
    } else {
        Phase::Over { outcome: Outcome::Closed }
    }
}

/// The phase after a first read without TLS, given what it says.
pub fn route_raw(
    request: Option<(String, String)>,
    length: Option<usize>,
    data: Vec<u8>,
) -> (r: NetPhase)
    requires
        request matches Some((method, _)) ==> method@ == "POST"@ ==> data@.len() >= 4,
    ensures
        r@ == raw_phase(request_view(request), length_view(length), data@),
{
    match request {
        None => Phase::Dial { data },
        Some((method, path)) => route(method.as_str(), path.as_str(), length, data.as_slice()),
    }
}

/// The phase after a first read without TLS.
pub fn handle_http_xhttp_raw(data: Vec<u8>) -> (r: NetPhase)
    ensures
        r@ == raw_phase(
            request_line(utf8_lossy(data@)),
            content_length(utf8_lossy(data@)),
            data@,
        ),
        valid_utf8(data@) ==> r@ == raw_phase(
            request_line(decode_utf8(data@)),
            content_length(decode_utf8(data@)),
            data@,
        ),
{
    let text = decode_lossy(data.as_slice());
    let length: Option<usize> = extract_content_length_from_bytes(data.as_slice());
    proof {
        reveal_strlit("POST");
    }
    route_raw(parse_http_request(text.as_str()), length, data)
}

/// The phase after the headers have come over TLS, given what they say.
pub fn route_tls(
    request: Option<(String, String)>,
    length: Option<usize>,
    buf: Vec<u8>,
) -> (r: NetPhase)
    requires
        request matches Some((method, _)) ==> method@ == "POST"@ ==> buf@.len() >= 4,
    ensures
        r@ == tls_phase(request_view(request), length_view(length), buf@),
{
    match request {
        None => Phase::Over { outcome: Outcome::InvalidHttp },
        Some((method, path)) => route(method.as_str(), path.as_str(), length, buf.as_slice()),
    }
}

/// The phase after some bytes have come over TLS.
pub fn handle_tls_xhttp(buf: Vec<u8>) -> (r: NetPhase)
    ensures
        r@ == headers_phase(buf@, |s: Seq<u8>| utf8_lossy(s)),
        valid_utf8(buf@) ==> r@ == headers_phase(buf@, |s: Seq<u8>| decode_utf8(s)),
{
    match header_end(buf.as_slice()) {
        Some(n) => {
            let head = slice_subrange(buf.as_slice(), 0, n);
            assert(head@ =~= buf@.take(n as int));
            let text = decode_lossy(head);
            let length: Option<usize> = extract_content_length_from_bytes(buf.as_slice());
            proof {
                reveal_strlit("POST");
                if valid_utf8(buf@) {
                    lemma_head_valid(buf@, n as int);
                }
            }
            route_tls(parse_http_request(text.as_str()), length, buf)
        },
        None => if buf.len() >= 65536 {
            Phase::Over { outcome: Outcome::Closed }
        } else {
            Phase::Headers { buf }
        },
    }
}

/// Valid text cut before a carriage return is valid text.
proof fn lemma_head_valid(buf: Seq<u8>, n: int)
    requires
        valid_utf8(buf),
        find(buf, blank_line()) == Some(n),
        0 <= n < buf.len(),
    ensures
        valid_utf8(buf.take(n)),
{
    assert(occurs_at(buf, blank_line(), n));
    assert(buf.subrange(n, n + 4)[0] == 13);
    assert(buf[n] == 13);
    vstd::utf8::is_char_boundary_iff_not_is_continuation_byte(buf, n);
    vstd::utf8::valid_utf8_split(buf, n);
    assert(buf.subrange(0, n) =~= buf.take(n));
}

/// The phase after an event.
pub fn advance(phase: NetPhase, event: NetEvent) -> (r: NetPhase)
    ensures
        r@ == next(phase@, event@),
{
    match (phase, event) {
        (Phase::Sniff, Event::Bytes(b)) => if b.len() == 0 {
            Phase::Over { outcome: Outcome::Closed }
        } else if b[0] == 0x16 {
            Phase::Handshake
        } else {
            Phase::FirstRead
        },
        (Phase::Sniff, Event::TimedOut | Event::Failed) => Phase::Over { outcome: Outcome::Closed },
        (Phase::Handshake, Event::Done) => Phase::Headers { buf: Vec::new() },
        (Phase::Handshake, Event::Failed) => Phase::Over { outcome: Outcome::Failed },
        (Phase::Headers { buf }, Event::Bytes(b)) => if b.len() == 0 {
            Phase::Over { outcome: Outcome::Closed }
        } else {
            handle_tls_xhttp(appended(buf, b))
        },
        (Phase::Headers { .. }, Event::TimedOut | Event::Failed) => Phase::Over {
            outcome: Outcome::Closed,
        },
        (Phase::FirstRead, Event::Bytes(b)) => handle_http_xhttp_raw(b),
        (Phase::FirstRead, Event::TimedOut | Event::Failed) => Phase::Over {
            outcome: Outcome::Failed,
        },
        (Phase::Dial { data }, Event::Done) => Phase::Forward { data },
        (Phase::Dial { .. }, Event::Failed) => Phase::Over { outcome: Outcome::Failed },
        (Phase::Forward { .. }, Event::Done) => Phase::Relay,
        (Phase::Forward { .. }, Event::Failed) => Phase::Over { outcome: Outcome::Failed },
        (Phase::Relay, Event::Done | Event::Failed) => Phase::Over { outcome: Outcome::Closed },
        (Phase::SessionDial { id }, Event::Done) => Phase::Register { id },
        (Phase::SessionDial { .. }, Event::Failed) => Phase::Over { outcome: Outcome::Failed },
        (Phase::Register { id }, Event::Done) => Phase::Head { id },
        (Phase::Head { .. }, Event::Done) => Phase::Await,
        (Phase::Head { .. }, Event::Failed) => Phase::Over { outcome: Outcome::Failed },
        (Phase::Await, Event::Bytes(data)) => Phase::Chunk { data },
        (Phase::Await, Event::Closed) => Phase::Over { outcome: Outcome::Closed },
        (Phase::Chunk { .. }, Event::Done) => Phase::Await,
        (Phase::Chunk { .. }, Event::Failed) => Phase::Over { outcome: Outcome::Closed },
        (Phase::Collect { id, body, length }, Event::Bytes(b)) => if b.len() == 0 {
            Phase::Deliver { id, body }
        } else {
            keep_reading(id, appended(body, b), length)
        },
        (Phase::Collect { .. }, Event::Failed) => Phase::Over { outcome: Outcome::Failed },
        (Phase::Deliver { .. }, Event::Done) => Phase::Answer,
        (Phase::Answer, Event::Done) => Phase::Over { outcome: Outcome::Closed },
        (Phase::Answer, Event::Failed) => Phase::Over { outcome: Outcome::Failed },
        (phase, _) => phase,
    }
}

/// A connection of the split proxy.
#[derive(Debug, PartialEq, Eq)]
pub struct Connection {
    pub status: String,
    pub ssh_port: u16,
    pub phase: NetPhase,
}

/// A connection that was just accepted.
pub fn handle_xhttp_client(status: &str, ssh_port: u16) -> (r: Connection)
    ensures
        r.status@ == status@,
        r.ssh_port == ssh_port,
        r.phase@ == (Phase::Sniff::<Seq<u8>, Seq<char>>),
{
    Connection { status: status.to_string(), ssh_port, phase: Phase::Sniff }
}

impl Connection {
    /// What to ask of the network now.
    pub fn action(&self) -> (r: NetAction)
        ensures
            r@ == pending(self.status@, self.ssh_port, self.phase@),
    {
        match &self.phase {
            Phase::Sniff => Action::Peek { limit: 3, wait: Some(10) },
            Phase::Handshake => Action::StartTls,
            Phase::Headers { .. } => Action::Read { limit: 8192, wait: Some(15) },
            Phase::FirstRead => Action::Read { limit: 8192, wait: Some(10) },
            Phase::Dial { .. } => Action::Connect { port: self.ssh_port },
            Phase::Forward { data } => Action::WriteServer { bytes: slice_to_vec(data.as_slice()) },
            Phase::Relay => Action::Relay,
            Phase::SessionDial { .. } => Action::Connect { port: self.ssh_port },
            Phase::Register { id } => Action::OpenSession { id: id.clone() },
            Phase::Head { id } => Action::Write {
                bytes: chunked_head(id.as_str(), self.status.as_str()),
                flush: Flush::Skip,
            },
            Phase::Await => Action::NextDownstream,
            Phase::Chunk { data } => Action::Write {
                bytes: chunk(data.as_slice()),
                flush: Flush::Try,
            },
            Phase::Collect { body, length, .. } => Action::Read {
                limit: length.saturating_sub(body.len()),
                wait: None,
            },
            Phase::Deliver { id, body } => Action::Deliver {
                id: id.clone(),
                body: slice_to_vec(body.as_slice()),
            },
            Phase::Answer => Action::Write { bytes: received_reply(), flush: Flush::Skip },
            Phase::Over { outcome } => Action::Finish { outcome: *outcome },
        }
    }

    /// The connection after what became of the action.
    pub fn step(self, event: NetEvent) -> (r: Connection)
        ensures
            r.status == self.status,
            r.ssh_port == self.ssh_port,
            r.phase@ == next(self.phase@, event@),
    {
        Connection {
            status: self.status,
            ssh_port: self.ssh_port,
            phase: advance(self.phase, event),
        }
    }
}

/// How a session's SSH service is read: up to 16384 bytes within ten minutes.
pub fn downlink_read() -> (r: NetAction)
    ensures
        r@ == (Action::ReadServer::<Seq<u8>, Seq<char>> { limit: 16384, wait: Some(600) }),
{
    Action::ReadServer { limit: 16384, wait: Some(600) }
}

/// How far the reading from a session's SSH service has come.
#[derive(Debug, PartialEq, Eq)]
pub enum Downlink<B> {
    /// Bytes from SSH are awaited.
    Read,
    /// Bytes from SSH are being handed on for the client.
    Hand { data: B },
    /// No more will be read.
    Over,
}

impl View for Downlink<Vec<u8>> {
    type V = Downlink<Seq<u8>>;

    open spec fn view(&self) -> Downlink<Seq<u8>> {
        match *self {
            Downlink::Read => Downlink::Read,
            Downlink::Hand { data } => Downlink::Hand { data: data@ },
            Downlink::Over => Downlink::Over,
        }
    }
}

/// How far the reading has come after an event: what SSH sent is handed on;
/// at the end of it, when nothing came in time, or when it can no longer be
/// handed on, the reading ends.
pub open spec fn downlink_next(state: Downlink<Seq<u8>>, event: EventView) -> Downlink<Seq<u8>> {
    match (state, event) {
        (Downlink::Read, Event::Bytes(data)) => if data.len() > 0 {
            Downlink::Hand { data }
        } else {
            Downlink::Over
        },
        (Downlink::Hand { .. }, Event::Done) => Downlink::Read,
        _ => Downlink::Over,
    }
}

/// How far the reading from a session's SSH service has come after an event.
pub fn downlink(state: Downlink<Vec<u8>>, event: NetEvent) -> (r: Downlink<Vec<u8>>)
    ensures
        r@ == downlink_next(state@, event@),
{
    match (state, event) {
        (Downlink::Read, Event::Bytes(data)) => if data.len() > 0 {
            Downlink::Hand { data }
        } else {
            Downlink::Over
        },
        (Downlink::Hand { .. }, Event::Done) => Downlink::Read,
        _ => Downlink::Over,
    }
}

/// What of an upload goes to SSH: all of it, but nothing of a session opened
/// over TLS that is no longer active.
pub open spec fn upward(upload: Option<Seq<u8>>, guarded: bool, active: bool) -> Option<Seq<u8>> {
    if guarded && !active {
        None
    } else {
        upload
    }
}

/// An upload that may be missing, as contracts speak of it.
pub open spec fn upload_view(upload: Option<Vec<u8>>) -> Option<Seq<u8>> {
    match upload {
        Some(data) => Some(data@),
        None => None,
    }
}

/// What to write to a session's SSH service once an upload is waiting, or
/// none is to come any more; `None` ends the writing. A session opened over
/// TLS (`guarded`) writes only while it is active.
pub fn uplink(upload: Option<Vec<u8>>, guarded: bool, active: bool) -> (r: Option<Vec<u8>>)
    ensures
        r == (if guarded && !active {
            None
        } else {
            upload
        }),
        upload_view(r) == upward(upload_view(upload), guarded, active),
{
    if guarded && !active {
        None
    } else {
        upload
    }
}

/// The protocols on offer, best first: HTTP/1.1, then HTTP/2.
pub open spec fn protocols() -> Seq<Seq<u8>> {
    seq![encode_utf8("http/1.1"@), encode_utf8("h2"@)]
}

/// The certificate chain and the key to serve, given what the two files hold:
/// all certificates and the first key. Without a certificate or without a key
/// there is none.
pub fn choose_identity(
    certs: Result<Vec<Vec<u8>>, std::io::Error>,
    keys: Result<Vec<Vec<u8>>, std::io::Error>,
) -> (r: Result<Identity, SetupError>)
    ensures
        match r {
            Ok(identity) => {
                &&& certs matches Ok(c)
                &&& keys matches Ok(k)
                &&& c@.len() > 0
                &&& k@.len() > 0
                &&& identity@ == (nested(c@), k@[0]@)
            },
            Err(SetupError::CertificatePem(e)) => certs == Err::<Vec<Vec<u8>>, std::io::Error>(e),
            Err(SetupError::KeyPem(e)) => certs is Ok && keys == Err::<
                Vec<Vec<u8>>,
                std::io::Error,
            >(e),
            Err(SetupError::CertsEmpty) => {
                &&& certs matches Ok(c)
                &&& keys matches Ok(k)
                &&& c@.len() == 0 || k@.len() == 0
            },
            Err(SetupError::Rejected(_)) => false,
        },
{
    match certs {
        Err(e) => Err(SetupError::CertificatePem(e)),
        Ok(chain) => match keys {
            Err(e) => Err(SetupError::KeyPem(e)),
            Ok(keys) => {
                if chain.len() == 0 || keys.len() == 0 {
                    return Err(SetupError::CertsEmpty);
                }
                let mut keys = keys;
                let key = keys.remove(0);
                Ok(Identity { chain, key })
            },
        },
    }
}

/// What a setup comes to once the TLS implementation has spoken: a server that
/// it made is given the protocols on offer and nothing else is changed; its
/// error is passed on.
pub fn served(outcome: Result<ServerConfig, tokio_rustls::rustls::Error>) -> (r: Result<
    ServerConfig,
    SetupError,
>)
    ensures
        match outcome {
            Ok(config) => {
                &&& r matches Ok(server)
                &&& same_but_protocols(server, config)
                &&& served_protocols(server) == protocols()
            },
            Err(e) => r == Err::<ServerConfig, SetupError>(SetupError::Rejected(e)),
        },
{
    match outcome {
        Err(e) => Err(SetupError::Rejected(e)),
        Ok(config) => {
            let mut offered: Vec<Vec<u8>> = Vec::new();
            offered.push(bytes_of("http/1.1"));
            offered.push(bytes_of("h2"));
            assert(nested(offered@) =~= protocols());
            Ok(offer(config, offered))
        },
    }
}

/// The setup of the TLS server, from the contents of the certificate file and
/// of the key file. It presents all certificates and the first key, speaks
/// TLS 1.2 and 1.3 with every cipher suite and key exchange group there is,
/// and offers HTTP/1.1 and HTTP/2.
pub fn build_tls_config(cert_pem: &[u8], key_pem: &[u8]) -> (r: Result<ServerConfig, SetupError>)
    ensures
        match r {
            Ok(config) => {
                &&& pem_certs(cert_pem@) matches Some(certs)
                &&& pem_keys(key_pem@) matches Some(keys)
                &&& certs.len() > 0
                &&& keys.len() > 0
                &&& served_identity(config) == (certs, keys[0])
                &&& served_protocols(config) == protocols()
                &&& speaks_tls12(config)
                &&& speaks_tls13(config)
                &&& served_suites(config) == every_suite()
                &&& served_groups(config) == every_group()
                &&& !asks_clients(config)
            },
            Err(SetupError::CertificatePem(_)) => pem_certs(cert_pem@) is None,
            Err(SetupError::KeyPem(_)) => pem_certs(cert_pem@) is Some && pem_keys(
                key_pem@,
            ) is None,
            Err(SetupError::CertsEmpty) => {
                &&& pem_certs(cert_pem@) matches Some(certs)
                &&& pem_keys(key_pem@) matches Some(keys)
                &&& certs.len() == 0 || keys.len() == 0
            },
            Err(SetupError::Rejected(_)) => {
                &&& pem_certs(cert_pem@) matches Some(certs)
                &&& pem_keys(key_pem@) matches Some(keys)
                &&& certs.len() > 0
                &&& keys.len() > 0
            },
        },
{
    let identity = match choose_identity(read_certs(cert_pem), read_keys(key_pem)) {
        Ok(identity) => identity,
        Err(e) => return Err(e),
    };
    served(default_config(identity.chain, identity.key))
}

/// The phase after a series of events.
pub open spec fn run(phase: PhaseView, events: Seq<EventView>) -> PhaseView
    decreases events.len(),
{
    if events.len() == 0 {
        phase
    } else {
        next(run(phase, events.drop_last()), events.last())
    }
}

/// The bytes that reached the client through completed writes.
pub open spec fn sent(status: Seq<char>, phase: PhaseView, events: Seq<EventView>) -> Seq<u8>
    decreases events.len(),
{
    if events.len() == 0 {
        seq![]
    } else {
        let before = sent(status, phase, events.drop_last());
        match (pending(status, 0, run(phase, events.drop_last())), events.last()) {
            (Action::Write { bytes, .. }, Event::Done) => before + bytes,
            _ => before,
        }
    }
}

/// A TLS handshake is begun exactly with a client whose first byte announces
/// one; a client that sends something else is read without TLS, and one that
/// sends nothing is let go.
pub proof fn lemma_first_byte_decides(b: Seq<u8>)
    ensures
        next(Phase::Sniff, Event::Bytes(b)) is Handshake <==> b.len() > 0 && b[0] == 0x16,
        next(Phase::Sniff, Event::Bytes(b)) is FirstRead <==> b.len() > 0 && b[0] != 0x16,
        next(Phase::Sniff, Event::Bytes(b)) is Over <==> b.len() == 0,
        b.len() == 0 ==> next(Phase::Sniff, Event::Bytes(b)) == (PhaseView::Over {
            outcome: Outcome::Closed,
        }),
{
}

/// Headers are read on only while they are incomplete and fewer than 65536
/// bytes have come, and an upload only while bytes of it are missing, so that
/// every read asks for a byte at least.
pub proof fn lemma_reading_bounded(events: Seq<EventView>)
    ensures
        match run(Phase::Sniff, events) {
            Phase::Headers { buf } => buf.len() < 65536 && !occurs(buf, blank_line()),
            Phase::Collect { body, length, .. } => body.len() < length,
            _ => true,
        },
    decreases events.len(),
{
    if events.len() > 0 {
        lemma_reading_bounded(events.drop_last());
        if let Phase::Headers { buf } = run(Phase::Sniff, events) {
            if occurs(buf, blank_line()) {
                let i = choose|i: int| occurs_at(buf, blank_line(), i);
                lemma_occurs_first(buf, blank_line(), i);
            }
        }
    }
}

/// However an upload is cut into pieces, what is handed to its session is the
/// body that came with the headers and all pieces after it, in order, as soon
/// as the stated length has come.
pub proof fn lemma_upload_whole(
    id: Seq<char>,
    body: Seq<u8>,
    length: usize,
    pieces: Seq<Seq<u8>>,
)
    requires
        awaited(body.len(), length, pieces),
    ensures
        run(upload(id, body, length), arrivals(pieces)) == upload(
            id,
            body + concat(pieces),
            length,
        ),
    decreases pieces.len(),
{
    if pieces.len() == 0 {
        assert(body + concat(pieces) =~= body);
    } else {
        let init = pieces.drop_last();
        lemma_concat_last(pieces);
        if init.len() > 0 {
            lemma_concat_last(init);
        }
        lemma_upload_whole(id, body, length, init);
        assert(arrivals(pieces).drop_last() =~= arrivals(init));
        assert(body + concat(init) + pieces.last() =~= body + concat(pieces));
    }
}

/// An upload whose client stops early is handed over as far as it came.
pub proof fn lemma_short_upload(id: Seq<char>, body: Seq<u8>, length: usize)
    requires
        body.len() < length,
    ensures
        next(upload(id, body, length), Event::Bytes(seq![])) == (Phase::Deliver::<
            Seq<u8>,
            Seq<char>,
        > { id, body }),
{
}

/// Every upload that ends without an error was answered with 200, and with
/// nothing else, whether or not its session was open; one that ends with an
/// error was not answered.
pub proof fn lemma_upload_answered(
    status: Seq<char>,
    id: Seq<char>,
    body: Seq<u8>,
    length: usize,
    events: Seq<EventView>,
)
    ensures
        ({
            let told = sent(status, upload(id, body, length), events);
            match run(upload(id, body, length), events) {
                Phase::Over { outcome: Outcome::Closed } => told == encode_utf8(received_text()),
                Phase::Over { outcome: Outcome::Failed } => told == Seq::<u8>::empty(),
                Phase::Collect { .. } | Phase::Deliver { .. } | Phase::Answer => told == Seq::<
                    u8,
                >::empty(),
                _ => false,
            }
        }),
    decreases events.len(),
{
    if events.len() > 0 {
        lemma_upload_answered(status, id, body, length, events.drop_last());
        assert(Seq::<u8>::empty() + encode_utf8(received_text()) =~= encode_utf8(received_text()));
    }
}

/// The client of a session reads, after the head, exactly the bytes that SSH
/// sent, in order.
pub proof fn lemma_download_read_back(status: Seq<char>, pieces: Seq<Seq<u8>>)
    requires
        forall|i: int| 0 <= i < pieces.len() ==> (#[trigger] pieces[i]).len() > 0,
    ensures
        run(Phase::Await, delivery(pieces)) == (Phase::Await::<Seq<u8>, Seq<char>>),
        unchunk(sent(status, Phase::Await, delivery(pieces))) == Some(concat(pieces)),
{
    lemma_download_frames(status, pieces);
    lemma_stream_read_back(pieces);
}

/// What is written for the pieces of a stream are their chunks.
proof fn lemma_download_frames(status: Seq<char>, pieces: Seq<Seq<u8>>)
    ensures
        run(Phase::Await, delivery(pieces)) == (Phase::Await::<Seq<u8>, Seq<char>>),
        sent(status, Phase::Await, delivery(pieces)) == frames(pieces),
    decreases pieces.len(),
{
    if pieces.len() > 0 {
        let init = pieces.drop_last();
        lemma_download_frames(status, init);
        let e = delivery(pieces);
        let f = e.drop_last();
        assert(f =~= delivery(init).push(Event::Bytes(pieces.last())));
        assert(f.drop_last() =~= delivery(init));
        assert(run(Phase::Await, f) == (Phase::Chunk::<Seq<u8>, Seq<char>> {
            data: pieces.last(),
        }));
        assert(sent(status, Phase::Await, f) == frames(init));
        lemma_frames_last(pieces);
    }
}

/// A session is opened only after SSH was reached, and its stream begins with
/// the head that names it.
pub proof fn lemma_session_opening(status: Seq<char>, id: Seq<char>)
    ensures
        ({
            let start: PhaseView = Phase::SessionDial { id };
            let opening: Seq<EventView> = seq![Event::Done, Event::Done, Event::Done];
            &&& pending(status, 0, next(start, Event::Done)) == (Action::OpenSession::<
                Seq<u8>,
                Seq<char>,
            > { id })
            &&& next(start, Event::Failed) == failed()
            &&& run(start, opening) == (Phase::Await::<Seq<u8>, Seq<char>>)
            &&& sent(status, start, opening) == encode_utf8(chunked_head_text(id, status))
        }),
{
    let start: PhaseView = Phase::SessionDial { id };
    let three: Seq<EventView> = seq![Event::Done, Event::Done, Event::Done];
    let two: Seq<EventView> = seq![Event::Done, Event::Done];
    let one: Seq<EventView> = seq![Event::Done];
    assert(three.drop_last() =~= two);
    assert(two.drop_last() =~= one);
    assert(one.drop_last() =~= seq![]);
    assert(run(start, seq![]) == start);
    assert(sent(status, start, seq![]) == Seq::<u8>::empty());
    assert(run(start, one) == (Phase::Register::<Seq<u8>, Seq<char>> { id }));
    assert(sent(status, start, one) == Seq::<u8>::empty());
    assert(run(start, two) == (Phase::Head::<Seq<u8>, Seq<char>> { id }));
    assert(sent(status, start, two) == Seq::<u8>::empty());
    let head = encode_utf8(chunked_head_text(id, status));
    assert(Seq::<u8>::empty() + head =~= head);
}

/// What is no request reaches SSH unchanged, before anything is copied.
pub proof fn lemma_pass_through(status: Seq<char>, ssh_port: u16, data: Seq<u8>)
    ensures
        ({
            let start: PhaseView = Phase::Dial { data };
            &&& pending(status, ssh_port, start) == (Action::Connect::<Seq<u8>, Seq<char>> {
                port: ssh_port,
            })
            &&& pending(status, ssh_port, next(start, Event::Done)) == (Action::WriteServer::<
                Seq<u8>,
                Seq<char>,
            > { bytes: data })
            &&& next(next(start, Event::Done), Event::Done) == (Phase::Relay::<
                Seq<u8>,
                Seq<char>,
            >)
        }),
{
}

/// A connection that has ended stays as it ended.
pub proof fn lemma_over_stays(outcome: Outcome, events: Seq<EventView>)
    ensures
        run(Phase::Over { outcome }, events) == (Phase::Over::<Seq<u8>, Seq<char>> { outcome }),
    decreases events.len(),
{
    if events.len() > 0 {
        lemma_over_stays(outcome, events.drop_last());
    }
}

/// The events before and the events after can be taken one after the other.
proof fn lemma_run_concat(phase: PhaseView, before: Seq<EventView>, after: Seq<EventView>)
    ensures
        run(phase, before + after) == run(run(phase, before), after),
    decreases after.len(),
{
    let all = before + after;
    if after.len() == 0 {
        assert(all =~= before);
    } else {
        assert(all.drop_last() =~= before + after.drop_last());
        lemma_run_concat(phase, before, after.drop_last());
    }
}

/// The rest of an upload brings it to its session, as far as it comes.
proof fn lemma_upload_end(id: Seq<char>, body: Seq<u8>, length: usize, pieces: Seq<Seq<u8>>)
    requires
        awaited(body.len(), length, pieces),
    ensures
        run(upload(id, body, length), rest_of_upload(body.len(), length, pieces)) == (
        Phase::Deliver::<Seq<u8>, Seq<char>> { id, body: body + concat(pieces) }),
{
    lemma_upload_whole(id, body, length, pieces);
    let events = arrivals(pieces);
    let end: EventView = Event::Bytes(seq![]);
    assert(events.push(end).drop_last() =~= events);
}

/// Headers that come over TLS in pieces are judged as if they came at once,
/// as soon as they are complete or too long.
pub proof fn lemma_headers_whole(heads: Seq<Seq<u8>>)
    requires
        heads.len() > 0,
        forall|i: int| 0 <= i < heads.len() ==> (#[trigger] heads[i]).len() > 0,
        !occurs(concat(heads.drop_last()), blank_line()),
        concat(heads.drop_last()).len() < 65536,
    ensures
        run(Phase::Headers { buf: seq![] }, arrivals(heads)) == headers_phase(
            concat(heads),
            |s: Seq<u8>| utf8_lossy(s),
        ),
    decreases heads.len(),
{
    let start: PhaseView = Phase::Headers { buf: seq![] };
    let init = heads.drop_last();
    lemma_concat_last(heads);
    assert(arrivals(heads).drop_last() =~= arrivals(init));
    assert(heads.last().len() > 0);
    if init.len() == 0 {
        assert(arrivals(init) =~= seq![]);
        assert(run(start, seq![]) == start);
        assert(concat(init) =~= seq![]);
    } else {
        lemma_concat_last(init);
        if occurs(concat(init.drop_last()), blank_line()) {
            lemma_occurs_extends(concat(init.drop_last()), init.last(), blank_line());
        }
        assert forall|i: int| 0 <= i < init.len() implies (#[trigger] init[i]).len() > 0 by {
            assert(init[i] == heads[i]);
        }
        lemma_headers_whole(init);
        assert(find(concat(init), blank_line()) is None) by {
            if exists|i: int| first_at(concat(init), blank_line(), i) {
                let i = choose|i: int| first_at(concat(init), blank_line(), i);
                assert(occurs_at(concat(init), blank_line(), i));
            }
        }
    }
}

/// What a client uploads without TLS reaches its session whole: the session
/// that the path names is handed the bytes after the blank line and all that
/// came after them, up to the stated length or to the end of the stream; with
/// no stated length, what came at once.
pub proof fn lemma_upload_delivered(req: Seq<u8>, path: Seq<char>, pieces: Seq<Seq<u8>>)
    requires
        request_line(utf8_lossy(req)) == Some(("POST"@, path)),
        awaited(
            req.skip(body_start(req)).len(),
            body_length(content_length(utf8_lossy(req))),
            pieces,
        ),
    ensures
        ({
            let body = req.skip(body_start(req));
            let length = body_length(content_length(utf8_lossy(req)));
            run(
                Phase::FirstRead,
                seq![Event::Bytes(req)] + rest_of_upload(body.len(), length, pieces),
            ) == (Phase::Deliver::<Seq<u8>, Seq<char>> {
                id: path_info(path).0,
                body: body + concat(pieces),
            })
        }),
{
    let body = req.skip(body_start(req));
    let length = body_length(content_length(utf8_lossy(req)));
    reveal_strlit("GET");
    reveal_strlit("POST");
    assert("GET"@.len() != "POST"@.len());
    lemma_upload_end(path_info(path).0, body, length, pieces);
    let one: Seq<EventView> = seq![Event::Bytes(req)];
    assert(one.drop_last() =~= seq![]);
    assert(run(Phase::FirstRead, seq![]) == (Phase::FirstRead::<Seq<u8>, Seq<char>>));
    lemma_run_concat(
        Phase::FirstRead,
        one,
        rest_of_upload(body.len(), length, pieces),
    );
}

/// What a client uploads over TLS reaches its session whole, however its
/// headers and its body are cut: the session that the path names is handed the
/// bytes after the blank line and all that came after them, up to the stated
/// length or to the end of the stream.
pub proof fn lemma_tls_upload_delivered(
    heads: Seq<Seq<u8>>,
    end: int,
    path: Seq<char>,
    pieces: Seq<Seq<u8>>,
)
    requires
        heads.len() > 0,
        forall|i: int| 0 <= i < heads.len() ==> (#[trigger] heads[i]).len() > 0,
        !occurs(concat(heads.drop_last()), blank_line()),
        concat(heads.drop_last()).len() < 65536,
        find(concat(heads), blank_line()) == Some(end),
        request_line(utf8_lossy(concat(heads).take(end))) == Some(("POST"@, path)),
        awaited(
            concat(heads).skip(end + 4).len(),
            body_length(content_length(utf8_lossy(concat(heads)))),
            pieces,
        ),
    ensures
        ({
            let body = concat(heads).skip(end + 4);
            let length = body_length(content_length(utf8_lossy(concat(heads))));
            run(
                Phase::Headers { buf: seq![] },
                arrivals(heads) + rest_of_upload(body.len(), length, pieces),
            ) == (Phase::Deliver::<Seq<u8>, Seq<char>> {
                id: path_info(path).0,
                body: body + concat(pieces),
            })
        }),
{
    let req = concat(heads);
    let body = req.skip(end + 4);
    let length = body_length(content_length(utf8_lossy(req)));
    reveal_strlit("GET");
    reveal_strlit("POST");
    assert("GET"@.len() != "POST"@.len());
    lemma_headers_whole(heads);
    lemma_upload_end(path_info(path).0, body, length, pieces);
    lemma_run_concat(
        Phase::Headers { buf: seq![] },
        arrivals(heads),
        rest_of_upload(body.len(), length, pieces),
    );
}

/// The table of sessions after a series of events, `session` being what this
/// connection keeps for its own.
pub open spec fn table_after<H>(
    table: Map<Seq<char>, H>,
    session: H,
    phase: PhaseView,
    events: Seq<EventView>,
) -> Map<Seq<char>, H>
    decreases events.len(),
{
    if events.len() == 0 {
        table
    } else {
        after_action(
            table_after(table, session, phase, events.drop_last()),
            session,
            pending(seq![], 0, run(phase, events.drop_last())),
            events.last(),
        )
    }
}

/// An upload leaves the table of sessions as it is.
pub proof fn lemma_upload_keeps_table<H>(
    table: Map<Seq<char>, H>,
    session: H,
    id: Seq<char>,
    body: Seq<u8>,
    length: usize,
    events: Seq<EventView>,
)
    ensures
        table_after(table, session, upload(id, body, length), events) == table,
    decreases events.len(),
{
    if events.len() > 0 {
        lemma_upload_keeps_table(table, session, id, body, length, events.drop_last());
        lemma_upload_answered(seq![], id, body, length, events.drop_last());
    }
}

/// A session is in the table before the first byte of its stream is sent, and
/// stays there.
pub proof fn lemma_session_table<H>(
    table: Map<Seq<char>, H>,
    session: H,
    status: Seq<char>,
    id: Seq<char>,
    events: Seq<EventView>,
)
    ensures
        ({
            let start: PhaseView = Phase::SessionDial { id };
            let now = table_after(table, session, start, events);
            let told = sent(status, start, events);
            &&& told.len() > 0 ==> now == table.insert(id, session)
            &&& match run(start, events) {
                Phase::SessionDial { id: k } => k == id && now == table && told.len() == 0,
                Phase::Register { id: k } => k == id && now == table && told.len() == 0,
                Phase::Head { id: k } => k == id && now == table.insert(id, session) && told.len()
                    == 0,
                Phase::Await | Phase::Chunk { .. } => now == table.insert(id, session),
                Phase::Over { outcome: Outcome::Closed } => now == table.insert(id, session),
                Phase::Over { outcome: Outcome::Failed } => {
                    &&& now == table || now == table.insert(id, session)
                    &&& told.len() == 0
                },
                _ => false,
            }
        }),
    decreases events.len(),
{
    if events.len() > 0 {
        lemma_session_table(table, session, status, id, events.drop_last());
    }
}

/// No session is ever taken out of the table, whatever the connection.
pub proof fn lemma_sessions_kept<H>(
    table: Map<Seq<char>, H>,
    session: H,
    phase: PhaseView,
    events: Seq<EventView>,
    id: Seq<char>,
)
    requires
        table.contains_key(id),
    ensures
        table_after(table, session, phase, events).contains_key(id),
    decreases events.len(),
{
    if events.len() > 0 {
        lemma_sessions_kept(table, session, phase, events.drop_last(), id);
    }
}

/// The downloads and the uploads that name one session belong to it.
pub proof fn lemma_one_session(
    download: Seq<char>,
    upload_path: Seq<char>,
    length: Option<nat>,
    req: Seq<u8>,
)
    requires
        path_info(download).0 == path_info(upload_path).0,
    ensures
        request_phase("GET"@, download, length, req) == (Phase::SessionDial::<
            Seq<u8>,
            Seq<char>,
        > { id: path_info(download).0 }),
        match request_phase("POST"@, upload_path, length, req) {
            Phase::Collect { id, .. } => id == path_info(download).0,
            Phase::Deliver { id, .. } => id == path_info(download).0,
            _ => false,
        },
{
    reveal_strlit("GET");
    reveal_strlit("POST");
    assert("GET"@.len() != "POST"@.len());
}

/// The pieces of a session's stream that a connection took to send.
pub open spec fn taken(phase: PhaseView, events: Seq<EventView>) -> Seq<Seq<u8>>
    decreases events.len(),
{
    if events.len() == 0 {
        seq![]
    } else {
        let before = taken(phase, events.drop_last());
        match (run(phase, events.drop_last()), events.last()) {
            (Phase::Await, Event::Bytes(data)) => before.push(data),
            _ => before,
        }
    }
}

/// Bytes are a prefix of themselves with more behind them.
proof fn lemma_prefix(a: Seq<u8>, b: Seq<u8>)
    ensures
        a.is_prefix_of(a + b),
{
    assert(a =~= (a + b).subrange(0, a.len() as int));
}

/// Whatever the network does, the client of a session is sent the head and
/// then the chunks of the pieces that were taken, in order and each once, and
/// nothing else; only the last of them may be missing.
pub proof fn lemma_download_told(status: Seq<char>, id: Seq<char>, events: Seq<EventView>)
    ensures
        ({
            let start: PhaseView = Phase::SessionDial { id };
            let told = sent(status, start, events);
            let head = encode_utf8(chunked_head_text(id, status));
            let pieces = taken(start, events);
            &&& told.is_prefix_of(head + frames(pieces))
            &&& match run(start, events) {
                Phase::SessionDial { id: k } => k == id && told.len() == 0 && pieces.len() == 0,
                Phase::Register { id: k } => k == id && told.len() == 0 && pieces.len() == 0,
                Phase::Head { id: k } => k == id && told.len() == 0 && pieces.len() == 0,
                Phase::Await => told == head + frames(pieces),
                Phase::Chunk { data } => {
                    &&& pieces.len() > 0
                    &&& pieces.last() == data
                    &&& told == head + frames(pieces.drop_last())
                },
                Phase::Over { outcome: Outcome::Closed } => {
                    ||| told == head + frames(pieces)
                    ||| pieces.len() > 0 && told == head + frames(pieces.drop_last())
                },
                Phase::Over { outcome: Outcome::Failed } => told.len() == 0 && pieces.len() == 0,
                _ => false,
            }
        }),
    decreases events.len(),
{
    let start: PhaseView = Phase::SessionDial { id };
    let told = sent(status, start, events);
    let head = encode_utf8(chunked_head_text(id, status));
    let pieces = taken(start, events);
    if events.len() > 0 {
        let init = events.drop_last();
        lemma_download_told(status, id, init);
        if run(start, init) is Head {
            assert(sent(status, start, init) + head =~= head + frames(seq![]));
        }
        if let (Phase::Await, Event::Bytes(data)) = (run(start, init), events.last()) {
            assert(pieces.drop_last() =~= taken(start, init));
        }
        if let (Phase::Chunk { data }, Event::Done) = (run(start, init), events.last()) {
            lemma_frames_last(pieces);
            assert(told =~= head + frames(pieces));
        }
    }
    lemma_prefix(head + frames(pieces), seq![]);
    assert(head + frames(pieces) + Seq::<u8>::empty() =~= head + frames(pieces));
    if pieces.len() > 0 {
        lemma_frames_last(pieces);
        lemma_prefix(head + frames(pieces.drop_last()), frame(pieces.last()));
        assert(head + frames(pieces.drop_last()) + frame(pieces.last()) =~= head + frames(pieces));
    }
    assert(told.len() == 0 ==> told =~= (head + frames(pieces)).subrange(0, 0));
}

/// Whatever the network does, what the client of a session has received after
/// the head reads back as the bytes that were taken for it, in order; only
/// those of the last piece may be missing.
pub proof fn lemma_download_readable(status: Seq<char>, id: Seq<char>, events: Seq<EventView>)
    requires
        forall|i: int|
            0 <= i < taken(Phase::SessionDial { id }, events).len() ==> (#[trigger] taken(
                Phase::SessionDial { id },
                events,
            )[i]).len() > 0,
    ensures
        ({
            let start: PhaseView = Phase::SessionDial { id };
            let head = encode_utf8(chunked_head_text(id, status));
            let stream = sent(status, start, events).skip(head.len() as int);
            let pieces = taken(start, events);
            match run(start, events) {
                Phase::Await => unchunk(stream) == Some(concat(pieces)),
                Phase::Chunk { .. } => unchunk(stream) == Some(concat(pieces.drop_last())),
                Phase::Over { outcome: Outcome::Closed } => {
                    ||| unchunk(stream) == Some(concat(pieces))
                    ||| pieces.len() > 0 && unchunk(stream) == Some(concat(pieces.drop_last()))
                },
                _ => pieces.len() == 0,
            }
        }),
{
    let start: PhaseView = Phase::SessionDial { id };
    let head = encode_utf8(chunked_head_text(id, status));
    let pieces = taken(start, events);
    let fewer = pieces.drop_last();
    lemma_download_told(status, id, events);
    assert((head + frames(pieces)).skip(head.len() as int) =~= frames(pieces));
    lemma_stream_read_back(pieces);
    if pieces.len() > 0 {
        assert forall|i: int| 0 <= i < fewer.len() implies (#[trigger] fewer[i]).len() > 0 by {
            assert(fewer[i] == pieces[i]);
        }
        lemma_stream_read_back(fewer);
        assert((head + frames(fewer)).skip(head.len() as int) =~= frames(fewer));
    }
}

/// The pieces read from a session's SSH service.
pub open spec fn pieces_read(events: Seq<EventView>) -> Seq<Seq<u8>>
    decreases events.len(),
{
    if events.len() == 0 {
        seq![]
    } else {
        let before = pieces_read(events.drop_last());
        match (downlink_run(events.drop_last()), events.last()) {
            (Downlink::Read, Event::Bytes(data)) => if data.len() > 0 {
                before.push(data)
            } else {
                before
            },
            _ => before,
        }
    }
}

/// The pieces handed on for the client of a session.
pub open spec fn pieces_handed(events: Seq<EventView>) -> Seq<Seq<u8>>
    decreases events.len(),
{
    if events.len() == 0 {
        seq![]
    } else {
        let before = pieces_handed(events.drop_last());
        match (downlink_run(events.drop_last()), events.last()) {
            (Downlink::Hand { data }, Event::Done) => before.push(data),
            _ => before,
        }
    }
}

/// How far the reading from SSH has come after a series of events.
pub open spec fn downlink_run(events: Seq<EventView>) -> Downlink<Seq<u8>>
    decreases events.len(),
{
    if events.len() == 0 {
        Downlink::Read
    } else {
        downlink_next(downlink_run(events.drop_last()), events.last())
    }
}

/// What SSH sends is handed on in order, each piece once, and no piece that is
/// handed on is empty; only the last that was read may not have been.
pub proof fn lemma_downlink(events: Seq<EventView>)
    ensures
        ({
            let all = pieces_read(events);
            let handed = pieces_handed(events);
            &&& match downlink_run(events) {
                Downlink::Read => handed == all,
                Downlink::Hand { data } => all == handed.push(data) && data.len() > 0,
                Downlink::Over => handed == all || all.len() > 0 && handed == all.drop_last(),
            }
            &&& forall|i: int| 0 <= i < handed.len() ==> (#[trigger] handed[i]).len() > 0
        }),
    decreases events.len(),
{
    if events.len() > 0 {
        lemma_downlink(events.drop_last());
        let before = pieces_handed(events.drop_last());
        if let Downlink::Hand { data } = downlink_run(events.drop_last()) {
            assert(before.push(data).drop_last() =~= before);
        }
    }
}

/// What is asked of the network in every phase, for every identifier and all
/// bytes: how much is read and for how long, what is sent and with what flush,
/// and where connections go.
pub proof fn lemma_asked(
    status: Seq<char>,
    ssh_port: u16,
    id: Seq<char>,
    data: Seq<u8>,
    length: usize,
    outcome: Outcome,
)
    ensures
        pending(status, ssh_port, PhaseView::Sniff) == (ActionView::Peek {
            limit: 3,
            wait: Some(10),
        }),
        pending(status, ssh_port, PhaseView::Handshake) == (ActionView::StartTls),
        pending(status, ssh_port, PhaseView::Headers { buf: data }) == (ActionView::Read {
            limit: 8192,
            wait: Some(15),
        }),
        pending(status, ssh_port, PhaseView::FirstRead) == (ActionView::Read {
            limit: 8192,
            wait: Some(10),
        }),
        pending(status, ssh_port, PhaseView::Dial { data }) == (ActionView::Connect {
            port: ssh_port,
        }),
        pending(status, ssh_port, PhaseView::Forward { data }) == (ActionView::WriteServer {
            bytes: data,
        }),
        pending(status, ssh_port, PhaseView::Relay) == (ActionView::Relay),
        pending(status, ssh_port, PhaseView::SessionDial { id }) == (ActionView::Connect {
            port: ssh_port,
        }),
        pending(status, ssh_port, PhaseView::Register { id }) == (ActionView::OpenSession { id }),
        pending(status, ssh_port, PhaseView::Head { id }) == (ActionView::Write {
            bytes: encode_utf8(chunked_head_text(id, status)),
            flush: Flush::Skip,
        }),
        pending(status, ssh_port, PhaseView::Await) == (ActionView::NextDownstream),
        pending(status, ssh_port, PhaseView::Chunk { data }) == (ActionView::Write {
            bytes: frame(data),
            flush: Flush::Try,
        }),
        pending(status, ssh_port, PhaseView::Deliver { id, body: data }) == (ActionView::Deliver {
            id,
            body: data,
        }),
        pending(status, ssh_port, PhaseView::Answer) == (ActionView::Write {
            bytes: encode_utf8(received_text()),
            flush: Flush::Skip,
        }),
        pending(status, ssh_port, PhaseView::Over { outcome }) == (ActionView::Finish { outcome }),
        data.len() < length ==> pending(
            status,
            ssh_port,
            PhaseView::Collect { id, body: data, length },
        ) == (ActionView::Read { limit: (length - data.len()) as usize, wait: None }),
{
}

/// How what becomes of an action moves a connection on, for every identifier and
/// all bytes: which failures are errors of the connection and which end it
/// quietly, and that no other event changes anything.
pub proof fn lemma_moves(
    id: Seq<char>,
    data: Seq<u8>,
    length: usize,
    outcome: Outcome,
    event: EventView,
)
    ensures
        next(PhaseView::Handshake, event) == (match event {
            Event::Done => PhaseView::Headers { buf: seq![] },
            Event::Failed => PhaseView::Over { outcome: Outcome::Failed },
            _ => PhaseView::Handshake,
        }),
        next(PhaseView::Dial { data }, event) == (match event {
            Event::Done => PhaseView::Forward { data },
            Event::Failed => PhaseView::Over { outcome: Outcome::Failed },
            _ => PhaseView::Dial { data },
        }),
        next(PhaseView::Forward { data }, event) == (match event {
            Event::Done => PhaseView::Relay,
            Event::Failed => PhaseView::Over { outcome: Outcome::Failed },
            _ => PhaseView::Forward { data },
        }),
        next(PhaseView::Relay, event) == (match event {
            Event::Done | Event::Failed => PhaseView::Over { outcome: Outcome::Closed },
            _ => PhaseView::Relay,
        }),
        next(PhaseView::SessionDial { id }, event) == (match event {
            Event::Done => PhaseView::Register { id },
            Event::Failed => PhaseView::Over { outcome: Outcome::Failed },
            _ => PhaseView::SessionDial { id },
        }),
        next(PhaseView::Register { id }, event) == (match event {
            Event::Done => PhaseView::Head { id },
            _ => PhaseView::Register { id },
        }),
        next(PhaseView::Head { id }, event) == (match event {
            Event::Done => PhaseView::Await,
            Event::Failed => PhaseView::Over { outcome: Outcome::Failed },
            _ => PhaseView::Head { id },
        }),
        next(PhaseView::Await, event) == (match event {
            Event::Bytes(b) => PhaseView::Chunk { data: b },
            Event::Closed => PhaseView::Over { outcome: Outcome::Closed },
            _ => PhaseView::Await,
        }),
        next(PhaseView::Chunk { data }, event) == (match event {
            Event::Done => PhaseView::Await,
            Event::Failed => PhaseView::Over { outcome: Outcome::Closed },
            _ => PhaseView::Chunk { data },
        }),
        next(PhaseView::Collect { id, body: data, length }, event) == (match event {
            Event::Bytes(b) => if b.len() == 0 {
                PhaseView::Deliver { id, body: data }
            } else if data.len() + b.len() < length {
                PhaseView::Collect { id, body: data + b, length }
            } else {
                PhaseView::Deliver { id, body: data + b }
            },
            Event::Failed => PhaseView::Over { outcome: Outcome::Failed },
            _ => PhaseView::Collect { id, body: data, length },
        }),
        next(PhaseView::Deliver { id, body: data }, event) == (match event {
            Event::Done => PhaseView::Answer,
            _ => PhaseView::Deliver { id, body: data },
        }),
        next(PhaseView::Answer, event) == (match event {
            Event::Done => PhaseView::Over { outcome: Outcome::Closed },
            Event::Failed => PhaseView::Over { outcome: Outcome::Failed },
            _ => PhaseView::Answer,
        }),
        next(PhaseView::Over { outcome }, event) == (PhaseView::Over { outcome }),
        event is TimedOut || event is Failed ==> next(PhaseView::Sniff, event) == (PhaseView::Over {
            outcome: Outcome::Closed,
        }),
        event is Done || event is Closed ==> next(PhaseView::Sniff, event) == PhaseView::Sniff,
        event is TimedOut || event is Failed ==> next(PhaseView::Headers { buf: data }, event) == (
        PhaseView::Over { outcome: Outcome::Closed }),
        event == Event::Bytes(Seq::<u8>::empty()) ==> next(PhaseView::Headers { buf: data }, event) == (
        PhaseView::Over { outcome: Outcome::Closed }),
        event is Done || event is Closed ==> next(PhaseView::Headers { buf: data }, event) == (
        PhaseView::Headers { buf: data }),
        event is TimedOut || event is Failed ==> next(PhaseView::FirstRead, event) == (PhaseView::Over {
            outcome: Outcome::Failed,
        }),
        event is Done || event is Closed ==> next(PhaseView::FirstRead, event)
            == PhaseView::FirstRead,
{
}

/// What the first bytes without TLS decide, whatever they are: a download opens
/// the session that its path names, an upload is read on or handed to that
/// session, any other request is let go, and what is no request is passed on
/// whole.
pub proof fn lemma_plain_decides(req: Seq<u8>)
    ensures
        ({
            let body = req.skip(body_start(req));
            let length = body_length(content_length(utf8_lossy(req)));
            run(PhaseView::FirstRead, seq![Event::Bytes(req)]) == (match request_line(utf8_lossy(req)) {
                None => PhaseView::Dial { data: req },
                Some((method, path)) => if method == "GET"@ {
                    PhaseView::SessionDial { id: path_info(path).0 }
                } else if method == "POST"@ {
                    if body.len() < length {
                        PhaseView::Collect { id: path_info(path).0, body, length }
                    } else {
                        PhaseView::Deliver { id: path_info(path).0, body }
                    }
                } else {
                    PhaseView::Over { outcome: Outcome::Closed }
                },
            })
        }),
{
    reveal_strlit("GET");
    reveal_strlit("POST");
    assert("GET"@.len() != "POST"@.len());
    let one: Seq<EventView> = seq![Event::Bytes(req)];
    assert(one.drop_last() =~= seq![]);
    assert(run(PhaseView::FirstRead, seq![]) == (PhaseView::FirstRead));
}

/// What complete headers over TLS decide, however they are cut: the same as
/// without TLS, but that what is no request is an error.
pub proof fn lemma_tls_decides(heads: Seq<Seq<u8>>, end: int)
    requires
        heads.len() > 0,
        forall|i: int| 0 <= i < heads.len() ==> (#[trigger] heads[i]).len() > 0,
        !occurs(concat(heads.drop_last()), blank_line()),
        concat(heads.drop_last()).len() < 65536,
        find(concat(heads), blank_line()) == Some(end),
    ensures
        ({
            let req = concat(heads);
            let body = req.skip(end + 4);
            let length = body_length(content_length(utf8_lossy(req)));
            run(PhaseView::Headers { buf: seq![] }, arrivals(heads)) == (match request_line(
                utf8_lossy(req.take(end)),
            ) {
                None => PhaseView::Over { outcome: Outcome::InvalidHttp },
                Some((method, path)) => if method == "GET"@ {
                    PhaseView::SessionDial { id: path_info(path).0 }
                } else if method == "POST"@ {
                    if body.len() < length {
                        PhaseView::Collect { id: path_info(path).0, body, length }
                    } else {
                        PhaseView::Deliver { id: path_info(path).0, body }
                    }
                } else {
                    PhaseView::Over { outcome: Outcome::Closed }
                },
            })
        }),
{
    reveal_strlit("GET");
    reveal_strlit("POST");
    assert("GET"@.len() != "POST"@.len());
    lemma_headers_whole(heads);
}

/// Headers that are not complete are read on below 65536 bytes, with all that
/// came kept, and end the connection from there on.
pub proof fn lemma_headers_incomplete(heads: Seq<Seq<u8>>)
    requires
        forall|i: int| 0 <= i < heads.len() ==> (#[trigger] heads[i]).len() > 0,
        !occurs(concat(heads), blank_line()),
        heads.len() > 0 ==> concat(heads.drop_last()).len() < 65536,
    ensures
        run(PhaseView::Headers { buf: seq![] }, arrivals(heads)) == (if concat(heads).len() < 65536 {
            PhaseView::Headers { buf: concat(heads) }
        } else {
            PhaseView::Over { outcome: Outcome::Closed }
        }),
{
    if heads.len() == 0 {
        assert(arrivals(heads) =~= seq![]);
        assert(concat(heads) =~= seq![]);
    } else {
        lemma_concat_last(heads);
        if occurs(concat(heads.drop_last()), blank_line()) {
            lemma_occurs_extends(concat(heads.drop_last()), heads.last(), blank_line());
        }
        lemma_headers_whole(heads);
        if exists|i: int| first_at(concat(heads), blank_line(), i) {
            let i = choose|i: int| first_at(concat(heads), blank_line(), i);
            assert(occurs_at(concat(heads), blank_line(), i));
        }
    }
}

/// The session that a phase is about.
pub open spec fn session_of(phase: PhaseView) -> Option<Seq<char>> {
    match phase {
        PhaseView::SessionDial { id } => Some(id),
        PhaseView::Register { id } => Some(id),
        PhaseView::Head { id } => Some(id),
        PhaseView::Collect { id, .. } => Some(id),
        PhaseView::Deliver { id, .. } => Some(id),
        _ => None,
    }
}

/// A download and an upload whose paths name one session end up with that
/// session, each with or without TLS.
pub proof fn lemma_meet(
    download: Seq<u8>,
    down_heads: Seq<Seq<u8>>,
    down_end: int,
    down_path: Seq<char>,
    request: Seq<u8>,
    up_heads: Seq<Seq<u8>>,
    up_end: int,
    up_path: Seq<char>,
)
    requires
        path_info(down_path).0 == path_info(up_path).0,
        request_line(utf8_lossy(download)) == Some(("GET"@, down_path)),
        request_line(utf8_lossy(request)) == Some(("POST"@, up_path)),
        down_heads.len() > 0,
        forall|i: int| 0 <= i < down_heads.len() ==> (#[trigger] down_heads[i]).len() > 0,
        !occurs(concat(down_heads.drop_last()), blank_line()),
        concat(down_heads.drop_last()).len() < 65536,
        find(concat(down_heads), blank_line()) == Some(down_end),
        request_line(utf8_lossy(concat(down_heads).take(down_end))) == Some(("GET"@, down_path)),
        up_heads.len() > 0,
        forall|i: int| 0 <= i < up_heads.len() ==> (#[trigger] up_heads[i]).len() > 0,
        !occurs(concat(up_heads.drop_last()), blank_line()),
        concat(up_heads.drop_last()).len() < 65536,
        find(concat(up_heads), blank_line()) == Some(up_end),
        request_line(utf8_lossy(concat(up_heads).take(up_end))) == Some(("POST"@, up_path)),
    ensures
        ({
            let id = path_info(down_path).0;
            let start: PhaseView = PhaseView::Headers { buf: seq![] };
            &&& run(PhaseView::FirstRead, seq![Event::Bytes(download)]) == (PhaseView::SessionDial { id })
            &&& run(start, arrivals(down_heads)) == (PhaseView::SessionDial { id })
            &&& session_of(run(PhaseView::FirstRead, seq![Event::Bytes(request)])) == Some(id)
            &&& session_of(run(start, arrivals(up_heads))) == Some(id)
        }),
{
    lemma_plain_decides(download);
    lemma_plain_decides(request);
    lemma_tls_decides(down_heads, down_end);
    lemma_tls_decides(up_heads, up_end);
    reveal_strlit("GET");
    reveal_strlit("POST");
    assert("GET"@.len() != "POST"@.len());
}

/// The body of an upload is what stands behind the first blank line, or, without
/// one, behind the first four bytes.
pub proof fn lemma_body(req: Seq<u8>, head: Seq<u8>, body: Seq<u8>, other: Seq<u8>)
    requires
        req == head + seq![13u8, 10u8, 13u8, 10u8] + body,
        forall|j: int|
            0 <= j < head.len() ==> #[trigger] req.subrange(j, j + 4) != seq![
                13u8,
                10u8,
                13u8,
                10u8,
            ],
        forall|j: int|
            0 <= j <= other.len() - 4 ==> #[trigger] other.subrange(j, j + 4) != seq![
                13u8,
                10u8,
                13u8,
                10u8,
            ],
    ensures
        req.skip(body_start(req)) == body,
        other.skip(body_start(other)) == other.skip(4),
{
    lemma_blank_line(req, head, body);
    lemma_no_blank_line(other);
    assert(req.skip(head.len() as int + 4) =~= body);
}

/// Phases as contracts speak of them hold what the phases hold.
pub proof fn lemma_views(id: String, data: Vec<u8>, length: usize, outcome: Outcome)
    ensures
        (NetPhase::Sniff)@ == PhaseView::Sniff,
        (NetPhase::Handshake)@ == PhaseView::Handshake,
        (NetPhase::Headers { buf: data })@ == (PhaseView::Headers { buf: data@ }),
        (NetPhase::FirstRead)@ == PhaseView::FirstRead,
        (NetPhase::Dial { data })@ == (PhaseView::Dial { data: data@ }),
        (NetPhase::Forward { data })@ == (PhaseView::Forward { data: data@ }),
        (NetPhase::Relay)@ == PhaseView::Relay,
        (NetPhase::SessionDial { id })@ == (PhaseView::SessionDial { id: id@ }),
        (NetPhase::Register { id })@ == (PhaseView::Register { id: id@ }),
        (NetPhase::Head { id })@ == (PhaseView::Head { id: id@ }),
        (NetPhase::Await)@ == PhaseView::Await,
        (NetPhase::Chunk { data })@ == (PhaseView::Chunk { data: data@ }),
        (NetPhase::Collect { id, body: data, length })@ == (PhaseView::Collect {
            id: id@,
            body: data@,
            length,
        }),
        (NetPhase::Deliver { id, body: data })@ == (PhaseView::Deliver {
            id: id@,
            body: data@,
        }),
        (NetPhase::Answer)@ == PhaseView::Answer,
        (NetPhase::Over { outcome })@ == (PhaseView::Over { outcome }),
        (Downlink::<Vec<u8>>::Read)@ == Downlink::<Seq<u8>>::Read,
        (Downlink::<Vec<u8>>::Hand { data })@ == (Downlink::<Seq<u8>>::Hand { data: data@ }),
        (Downlink::<Vec<u8>>::Over)@ == Downlink::<Seq<u8>>::Over,
{
}

/// What SSH sends is handed on as it is, whatever it is; its end, or nothing in
/// time, or a failure on either side ends the reading for good.
pub proof fn lemma_downlink_moves(data: Seq<u8>, event: EventView)
    ensures
        ({
            let read: Downlink<Seq<u8>> = Downlink::Read;
            let hand: Downlink<Seq<u8>> = Downlink::Hand { data };
            let over: Downlink<Seq<u8>> = Downlink::Over;
            &&& data.len() > 0 ==> downlink_next(read, Event::Bytes(data)) == hand
            &&& data.len() == 0 ==> downlink_next(read, Event::Bytes(data)) == over
            &&& !(event is Bytes) ==> downlink_next(read, event) == over
            &&& downlink_next(hand, Event::Done) == read
            &&& !(event is Done) ==> downlink_next(hand, event) == over
            &&& downlink_next(over, event) == over
        }),
{
    assert(data.len() == 0 ==> data =~= seq![]);
}

/// The options are what follows their first flags, wherever these stand and
/// whatever else is given: a port if it is one, a text as it is; else the
/// defaults.
pub proof fn lemma_options(
    args: Seq<Seq<char>>,
    port_at: int,
    ssh_port_at: int,
    status_at: int,
)
    requires
        first_flag(args, "--port"@, "-p"@, 0, port_at),
        first_flag(args, "--ssh-port"@, "--ssh-port"@, 0, ssh_port_at),
        first_flag(args, "--status"@, "-s"@, 0, status_at),
    ensures
        port_given(args) == as_port(follower(args, port_at), 443),
        ssh_port_given(args) == as_port(follower(args, ssh_port_at), 22),
        status_given(args) == (if status_at + 1 < args.len() {
            args[status_at + 1]
        } else {
            "@SDProxy"@
        }),
{
    lemma_first_flag(args, "--port"@, "-p"@, 0, port_at, 443, seq![]);
    lemma_first_flag(args, "--ssh-port"@, "--ssh-port"@, 0, ssh_port_at, 22, seq![]);
    lemma_first_flag(args, "--status"@, "-s"@, 0, status_at, 0, "@SDProxy"@);
}

/// Every upload goes to SSH as it is, whatever it holds, unless its session was
/// opened over TLS and is no longer active; and the end of the uploads is the
/// end of the writing.
pub proof fn lemma_upward(data: Seq<u8>, vec: Vec<u8>, guarded: bool, active: bool)
    ensures
        upward(Some(data), false, active) == Some(data),
        upward(Some(data), guarded, true) == Some(data),
        upward(Some(data), true, false) is None,
        upward(None, guarded, active) is None,
        upload_view(Some(vec)) == Some(vec@),
        upload_view(None) is None,
{
}

/// An upload without TLS from one end to the other: a request that begins with
/// `POST` and a path, in which the first line named as the length header says
/// `n`, after any lines before it, and whose bytes behind the first blank line
/// are `body`, hands `body` and all that comes after it, up to `n` bytes or to
/// the end of the stream, to the session that the path names.
pub proof fn lemma_upload_carried(
    req: Seq<u8>,
    path: Seq<char>,
    rest: Seq<char>,
    above: Seq<char>,
    name: Seq<char>,
    left: Seq<char>,
    n: usize,
    right: Seq<char>,
    below: Seq<char>,
    head: Seq<u8>,
    body: Seq<u8>,
    pieces: Seq<Seq<u8>>,
)
    requires
        utf8_lossy(req) == "POST"@ + seq![' '] + path + rest,
        is_word(path),
        rest.len() > 0 ==> is_space(rest[0]),
        utf8_lossy(req) == above + name + left + digits(n as nat, 10) + right + below,
        above.len() > 0 ==> above.last() == '\n',
        unnamed(above),
        name.len() == 15,
        named_at(name, 0),
        is_blank(left) && !left.contains('\n'),
        is_blank(right) && !right.contains('\n'),
        below.len() > 0 ==> below[0] == '\n',
        req == head + seq![13u8, 10u8, 13u8, 10u8] + body,
        forall|j: int|
            0 <= j < head.len() ==> #[trigger] req.subrange(j, j + 4) != seq![
                13u8,
                10u8,
                13u8,
                10u8,
            ],
        awaited(body.len(), n, pieces),
    ensures
        run(
            PhaseView::FirstRead,
            seq![Event::Bytes(req)] + rest_of_upload(body.len(), n, pieces),
        ) == (PhaseView::Deliver { id: path_info(path).0, body: body + concat(pieces) }),
{
    reveal_strlit("POST");
    assert(is_word("POST"@));
    let text = utf8_lossy(req);
    assert(text =~= Seq::<char>::empty() + "POST"@ + seq![' '] + path + rest);
    lemma_request_line(seq![], "POST"@, seq![' '], path, rest);
    lemma_length_found(above, name, left, 0, n as nat, right, below);
    assert(above + name + left + zeros(0) + digits(n as nat, 10) + right + below =~= text);
    lemma_body_length(n);
    lemma_blank_line(req, head, body);
    assert(req.skip(head.len() as int + 4) =~= body);
    lemma_upload_delivered(req, path, pieces);
}

} // verus!
