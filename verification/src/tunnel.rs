//! The tunnel proxy: session requests are served as by the split proxy, with
//! or without TLS, and every other client is tunnelled to SSH.
use tokio_rustls::rustls::ServerConfig;
use vstd::prelude::*;
use vstd::slice::{slice_subrange, slice_to_vec};
use vstd::utf8::{decode_utf8, decode_utf8_encode_utf8, encode_utf8, valid_utf8};

use crate::args::{
    after_last, as_port, follower, last_flag, last_value, lemma_last_flag, port, port_or, text,
    text_or, texts,
};
use crate::number::{digits, zeros};
use crate::path::{
    extract_session_id, is_xhttp_path, lemma_names_session, names_session, session_id, slashes,
};
use crate::reply::{
    bytes_of, concat, greeting_reply, greeting_text, lemma_concat_last, received_reply,
    received_text, stream_head, stream_head_text,
};
use crate::request::{
    blank_line, body_length, content_length, decode_lossy, extract_content_length, find, header_end,
    lemma_blank_line, lemma_body_length, lemma_length_found, lemma_no_blank_line,
    lemma_occurs_extends, lemma_request_line, named_at, parse_http_request, request_line, unnamed,
    utf8_lossy,
};
use crate::session::after_action;
use crate::text::{chars_of, is_blank, is_space, is_word, occurs, occurs_at, spells};
use crate::tls::{
    asks_clients, every_group, every_suite, nested, offer, pem_certs, pem_keys, read_certs,
    read_keys,
    same_but_protocols, served_groups, served_identity, served_protocols, served_suites,
    speaks_tls12, speaks_tls13, tls12_config, Identity, SetupError,
};
use crate::wire::{
    appended, arrivals, awaited, delivery, rest_of_upload, Action, ActionView, Event, EventView,
    Flush, NetAction, NetEvent, Outcome,
};

verus! {

/// The port to listen on that the arguments ask for.
pub open spec fn port_given(args: Seq<Seq<char>>) -> nat {
    port_or(after_last(args, "--port"@, "-p"@, args.len() as int), 443)
}

/// The port of the SSH service that the arguments name.
pub open spec fn ssh_port_given(args: Seq<Seq<char>>) -> nat {
    port_or(after_last(args, "--ssh-port"@, "--ssh-port"@, args.len() as int), 22)
}

/// The status that the arguments give.
pub open spec fn status_given(args: Seq<Seq<char>>) -> Seq<char> {
    text_or(after_last(args, "--status"@, "-s"@, args.len() as int), "@SDProxy"@)
}

/// The port to listen on: the value of the last `--port` or `-p` that has
/// one, 443 when there is none or it is no port number.
pub fn get_port(args: &[String]) -> (r: u16)
    ensures
        r == port_or(after_last(texts(args@), "--port"@, "-p"@, args@.len() as int), 443),
        r == port_given(texts(args@)),
{
    port(last_value(args, "--port", "-p"), 443)
}

/// The port of the SSH service: the value of the last `--ssh-port` that has
/// one, 22 when there is none or it is no port number.
pub fn get_ssh_port(args: &[String]) -> (r: u16)
    ensures
        r == port_or(
            after_last(texts(args@), "--ssh-port"@, "--ssh-port"@, args@.len() as int),
            22,
        ),
        r == ssh_port_given(texts(args@)),
{
    port(last_value(args, "--ssh-port", "--ssh-port"), 22)
}

/// The status that replies carry: the value of the last `--status` or `-s`
/// that has one.
pub fn get_status(args: &[String]) -> (r: String)
    ensures
        r@ == text_or(
            after_last(texts(args@), "--status"@, "-s"@, args@.len() as int),
            "@SDProxy"@,
        ),
        r@ == status_given(texts(args@)),
{
    text(last_value(args, "--status", "-s"), "@SDProxy")
}

/// How far a connection has come. `B` holds bytes and `T` text.
#[derive(Debug, PartialEq, Eq)]
pub enum Phase<B, T> {
    /// The first byte is looked at.
    Sniff,
    /// The TLS handshake is under way.
    Handshake,
    /// The headers are being read over TLS; these bytes have come.
    Headers { buf: B },
    /// The first bytes are being read without TLS.
    FirstRead,
    /// The greeting of a tunnel is on its way to the client.
    Greet,
    /// SSH is being connected to.
    Dial,
    /// SSH is being connected to for a client that sent no request.
    DialWith { data: B },
    /// What that client sent is on its way to SSH.
    Forward { data: B },
    /// Bytes are copied both ways.
    Relay,
    /// SSH is being connected to for a new session.
    SessionDial { id: T },
    /// The session is being opened.
    Register { id: T },
    /// The head of the session's stream is on its way to the client.
    Head { id: T },
    /// Bytes from SSH are awaited.
    Pull { id: T },
    /// Bytes from SSH are on their way to the client.
    Push { id: T, data: B },
    /// The session is being closed.
    Unregister { id: T },
    /// An upload is being read; its body will have `length` bytes.
    Collect { id: T, body: B, length: usize },
    /// The upload is being handed to its session.
    Deliver { id: T, body: B },
    /// The answer to the upload is on its way.
    Answer,
    /// The connection has ended.
    Over { outcome: Outcome },
}

/// A phase as the network side holds it.
pub type NetPhase = Phase<Vec<u8>, String>;

/// A phase as contracts speak of it.
pub type PhaseView = Phase<Seq<u8>, Seq<char>>;

impl View for Phase<Vec<u8>, String> {
    type V = Phase<Seq<u8>, Seq<char>>;

    open spec fn view(&self) -> Phase<Seq<u8>, Seq<char>> {
        match *self {
            Phase::Sniff => Phase::Sniff,
            Phase::Handshake => Phase::Handshake,
            Phase::Headers { buf } => Phase::Headers { buf: buf@ },
            Phase::FirstRead => Phase::FirstRead,
            Phase::Greet => Phase::Greet,
            Phase::Dial => Phase::Dial,
            Phase::DialWith { data } => Phase::DialWith { data: data@ },
            Phase::Forward { data } => Phase::Forward { data: data@ },
            Phase::Relay => Phase::Relay,
            Phase::SessionDial { id } => Phase::SessionDial { id: id@ },
            Phase::Register { id } => Phase::Register { id: id@ },
            Phase::Head { id } => Phase::Head { id: id@ },
            Phase::Pull { id } => Phase::Pull { id: id@ },
            Phase::Push { id, data } => Phase::Push { id: id@, data: data@ },
            Phase::Unregister { id } => Phase::Unregister { id: id@ },
            Phase::Collect { id, body, length } => Phase::Collect { id: id@, body: body@, length },
            Phase::Deliver { id, body } => Phase::Deliver { id: id@, body: body@ },
            Phase::Answer => Phase::Answer,
            Phase::Over { outcome } => Phase::Over { outcome },
        }
    }
}

/// The body of an upload: the bytes of its text after the blank line, or all
/// of them when there is none.
pub open spec fn upload_body(request: Seq<char>) -> Seq<u8> {
    let bytes = encode_utf8(request);
    match find(bytes, blank_line()) {
        Some(n) => bytes.skip(n + 4),
        None => bytes,
    }
}

/// An upload of which `body` has come: it is read on until `length` bytes
/// have come, and then handed over, with whatever came beyond.
pub open spec fn upload(id: Seq<char>, body: Seq<u8>, length: usize) -> PhaseView {
    if body.len() < length {
        Phase::Collect { id, body, length }
    } else {
        Phase::Deliver { id, body }
    }
}

/// The phase after the first text of an upload; no stated length counts as
/// none to come.
pub open spec fn upload_phase(request: Seq<char>, path: Seq<char>) -> PhaseView {
    upload(
        session_id(path),
        upload_body(request),
        body_length(content_length(request)),
    )
}

/// The phase after a text with a request line: on a session's path a download
/// opens the session, an upload is read to its end, and any other method ends
/// the connection; any other path is a tunnel's. `None` for a text without a
/// request line.
pub open spec fn request_phase(request: Seq<char>) -> Option<PhaseView> {
    match request_line(request) {
        None => None,
        Some((method, path)) => Some(
            if !names_session(path) {
                Phase::Greet
            } else if method == "GET"@ {
                Phase::SessionDial { id: session_id(path) }
            } else if method == "POST"@ {
                upload_phase(request, path)
            } else {
                closed()
            },
        ),
    }
}

/// The phase once enough has been read over TLS, given its text. What is no
/// request becomes a tunnel, without the bytes that were read.
pub open spec fn tls_phase(request: Seq<char>, buf: Seq<u8>) -> PhaseView {
    if buf.len() == 0 {
        Phase::Dial
    } else {
        match request_phase(request) {
            Some(phase) => phase,
            None => Phase::Dial,
        }
    }
}

/// The phase after the first bytes without TLS, given their text. A client
/// that sent nothing is let go; what is no request becomes a tunnel, and its
/// bytes are passed on.
pub open spec fn raw_phase(request: Seq<char>, data: Seq<u8>) -> PhaseView {
    if data.len() == 0 {
        closed()
    } else {
        match request_phase(request) {
            Some(phase) => phase,
            None => Phase::DialWith { data },
        }
    }
}

/// Whether enough has been read over TLS: the blank line, or 65536 bytes.
pub open spec fn read_enough(buf: Seq<u8>) -> bool {
    occurs(buf, blank_line()) || buf.len() >= 65536
}

/// What is asked of the network in a phase.
pub open spec fn pending(status: Seq<char>, ssh_port: u16, phase: PhaseView) -> ActionView {
    match phase {
        Phase::Sniff => Action::Peek { limit: 1, wait: Some(5) },
        Phase::Handshake => Action::StartTls,
        Phase::Headers { .. } => Action::Read { limit: 4096, wait: Some(10) },
        Phase::FirstRead => Action::Read { limit: 8192, wait: Some(5) },
        Phase::Greet => Action::Write {
            bytes: encode_utf8(greeting_text(status)),
            flush: Flush::Must,
        },
        Phase::Dial => Action::Connect { port: ssh_port },
        Phase::DialWith { .. } => Action::Connect { port: ssh_port },
        Phase::Forward { data } => Action::WriteServer { bytes: data },
        Phase::Relay => Action::Relay,
        Phase::SessionDial { .. } => Action::Connect { port: ssh_port },
        Phase::Register { id } => Action::OpenSession { id },
        Phase::Head { id } => Action::Write {
            bytes: encode_utf8(stream_head_text(id, status)),
            flush: Flush::Must,
        },
        Phase::Pull { .. } => Action::ReadServer { limit: 16384, wait: Some(120) },
        Phase::Push { data, .. } => Action::Write { bytes: data, flush: Flush::Try },
        Phase::Unregister { id } => Action::CloseSession { id },
        Phase::Collect { body, length, .. } => Action::Read {
            limit: if body.len() < length {
                (length - body.len()) as usize
            } else {
                0
            },
            wait: None,
        },
        Phase::Deliver { id, body } => Action::Deliver { id, body },
        Phase::Answer => Action::Write { bytes: encode_utf8(received_text()), flush: Flush::Skip },
        Phase::Over { outcome } => Action::Finish { outcome },
    }
}

/// The end of a connection without an error.
pub open spec fn closed() -> PhaseView {
    Phase::Over { outcome: Outcome::Closed }
}

/// The end of a connection with the error that the network reported.
pub open spec fn failed() -> PhaseView {
    Phase::Over { outcome: Outcome::Failed }
}

/// The phase after an event. An event that is no answer to the pending action
/// changes nothing.
pub open spec fn next(phase: PhaseView, event: EventView) -> PhaseView {
    match (phase, event) {
        (Phase::Sniff, Event::Bytes(b)) => if b.len() > 0 && b[0] == 0x16 {
            Phase::Handshake
        } else {
            Phase::FirstRead
        },
        (Phase::Sniff, Event::TimedOut | Event::Failed) => Phase::FirstRead,
        (Phase::Handshake, Event::Done) => Phase::Headers { buf: seq![] },
        (Phase::Handshake, Event::Failed) => closed(),
        (Phase::Headers { buf }, Event::Bytes(b)) => if b.len() > 0 && !read_enough(buf + b) {
            Phase::Headers { buf: buf + b }
        } else {
            tls_phase(utf8_lossy(buf + b), buf + b)
        },
        (Phase::Headers { buf }, Event::TimedOut | Event::Failed) => tls_phase(
            utf8_lossy(buf),
            buf,
        ),
        (Phase::FirstRead, Event::Bytes(b)) => raw_phase(utf8_lossy(b), b),
        (Phase::FirstRead, Event::TimedOut | Event::Failed) => closed(),
        (Phase::Greet, Event::Done) => Phase::Dial,
        (Phase::Greet, Event::Failed) => failed(),
        (Phase::Dial, Event::Done) => Phase::Relay,
        (Phase::Dial, Event::Failed) => failed(),
        (Phase::DialWith { data }, Event::Done) => Phase::Forward { data },
        (Phase::DialWith { .. }, Event::Failed) => failed(),
        (Phase::Forward { .. }, Event::Done) => Phase::Relay,
        (Phase::Forward { .. }, Event::Failed) => failed(),
        (Phase::Relay, Event::Done | Event::Failed) => closed(),
        (Phase::SessionDial { id }, Event::Done) => Phase::Register { id },
        (Phase::SessionDial { .. }, Event::Failed) => failed(),
        (Phase::Register { id }, Event::Done) => Phase::Head { id },
        (Phase::Head { id }, Event::Done) => Phase::Pull { id },
        (Phase::Head { .. }, Event::Failed) => failed(),
        (Phase::Pull { id }, Event::Bytes(data)) => if data.len() > 0 {
            Phase::Push { id, data }
        } else {
            Phase::Unregister { id }
        },
        (Phase::Pull { id }, Event::TimedOut | Event::Failed) => Phase::Unregister { id },
        (Phase::Push { id, .. }, Event::Done) => Phase::Pull { id },
        (Phase::Push { id, .. }, Event::Failed) => Phase::Unregister { id },
        (Phase::Unregister { .. }, Event::Done) => closed(),
        (Phase::Collect { id, body, length }, Event::Bytes(b)) => if b.len() == 0 {
            Phase::Deliver { id, body }
        } else {
            upload(id, body + b, length)
        },
        (Phase::Collect { .. }, Event::Failed) => failed(),
        (Phase::Deliver { .. }, Event::Done) => Phase::Answer,
        (Phase::Answer, Event::Done) => closed(),
        (Phase::Answer, Event::Failed) => failed(),
        _ => phase,
    }
}

/// The network's form of an upload of which `body` has come.
fn keep_reading(id: String, body: Vec<u8>, length: usize) -> (r: NetPhase)
    ensures
        r@ == upload(id@, body@, length),
{
    if body.len() < length {
        Phase::Collect { id, body, length }
    } else {
        Phase::Deliver { id, body }
    }
}

/// The phase after the first text of an upload.
pub fn handle_xhttp_post(full_request: &str, path: &str) -> (r: NetPhase)
    ensures
        r@ == upload_phase(full_request@, path@),
{
    let bytes = bytes_of(full_request);
    let total: usize = bytes.len();
    let start: usize = match header_end(bytes.as_slice()) {
        Some(n) => n + 4,
        None => 0,
    };
    let body = slice_to_vec(slice_subrange(bytes.as_slice(), start, total));
    assert(body@ =~= upload_body(full_request@));
    let length: usize = extract_content_length(full_request).unwrap_or(0);
    keep_reading(extract_session_id(path), body, length)
}

/// The phase after a request for a download.
pub fn handle_xhttp_get(path: &str) -> (r: NetPhase)
    ensures
        r@ == (Phase::SessionDial::<Seq<u8>, Seq<char>> { id: session_id(path@) }),
{
    Phase::SessionDial { id: extract_session_id(path) }
}

/// A phase that may be missing, as contracts speak of it.
pub open spec fn phase_view(phase: Option<NetPhase>) -> Option<PhaseView> {
    match phase {
        Some(p) => Some(p@),
        None => None,
    }
}

/// The phase after a text with a request line; `None` without one.
pub fn route(request: &str) -> (r: Option<NetPhase>)
    ensures
        phase_view(r) == request_phase(request@),
{
    match parse_http_request(request) {
        None => None,
        Some((method, path)) => {
            let m = chars_of(method.as_str());
            if !is_xhttp_path(path.as_str()) {
                Some(Phase::Greet)
            } else if spells(m.as_slice(), "GET") {
                Some(handle_xhttp_get(path.as_str()))
            } else if spells(m.as_slice(), "POST") {
                Some(handle_xhttp_post(request, path.as_str()))
            } else {
                Some(Phase::Over { outcome: Outcome::Closed })
            }
        },
    }
}

/// The phase once enough has been read over TLS, given its text.
pub fn route_tls(request: &str, buf: &[u8]) -> (r: NetPhase)
    ensures
        r@ == tls_phase(request@, buf@),
{
    if buf.len() == 0 {
        Phase::Dial
    } else {
        match route(request) {
            Some(phase) => phase,
            None => Phase::Dial,
        }
    }
}

/// The phase once enough has been read over TLS.
pub fn handle_tls_connection(buf: &[u8]) -> (r: NetPhase)
    ensures
        r@ == tls_phase(utf8_lossy(buf@), buf@),
        valid_utf8(buf@) ==> r@ == tls_phase(decode_utf8(buf@), buf@),
{
    let request = decode_lossy(buf);
    route_tls(request.as_str(), buf)
}

/// The phase after the first bytes without TLS, given their text.
pub fn route_raw(request: &str, data: Vec<u8>) -> (r: NetPhase)
    ensures
        r@ == raw_phase(request@, data@),
{
    if data.len() == 0 {
        Phase::Over { outcome: Outcome::Closed }
    } else {
        match route(request) {
            Some(phase) => phase,
            None => Phase::DialWith { data },
        }
    }
}

/// The phase after the first bytes without TLS.
pub fn handle_http_raw(data: Vec<u8>) -> (r: NetPhase)
    ensures
        r@ == raw_phase(utf8_lossy(data@), data@),
        valid_utf8(data@) ==> r@ == raw_phase(decode_utf8(data@), data@),
{
    let request = decode_lossy(data.as_slice());
    route_raw(request.as_str(), data)
}

/// The phase after some bytes, or the end of them, have come over TLS.
fn more_headers(buf: Vec<u8>, ended: bool) -> (r: NetPhase)
    ensures
        r@ == (if !ended && !read_enough(buf@) {
            Phase::Headers { buf: buf@ }
        } else {
            tls_phase(utf8_lossy(buf@), buf@)
        }),
{
    if !ended && buf.len() < 65536 {
        match header_end(buf.as_slice()) {
            None => return Phase::Headers { buf },
            Some(_) => {
                assert(occurs(buf@, blank_line()));
            },
        }
    }
    handle_tls_connection(buf.as_slice())
}

/// The phase after an event.
pub fn advance(phase: NetPhase, event: NetEvent) -> (r: NetPhase)
    ensures
        r@ == next(phase@, event@),
{
    match (phase, event) {
        (Phase::Sniff, Event::Bytes(b)) => if b.len() > 0 && b[0] == 0x16 {
            Phase::Handshake
        } else {
            Phase::FirstRead
        },
        (Phase::Sniff, Event::TimedOut | Event::Failed) => Phase::FirstRead,
        (Phase::Handshake, Event::Done) => Phase::Headers { buf: Vec::new() },
        (Phase::Handshake, Event::Failed) => Phase::Over { outcome: Outcome::Closed },
        (Phase::Headers { buf }, Event::Bytes(b)) => {
            let ended: bool = b.len() == 0;
            more_headers(appended(buf, b), ended)
        },
        (Phase::Headers { buf }, Event::TimedOut | Event::Failed) => handle_tls_connection(
            buf.as_slice(),
        ),
        (Phase::FirstRead, Event::Bytes(b)) => handle_http_raw(b),
        (Phase::FirstRead, Event::TimedOut | Event::Failed) => Phase::Over {
            outcome: Outcome::Closed,
        },
        (Phase::Greet, Event::Done) => Phase::Dial,
        (Phase::Greet, Event::Failed) => Phase::Over { outcome: Outcome::Failed },
        (Phase::Dial, Event::Done) => Phase::Relay,
        (Phase::Dial, Event::Failed) => Phase::Over { outcome: Outcome::Failed },
        (Phase::DialWith { data }, Event::Done) => Phase::Forward { data },
        (Phase::DialWith { .. }, Event::Failed) => Phase::Over { outcome: Outcome::Failed },
        (Phase::Forward { .. }, Event::Done) => Phase::Relay,
        (Phase::Forward { .. }, Event::Failed) => Phase::Over { outcome: Outcome::Failed },
        (Phase::Relay, Event::Done | Event::Failed) => Phase::Over { outcome: Outcome::Closed },
        (Phase::SessionDial { id }, Event::Done) => Phase::Register { id },
        (Phase::SessionDial { .. }, Event::Failed) => Phase::Over { outcome: Outcome::Failed },
        (Phase::Register { id }, Event::Done) => Phase::Head { id },
        (Phase::Head { id }, Event::Done) => Phase::Pull { id },
        (Phase::Head { .. }, Event::Failed) => Phase::Over { outcome: Outcome::Failed },
        (Phase::Pull { id }, Event::Bytes(data)) => if data.len() > 0 {
            Phase::Push { id, data }
        } else {
            Phase::Unregister { id }
        },
        (Phase::Pull { id }, Event::TimedOut | Event::Failed) => Phase::Unregister { id },
        (Phase::Push { id, .. }, Event::Done) => Phase::Pull { id },
        (Phase::Push { id, .. }, Event::Failed) => Phase::Unregister { id },
        (Phase::Unregister { .. }, Event::Done) => Phase::Over { outcome: Outcome::Closed },
        (Phase::Collect { id, body, length }, Event::Bytes(b)) => if b.len() == 0 {
            Phase::Deliver { id, body }
        } else {
            keep_reading(id, appended(body, b), length)
        },
        (Phase::Collect { .. }, Event::Failed) => Phase::Over { outcome: Outcome::Failed },
        (Phase::Deliver { .. }, Event::Done) => Phase::Answer,
        (Phase::Answer, Event::Done) => Phase::Over { outcome: Outcome::Closed },
        (Phase::Answer, Event::Failed) => Phase::Over { outcome: Outcome::Failed },
        (phase, _) => phase,
    }
}

/// A connection of the tunnel proxy.
#[derive(Debug, PartialEq, Eq)]
pub struct Connection {
    pub status: String,
    pub ssh_port: u16,
    pub phase: NetPhase,
}

/// A connection that was just accepted.
pub fn handle_client(status: &str, ssh_port: u16) -> (r: Connection)
    ensures
        r.status@ == status@,
        r.ssh_port == ssh_port,
        r.phase@ == (Phase::Sniff::<Seq<u8>, Seq<char>>),
{
    Connection { status: status.to_string(), ssh_port, phase: Phase::Sniff }
}

impl Connection {
    /// What to ask of the network now.
    pub fn action(&self) -> (r: NetAction)
        ensures
            r@ == pending(self.status@, self.ssh_port, self.phase@),
    {
        match &self.phase {
            Phase::Sniff => Action::Peek { limit: 1, wait: Some(5) },
            Phase::Handshake => Action::StartTls,
            Phase::Headers { .. } => Action::Read { limit: 4096, wait: Some(10) },
            Phase::FirstRead => Action::Read { limit: 8192, wait: Some(5) },
            Phase::Greet => Action::Write {
                bytes: greeting_reply(self.status.as_str()),
                flush: Flush::Must,
            },
            Phase::Dial => Action::Connect { port: self.ssh_port },
            Phase::DialWith { .. } => Action::Connect { port: self.ssh_port },
            Phase::Forward { data } => Action::WriteServer { bytes: slice_to_vec(data.as_slice()) },
            Phase::Relay => Action::Relay,
            Phase::SessionDial { .. } => Action::Connect { port: self.ssh_port },
            Phase::Register { id } => Action::OpenSession { id: id.clone() },
            Phase::Head { id } => Action::Write {
                bytes: stream_head(id.as_str(), self.status.as_str()),
                flush: Flush::Must,
            },
            Phase::Pull { .. } => Action::ReadServer { limit: 16384, wait: Some(120) },
            Phase::Push { data, .. } => Action::Write {
                bytes: slice_to_vec(data.as_slice()),
                flush: Flush::Try,
            },
            Phase::Unregister { id } => Action::CloseSession { id: id.clone() },
            Phase::Collect { body, length, .. } => Action::Read {
                limit: length.saturating_sub(body.len()),
                wait: None,
            },
            Phase::Deliver { id, body } => Action::Deliver {
                id: id.clone(),
                body: slice_to_vec(body.as_slice()),
            },
            Phase::Answer => Action::Write { bytes: received_reply(), flush: Flush::Skip },
            Phase::Over { outcome } => Action::Finish { outcome: *outcome },
        }
    }

    /// The connection after what became of the action.
    pub fn step(self, event: NetEvent) -> (r: Connection)
        ensures
            r.status == self.status,
            r.ssh_port == self.ssh_port,
            r.phase@ == next(self.phase@, event@),
    {
        Connection {
            status: self.status,
            ssh_port: self.ssh_port,
            phase: advance(self.phase, event),
        }
    }
}

/// The protocol on offer: HTTP/1.1.
pub open spec fn protocols() -> Seq<Seq<u8>> {
    seq![encode_utf8("http/1.1"@)]
}

/// The certificate chain and the key to serve, given what the two files hold:
/// all certificates, which may be none, and the first key.
pub fn first_identity(
    certs: Result<Vec<Vec<u8>>, std::io::Error>,
    keys: Result<Vec<Vec<u8>>, std::io::Error>,
) -> (r: Result<Identity, SetupError>)
    requires
        certs is Ok && keys is Ok ==> keys->Ok_0@.len() > 0,
    ensures
        match certs {
            Err(e) => r == Err::<Identity, SetupError>(SetupError::CertificatePem(e)),
            Ok(c) => match keys {
                Err(e) => r == Err::<Identity, SetupError>(SetupError::KeyPem(e)),
                Ok(k) => r matches Ok(identity) && identity@ == (nested(c@), k@[0]@),
            },
        },
{
    match certs {
        Err(e) => Err(SetupError::CertificatePem(e)),
        Ok(chain) => match keys {
            Err(e) => Err(SetupError::KeyPem(e)),
            Ok(keys) => {
                let mut keys = keys;
                let key = keys.remove(0);
                Ok(Identity { chain, key })
            },
        },
    }
}

/// What a setup comes to once the TLS implementation has spoken: a server that
/// it made is given the protocols on offer and nothing else is changed; its
/// error is passed on.
pub fn served(outcome: Result<ServerConfig, tokio_rustls::rustls::Error>) -> (r: Result<
    ServerConfig,
    SetupError,
>)
    ensures
        match outcome {
            Ok(config) => {
                &&& r matches Ok(server)
                &&& same_but_protocols(server, config)
                &&& served_protocols(server) == protocols()
            },
            Err(e) => r == Err::<ServerConfig, SetupError>(SetupError::Rejected(e)),
        },
{
    match outcome {
        Err(e) => Err(SetupError::Rejected(e)),
        Ok(config) => {
            let mut offered: Vec<Vec<u8>> = Vec::new();
            offered.push(bytes_of("http/1.1"));
            assert(nested(offered@) =~= protocols());
            Ok(offer(config, offered))
        },
    }
}

/// The setup of the TLS server, given what the two files hold: it presents
/// all certificates and the first key, speaks TLS 1.2 alone, and offers
/// HTTP/1.1.
pub fn config_from(
    certs: Result<Vec<Vec<u8>>, std::io::Error>,
    keys: Result<Vec<Vec<u8>>, std::io::Error>,
) -> (r: Result<ServerConfig, SetupError>)
    requires
        certs is Ok && keys is Ok ==> keys->Ok_0@.len() > 0,
    ensures
        match r {
            Ok(config) => {
                &&& certs matches Ok(c)
                &&& keys matches Ok(k)
                &&& served_identity(config) == (nested(c@), k@[0]@)
                &&& served_protocols(config) == protocols()
                &&& speaks_tls12(config)
                &&& !speaks_tls13(config)
                &&& served_suites(config) == every_suite()
                &&& served_groups(config) == every_group()
                &&& !asks_clients(config)
            },
            Err(SetupError::CertificatePem(e)) => certs == Err::<Vec<Vec<u8>>, std::io::Error>(e),
            Err(SetupError::KeyPem(e)) => certs is Ok && keys == Err::<
                Vec<Vec<u8>>,
                std::io::Error,
            >(e),
            Err(SetupError::CertsEmpty) => false,
            Err(SetupError::Rejected(_)) => certs is Ok && keys is Ok,
        },
{
    match first_identity(certs, keys) {
        Err(e) => Err(e),
        Ok(identity) => served(tls12_config(identity.chain, identity.key)),
    }
}

/// Both files can be read, but there is no key.
pub open spec fn key_missing(cert_pem: Seq<u8>, key_pem: Seq<u8>) -> bool {
    &&& pem_certs(cert_pem) is Some
    &&& pem_keys(key_pem) matches Some(keys)
    &&& keys.len() == 0
}

/// What a setup from these files comes to: the certificates, the first key
/// and HTTP/1.1 under TLS 1.2, or the reason why there is none.
pub open spec fn is_setup(
    cert_pem: Seq<u8>,
    key_pem: Seq<u8>,
    r: Result<ServerConfig, SetupError>,
) -> bool {
    match r {
        Ok(config) => {
            &&& pem_certs(cert_pem) matches Some(certs)
            &&& pem_keys(key_pem) matches Some(keys)
            &&& keys.len() > 0
            &&& served_identity(config) == (certs, keys[0])
            &&& served_protocols(config) == protocols()
            &&& speaks_tls12(config)
            &&& !speaks_tls13(config)
            &&& served_suites(config) == every_suite()
            &&& served_groups(config) == every_group()
            &&& !asks_clients(config)
        },
        Err(SetupError::CertificatePem(_)) => pem_certs(cert_pem) is None,
        Err(SetupError::KeyPem(_)) => pem_certs(cert_pem) is Some && pem_keys(key_pem) is None,
        Err(SetupError::CertsEmpty) => false,
        Err(SetupError::Rejected(_)) => {
            &&& pem_certs(cert_pem) is Some
            &&& pem_keys(key_pem) matches Some(keys)
            &&& keys.len() > 0
        },
    }
}

/// The setup of the TLS server, from the contents of the certificate file and
/// of a key file that, if both can be read, holds a key.
pub fn build_tls_config(cert_pem: &[u8], key_pem: &[u8]) -> (r: Result<ServerConfig, SetupError>)
    requires
        !key_missing(cert_pem@, key_pem@),
    ensures
        is_setup(cert_pem@, key_pem@, r),
{
    config_from(read_certs(cert_pem), read_keys(key_pem))
}

/// The setup of the TLS server, from the contents of the certificate file and
/// of the key file; `None` when both can be read but there is no key.
pub fn try_build_tls_config(cert_pem: &[u8], key_pem: &[u8]) -> (r: Option<
    Result<ServerConfig, SetupError>,
>)
    ensures
        match r {
            Some(setup) => !key_missing(cert_pem@, key_pem@) && is_setup(
                cert_pem@,
                key_pem@,
                setup,
            ),
            None => key_missing(cert_pem@, key_pem@),
        },
{
    if read_certs(cert_pem).is_ok() {
        if let Ok(keys) = read_keys(key_pem) {
            if keys.len() == 0 {
                return None;
            }
        }
    }
    Some(build_tls_config(cert_pem, key_pem))
}

/// The phase after a series of events.
pub open spec fn run(phase: PhaseView, events: Seq<EventView>) -> PhaseView
    decreases events.len(),
{
    if events.len() == 0 {
        phase
    } else {
        next(run(phase, events.drop_last()), events.last())
    }
}

/// The bytes that reached the client through completed writes.
pub open spec fn sent(status: Seq<char>, phase: PhaseView, events: Seq<EventView>) -> Seq<u8>
    decreases events.len(),
{
    if events.len() == 0 {
        seq![]
    } else {
        let before = sent(status, phase, events.drop_last());
        match (pending(status, 0, run(phase, events.drop_last())), events.last()) {
            (Action::Write { bytes, .. }, Event::Done) => before + bytes,
            _ => before,
        }
    }
}

/// A TLS handshake is begun exactly with a client whose first byte announces
/// one; every other client, a silent one too, is read without TLS.
pub proof fn lemma_first_byte_decides(b: Seq<u8>)
    ensures
        next(Phase::Sniff, Event::Bytes(b)) is Handshake <==> b.len() > 0 && b[0] == 0x16,
        next(Phase::Sniff, Event::Bytes(b)) is FirstRead <==> !(b.len() > 0 && b[0] == 0x16),
        next(Phase::Sniff, Event::TimedOut) is FirstRead,
        next(Phase::Sniff, Event::Failed) is FirstRead,
{
}

/// Headers are read on only while they are incomplete and fewer than 65536
/// bytes have come, and an upload only while bytes of it are missing, so that
/// every read asks for a byte at least.
pub proof fn lemma_reading_bounded(events: Seq<EventView>)
    ensures
        match run(Phase::Sniff, events) {
            Phase::Headers { buf } => buf.len() < 65536 && !occurs(buf, blank_line()),
            Phase::Collect { body, length, .. } => body.len() < length,
            _ => true,
        },
    decreases events.len(),
{
    if events.len() > 0 {
        lemma_reading_bounded(events.drop_last());
    }
}

/// A tunnel is greeted before SSH is reached and before anything is copied:
/// the greeting is the first and the last thing that the proxy itself says,
/// a tunnel whose client could not be greeted never reaches SSH, and one whose
/// client was greeted is copied once SSH was reached.
pub proof fn lemma_greeted_first(status: Seq<char>, events: Seq<EventView>)
    ensures
        ({
            let told = sent(status, Phase::Greet, events);
            match run(Phase::Greet, events) {
                Phase::Greet => told == Seq::<u8>::empty(),
                Phase::Dial | Phase::Relay => told == encode_utf8(greeting_text(status)),
                Phase::Over { outcome: Outcome::Closed } => told == encode_utf8(
                    greeting_text(status),
                ),
                Phase::Over { outcome: Outcome::Failed } => told == Seq::<u8>::empty() || told
                    == encode_utf8(greeting_text(status)),
                _ => false,
            }
        }),
        next(Phase::Greet, Event::Failed) == failed(),
        next(next(Phase::Greet, Event::Done), Event::Done) == (Phase::Relay::<Seq<u8>, Seq<char>>),
    decreases events.len(),
{
    if events.len() > 0 {
        lemma_greeted_first(status, events.drop_last());
        let greeting = encode_utf8(greeting_text(status));
        assert(Seq::<u8>::empty() + greeting =~= greeting);
    }
}

/// What is no request reaches SSH unchanged when it came without TLS, before
/// anything is copied.
pub proof fn lemma_pass_through(status: Seq<char>, ssh_port: u16, data: Seq<u8>)
    ensures
        ({
            let start: PhaseView = Phase::DialWith { data };
            &&& pending(status, ssh_port, start) == (Action::Connect::<Seq<u8>, Seq<char>> {
                port: ssh_port,
            })
            &&& pending(status, ssh_port, next(start, Event::Done)) == (Action::WriteServer::<
                Seq<u8>,
                Seq<char>,
            > { bytes: data })
            &&& next(next(start, Event::Done), Event::Done) == (Phase::Relay::<
                Seq<u8>,
                Seq<char>,
            >)
        }),
{
}

/// The body of an upload that is UTF-8 throughout is what stands in its bytes
/// after the blank line.
pub proof fn lemma_upload_body(request: Seq<u8>)
    requires
        valid_utf8(request),
    ensures
        upload_body(decode_utf8(request)) == (match find(request, blank_line()) {
            Some(n) => request.skip(n + 4),
            None => request,
        }),
{
    decode_utf8_encode_utf8(request);
}

/// However an upload is cut into pieces, what is handed to its session is the
/// body that came with the headers and all pieces after it, in order, as soon
/// as the stated length has come.
pub proof fn lemma_upload_whole(
    id: Seq<char>,
    body: Seq<u8>,
    length: usize,
    pieces: Seq<Seq<u8>>,
)
    requires
        awaited(body.len(), length, pieces),
    ensures
        run(upload(id, body, length), arrivals(pieces)) == upload(
            id,
            body + concat(pieces),
            length,
        ),
    decreases pieces.len(),
{
    if pieces.len() == 0 {
        assert(body + concat(pieces) =~= body);
    } else {
        let init = pieces.drop_last();
        lemma_concat_last(pieces);
        if init.len() > 0 {
            lemma_concat_last(init);
        }
        lemma_upload_whole(id, body, length, init);
        assert(arrivals(pieces).drop_last() =~= arrivals(init));
        assert(body + concat(init) + pieces.last() =~= body + concat(pieces));
    }
}

/// An upload whose client stops early is handed over as far as it came.
pub proof fn lemma_short_upload(id: Seq<char>, body: Seq<u8>, length: usize)
    requires
        body.len() < length,
    ensures
        next(upload(id, body, length), Event::Bytes(seq![])) == (Phase::Deliver::<
            Seq<u8>,
            Seq<char>,
        > { id, body }),
{
}

/// Every upload that ends without an error was answered with 200, and with
/// nothing else, whether or not its session was open; one that ends with an
/// error was not answered.
pub proof fn lemma_upload_answered(
    status: Seq<char>,
    id: Seq<char>,
    body: Seq<u8>,
    length: usize,
    events: Seq<EventView>,
)
    ensures
        ({
            let told = sent(status, upload(id, body, length), events);
            match run(upload(id, body, length), events) {
                Phase::Over { outcome: Outcome::Closed } => told == encode_utf8(received_text()),
                Phase::Over { outcome: Outcome::Failed } => told == Seq::<u8>::empty(),
                Phase::Collect { .. } | Phase::Deliver { .. } | Phase::Answer => told == Seq::<
                    u8,
                >::empty(),
                _ => false,
            }
        }),
    decreases events.len(),
{
    if events.len() > 0 {
        lemma_upload_answered(status, id, body, length, events.drop_last());
        assert(Seq::<u8>::empty() + encode_utf8(received_text()) =~= encode_utf8(received_text()));
    }
}

/// The downloads and the uploads that name one session belong to it.
pub proof fn lemma_one_session(
    download: Seq<char>,
    download_path: Seq<char>,
    request: Seq<char>,
    request_path: Seq<char>,
)
    requires
        names_session(download_path),
        names_session(request_path),
        session_id(download_path) == session_id(request_path),
        request_line(download) == Some(("GET"@, download_path)),
        request_line(request) == Some(("POST"@, request_path)),
    ensures
        request_phase(download) == Some(
            (Phase::SessionDial::<Seq<u8>, Seq<char>> { id: session_id(download_path) }),
        ),
        request_phase(request) matches Some(phase) && match phase {
            Phase::Collect { id, .. } => id == session_id(download_path),
            Phase::Deliver { id, .. } => id == session_id(download_path),
            _ => false,
        },
{
    reveal_strlit("GET");
    reveal_strlit("POST");
    assert("GET"@.len() != "POST"@.len());
}

/// The client of a session receives, after the head, exactly the bytes that
/// SSH sent, in order.
pub proof fn lemma_download_verbatim(status: Seq<char>, id: Seq<char>, pieces: Seq<Seq<u8>>)
    requires
        forall|i: int| 0 <= i < pieces.len() ==> (#[trigger] pieces[i]).len() > 0,
    ensures
        run(Phase::Pull { id }, delivery(pieces)) == (Phase::Pull::<Seq<u8>, Seq<char>> { id }),
        sent(status, Phase::Pull { id }, delivery(pieces)) == concat(pieces),
    decreases pieces.len(),
{
    if pieces.len() > 0 {
        let start: PhaseView = Phase::Pull { id };
        let init = pieces.drop_last();
        lemma_download_verbatim(status, id, init);
        let e = delivery(pieces);
        let f = e.drop_last();
        assert(f =~= delivery(init).push(Event::Bytes(pieces.last())));
        assert(f.drop_last() =~= delivery(init));
        assert(run(start, f) == (Phase::Push::<Seq<u8>, Seq<char>> { id, data: pieces.last() }));
        assert(sent(status, start, f) == concat(init));
        lemma_concat_last(pieces);
    }
}

/// A session is opened only after SSH was reached, and its stream begins with
/// the head that names it.
pub proof fn lemma_session_opening(status: Seq<char>, id: Seq<char>)
    ensures
        ({
            let start: PhaseView = Phase::SessionDial { id };
            let opening: Seq<EventView> = seq![Event::Done, Event::Done, Event::Done];
            &&& pending(status, 0, next(start, Event::Done)) == (Action::OpenSession::<
                Seq<u8>,
                Seq<char>,
            > { id })
            &&& next(start, Event::Failed) == failed()
            &&& run(start, opening) == (Phase::Pull::<Seq<u8>, Seq<char>> { id })
            &&& sent(status, start, opening) == encode_utf8(stream_head_text(id, status))
        }),
{
    let start: PhaseView = Phase::SessionDial { id };
    let three: Seq<EventView> = seq![Event::Done, Event::Done, Event::Done];
    let two: Seq<EventView> = seq![Event::Done, Event::Done];
    let one: Seq<EventView> = seq![Event::Done];
    assert(three.drop_last() =~= two);
    assert(two.drop_last() =~= one);
    assert(one.drop_last() =~= seq![]);
    assert(run(start, seq![]) == start);
    assert(sent(status, start, seq![]) == Seq::<u8>::empty());
    assert(run(start, one) == (Phase::Register::<Seq<u8>, Seq<char>> { id }));
    assert(sent(status, start, one) == Seq::<u8>::empty());
    assert(run(start, two) == (Phase::Head::<Seq<u8>, Seq<char>> { id }));
    assert(sent(status, start, two) == Seq::<u8>::empty());
    let head = encode_utf8(stream_head_text(id, status));
    assert(Seq::<u8>::empty() + head =~= head);
}

/// Once the head of a session's stream was written the session is closed
/// before its connection ends, however the stream stops, and the connection
/// ends without an error.
pub proof fn lemma_session_closed(
    status: Seq<char>,
    id: Seq<char>,
    events: Seq<EventView>,
    event: EventView,
)
    ensures
        match run(Phase::Pull { id }, events) {
            Phase::Pull { id: k } => k == id,
            Phase::Push { id: k, .. } => k == id,
            Phase::Unregister { id: k } => k == id,
            Phase::Over { outcome } => outcome is Closed,
            _ => false,
        },
        ({
            let before = run(Phase::Pull { id }, events);
            !(before is Over) && next(before, event) is Over ==> pending(status, 0, before) == (
            Action::CloseSession::<Seq<u8>, Seq<char>> { id }) && event is Done
        }),
    decreases events.len(),
{
    if events.len() > 0 {
        lemma_session_closed(status, id, events.drop_last(), events.last());
    }
}

/// A connection that has ended stays as it ended.
pub proof fn lemma_over_stays(outcome: Outcome, events: Seq<EventView>)
    ensures
        run(Phase::Over { outcome }, events) == (Phase::Over::<Seq<u8>, Seq<char>> { outcome }),
    decreases events.len(),
{
    if events.len() > 0 {
        lemma_over_stays(outcome, events.drop_last());
    }
}

/// The events before and the events after can be taken one after the other.
proof fn lemma_run_concat(phase: PhaseView, before: Seq<EventView>, after: Seq<EventView>)
    ensures
        run(phase, before + after) == run(run(phase, before), after),
    decreases after.len(),
{
    let all = before + after;
    if after.len() == 0 {
        assert(all =~= before);
    } else {
        assert(all.drop_last() =~= before + after.drop_last());
        lemma_run_concat(phase, before, after.drop_last());
    }
}

/// The rest of an upload brings it to its session, as far as it comes.
proof fn lemma_upload_end(id: Seq<char>, body: Seq<u8>, length: usize, pieces: Seq<Seq<u8>>)
    requires
        awaited(body.len(), length, pieces),
    ensures
        run(upload(id, body, length), rest_of_upload(body.len(), length, pieces)) == (
        Phase::Deliver::<Seq<u8>, Seq<char>> { id, body: body + concat(pieces) }),
{
    lemma_upload_whole(id, body, length, pieces);
    let events = arrivals(pieces);
    let end: EventView = Event::Bytes(seq![]);
    assert(events.push(end).drop_last() =~= events);
}

/// Whether an event ends the reading of headers.
pub open spec fn is_stop(event: EventView) -> bool {
    event is TimedOut || event is Failed || event == Event::Bytes(Seq::<u8>::empty())
}

/// The events that bring headers over TLS: their pieces and, unless enough has
/// come with these, what ends the reading.
pub open spec fn reading(heads: Seq<Seq<u8>>, stop: EventView) -> Seq<EventView> {
    if read_enough(concat(heads)) {
        arrivals(heads)
    } else {
        arrivals(heads).push(stop)
    }
}

/// Headers that come over TLS in pieces are judged as if they came at once, as
/// soon as enough has come or no more does.
pub proof fn lemma_headers_whole(heads: Seq<Seq<u8>>, stop: EventView)
    requires
        forall|i: int| 0 <= i < heads.len() ==> (#[trigger] heads[i]).len() > 0,
        heads.len() > 0 ==> !read_enough(concat(heads.drop_last())),
        is_stop(stop),
    ensures
        run(Phase::Headers { buf: seq![] }, reading(heads, stop)) == tls_phase(
            utf8_lossy(concat(heads)),
            concat(heads),
        ),
{
    lemma_headers_pieces(heads);
    let events = arrivals(heads);
    assert(events.push(stop).drop_last() =~= events);
    assert(concat(heads) + Seq::<u8>::empty() =~= concat(heads));
    if heads.len() == 0 {
        assert(concat(heads) =~= seq![]);
    }
}

/// The phase after some pieces of headers.
proof fn lemma_headers_pieces(heads: Seq<Seq<u8>>)
    requires
        forall|i: int| 0 <= i < heads.len() ==> (#[trigger] heads[i]).len() > 0,
        heads.len() > 0 ==> !read_enough(concat(heads.drop_last())),
    ensures
        run(Phase::Headers { buf: seq![] }, arrivals(heads)) == (if read_enough(concat(heads)) {
            tls_phase(utf8_lossy(concat(heads)), concat(heads))
        } else {
            Phase::Headers { buf: concat(heads) }
        }),
    decreases heads.len(),
{
    if heads.len() == 0 {
        assert(arrivals(heads) =~= seq![]);
        assert(concat(heads) =~= seq![]);
    } else {
        let init = heads.drop_last();
        lemma_concat_last(heads);
        assert(arrivals(heads).drop_last() =~= arrivals(init));
        assert(heads.last().len() > 0);
        assert forall|i: int| 0 <= i < init.len() implies (#[trigger] init[i]).len() > 0 by {
            assert(init[i] == heads[i]);
        }
        if init.len() > 0 {
            lemma_concat_last(init);
            if occurs(concat(init.drop_last()), blank_line()) {
                lemma_occurs_extends(concat(init.drop_last()), init.last(), blank_line());
            }
        }
        lemma_headers_pieces(init);
    }
}

/// What a client uploads without TLS reaches its session whole: the session
/// that the path names is handed the body that came with the headers and all
/// that came after it, up to the stated length or to the end of the stream;
/// with no stated length, what came at once.
pub proof fn lemma_upload_delivered(req: Seq<u8>, path: Seq<char>, pieces: Seq<Seq<u8>>)
    requires
        req.len() > 0,
        request_line(utf8_lossy(req)) == Some(("POST"@, path)),
        names_session(path),
        awaited(
            upload_body(utf8_lossy(req)).len(),
            body_length(content_length(utf8_lossy(req))),
            pieces,
        ),
    ensures
        ({
            let body = upload_body(utf8_lossy(req));
            let length = body_length(content_length(utf8_lossy(req)));
            run(
                Phase::FirstRead,
                seq![Event::Bytes(req)] + rest_of_upload(body.len(), length, pieces),
            ) == (Phase::Deliver::<Seq<u8>, Seq<char>> {
                id: session_id(path),
                body: body + concat(pieces),
            })
        }),
{
    let body = upload_body(utf8_lossy(req));
    let length = body_length(content_length(utf8_lossy(req)));
    reveal_strlit("GET");
    reveal_strlit("POST");
    assert("GET"@.len() != "POST"@.len());
    lemma_upload_end(session_id(path), body, length, pieces);
    let one: Seq<EventView> = seq![Event::Bytes(req)];
    assert(one.drop_last() =~= seq![]);
    assert(run(Phase::FirstRead, seq![]) == (Phase::FirstRead::<Seq<u8>, Seq<char>>));
    lemma_run_concat(
        Phase::FirstRead,
        one,
        rest_of_upload(body.len(), length, pieces),
    );
}

/// What a client uploads over TLS reaches its session whole, however its
/// headers and its body are cut and whether or not the headers were complete:
/// the session that the path names is handed the body that came with the
/// headers and all that came after it, up to the stated length or to the end
/// of the stream.
pub proof fn lemma_tls_upload_delivered(
    heads: Seq<Seq<u8>>,
    stop: EventView,
    path: Seq<char>,
    pieces: Seq<Seq<u8>>,
)
    requires
        heads.len() > 0,
        forall|i: int| 0 <= i < heads.len() ==> (#[trigger] heads[i]).len() > 0,
        !read_enough(concat(heads.drop_last())),
        is_stop(stop),
        request_line(utf8_lossy(concat(heads))) == Some(("POST"@, path)),
        names_session(path),
        awaited(
            upload_body(utf8_lossy(concat(heads))).len(),
            body_length(content_length(utf8_lossy(concat(heads)))),
            pieces,
        ),
    ensures
        ({
            let body = upload_body(utf8_lossy(concat(heads)));
            let length = body_length(content_length(utf8_lossy(concat(heads))));
            run(
                Phase::Headers { buf: seq![] },
                reading(heads, stop) + rest_of_upload(body.len(), length, pieces),
            ) == (Phase::Deliver::<Seq<u8>, Seq<char>> {
                id: session_id(path),
                body: body + concat(pieces),
            })
        }),
{
    let req = concat(heads);
    let body = upload_body(utf8_lossy(req));
    let length = body_length(content_length(utf8_lossy(req)));
    reveal_strlit("GET");
    reveal_strlit("POST");
    assert("GET"@.len() != "POST"@.len());
    lemma_concat_last(heads);
    assert(heads.last().len() > 0);
    lemma_headers_whole(heads, stop);
    lemma_upload_end(session_id(path), body, length, pieces);
    lemma_run_concat(
        Phase::Headers { buf: seq![] },
        reading(heads, stop),
        rest_of_upload(body.len(), length, pieces),
    );
}

/// The table of sessions after a series of events, `session` being what this
/// connection keeps for its own.
pub open spec fn table_after<H>(
    table: Map<Seq<char>, H>,
    session: H,
    phase: PhaseView,
    events: Seq<EventView>,
) -> Map<Seq<char>, H>
    decreases events.len(),
{
    if events.len() == 0 {
        table
    } else {
        after_action(
            table_after(table, session, phase, events.drop_last()),
            session,
            pending(seq![], 0, run(phase, events.drop_last())),
            events.last(),
        )
    }
}

/// An upload leaves the table of sessions as it is.
pub proof fn lemma_upload_keeps_table<H>(
    table: Map<Seq<char>, H>,
    session: H,
    id: Seq<char>,
    body: Seq<u8>,
    length: usize,
    events: Seq<EventView>,
)
    ensures
        table_after(table, session, upload(id, body, length), events) == table,
    decreases events.len(),
{
    if events.len() > 0 {
        lemma_upload_keeps_table(table, session, id, body, length, events.drop_last());
        lemma_upload_answered(seq![], id, body, length, events.drop_last());
    }
}

/// A session is in the table from before the first byte of its stream until
/// the stream stops, and a connection that ended without an error has taken it
/// out again. One whose head could not be written leaves it in.
pub proof fn lemma_session_table<H>(
    table: Map<Seq<char>, H>,
    session: H,
    status: Seq<char>,
    id: Seq<char>,
    events: Seq<EventView>,
)
    ensures
        ({
            let start: PhaseView = Phase::SessionDial { id };
            let now = table_after(table, session, start, events);
            let told = sent(status, start, events);
            match run(start, events) {
                Phase::SessionDial { id: k } => k == id && now == table && told.len() == 0,
                Phase::Register { id: k } => k == id && now == table && told.len() == 0,
                Phase::Head { id: k } => k == id && now == table.insert(id, session) && told.len()
                    == 0,
                Phase::Pull { id: k } => k == id && now == table.insert(id, session),
                Phase::Push { id: k, .. } => k == id && now == table.insert(id, session),
                Phase::Unregister { id: k } => k == id && now == table.insert(id, session),
                Phase::Over { outcome: Outcome::Closed } => now == table.remove(id),
                Phase::Over { outcome: Outcome::Failed } => {
                    &&& now == table || now == table.insert(id, session)
                    &&& told.len() == 0
                },
                _ => false,
            }
        }),
    decreases events.len(),
{
    if events.len() > 0 {
        lemma_session_table(table, session, status, id, events.drop_last());
        assert(table.insert(id, session).remove(id) =~= table.remove(id));
    }
}

/// The pieces from SSH that a connection took to send.
pub open spec fn taken(phase: PhaseView, events: Seq<EventView>) -> Seq<Seq<u8>>
    decreases events.len(),
{
    if events.len() == 0 {
        seq![]
    } else {
        let before = taken(phase, events.drop_last());
        match (run(phase, events.drop_last()), events.last()) {
            (Phase::Pull { .. }, Event::Bytes(data)) => if data.len() > 0 {
                before.push(data)
            } else {
                before
            },
            _ => before,
        }
    }
}

/// Bytes are a prefix of themselves with more behind them.
proof fn lemma_prefix(a: Seq<u8>, b: Seq<u8>)
    ensures
        a.is_prefix_of(a + b),
{
    assert(a =~= (a + b).subrange(0, a.len() as int));
}

/// Whatever the network does, the client of a session is sent the head and
/// then the bytes that were taken from SSH, in order and each once, and
/// nothing else; only those of the last piece may be missing.
pub proof fn lemma_download_told(status: Seq<char>, id: Seq<char>, events: Seq<EventView>)
    ensures
        ({
            let start: PhaseView = Phase::SessionDial { id };
            let told = sent(status, start, events);
            let head = encode_utf8(stream_head_text(id, status));
            let pieces = taken(start, events);
            &&& told.is_prefix_of(head + concat(pieces))
            &&& match run(start, events) {
                Phase::SessionDial { id: k } => k == id && told.len() == 0 && pieces.len() == 0,
                Phase::Register { id: k } => k == id && told.len() == 0 && pieces.len() == 0,
                Phase::Head { id: k } => k == id && told.len() == 0 && pieces.len() == 0,
                Phase::Pull { id: k } => k == id && told == head + concat(pieces),
                Phase::Push { id: k, data } => {
                    &&& k == id
                    &&& pieces.len() > 0
                    &&& pieces.last() == data
                    &&& told == head + concat(pieces.drop_last())
                },
                Phase::Unregister { .. } | Phase::Over { outcome: Outcome::Closed } => {
                    ||| told == head + concat(pieces)
                    ||| pieces.len() > 0 && told == head + concat(pieces.drop_last())
                },
                Phase::Over { outcome: Outcome::Failed } => told.len() == 0 && pieces.len() == 0,
                _ => false,
            }
        }),
    decreases events.len(),
{
    let start: PhaseView = Phase::SessionDial { id };
    let told = sent(status, start, events);
    let head = encode_utf8(stream_head_text(id, status));
    let pieces = taken(start, events);
    if events.len() > 0 {
        let init = events.drop_last();
        lemma_download_told(status, id, init);
        if run(start, init) is Head {
            assert(sent(status, start, init) + head =~= head + concat(seq![]));
        }
        if let (Phase::Pull { .. }, Event::Bytes(data)) = (run(start, init), events.last()) {
            if data.len() > 0 {
                assert(pieces.drop_last() =~= taken(start, init));
            }
        }
        if let (Phase::Push { data, .. }, Event::Done) = (run(start, init), events.last()) {
            lemma_concat_last(pieces);
            assert(told =~= head + concat(pieces));
        }
    }
    lemma_prefix(head + concat(pieces), seq![]);
    assert(head + concat(pieces) + Seq::<u8>::empty() =~= head + concat(pieces));
    if pieces.len() > 0 {
        lemma_concat_last(pieces);
        lemma_prefix(head + concat(pieces.drop_last()), pieces.last());
        assert(head + concat(pieces.drop_last()) + pieces.last() =~= head + concat(pieces));
    }
    assert(told.len() == 0 ==> told =~= (head + concat(pieces)).subrange(0, 0));
}

/// What is asked of the network in every phase, for every identifier and all
/// bytes: how much is read and for how long, what is sent and with what flush,
/// and where connections go.
pub proof fn lemma_asked(
    status: Seq<char>,
    ssh_port: u16,
    id: Seq<char>,
    data: Seq<u8>,
    length: usize,
    outcome: Outcome,
)
    ensures
        pending(status, ssh_port, PhaseView::Sniff) == (ActionView::Peek {
            limit: 1,
            wait: Some(5),
        }),
        pending(status, ssh_port, PhaseView::Handshake) == (ActionView::StartTls),
        pending(status, ssh_port, PhaseView::Headers { buf: data }) == (ActionView::Read {
            limit: 4096,
            wait: Some(10),
        }),
        pending(status, ssh_port, PhaseView::FirstRead) == (ActionView::Read {
            limit: 8192,
            wait: Some(5),
        }),
        pending(status, ssh_port, PhaseView::Greet) == (ActionView::Write {
            bytes: encode_utf8(greeting_text(status)),
            flush: Flush::Must,
        }),
        pending(status, ssh_port, PhaseView::Dial) == (ActionView::Connect { port: ssh_port }),
        pending(status, ssh_port, PhaseView::DialWith { data }) == (ActionView::Connect {
            port: ssh_port,
        }),
        pending(status, ssh_port, PhaseView::Forward { data }) == (ActionView::WriteServer {
            bytes: data,
        }),
        pending(status, ssh_port, PhaseView::Relay) == (ActionView::Relay),
        pending(status, ssh_port, PhaseView::SessionDial { id }) == (ActionView::Connect {
            port: ssh_port,
        }),
        pending(status, ssh_port, PhaseView::Register { id }) == (ActionView::OpenSession { id }),
        pending(status, ssh_port, PhaseView::Head { id }) == (ActionView::Write {
            bytes: encode_utf8(stream_head_text(id, status)),
            flush: Flush::Must,
        }),
        pending(status, ssh_port, PhaseView::Pull { id }) == (ActionView::ReadServer {
            limit: 16384,
            wait: Some(120),
        }),
        pending(status, ssh_port, PhaseView::Push { id, data }) == (ActionView::Write {
            bytes: data,
            flush: Flush::Try,
        }),
        pending(status, ssh_port, PhaseView::Unregister { id }) == (ActionView::CloseSession {
            id,
        }),
        pending(status, ssh_port, PhaseView::Deliver { id, body: data }) == (ActionView::Deliver {
            id,
            body: data,
        }),
        pending(status, ssh_port, PhaseView::Answer) == (ActionView::Write {
            bytes: encode_utf8(received_text()),
            flush: Flush::Skip,
        }),
        pending(status, ssh_port, PhaseView::Over { outcome }) == (ActionView::Finish { outcome }),
        data.len() < length ==> pending(
            status,
            ssh_port,
            PhaseView::Collect { id, body: data, length },
        ) == (ActionView::Read { limit: (length - data.len()) as usize, wait: None }),
{
}

/// How what becomes of an action moves a connection on, for every identifier and
/// all bytes: which failures are errors of the connection and which end it
/// quietly, and that no other event changes anything.
pub proof fn lemma_moves(
    id: Seq<char>,
    data: Seq<u8>,
    length: usize,
    outcome: Outcome,
    event: EventView,
)
    ensures
        next(PhaseView::Sniff, event) == (match event {
            Event::Bytes(b) => if b.len() > 0 && b[0] == 0x16 {
                PhaseView::Handshake
            } else {
                PhaseView::FirstRead
            },
            Event::TimedOut | Event::Failed => PhaseView::FirstRead,
            _ => PhaseView::Sniff,
        }),
        next(PhaseView::Handshake, event) == (match event {
            Event::Done => PhaseView::Headers { buf: seq![] },
            Event::Failed => PhaseView::Over { outcome: Outcome::Closed },
            _ => PhaseView::Handshake,
        }),
        next(PhaseView::Greet, event) == (match event {
            Event::Done => PhaseView::Dial,
            Event::Failed => PhaseView::Over { outcome: Outcome::Failed },
            _ => PhaseView::Greet,
        }),
        next(PhaseView::Dial, event) == (match event {
            Event::Done => PhaseView::Relay,
            Event::Failed => PhaseView::Over { outcome: Outcome::Failed },
            _ => PhaseView::Dial,
        }),
        next(PhaseView::DialWith { data }, event) == (match event {
            Event::Done => PhaseView::Forward { data },
            Event::Failed => PhaseView::Over { outcome: Outcome::Failed },
            _ => PhaseView::DialWith { data },
        }),
        next(PhaseView::Forward { data }, event) == (match event {
            Event::Done => PhaseView::Relay,
            Event::Failed => PhaseView::Over { outcome: Outcome::Failed },
            _ => PhaseView::Forward { data },
        }),
        next(PhaseView::Relay, event) == (match event {
            Event::Done | Event::Failed => PhaseView::Over { outcome: Outcome::Closed },
            _ => PhaseView::Relay,
        }),
        next(PhaseView::SessionDial { id }, event) == (match event {
            Event::Done => PhaseView::Register { id },
            Event::Failed => PhaseView::Over { outcome: Outcome::Failed },
            _ => PhaseView::SessionDial { id },
        }),
        next(PhaseView::Register { id }, event) == (match event {
            Event::Done => PhaseView::Head { id },
            _ => PhaseView::Register { id },
        }),
        next(PhaseView::Head { id }, event) == (match event {
            Event::Done => PhaseView::Pull { id },
            Event::Failed => PhaseView::Over { outcome: Outcome::Failed },
            _ => PhaseView::Head { id },
        }),
        next(PhaseView::Pull { id }, event) == (match event {
            Event::Bytes(b) => if b.len() > 0 {
                PhaseView::Push { id, data: b }
            } else {
                PhaseView::Unregister { id }
            },
            Event::TimedOut | Event::Failed => PhaseView::Unregister { id },
            _ => PhaseView::Pull { id },
        }),
        next(PhaseView::Push { id, data }, event) == (match event {
            Event::Done => PhaseView::Pull { id },
            Event::Failed => PhaseView::Unregister { id },
            _ => PhaseView::Push { id, data },
        }),
        next(PhaseView::Unregister { id }, event) == (match event {
            Event::Done => PhaseView::Over { outcome: Outcome::Closed },
            _ => PhaseView::Unregister { id },
        }),
        next(PhaseView::Collect { id, body: data, length }, event) == (match event {
            Event::Bytes(b) => if b.len() == 0 {
                PhaseView::Deliver { id, body: data }
            } else if data.len() + b.len() < length {
                PhaseView::Collect { id, body: data + b, length }
            } else {
                PhaseView::Deliver { id, body: data + b }
            },
            Event::Failed => PhaseView::Over { outcome: Outcome::Failed },
            _ => PhaseView::Collect { id, body: data, length },
        }),
        next(PhaseView::Deliver { id, body: data }, event) == (match event {
            Event::Done => PhaseView::Answer,
            _ => PhaseView::Deliver { id, body: data },
        }),
        next(PhaseView::Answer, event) == (match event {
            Event::Done => PhaseView::Over { outcome: Outcome::Closed },
            Event::Failed => PhaseView::Over { outcome: Outcome::Failed },
            _ => PhaseView::Answer,
        }),
        next(PhaseView::Over { outcome }, event) == (PhaseView::Over { outcome }),
        event is Done || event is Closed ==> next(PhaseView::Headers { buf: data }, event) == (
        PhaseView::Headers { buf: data }),
        event is TimedOut || event is Failed ==> next(PhaseView::FirstRead, event) == (PhaseView::Over {
            outcome: Outcome::Closed,
        }),
        event is Done || event is Closed ==> next(PhaseView::FirstRead, event)
            == PhaseView::FirstRead,
{
}

/// What the first bytes without TLS decide, whatever they are: a client that sent
/// nothing is let go; what is no request is passed on whole; a request on a path
/// that names no session is greeted, whatever its method; and on a path that
/// names one a download opens it, an upload is read on or handed to it, and any
/// other request is let go.
pub proof fn lemma_plain_decides(req: Seq<u8>)
    ensures
        ({
            let body = upload_body(utf8_lossy(req));
            let length = body_length(content_length(utf8_lossy(req)));
            let reached = run(PhaseView::FirstRead, seq![Event::Bytes(req)]);
            &&& req.len() == 0 ==> reached == (PhaseView::Over { outcome: Outcome::Closed })
            &&& req.len() > 0 ==> reached == (match request_line(utf8_lossy(req)) {
                None => PhaseView::DialWith { data: req },
                Some((method, path)) => if !names_session(path) {
                    PhaseView::Greet
                } else if method == "GET"@ {
                    PhaseView::SessionDial { id: session_id(path) }
                } else if method == "POST"@ {
                    if body.len() < length {
                        PhaseView::Collect { id: session_id(path), body, length }
                    } else {
                        PhaseView::Deliver { id: session_id(path), body }
                    }
                } else {
                    PhaseView::Over { outcome: Outcome::Closed }
                },
            })
        }),
{
    reveal_strlit("GET");
    reveal_strlit("POST");
    assert("GET"@.len() != "POST"@.len());
    let one: Seq<EventView> = seq![Event::Bytes(req)];
    assert(one.drop_last() =~= seq![]);
    assert(run(PhaseView::FirstRead, seq![]) == (PhaseView::FirstRead));
}

/// What is read over TLS decides, however it is cut and whether or not it was
/// complete: the same as without TLS, but that what is no request is tunnelled
/// without the bytes that were read.
pub proof fn lemma_tls_decides(heads: Seq<Seq<u8>>, stop: EventView)
    requires
        forall|i: int| 0 <= i < heads.len() ==> (#[trigger] heads[i]).len() > 0,
        heads.len() > 0 ==> !read_enough(concat(heads.drop_last())),
        is_stop(stop),
    ensures
        ({
            let req = concat(heads);
            let body = upload_body(utf8_lossy(req));
            let length = body_length(content_length(utf8_lossy(req)));
            let reached = run(PhaseView::Headers { buf: seq![] }, reading(heads, stop));
            &&& heads.len() == 0 ==> reached == PhaseView::Dial
            &&& heads.len() > 0 ==> reached == (match request_line(utf8_lossy(req)) {
                None => PhaseView::Dial,
                Some((method, path)) => if !names_session(path) {
                    PhaseView::Greet
                } else if method == "GET"@ {
                    PhaseView::SessionDial { id: session_id(path) }
                } else if method == "POST"@ {
                    if body.len() < length {
                        PhaseView::Collect { id: session_id(path), body, length }
                    } else {
                        PhaseView::Deliver { id: session_id(path), body }
                    }
                } else {
                    PhaseView::Over { outcome: Outcome::Closed }
                },
            })
        }),
{
    reveal_strlit("GET");
    reveal_strlit("POST");
    assert("GET"@.len() != "POST"@.len());
    lemma_headers_whole(heads, stop);
    if heads.len() == 0 {
        assert(concat(heads) =~= seq![]);
    } else {
        lemma_concat_last(heads);
        assert(heads.last().len() > 0);
    }
}

/// Over TLS reading goes on, with all that came kept, until enough has come.
pub proof fn lemma_headers_unfinished(heads: Seq<Seq<u8>>)
    requires
        forall|i: int| 0 <= i < heads.len() ==> (#[trigger] heads[i]).len() > 0,
        !read_enough(concat(heads)),
    ensures
        run(PhaseView::Headers { buf: seq![] }, arrivals(heads)) == (PhaseView::Headers {
            buf: concat(heads),
        }),
{
    if heads.len() > 0 {
        lemma_concat_last(heads);
        if occurs(concat(heads.drop_last()), blank_line()) {
            lemma_occurs_extends(concat(heads.drop_last()), heads.last(), blank_line());
        }
    }
    lemma_headers_pieces(heads);
}

/// Enough has come with the blank line, wherever it stands, or with 65536 bytes,
/// and not before.
pub proof fn lemma_read_enough(buf: Seq<u8>, at: int)
    ensures
        0 <= at <= buf.len() - 4 && buf.subrange(at, at + 4) == seq![13u8, 10u8, 13u8, 10u8]
            ==> read_enough(buf),
        buf.len() >= 65536 ==> read_enough(buf),
        buf.len() < 65536 && (forall|j: int|
            0 <= j <= buf.len() - 4 ==> #[trigger] buf.subrange(j, j + 4) != seq![
                13u8,
                10u8,
                13u8,
                10u8,
            ]) ==> !read_enough(buf),
{
    if 0 <= at <= buf.len() - 4 && buf.subrange(at, at + 4) == seq![13u8, 10u8, 13u8, 10u8] {
        assert(occurs_at(buf, blank_line(), at));
    }
    if forall|j: int|
        0 <= j <= buf.len() - 4 ==> #[trigger] buf.subrange(j, j + 4) != seq![
            13u8,
            10u8,
            13u8,
            10u8,
        ] {
        lemma_no_blank_line(buf);
    }
}

/// A request on a path that names no session is greeted, with or without TLS and
/// whatever its method: no session is opened for it and nothing of it is taken
/// for an upload. A path names none when what follows its slashes takes five
/// bytes at most and does not begin with `ssh`.
pub proof fn lemma_others_greeted(
    req: Seq<u8>,
    heads: Seq<Seq<u8>>,
    stop: EventView,
    method: Seq<char>,
    k: nat,
    rest: Seq<char>,
)
    requires
        req.len() > 0,
        request_line(utf8_lossy(req)) == Some((method, slashes(k) + rest)),
        heads.len() > 0,
        forall|i: int| 0 <= i < heads.len() ==> (#[trigger] heads[i]).len() > 0,
        !read_enough(concat(heads.drop_last())),
        is_stop(stop),
        request_line(utf8_lossy(concat(heads))) == Some((method, slashes(k) + rest)),
        rest.len() > 0 ==> rest[0] != '/',
        encode_utf8(rest).len() <= 5,
        !(rest.len() >= 3 && rest[0] == 's' && rest[1] == 's' && rest[2] == 'h'),
    ensures
        run(PhaseView::FirstRead, seq![Event::Bytes(req)]) == (PhaseView::Greet),
        run(PhaseView::Headers { buf: seq![] }, reading(heads, stop)) == (PhaseView::Greet),
{
    lemma_names_session(k, rest);
    lemma_plain_decides(req);
    lemma_tls_decides(heads, stop);
}

/// A download on a path that names a session opens that session, with or without
/// TLS, whatever the characters of the path.
pub proof fn lemma_session_served(
    req: Seq<u8>,
    heads: Seq<Seq<u8>>,
    stop: EventView,
    k: nat,
    rest: Seq<char>,
)
    requires
        req.len() > 0,
        request_line(utf8_lossy(req)) == Some(("GET"@, slashes(k) + rest)),
        heads.len() > 0,
        forall|i: int| 0 <= i < heads.len() ==> (#[trigger] heads[i]).len() > 0,
        !read_enough(concat(heads.drop_last())),
        is_stop(stop),
        request_line(utf8_lossy(concat(heads))) == Some(("GET"@, slashes(k) + rest)),
        rest.len() > 0 ==> rest[0] != '/',
        encode_utf8(rest).len() >= 6 || (rest.len() >= 3 && rest[0] == 's' && rest[1] == 's'
            && rest[2] == 'h'),
    ensures
        run(PhaseView::FirstRead, seq![Event::Bytes(req)]) == (PhaseView::SessionDial {
            id: session_id(slashes(k) + rest),
        }),
        run(PhaseView::Headers { buf: seq![] }, reading(heads, stop)) == (PhaseView::SessionDial {
            id: session_id(slashes(k) + rest),
        }),
{
    lemma_names_session(k, rest);
    lemma_plain_decides(req);
    lemma_tls_decides(heads, stop);
}

/// The body of an upload is what stands in the bytes of its text behind the first
/// blank line, or all of them without one.
pub proof fn lemma_body(request: Seq<char>, head: Seq<u8>, body: Seq<u8>, other: Seq<char>)
    requires
        encode_utf8(request) == head + seq![13u8, 10u8, 13u8, 10u8] + body,
        forall|j: int|
            0 <= j < head.len() ==> #[trigger] encode_utf8(request).subrange(j, j + 4) != seq![
                13u8,
                10u8,
                13u8,
                10u8,
            ],
        forall|j: int|
            0 <= j <= encode_utf8(other).len() - 4 ==> #[trigger] encode_utf8(other).subrange(
                j,
                j + 4,
            ) != seq![13u8, 10u8, 13u8, 10u8],
    ensures
        upload_body(request) == body,
        upload_body(other) == encode_utf8(other),
{
    lemma_blank_line(encode_utf8(request), head, body);
    lemma_no_blank_line(encode_utf8(other));
    assert(encode_utf8(request).skip(head.len() as int + 4) =~= body);
}

/// A setup, once there is one, presents all certificates of the one file and the
/// first key of the other, speaks TLS 1.2 alone and offers HTTP/1.1 alone.
pub proof fn lemma_setup(cert_pem: Seq<u8>, key_pem: Seq<u8>, r: Result<ServerConfig, SetupError>)
    requires
        is_setup(cert_pem, key_pem, r),
    ensures
        r matches Ok(config) ==> {
            &&& served_identity(config) == (pem_certs(cert_pem)->0, pem_keys(key_pem)->0[0])
            &&& served_protocols(config) == seq![encode_utf8("http/1.1"@)]
            &&& speaks_tls12(config) && !speaks_tls13(config)
        },
        pem_certs(cert_pem) is None <==> r matches Err(SetupError::CertificatePem(_)),
        pem_certs(cert_pem) is Some && pem_keys(key_pem) is None <==> r matches Err(
            SetupError::KeyPem(_),
        ),
        key_missing(cert_pem, key_pem) <==> pem_certs(cert_pem) is Some && pem_keys(key_pem) is Some
            && pem_keys(key_pem)->0.len() == 0,
{
}

/// Phases as contracts speak of them hold what the phases hold.
pub proof fn lemma_views(
    id: String,
    data: Vec<u8>,
    length: usize,
    outcome: Outcome,
    phase: NetPhase,
)
    ensures
        (NetPhase::Sniff)@ == PhaseView::Sniff,
        (NetPhase::Handshake)@ == PhaseView::Handshake,
        (NetPhase::Headers { buf: data })@ == (PhaseView::Headers { buf: data@ }),
        (NetPhase::FirstRead)@ == PhaseView::FirstRead,
        (NetPhase::Greet)@ == PhaseView::Greet,
        (NetPhase::Dial)@ == PhaseView::Dial,
        (NetPhase::DialWith { data })@ == (PhaseView::DialWith { data: data@ }),
        (NetPhase::Forward { data })@ == (PhaseView::Forward { data: data@ }),
        (NetPhase::Relay)@ == PhaseView::Relay,
        (NetPhase::SessionDial { id })@ == (PhaseView::SessionDial { id: id@ }),
        (NetPhase::Register { id })@ == (PhaseView::Register { id: id@ }),
        (NetPhase::Head { id })@ == (PhaseView::Head { id: id@ }),
        (NetPhase::Pull { id })@ == (PhaseView::Pull { id: id@ }),
        (NetPhase::Push { id, data })@ == (PhaseView::Push { id: id@, data: data@ }),
        (NetPhase::Unregister { id })@ == (PhaseView::Unregister { id: id@ }),
        (NetPhase::Collect { id, body: data, length })@ == (PhaseView::Collect {
            id: id@,
            body: data@,
            length,
        }),
        (NetPhase::Deliver { id, body: data })@ == (PhaseView::Deliver {
            id: id@,
            body: data@,
        }),
        (NetPhase::Answer)@ == PhaseView::Answer,
        (NetPhase::Over { outcome })@ == (PhaseView::Over { outcome }),
        phase_view(Some(phase)) == Some(phase@),
        phase_view(None) is None,
{
}

/// The options are what follows their last flags that have a value, wherever
/// these stand and whatever else is given: a port if it is one, a text as it
/// is; else the defaults.
pub proof fn lemma_options(
    args: Seq<Seq<char>>,
    port_at: int,
    ssh_port_at: int,
    status_at: int,
)
    requires
        last_flag(args, "--port"@, "-p"@, port_at),
        last_flag(args, "--ssh-port"@, "--ssh-port"@, ssh_port_at),
        last_flag(args, "--status"@, "-s"@, status_at),
    ensures
        port_given(args) == (if port_at == 0 {
            443
        } else {
            as_port(follower(args, port_at), 443)
        }),
        ssh_port_given(args) == (if ssh_port_at == 0 {
            22
        } else {
            as_port(follower(args, ssh_port_at), 22)
        }),
        status_given(args) == (if status_at == 0 {
            "@SDProxy"@
        } else {
            args[status_at + 1]
        }),
{
    lemma_last_flag(args, "--port"@, "-p"@, port_at, 443, seq![]);
    lemma_last_flag(args, "--ssh-port"@, "--ssh-port"@, ssh_port_at, 22, seq![]);
    lemma_last_flag(args, "--status"@, "-s"@, status_at, 0, "@SDProxy"@);
}

/// An upload without TLS from one end to the other: a request that begins with
/// `POST` and a path, in which the first line named as the length header says
/// `n`, after any lines before it, and whose bytes behind the first blank line
/// are `body`, hands `body` and all that comes after it, up to `n` bytes or to
/// the end of the stream, to the session that the path names.
pub proof fn lemma_upload_carried(
    req: Seq<u8>,
    path: Seq<char>,
    rest: Seq<char>,
    above: Seq<char>,
    name: Seq<char>,
    left: Seq<char>,
    n: usize,
    right: Seq<char>,
    below: Seq<char>,
    head: Seq<u8>,
    body: Seq<u8>,
    pieces: Seq<Seq<u8>>,
)
    requires
        utf8_lossy(req) == "POST"@ + seq![' '] + path + rest,
        is_word(path),
        names_session(path),
        req.len() > 0,
        rest.len() > 0 ==> is_space(rest[0]),
        utf8_lossy(req) == above + name + left + digits(n as nat, 10) + right + below,
        above.len() > 0 ==> above.last() == '\n',
        unnamed(above),
        name.len() == 15,
        named_at(name, 0),
        is_blank(left) && !left.contains('\n'),
        is_blank(right) && !right.contains('\n'),
        below.len() > 0 ==> below[0] == '\n',
        encode_utf8(utf8_lossy(req)) == head + seq![13u8, 10u8, 13u8, 10u8] + body,
        forall|j: int|
            0 <= j < head.len() ==> #[trigger] encode_utf8(utf8_lossy(req)).subrange(j, j + 4) != seq![
                13u8,
                10u8,
                13u8,
                10u8,
            ],
        awaited(body.len(), n, pieces),
    ensures
        run(
            PhaseView::FirstRead,
            seq![Event::Bytes(req)] + rest_of_upload(body.len(), n, pieces),
        ) == (PhaseView::Deliver { id: session_id(path), body: body + concat(pieces) }),
{
    reveal_strlit("POST");
    assert(is_word("POST"@));
    let text = utf8_lossy(req);
    assert(text =~= Seq::<char>::empty() + "POST"@ + seq![' '] + path + rest);
    lemma_request_line(seq![], "POST"@, seq![' '], path, rest);
    lemma_length_found(above, name, left, 0, n as nat, right, below);
    assert(above + name + left + zeros(0) + digits(n as nat, 10) + right + below =~= text);
    lemma_body_length(n);
    lemma_blank_line(encode_utf8(utf8_lossy(req)), head, body);
    assert(encode_utf8(utf8_lossy(req)).skip(head.len() as int + 4) =~= body);
    lemma_upload_delivered(req, path, pieces);
}

} // verus!
