//! What a connection asks of the network, and what the network answers.
use vstd::prelude::*;

use crate::reply::concat;

verus! {

/// What is done about bytes that a write may leave buffered.
#[derive(Clone, Copy, Debug, PartialEq, Eq, Structural)]
pub enum Flush {
    /// Nothing.
    Skip,
    /// They are flushed; a failure to do so counts for nothing.
    Try,
    /// They are flushed; a failure to do so is a failure of the write.
    Must,
}

/// How a connection ends.
#[derive(Clone, Copy, Debug, PartialEq, Eq, Structural)]
pub enum Outcome {
    /// Without an error.
    Closed,
    /// With the error that the network reported last.
    Failed,
    /// With the error that the client sent no request line.
    InvalidHttp,
}

/// What a connection asks of the network next. `B` holds bytes and `T` text;
/// times are in seconds.
#[derive(Debug, PartialEq, Eq)]
pub enum Action<B, T> {
    /// Look at up to `limit` bytes from the client and leave them there.
    /// Here and below, `wait` says for how long; `None` is for ever.
    Peek { limit: usize, wait: Option<u64> },
    /// Take up to `limit` bytes from the client.
    Read { limit: usize, wait: Option<u64> },
    /// Send all of the bytes to the client.
    Write { bytes: B, flush: Flush },
    /// Carry out the server's part of a TLS handshake with the client.
    StartTls,
    /// Connect to the service on this machine that listens on `port`.
    Connect { port: u16 },
    /// Take up to `limit` bytes from the service.
    ReadServer { limit: usize, wait: Option<u64> },
    /// Send all of the bytes to the service.
    WriteServer { bytes: B },
    /// Copy bytes both ways until both directions have ended.
    Relay,
    /// Put the connection to the service into the table of sessions.
    OpenSession { id: T },
    /// Take the session out of the table.
    CloseSession { id: T },
    /// Hand the bytes to the session, if it is in the table.
    Deliver { id: T, body: B },
    /// Wait for the next bytes that the session's service sent.
    NextDownstream,
    /// Nothing: the connection is over.
    Finish { outcome: Outcome },
}

/// What became of an action.
#[derive(Debug, PartialEq, Eq)]
pub enum Event<B> {
    /// These bytes came; none at the end of the stream.
    Bytes(B),
    /// It was done.
    Done,
    /// There is nothing more to wait for.
    Closed,
    /// The time was up.
    TimedOut,
    /// It failed.
    Failed,
}

/// An action as the network carries it out.
pub type NetAction = Action<Vec<u8>, String>;

/// An event as the network reports it.
pub type NetEvent = Event<Vec<u8>>;

/// An action as contracts speak of it.
pub type ActionView = Action<Seq<u8>, Seq<char>>;

/// An event as contracts speak of it.
pub type EventView = Event<Seq<u8>>;

impl View for Action<Vec<u8>, String> {
    type V = Action<Seq<u8>, Seq<char>>;

    open spec fn view(&self) -> Action<Seq<u8>, Seq<char>> {
        match *self {
            Action::Peek { limit, wait } => Action::Peek { limit, wait },
            Action::Read { limit, wait } => Action::Read { limit, wait },
            Action::Write { bytes, flush } => Action::Write { bytes: bytes@, flush },
            Action::StartTls => Action::StartTls,
            Action::Connect { port } => Action::Connect { port },
            Action::ReadServer { limit, wait } => Action::ReadServer { limit, wait },
            Action::WriteServer { bytes } => Action::WriteServer { bytes: bytes@ },
            Action::Relay => Action::Relay,
            Action::OpenSession { id } => Action::OpenSession { id: id@ },
            Action::CloseSession { id } => Action::CloseSession { id: id@ },
            Action::Deliver { id, body } => Action::Deliver { id: id@, body: body@ },
            Action::NextDownstream => Action::NextDownstream,
            Action::Finish { outcome } => Action::Finish { outcome },
        }
    }
}

impl View for Event<Vec<u8>> {
    type V = Event<Seq<u8>>;

    open spec fn view(&self) -> Event<Seq<u8>> {
        match *self {
            Event::Bytes(b) => Event::Bytes(b@),
            Event::Done => Event::Done,
            Event::Closed => Event::Closed,
            Event::TimedOut => Event::TimedOut,
            Event::Failed => Event::Failed,
        }
    }
}

/// Two byte strings, one after the other.
pub fn appended(a: Vec<u8>, b: Vec<u8>) -> (r: Vec<u8>)
    ensures
        r@ == a@ + b@,
{
    let mut a = a;
    let mut b = b;
    a.append(&mut b);
    a
}

/// Pieces that come one after the other, as events.
pub open spec fn arrivals(pieces: Seq<Seq<u8>>) -> Seq<EventView> {
    pieces.map_values(|p: Seq<u8>| Event::Bytes(p))
}

/// Pieces that come one after the other, each written before the next.
pub open spec fn delivery(pieces: Seq<Seq<u8>>) -> Seq<EventView>
    decreases pieces.len(),
{
    if pieces.len() == 0 {
        seq![]
    } else {
        delivery(pieces.drop_last()).push(Event::Bytes(pieces.last())).push(Event::Done)
    }
}

/// The events that bring the rest of an upload of which `have` bytes have come
/// with its headers: its pieces and, if they stop before `length` bytes have
/// come, the end of the stream.
pub open spec fn rest_of_upload(have: nat, length: usize, pieces: Seq<Seq<u8>>) -> Seq<EventView> {
    if have + concat(pieces).len() < length {
        arrivals(pieces).push(Event::Bytes(seq![]))
    } else {
        arrivals(pieces)
    }
}

/// Pieces that can come of an upload of which `have` bytes have come with its
/// headers: none is empty, and none comes after `length` bytes have come.
pub open spec fn awaited(have: nat, length: usize, pieces: Seq<Seq<u8>>) -> bool {
    &&& forall|i: int| 0 <= i < pieces.len() ==> (#[trigger] pieces[i]).len() > 0
    &&& pieces.len() > 0 ==> have + concat(pieces.drop_last()).len() < length
}

/// Actions and events as contracts speak of them hold what they hold.
pub proof fn lemma_views(
    limit: usize,
    wait: Option<u64>,
    bytes: Vec<u8>,
    flush: Flush,
    port: u16,
    id: String,
    outcome: Outcome,
)
    ensures
        (NetAction::Peek { limit, wait })@ == (ActionView::Peek { limit, wait }),
        (NetAction::Read { limit, wait })@ == (ActionView::Read { limit, wait }),
        (NetAction::Write { bytes, flush })@ == (ActionView::Write {
            bytes: bytes@,
            flush,
        }),
        (NetAction::StartTls)@ == ActionView::StartTls,
        (NetAction::Connect { port })@ == (ActionView::Connect { port }),
        (NetAction::ReadServer { limit, wait })@ == (ActionView::ReadServer {
            limit,
            wait,
        }),
        (NetAction::WriteServer { bytes })@ == (ActionView::WriteServer {
            bytes: bytes@,
        }),
        (NetAction::Relay)@ == ActionView::Relay,
        (NetAction::OpenSession { id })@ == (ActionView::OpenSession { id: id@ }),
        (NetAction::CloseSession { id })@ == (ActionView::CloseSession { id: id@ }),
        (NetAction::Deliver { id, body: bytes })@ == (ActionView::Deliver {
            id: id@,
            body: bytes@,
        }),
        (NetAction::NextDownstream)@ == ActionView::NextDownstream,
        (NetAction::Finish { outcome })@ == (ActionView::Finish { outcome }),
        (NetEvent::Bytes(bytes))@ == EventView::Bytes(bytes@),
        (NetEvent::Done)@ == EventView::Done,
        (NetEvent::Closed)@ == EventView::Closed,
        (NetEvent::TimedOut)@ == EventView::TimedOut,
        (NetEvent::Failed)@ == EventView::Failed,
{
}

} // verus!
