//! The sessions that are open, by their identifiers.
use vstd::hash_map::StringHashMap;
use vstd::prelude::*;

use crate::wire::{Action, ActionView, Event, EventView};

verus! {

/// The open sessions. A session is whatever the network side keeps for it.
#[verifier::reject_recursive_types(H)]
pub struct SessionTable<H> {
    sessions: StringHashMap<H>,
}

impl<H> View for SessionTable<H> {
    type V = Map<Seq<char>, H>;

    closed spec fn view(&self) -> Map<Seq<char>, H> {
        self.sessions@
    }
}

impl<H> SessionTable<H> {
    /// A table without sessions.
    pub fn new() -> (r: Self)
        ensures
            r@ == Map::<Seq<char>, H>::empty(),
    {
        SessionTable { sessions: StringHashMap::new() }
    }

    /// Opens a session under `id`, in place of one that had it.
    pub fn insert(&mut self, id: String, session: H)
        ensures
            final(self)@ == old(self)@.insert(id@, session),
    {
        self.sessions.insert(id, session);
    }

    /// The session open under `id`.
    pub fn get(&self, id: &str) -> (r: Option<&H>)
        ensures
            match r {
                Some(session) => self@.contains_key(id@) && *session == self@[id@],
                None => !self@.contains_key(id@),
            },
    {
        self.sessions.get(id)
    }

    /// Closes the session under `id`, if there is one.
    pub fn remove(&mut self, id: &str)
        ensures
            final(self)@ == old(self)@.remove(id@),
    {
        self.sessions.remove(id);
    }
}

/// The table after an action of a connection, `session` being what it keeps
/// for its own: opening and closing, once done, put the session in and take
/// it out, and nothing else touches the table.
pub open spec fn after_action<H>(
    table: Map<Seq<char>, H>,
    session: H,
    action: ActionView,
    event: EventView,
) -> Map<Seq<char>, H> {
    match (action, event) {
        (Action::OpenSession { id }, Event::Done) => table.insert(id, session),
        (Action::CloseSession { id }, Event::Done) => table.remove(id),
        _ => table,
    }
}

/// A session is found under its identifier once it was opened, until another
/// is opened under the same one or it is closed; what happens under one
/// identifier leaves the others as they are.
pub proof fn lemma_sessions_apart<H>(
    table: Map<Seq<char>, H>,
    id: Seq<char>,
    other: Seq<char>,
    first: H,
    second: H,
)
    ensures
        table.insert(id, first).contains_key(id) && table.insert(id, first)[id] == first,
        table.insert(id, first).insert(id, second)[id] == second,
        !table.remove(id).contains_key(id),
        id != other ==> {
            &&& table.insert(id, first).contains_key(other) == table.contains_key(other)
            &&& table.remove(id).contains_key(other) == table.contains_key(other)
            &&& table.contains_key(other) ==> table.insert(id, first)[other] == table[other]
            &&& table.contains_key(other) ==> table.remove(id)[other] == table[other]
        },
{
}

} // verus!
