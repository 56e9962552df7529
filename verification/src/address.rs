//! Socket addresses in text form.
use vstd::prelude::*;

use crate::number::{digits, push_digits};

verus! {

/// The address that accepts connections on a port of every interface.
pub open spec fn listen_text(port: u16) -> Seq<char> {
    "[::]:"@ + digits(port as nat, 10)
}

/// The address that accepts connections on a port of every interface.
pub fn listen_address(port: u16) -> (r: String)
    ensures
        r@ == listen_text(port),
{
    let mut s = String::new();
    s.append("[::]:");
    push_digits(&mut s, port as u64, 10);
    assert(s@ =~= listen_text(port));
    s
}

/// The address of a service on this machine.
pub open spec fn local_text(port: u16) -> Seq<char> {
    "127.0.0.1:"@ + digits(port as nat, 10)
}

/// The address of a service on this machine.
pub fn local_address(port: u16) -> (r: String)
    ensures
        r@ == local_text(port),
{
    let mut s = String::new();
    s.append("127.0.0.1:");
    push_digits(&mut s, port as u64, 10);
    assert(s@ =~= local_text(port));
    s
}

/// Both addresses end with the port in decimal, and what stands before it is the
/// same for every port.
pub proof fn lemma_addresses(port: u16)
    ensures
        listen_text(port) == seq!['[', ':', ':', ']', ':'] + digits(port as nat, 10),
        local_text(port) == "127.0.0.1"@ + seq![':'] + digits(port as nat, 10),
{
    reveal_strlit("[::]:");
    reveal_strlit("127.0.0.1:");
    reveal_strlit("127.0.0.1");
    assert("[::]:"@ =~= seq!['[', ':', ':', ']', ':']);
    assert("127.0.0.1:"@ =~= "127.0.0.1"@ + seq![':']);
}

} // verus!
