//! The table that maps each command to the handler of its frames.

use std::collections::HashMap;
use vstd::prelude::*;
use crate::chat_protocol::ChatCommand;

verus! {

broadcast use vstd::std_specs::hash::group_hash_axioms;

/// Something that handles the payload of a frame and may answer with a
/// payload.  Users of the library implement it; what an implementation
/// answers is its own affair.
pub trait HandleProtocolData {
    /// Handles a payload; returns the answer to send back, if any.
    fn handle(&self, a: &Vec<u8>) -> Option<Vec<u8>>;
}

/// Takes in login requests on the client side; it answers nothing.
pub struct LoginReqHandler {}

impl HandleProtocolData for LoginReqHandler {
    fn handle(&self, a: &Vec<u8>) -> (r: Option<Vec<u8>>)
        ensures
            r is None,
    {
        None
    }
}

/// The handlers of frames, by command byte.
pub struct HandleProtocolFactory<H> {
    pub all_handler: HashMap<u8, H>,
}

impl<H> View for HandleProtocolFactory<H> {
    type V = Map<u8, H>;

    open spec fn view(&self) -> Map<u8, H> {
        self.all_handler@
    }
}

impl<H> HandleProtocolFactory<H> {
    /// A table with no handler.
    pub fn new() -> (r: Self)
        ensures
            r@ == Map::<u8, H>::empty(),
    {
        HandleProtocolFactory { all_handler: HashMap::new() }
    }

    /// The handler of a command; the command must have one.
    pub fn get_handler(&self, a: &ChatCommand) -> (r: &H)
        requires
            self@.contains_key(a.code()),
        ensures
            *r == self@[a.code()],
    {
        let code = a.to_code();
        let found = self.all_handler.get(&code);
        found.unwrap()
    }

    /// Makes `b` the handler of command `a`, in place of any earlier one.
    pub fn registry_handler(&mut self, a: ChatCommand, b: H)
        ensures
            final(self)@ == old(self)@.insert(a.code(), b),
    {
        let code = a.to_code();
        self.all_handler.insert(code, b);
    }
}

/// Law: a handler registered for a command is the one found for it, and
/// registering it leaves the handlers of the other commands as they were.
pub proof fn registered_handler_is_found<H>(
    before: Map<u8, H>,
    a: ChatCommand,
    b: H,
    other: ChatCommand,
)
    ensures
        before.insert(a.code(), b).contains_key(a.code()),
        before.insert(a.code(), b)[a.code()] == b,
        other != a ==> before.insert(a.code(), b).contains_key(other.code()) == before.contains_key(
            other.code(),
        ),
        other != a && before.contains_key(other.code()) ==> before.insert(a.code(), b)[other.code()]
            == before[other.code()],
{
}

} // verus!
