use vstd::prelude::*;

verus! {

/// A metered traffic source: an identifier and the number of messages
/// delivered on its behalf so far.
#[derive(Debug, Clone)]
pub struct Hub {
    id: String,
    message_count: u64,
}

impl View for Hub {
    type V = HubView;

    closed spec fn view(&self) -> HubView {
        HubView { id: self.id@, message_count: self.message_count as nat }
    }
}

/// The mathematical model of a [`Hub`].
pub struct HubView {
    pub id: Seq<char>,
    pub message_count: nat,
}

impl Hub {
    /// A fresh hub with the given identifier and no messages delivered.
    pub fn new(id: String) -> (r: Hub)
        ensures
            r@.id == id@,
            r@.message_count == 0,
    {
        Hub { id, message_count: 0 }
    }

    /// The hub's identifier.
    pub fn id(&self) -> (r: String)
        ensures
            r@ == self@.id,
    {
        self.id.clone()
    }

    /// The number of messages delivered so far.
    pub fn message_count(&self) -> (r: u64)
        ensures
            r as nat == self@.message_count,
    {
        self.message_count
    }

    /// Records one more delivered message.
    pub fn inc_message_count(&mut self)
        requires
            old(self)@.message_count < u64::MAX,
        ensures
            final(self)@.id == old(self)@.id,
            final(self)@.message_count == old(self)@.message_count + 1,
    {
        self.message_count = self.message_count + 1;
    }
}

impl PartialEq for Hub {
    fn eq(&self, other: &Hub) -> (r: bool)
        ensures
            r == (self@ == other@),
    {
        self.message_count == other.message_count && self.id == other.id
    }
}

impl vstd::std_specs::cmp::PartialEqSpecImpl for Hub {
    open spec fn obeys_eq_spec() -> bool {
        true
    }

    open spec fn eq_spec(&self, other: &Hub) -> bool {
        self@ == other@
    }
}

impl Eq for Hub {
}

} // verus!
