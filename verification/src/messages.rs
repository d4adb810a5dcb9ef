//! The stored messages, keyed by identifier.
//!
//! A message that is stored stays as it is: storing another message under the
//! same identifier changes nothing. Storing a page twice, or two pages that
//! share messages, is therefore harmless.

use crate::api::ChannelMessage;
use std::collections::HashMap;
use vstd::prelude::*;

verus! {

broadcast use vstd::std_specs::hash::group_hash_axioms;

/// The stored messages after `message` has been offered: it is taken where its
/// identifier was not stored, and dropped where it was.
pub open spec fn spec_insert_if_absent<P>(
    m: Map<u64, ChannelMessage<P>>,
    message: ChannelMessage<P>,
) -> Map<u64, ChannelMessage<P>> {
    if m.contains_key(message.id) {
        m
    } else {
        m.insert(message.id, message)
    }
}

/// Every message is stored under its own identifier.
pub open spec fn keyed_by_id<P>(m: Map<u64, ChannelMessage<P>>) -> bool {
    forall|id: u64| #[trigger] m.contains_key(id) ==> m[id].id == id
}

/// The messages of all channels.
///
/// A store that is filled through `insert_if_absent` alone holds every message
/// under its own identifier.
pub struct MessageStore<P> {
    rows: HashMap<u64, ChannelMessage<P>>,
}

impl<P> View for MessageStore<P> {
    type V = Map<u64, ChannelMessage<P>>;

    closed spec fn view(&self) -> Map<u64, ChannelMessage<P>> {
        self.rows@
    }
}

impl<P> MessageStore<P> {
    /// A store without messages.
    pub fn new() -> (store: MessageStore<P>)
        ensures
            store@ == Map::<u64, ChannelMessage<P>>::empty(),
    {
        MessageStore { rows: HashMap::new() }
    }

    /// A store holds finitely many messages.
    pub proof fn lemma_finite(&self)
        ensures
            self@.dom().finite(),
    {
    }

    /// The number of stored messages.
    pub fn len(&self) -> (n: usize)
        ensures
            n == self@.len(),
            self@.dom().finite(),
    {
        self.rows.len()
    }

    /// Whether a message with the identifier `id` is stored.
    pub fn contains(&self, id: u64) -> (found: bool)
        ensures
            found == self@.contains_key(id),
    {
        self.rows.contains_key(&id)
    }

    /// The stored message with the identifier `id`.
    pub fn get(&self, id: u64) -> (found: Option<&ChannelMessage<P>>)
        ensures
            match found {
                Some(message) => self@.contains_key(id) && *message == self@[id],
                None => !self@.contains_key(id),
            },
    {
        self.rows.get(&id)
    }

    /// Stores `message` unless a message with its identifier is stored
    /// already, and tells whether it was stored.
    pub fn insert_if_absent(&mut self, message: ChannelMessage<P>) -> (inserted: bool)
        ensures
            inserted == !old(self)@.contains_key(message.id),
            final(self)@ == spec_insert_if_absent(old(self)@, message),
            keyed_by_id(old(self)@) ==> keyed_by_id(final(self)@),
    {
        if self.rows.contains_key(&message.id) {
            false
        } else {
            let id: u64 = message.id;
            self.rows.insert(id, message);
            true
        }
    }
}

} // verus!
