//! Application messages carried as gossip payloads.

use vstd::prelude::*;

verus! {

/// What a message is for.
#[derive(Clone, Copy, Debug, PartialEq, Eq, Structural)]
pub enum MessageType {
    /// Liveness announcement.
    PING,
}

/// An application message: its type and the data it carries.
#[derive(Debug, PartialEq, Eq)]
pub struct Message<T> {
    pub message_type: MessageType,
    pub data: T,
}

impl<T> Message<T> {
    /// A liveness announcement carrying `data`.
    pub fn ping(data: T) -> (m: Self)
        ensures
            m.message_type == MessageType::PING,
            m.data == data,
    {
        Message { message_type: MessageType::PING, data }
    }

    /// The carried data, giving up the message.
    pub fn into_data(self) -> (data: T)
        ensures
            data == self.data,
    {
        self.data
    }
}

} // verus!
