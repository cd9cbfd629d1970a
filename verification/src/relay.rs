//! Settings of the relay server that runs beside the overlay.

use vstd::prelude::*;
use vstd::string::*;

verus! {

/// The relay server's settings: where it listens for client connections.
#[derive(Debug)]
pub struct SheeldFastSocks5 {
    listener_addr: String,
}

impl SheeldFastSocks5 {
    /// The address, as text, on which the relay listens.
    pub closed spec fn addr(&self) -> Seq<char> {
        self.listener_addr@
    }

    /// The address on which a relay listens unless told otherwise.
    pub open spec fn default_addr() -> Seq<char> {
        "127.0.0.1:3001"@
    }

    /// The settings of `self` with the listening address replaced by
    /// `listener_addr`.
    pub fn new(self, listener_addr: String) -> (relay: Self)
        ensures
            relay.addr() == listener_addr@,
    {
        SheeldFastSocks5 { listener_addr: listener_addr }
    }

    /// The address on which the relay listens.
    pub fn listener_addr(&self) -> (addr: &str)
        ensures
            addr@ == self.addr(),
    {
        self.listener_addr.as_str()
    }
}

impl Default for SheeldFastSocks5 {
    /// A relay on the loopback interface, port 3001.
    fn default() -> (relay: Self)
        ensures
            relay.addr() == SheeldFastSocks5::default_addr(),
    {
        SheeldFastSocks5 { listener_addr: "127.0.0.1:3001".to_owned() }
    }
}

} // verus!
