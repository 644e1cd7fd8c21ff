use vstd::prelude::*;

verus! {

/// A client's UDP address as plain values: address family, IP address (an IPv4
/// address in the low 32 bits) and port.
#[derive(Debug, Clone, Copy, PartialEq, Eq, Hash, Structural)]
pub struct ClientAddr {
    pub v6: bool,
    pub ip: u128,
    pub port: u16,
}

impl ClientAddr {
    pub fn new(v6: bool, ip: u128, port: u16) -> (r: Self)
        ensures
            r == (ClientAddr { v6, ip, port }),
    {
        ClientAddr { v6, ip, port }
    }
}

} // verus!
