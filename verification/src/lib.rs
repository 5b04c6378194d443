//! A layer-4 (TCP) load-balancing core: a discovery-response decoder, a
//! weighted balancer with a bounded connect-waiter queue, and a full-duplex
//! forwarding state machine. All logic here is verified; sockets, timers and
//! HTTP live outside the library and feed it plain values.

use vstd::prelude::*;

pub mod endpoint;
pub mod select;
pub mod waiter;
pub mod balancer;
pub mod forward;
pub mod namerd;
pub mod config;
pub mod sni;
pub mod supervisor;

verus! {

/// An IPv4 socket address, held as plain values so contracts can speak of
/// it. The library's address model is deliberately IPv4-only: discovery
/// answers carry dotted-quad addresses, and any other address form fails the
/// response that carries it.
#[derive(Clone, Copy, PartialEq, Eq, Structural, Debug)]
pub struct Addr {
    pub ip: u32,
    pub port: u16,
}

impl Addr {
    pub fn new(ip: u32, port: u16) -> (r: Addr)
        ensures
            r.ip == ip,
            r.port == port,
    {
        Addr { ip, port }
    }

    /// The address written from its dotted-quad octets.
    pub fn from_octets(a: u8, b: u8, c: u8, d: u8, port: u16) -> (r: Addr)
        ensures
            r.ip == a * 0x1000000 + b * 0x10000 + c * 0x100 + d,
            r.port == port,
    {
        let ip: u32 = (a as u32) * 0x1000000 + (b as u32) * 0x10000 + (c as u32) * 0x100
            + (d as u32);
        Addr { ip, port }
    }
}

/// An upstream endpoint with its weight in thousandths (weight 1.0 is 1000).
#[derive(Clone, Copy, PartialEq, Eq, Structural, Debug)]
pub struct WeightedAddr {
    pub addr: Addr,
    pub weight: u32,
}

} // verus!
