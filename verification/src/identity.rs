//! Players are known by a 64 bit id. Over TCP the id packs the peer's IPv4
//! address and port; two ids are reserved, for the host and for the bots.

use vstd::prelude::*;

verus! {

/// The id requests made on behalf of bots come from: the bytes
/// `[0, 0, 0, 0, 0, 1, 0, 0]` read big-endian.
pub const BOT_ADDR: u64 = 0x1_0000;

/// The id of the hosting player.
pub const HOST_ADDR: u64 = 0;

/// An IPv4 socket address: the address as its 32 bits, and the port.
#[derive(Debug, Clone, Copy, PartialEq, Eq, Hash, Structural)]
pub struct SocketAddr {
    pub ip: u32,
    pub port: u16,
}

/// The id of an address: the four address bytes, then the two port bytes,
/// then two zero bytes, read big-endian.
pub open spec fn raw_of(a: SocketAddr) -> u64 {
    (a.ip as int * 0x1_0000_0000 + a.port as int * 0x1_0000) as u64
}

/// The address an id packs, ignoring its two low bytes.
pub open spec fn addr_of(v: u64) -> SocketAddr {
    SocketAddr { ip: (v as int / 0x1_0000_0000) as u32, port: ((v as int / 0x1_0000) % 0x1_0000) as u16 }
}

/// Conversion between socket addresses and ids.
pub trait SocketAddrExt: Sized {
    fn raw(&self) -> u64;

    fn from_raw(input: u64) -> Self;
}

impl SocketAddrExt for SocketAddr {
    fn raw(&self) -> (r: u64)
        ensures
            r == raw_of(*self),
            r as int == self.ip as int * 0x1_0000_0000 + self.port as int * 0x1_0000,
    {
        (self.ip as u64) * 0x1_0000_0000 + (self.port as u64) * 0x1_0000
    }

    fn from_raw(input: u64) -> (r: SocketAddr)
        ensures
            r == addr_of(input),
    {
        SocketAddr { ip: (input / 0x1_0000_0000) as u32, port: ((input / 0x1_0000) % 0x1_0000) as u16 }
    }
}

/// Reading back the id of an address gives the address.
pub proof fn lemma_from_raw_of_raw(a: SocketAddr)
    ensures
        addr_of(raw_of(a)) == a,
{
    let v: int = a.ip as int * 0x1_0000_0000 + a.port as int * 0x1_0000;
    assert(raw_of(a) as int == v);
    vstd::arithmetic::div_mod::lemma_fundamental_div_mod_converse(v, 0x1_0000_0000, a.ip as int, a.port as int * 0x1_0000);
    let w: int = a.ip as int * 0x1_0000 + a.port as int;
    vstd::arithmetic::div_mod::lemma_fundamental_div_mod_converse(v, 0x1_0000, w, 0);
    vstd::arithmetic::div_mod::lemma_fundamental_div_mod_converse(w, 0x1_0000, a.ip as int, a.port as int);
}

/// The id of the address an id packs is the id with its two low bytes cleared.
pub proof fn lemma_raw_of_from_raw(v: u64)
    ensures
        raw_of(addr_of(v)) as int == v as int - v as int % 0x1_0000,
{
    let q: int = v as int / 0x1_0000;
    vstd::arithmetic::div_mod::lemma_fundamental_div_mod(v as int, 0x1_0000);
    vstd::arithmetic::div_mod::lemma_fundamental_div_mod(q, 0x1_0000);
    vstd::arithmetic::div_mod::lemma_div_denominator(v as int, 0x1_0000, 0x1_0000);
    vstd::arithmetic::div_mod::lemma_div_pos_is_pos(v as int, 0x1_0000);
    vstd::arithmetic::div_mod::lemma_div_pos_is_pos(q, 0x1_0000);
    vstd::arithmetic::div_mod::lemma_mod_bound(q, 0x1_0000);
    vstd::arithmetic::div_mod::lemma_mod_bound(v as int, 0x1_0000);
    assert(v as int / 0x1_0000_0000 < 0x1_0000_0000);
}

/// Recognizing the reserved ids.
pub trait IdentityExt {
    fn is_bot(&self) -> bool;

    fn is_host(&self) -> bool;
}

impl IdentityExt for u64 {
    fn is_bot(&self) -> (r: bool)
        ensures
            r == (*self == BOT_ADDR),
    {
        *self == BOT_ADDR
    }

    fn is_host(&self) -> (r: bool)
        ensures
            r == (*self == HOST_ADDR),
    {
        *self == HOST_ADDR
    }
}

} // verus!
