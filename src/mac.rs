//! Hardware (MAC) addresses: classification and their 48-bit key.
use vstd::prelude::*;

verus! {

/// Length of a hardware address in bytes.
pub const ETH_ALEN: usize = 6;

/// A hardware address as it stands in a link header.
pub type MacAddr = [u8; 6];

/// The 48-bit value of an address, most significant byte first; the
/// forwarding database is keyed by it, so its order is the bytes' order.
pub open spec fn mac_value(a: Seq<u8>) -> int {
    ((((a[0] as int * 256 + a[1] as int) * 256 + a[2] as int) * 256 + a[3] as int) * 256
        + a[4] as int) * 256 + a[5] as int
}

/// The forwarding-database key of an address.
pub open spec fn mac_key(a: Seq<u8>) -> u64 {
    mac_value(a) as u64
}

/// All six bytes are 0xFF.
pub open spec fn is_broadcast_addr(a: Seq<u8>) -> bool {
    &&& a[0] == 0xff
    &&& a[1] == 0xff
    &&& a[2] == 0xff
    &&& a[3] == 0xff
    &&& a[4] == 0xff
    &&& a[5] == 0xff
}

/// The group bit (low-order bit of the first byte) is set, and the address
/// is not the broadcast address.
pub open spec fn is_multicast_addr(a: Seq<u8>) -> bool {
    a[0] % 2 == 1 && !is_broadcast_addr(a)
}

/// The forwarding-database key of an address.
pub fn ether_addr_to_u64(addr: &MacAddr) -> (r: u64)
    ensures
        r == mac_value(addr@),
        r == mac_key(addr@),
        r < 0x1_0000_0000_0000u64,
{
    let a0 = addr[0] as u64;
    let a1 = addr[1] as u64;
    let a2 = addr[2] as u64;
    let a3 = addr[3] as u64;
    let a4 = addr[4] as u64;
    let a5 = addr[5] as u64;
    assert(a0 * 256 + a1 < 0x1_0000) by (nonlinear_arith)
        requires a0 < 256, a1 < 256;
    let v1 = a0 * 256 + a1;
    assert(v1 * 256 + a2 < 0x100_0000) by (nonlinear_arith)
        requires v1 < 0x1_0000, a2 < 256;
    let v2 = v1 * 256 + a2;
    assert(v2 * 256 + a3 < 0x1_0000_0000) by (nonlinear_arith)
        requires v2 < 0x100_0000, a3 < 256;
    let v3 = v2 * 256 + a3;
    assert(v3 * 256 + a4 < 0x100_0000_0000) by (nonlinear_arith)
        requires v3 < 0x1_0000_0000, a4 < 256;
    let v4 = v3 * 256 + a4;
    assert(v4 * 256 + a5 < 0x1_0000_0000_0000) by (nonlinear_arith)
        requires v4 < 0x100_0000_0000, a5 < 256;
    v4 * 256 + a5
}

/// True exactly for the broadcast address FF:FF:FF:FF:FF:FF.
pub fn is_ether_broadcast(addr: &MacAddr) -> (r: bool)
    ensures
        r == is_broadcast_addr(addr@),
{
    addr[0] == 0xff && addr[1] == 0xff && addr[2] == 0xff && addr[3] == 0xff && addr[4] == 0xff
        && addr[5] == 0xff
}

/// True exactly for a group address other than broadcast.
pub fn is_ether_multicast(addr: &MacAddr) -> (r: bool)
    ensures
        r == is_multicast_addr(addr@),
{
    let b = addr[0];
    assert((b & 1u8 == 1u8) == (b % 2 == 1)) by (bit_vector);
    b & 1 == 1 && !is_ether_broadcast(addr)
}

} // verus!
