//! Tunnels: what opens one, and when a copy is over.

use vstd::prelude::*;

verus! {

/// The bytes that open a tunnel: the port, most significant byte first.
pub open spec fn header_of(port: u16) -> Seq<u8> {
    seq![(port / 256) as u8, (port % 256) as u8]
}

/// The port that the opening bytes of a tunnel ask for.
pub open spec fn port_in(header: Seq<u8>) -> u16 {
    (header[0] * 256 + header[1]) as u16
}

/// The bytes to send first on a new tunnel.
pub fn open_header(port: u16) -> (r: [u8; 2])
    ensures
        r@ == header_of(port),
{
    let r: [u8; 2] = [(port / 256) as u8, (port % 256) as u8];
    assert(r@ =~= header_of(port));
    r
}

/// The port that the opening bytes of a tunnel ask for.
pub fn requested_port(header: [u8; 2]) -> (port: u16)
    ensures
        port == port_in(header@),
{
    header[0] as u16 * 256 + header[1] as u16
}

/// What a copy does after a read.
#[derive(Copy, Clone, PartialEq, Eq, Debug)]
pub enum CopyStep {
    /// Write what was read, and nothing more: no flush, which on some streams
    /// waits for the other side
    Write,
    /// The reader is at its end
    Finish { total: u64 },
}

/// What to do when `n` bytes were read, and how many were copied so far. A
/// `total` that would not fit starts over.
pub fn copy_step(total: u64, n: usize) -> (r: (CopyStep, u64))
    ensures
        n == 0 ==> r == (CopyStep::Finish { total }, total),
        n > 0 ==> r.0 == CopyStep::Write && r.1 == total.wrapping_add(n as u64),
{
    if n == 0 {
        (CopyStep::Finish { total }, total)
    } else {
        (CopyStep::Write, total.wrapping_add(n as u64))
    }
}

/// A tunnel is opened for the port that was asked for.
pub proof fn law_header_round_trip(port: u16)
    ensures
        port_in(header_of(port)) == port,
        header_of(port).len() == 2,
{
}

/// The port is sent as two bytes, the most significant first.
pub proof fn law_header_is_big_endian(port: u16, header: Seq<u8>)
    requires
        header.len() == 2,
    ensures
        header_of(port)[0] == port / 256 && header_of(port)[1] == port % 256,
        port_in(header) == header[0] * 256 + header[1],
{
}

}
