//! Big-endian views of the multi-byte integer fields of the wire format.
//!
//! Every multi-byte number in a DNS message is stored in network byte order
//! (big-endian).  The spec functions here say what a pair (or quadruple) of
//! bytes means as a number and how a number is taken apart into bytes; the
//! executable helpers read and write those fields.

use vstd::prelude::*;

verus! {

/// The value of two bytes read as a big-endian 16-bit integer.
pub open spec fn be16(hi: u8, lo: u8) -> u16 {
    (hi as u16) << 8 | (lo as u16)
}

/// The value of four bytes read as a big-endian 32-bit integer.
pub open spec fn be32(b0: u8, b1: u8, b2: u8, b3: u8) -> u32 {
    (b0 as u32) << 24 | (b1 as u32) << 16 | (b2 as u32) << 8 | (b3 as u32)
}

/// The high byte of a 16-bit value.
pub open spec fn hi16(v: u16) -> u8 {
    (v >> 8) as u8
}

/// The low byte of a 16-bit value.
pub open spec fn lo16(v: u16) -> u8 {
    (v & 0xFF) as u8
}

/// The four big-endian bytes of a 32-bit value, most significant first.
pub open spec fn be32_byte(v: u32, i: int) -> u8 {
    if i == 0 {
        (v >> 24) as u8
    } else if i == 1 {
        (v >> 16 & 0xFF) as u8
    } else if i == 2 {
        (v >> 8 & 0xFF) as u8
    } else {
        (v & 0xFF) as u8
    }
}

/// Splitting a 16-bit value into bytes and reading them back is the identity.
pub proof fn lemma_be16_split(v: u16)
    ensures
        be16(hi16(v), lo16(v)) == v,
{
    assert(((v >> 8) as u8 as u16) << 8 | ((v & 0xFF) as u8 as u16) == v) by (bit_vector);
}

/// Splitting a 32-bit value into bytes and reading them back is the identity.
pub proof fn lemma_be32_split(v: u32)
    ensures
        be32(be32_byte(v, 0), be32_byte(v, 1), be32_byte(v, 2), be32_byte(v, 3)) == v,
{
    assert(((v >> 24) as u8 as u32) << 24 | ((v >> 16 & 0xFF) as u8 as u32) << 16 | ((v >> 8
        & 0xFF) as u8 as u32) << 8 | ((v & 0xFF) as u8 as u32) == v) by (bit_vector);
}

/// Reads the big-endian 16-bit field stored at `pos`.
pub fn read_u16(packet: &Vec<u8>, pos: usize) -> (r: u16)
    requires
        pos + 1 < packet@.len(),
    ensures
        r == be16(packet@[pos as int], packet@[pos + 1]),
{
    // the call bounds the vector's length, so the index arithmetic cannot overflow
    let _n = packet.len();
    (packet[pos] as u16) << 8 | (packet[pos + 1] as u16)
}

/// Reads the big-endian 32-bit field stored at `pos`.
pub fn read_u32(packet: &Vec<u8>, pos: usize) -> (r: u32)
    requires
        pos + 3 < packet@.len(),
    ensures
        r == be32(
            packet@[pos as int],
            packet@[pos + 1],
            packet@[pos + 2],
            packet@[pos + 3],
        ),
{
    // the call bounds the vector's length, so the index arithmetic cannot overflow
    let _n = packet.len();
    (packet[pos] as u32) << 24 | (packet[pos + 1] as u32) << 16 | (packet[pos + 2] as u32) << 8 | (
    packet[pos + 3] as u32)
}

/// Appends a 16-bit value in big-endian order.
pub fn push_u16(out: &mut Vec<u8>, v: u16)
    ensures
        final(out)@ == old(out)@ + seq![hi16(v), lo16(v)],
{
    proof {
        assert(v >> 8 < 256 && (v & 0xFF) < 256) by (bit_vector);
    }
    out.push((v >> 8) as u8);
    out.push((v & 0xFF) as u8);
    assert(out@ =~= old(out)@ + seq![hi16(v), lo16(v)]);
}

/// Appends a 32-bit value in big-endian order.
pub fn push_u32(out: &mut Vec<u8>, v: u32)
    ensures
        final(out)@ == old(out)@ + seq![
            be32_byte(v, 0),
            be32_byte(v, 1),
            be32_byte(v, 2),
            be32_byte(v, 3),
        ],
{
    proof {
        assert(v >> 24 < 256 && (v >> 16 & 0xFF) < 256 && (v >> 8 & 0xFF) < 256 && (v & 0xFF)
            < 256) by (bit_vector);
    }
    out.push((v >> 24) as u8);
    out.push((v >> 16 & 0xFF) as u8);
    out.push((v >> 8 & 0xFF) as u8);
    out.push((v & 0xFF) as u8);
    assert(out@ =~= old(out)@ + seq![
        be32_byte(v, 0),
        be32_byte(v, 1),
        be32_byte(v, 2),
        be32_byte(v, 3),
    ]);
}

} // verus!
