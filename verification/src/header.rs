//! The fixed 12-byte message header.
//!
//! Byte 2 packs, from the high bit down: QR, the 4-bit opcode, AA, TC and RD.
//! Byte 3 packs RA, the 3-bit reserved field and the 4-bit response code.
//! The remaining ten bytes are five big-endian 16-bit fields: the transaction
//! id and the four section counts.

use vstd::prelude::*;

use crate::bytes::{be16, hi16, lo16, lemma_be16_split, read_u16, push_u16};

verus! {

/// The decoded 12-byte header.
#[derive(Debug, Default, Clone, Copy, PartialEq, Eq, Structural)]
pub struct DnsHeader {
    /// Transaction id correlating a query with its response.
    pub id: u16,
    /// Query/response flag: false for a query, true for a response.
    pub qr: bool,
    /// Operation code, 4 bits.
    pub opcode: u8,
    /// Authoritative answer.
    pub aa: bool,
    /// Truncation.
    pub tc: bool,
    /// Recursion desired.
    pub rd: bool,
    /// Recursion available.
    pub ra: bool,
    /// Reserved field, 3 bits.
    pub z: u8,
    /// Response code, 4 bits.
    pub rcode: u8,
    /// Question count.
    pub qdcount: u16,
    /// Answer record count.
    pub ancount: u16,
    /// Authority record count.
    pub nscount: u16,
    /// Additional record count.
    pub arcount: u16,
}

/// 1 for a set flag, 0 for a clear one.
pub open spec fn bit_of(b: bool) -> u8 {
    if b {
        1
    } else {
        0
    }
}

/// The flag byte holding QR, opcode, AA, TC and RD.
pub open spec fn flags_hi(h: DnsHeader) -> u8 {
    bit_of(h.qr) << 7 | (h.opcode & 0x0F) << 3 | bit_of(h.aa) << 2 | bit_of(h.tc) << 1 | bit_of(
        h.rd,
    )
}

/// The flag byte holding RA, the reserved field and the response code.
pub open spec fn flags_lo(h: DnsHeader) -> u8 {
    bit_of(h.ra) << 7 | (h.z & 0x07) << 4 | (h.rcode & 0x0F)
}

/// The header stored in the first 12 bytes of a message.
pub open spec fn spec_header_of(b: Seq<u8>) -> DnsHeader {
    DnsHeader {
        id: be16(b[0], b[1]),
        qr: b[2] & 0x80 != 0,
        opcode: (b[2] & 0x78) >> 3,
        aa: b[2] & 0x04 != 0,
        tc: b[2] & 0x02 != 0,
        rd: b[2] & 0x01 != 0,
        ra: b[3] & 0x80 != 0,
        z: (b[3] & 0x70) >> 4,
        rcode: b[3] & 0x0F,
        qdcount: be16(b[4], b[5]),
        ancount: be16(b[6], b[7]),
        nscount: be16(b[8], b[9]),
        arcount: be16(b[10], b[11]),
    }
}

/// The 12 bytes a header encodes to.
pub open spec fn spec_encode_header(h: DnsHeader) -> Seq<u8> {
    seq![
        hi16(h.id),
        lo16(h.id),
        flags_hi(h),
        flags_lo(h),
        hi16(h.qdcount),
        lo16(h.qdcount),
        hi16(h.ancount),
        lo16(h.ancount),
        hi16(h.nscount),
        lo16(h.nscount),
        hi16(h.arcount),
        lo16(h.arcount),
    ]
}

impl DnsHeader {
    /// The bit-field values fit their wire widths.
    pub open spec fn wf(self) -> bool {
        self.opcode <= 15 && self.z <= 7 && self.rcode <= 15
    }

    /// An all-zero header.
    pub fn new() -> (r: DnsHeader)
        ensures
            r == (DnsHeader {
                id: 0,
                qr: false,
                opcode: 0,
                aa: false,
                tc: false,
                rd: false,
                ra: false,
                z: 0,
                rcode: 0,
                qdcount: 0,
                ancount: 0,
                nscount: 0,
                arcount: 0,
            }),
    {
        DnsHeader {
            id: 0,
            qr: false,
            opcode: 0,
            aa: false,
            tc: false,
            rd: false,
            ra: false,
            z: 0,
            rcode: 0,
            qdcount: 0,
            ancount: 0,
            nscount: 0,
            arcount: 0,
        }
    }

    /// Decodes the header stored in the first 12 bytes of `packet`.
    ///
    /// A buffer shorter than a header is a fatal decode error for the
    /// message, reported as `None` rather than a crash.
    pub fn parse(packet: &Vec<u8>) -> (r: Option<DnsHeader>)
        ensures
            r is Some <==> packet@.len() >= 12,
            r matches Some(h) ==> h == spec_header_of(packet@),
    {
        if packet.len() < 12 {
            return None;
        }
        Some(
            DnsHeader {
                id: read_u16(packet, 0),
                qr: packet[2] & 0x80 != 0,
                opcode: (packet[2] & 0x78) >> 3,
                aa: packet[2] & 0x04 != 0,
                tc: packet[2] & 0x02 != 0,
                rd: packet[2] & 0x01 != 0,
                ra: packet[3] & 0x80 != 0,
                z: (packet[3] & 0x70) >> 4,
                rcode: packet[3] & 0x0F,
                qdcount: read_u16(packet, 4),
                ancount: read_u16(packet, 6),
                nscount: read_u16(packet, 8),
                arcount: read_u16(packet, 10),
            },
        )
    }

    /// Encodes the header to its 12 wire bytes.
    pub fn to_bytes(&self) -> (r: Vec<u8>)
        ensures
            r@ == spec_encode_header(*self),
            r@.len() == 12,
    {
        let mut out: Vec<u8> = Vec::new();
        push_u16(&mut out, self.id);
        let qr_bit: u8 = if self.qr {
            1
        } else {
            0
        };
        let aa_bit: u8 = if self.aa {
            1
        } else {
            0
        };
        let tc_bit: u8 = if self.tc {
            1
        } else {
            0
        };
        let rd_bit: u8 = if self.rd {
            1
        } else {
            0
        };
        let ra_bit: u8 = if self.ra {
            1
        } else {
            0
        };
        out.push(qr_bit << 7 | (self.opcode & 0x0F) << 3 | aa_bit << 2 | tc_bit << 1 | rd_bit);
        out.push(ra_bit << 7 | (self.z & 0x07) << 4 | (self.rcode & 0x0F));
        push_u16(&mut out, self.qdcount);
        push_u16(&mut out, self.ancount);
        push_u16(&mut out, self.nscount);
        push_u16(&mut out, self.arcount);
        assert(out@ =~= spec_encode_header(*self));
        out
    }
}

/// Round trip for the header: decoding the encoding of a well-formed header
/// gives the header back, field for field.
pub proof fn lemma_header_round_trip(h: DnsHeader)
    requires
        h.wf(),
    ensures
        spec_header_of(spec_encode_header(h)) == h,
{
    let b = spec_encode_header(h);
    lemma_be16_split(h.id);
    lemma_be16_split(h.qdcount);
    lemma_be16_split(h.ancount);
    lemma_be16_split(h.nscount);
    lemma_be16_split(h.arcount);
    let qr = bit_of(h.qr);
    let aa = bit_of(h.aa);
    let tc = bit_of(h.tc);
    let rd = bit_of(h.rd);
    let ra = bit_of(h.ra);
    let op = h.opcode;
    let z = h.z;
    let rc = h.rcode;
    let fh = flags_hi(h);
    let fl = flags_lo(h);
    assert((fh & 0x80 != 0) == (qr == 1) && (fh & 0x78) >> 3 == op && (fh & 0x04 != 0) == (aa == 1)
        && (fh & 0x02 != 0) == (tc == 1) && (fh & 0x01 != 0) == (rd == 1)) by (bit_vector)
        requires
            fh == qr << 7 | (op & 0x0F) << 3 | aa << 2 | tc << 1 | rd,
            qr <= 1,
            aa <= 1,
            tc <= 1,
            rd <= 1,
            op <= 15,
    ;
    assert((fl & 0x80 != 0) == (ra == 1) && (fl & 0x70) >> 4 == z && fl & 0x0F == rc)
        by (bit_vector)
        requires
            fl == ra << 7 | (z & 0x07) << 4 | (rc & 0x0F),
            ra <= 1,
            z <= 7,
            rc <= 15,
    ;
}

} // verus!
