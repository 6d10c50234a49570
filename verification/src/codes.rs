//! Query-type and query-class codes.
//!
//! A 16-bit code outside the recognized set decodes to the explicit
//! `Unrecognized` variant carrying the raw code, so a caller can tell a
//! valid-but-unhandled code from a decode fault; it is never fatal.

use vstd::prelude::*;

verus! {

/// A QTYPE code (RFC 1035 section 3.2.2).
#[derive(Debug, Clone, Copy, PartialEq, Eq, Structural)]
pub enum Qtype {
    /// A host address.
    A,
    /// An authoritative name server.
    NS,
    /// A mail destination (obsolete, use MX).
    MD,
    /// A mail forwarder (obsolete, use MX).
    MF,
    /// The canonical name for an alias.
    CNAME,
    /// Marks the start of a zone of authority.
    SOA,
    /// A mailbox domain name (experimental).
    MB,
    /// A mail group member (experimental).
    MG,
    /// A mail rename domain name (experimental).
    MR,
    /// A null resource record (experimental).
    NULL,
    /// A well known service description.
    WKS,
    /// A domain name pointer.
    PTR,
    /// Host information.
    HINFO,
    /// A mailbox or mail list information.
    MINFO,
    /// Mail exchange.
    MX,
    /// Text strings.
    TXT,
    /// Any code outside the recognized set, kept verbatim.
    Unrecognized(u16),
}

impl Qtype {
    /// The 16-bit wire code this value stands for.
    pub open spec fn spec_code(self) -> u16 {
        match self {
            Qtype::A => 1,
            Qtype::NS => 2,
            Qtype::MD => 3,
            Qtype::MF => 4,
            Qtype::CNAME => 5,
            Qtype::SOA => 6,
            Qtype::MB => 7,
            Qtype::MG => 8,
            Qtype::MR => 9,
            Qtype::NULL => 10,
            Qtype::WKS => 11,
            Qtype::PTR => 12,
            Qtype::HINFO => 13,
            Qtype::MINFO => 14,
            Qtype::MX => 15,
            Qtype::TXT => 16,
            Qtype::Unrecognized(v) => v,
        }
    }

    /// The 16-bit wire code this value stands for.
    #[verifier::when_used_as_spec(spec_code)]
    pub fn code(self) -> (r: u16)
        ensures
            r == self.spec_code(),
    {
        match self {
            Qtype::A => 1,
            Qtype::NS => 2,
            Qtype::MD => 3,
            Qtype::MF => 4,
            Qtype::CNAME => 5,
            Qtype::SOA => 6,
            Qtype::MB => 7,
            Qtype::MG => 8,
            Qtype::MR => 9,
            Qtype::NULL => 10,
            Qtype::WKS => 11,
            Qtype::PTR => 12,
            Qtype::HINFO => 13,
            Qtype::MINFO => 14,
            Qtype::MX => 15,
            Qtype::TXT => 16,
            Qtype::Unrecognized(v) => v,
        }
    }

    /// The `Unrecognized` variant only carries codes that no named variant has.
    pub open spec fn wf(self) -> bool {
        match self {
            Qtype::Unrecognized(v) => !(1 <= v <= 16),
            _ => true,
        }
    }

    /// The QTYPE a 16-bit wire code decodes to.
    pub open spec fn spec_from(value: u16) -> Qtype {
        match value {
            1u16 => Qtype::A,
            2u16 => Qtype::NS,
            3u16 => Qtype::MD,
            4u16 => Qtype::MF,
            5u16 => Qtype::CNAME,
            6u16 => Qtype::SOA,
            7u16 => Qtype::MB,
            8u16 => Qtype::MG,
            9u16 => Qtype::MR,
            10u16 => Qtype::NULL,
            11u16 => Qtype::WKS,
            12u16 => Qtype::PTR,
            13u16 => Qtype::HINFO,
            14u16 => Qtype::MINFO,
            15u16 => Qtype::MX,
            16u16 => Qtype::TXT,
            _ => Qtype::Unrecognized(value),
        }
    }

    /// Decodes a 16-bit wire code.
    pub fn from(value: u16) -> (r: Qtype)
        ensures
            r == Qtype::spec_from(value),
    {
        match value {
            1u16 => Qtype::A,
            2u16 => Qtype::NS,
            3u16 => Qtype::MD,
            4u16 => Qtype::MF,
            5u16 => Qtype::CNAME,
            6u16 => Qtype::SOA,
            7u16 => Qtype::MB,
            8u16 => Qtype::MG,
            9u16 => Qtype::MR,
            10u16 => Qtype::NULL,
            11u16 => Qtype::WKS,
            12u16 => Qtype::PTR,
            13u16 => Qtype::HINFO,
            14u16 => Qtype::MINFO,
            15u16 => Qtype::MX,
            16u16 => Qtype::TXT,
            _ => Qtype::Unrecognized(value),
        }
    }
}

/// On well-formed values, decoding is the inverse of encoding.
pub proof fn lemma_qtype_from_code(t: Qtype)
    requires
        t.wf(),
    ensures
        Qtype::spec_from(t.spec_code()) == t,
{
}

/// A QCLASS code (RFC 1035 sections 3.2.4 and 3.2.5).
#[derive(Debug, Clone, Copy, PartialEq, Eq, Structural)]
pub enum Qclass {
    /// The Internet.
    IN,
    /// The CSNET class (obsolete).
    CS,
    /// The CHAOS class.
    CH,
    /// Hesiod.
    HS,
    /// Any class.
    ANY,
    /// Any code outside the recognized set, kept verbatim.
    Unrecognized(u16),
}

impl Qclass {
    /// The 16-bit wire code this value stands for.
    pub open spec fn spec_code(self) -> u16 {
        match self {
            Qclass::IN => 1,
            Qclass::CS => 2,
            Qclass::CH => 3,
            Qclass::HS => 4,
            Qclass::ANY => 255,
            Qclass::Unrecognized(v) => v,
        }
    }

    /// The 16-bit wire code this value stands for.
    #[verifier::when_used_as_spec(spec_code)]
    pub fn code(self) -> (r: u16)
        ensures
            r == self.spec_code(),
    {
        match self {
            Qclass::IN => 1,
            Qclass::CS => 2,
            Qclass::CH => 3,
            Qclass::HS => 4,
            Qclass::ANY => 255,
            Qclass::Unrecognized(v) => v,
        }
    }

    /// The `Unrecognized` variant only carries codes that no named variant has.
    pub open spec fn wf(self) -> bool {
        match self {
            Qclass::Unrecognized(v) => !(1 <= v <= 4) && v != 255,
            _ => true,
        }
    }

    /// The QCLASS a 16-bit wire code decodes to.
    pub open spec fn spec_from(value: u16) -> Qclass {
        match value {
            1u16 => Qclass::IN,
            2u16 => Qclass::CS,
            3u16 => Qclass::CH,
            4u16 => Qclass::HS,
            255u16 => Qclass::ANY,
            _ => Qclass::Unrecognized(value),
        }
    }

    /// Decodes a 16-bit wire code.
    pub fn from(value: u16) -> (r: Qclass)
        ensures
            r == Qclass::spec_from(value),
    {
        match value {
            1u16 => Qclass::IN,
            2u16 => Qclass::CS,
            3u16 => Qclass::CH,
            4u16 => Qclass::HS,
            255u16 => Qclass::ANY,
            _ => Qclass::Unrecognized(value),
        }
    }
}

/// On well-formed values, decoding is the inverse of encoding.
pub proof fn lemma_qclass_from_code(c: Qclass)
    requires
        c.wf(),
    ensures
        Qclass::spec_from(c.spec_code()) == c,
{
}

} // verus!
