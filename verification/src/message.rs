//! The in-memory message model and its wire codec.
//!
//! A message is a header, an ordered question list and an ordered answer
//! list; order is significant, because questions and answers pair
//! positionally when split queries are reconstructed.  Encoding always
//! writes names uncompressed and recomputes the question and answer counts
//! from the lists rather than trusting the caller-set header fields;
//! decoding accepts compression pointers.

use vstd::prelude::*;

use crate::bytes::{
    be16, be32, be32_byte, hi16, lo16, lemma_be16_split, lemma_be32_split, read_u16, read_u32,
    push_u16, push_u32,
};
use crate::codes::{Qtype, Qclass, lemma_qtype_from_code, lemma_qclass_from_code};
use crate::header::{DnsHeader, spec_header_of, spec_encode_header, lemma_header_round_trip};
use crate::name::{
    valid_name, spec_name_at, spec_encode_name, decode_domain_name, encode_domain_name,
    is_valid_name, lemma_decode_consumed, lemma_name_round_trip, lemma_region_index,
    lemma_region_sub,
};

verus! {

/// The ghost value of a question: name bytes in dotted form, and the codes.
#[verifier::ext_equal]
pub ghost struct QuestionV {
    /// The domain name in dotted form.
    pub qname: Seq<u8>,
    /// The query-type code.
    pub qtype: Qtype,
    /// The query-class code.
    pub qclass: Qclass,
}

impl QuestionV {
    /// The name is encodable and the codes decode back to themselves.
    pub open spec fn wf(self) -> bool {
        valid_name(self.qname) && self.qtype.wf() && self.qclass.wf()
    }
}

/// The ghost value of a resource record.
#[verifier::ext_equal]
pub ghost struct RecordV {
    /// The domain name in dotted form.
    pub qname: Seq<u8>,
    /// The record-type code.
    pub qtype: Qtype,
    /// The record-class code.
    pub qclass: Qclass,
    /// Time to live, in seconds.
    pub ttl: u32,
    /// The declared resource-data length.
    pub rdlen: u16,
    /// The raw resource-data bytes.
    pub rdata: Seq<u8>,
}

impl RecordV {
    /// The name is encodable, the codes decode back to themselves and the
    /// declared resource-data length matches the data.
    pub open spec fn wf(self) -> bool {
        valid_name(self.qname) && self.qtype.wf() && self.qclass.wf() && self.rdata.len()
            == self.rdlen
    }
}

/// The ghost value of a whole message.
#[verifier::ext_equal]
pub ghost struct PacketV {
    /// The header.
    pub header: DnsHeader,
    /// The question section, in order.
    pub questions: Seq<QuestionV>,
    /// The answer section, in order.
    pub answers: Seq<RecordV>,
}

impl PacketV {
    /// The encoder can write this message: every name is encodable and the
    /// section lengths fit their 16-bit count fields.
    pub open spec fn encodable(self) -> bool {
        &&& self.questions.len() <= 0xFFFF
        &&& self.answers.len() <= 0xFFFF
        &&& forall|i: int| 0 <= i < self.questions.len() ==> valid_name(
            #[trigger] self.questions[i].qname,
        )
        &&& forall|i: int| 0 <= i < self.answers.len() ==> valid_name(
            #[trigger] self.answers[i].qname,
        )
    }

    /// A fully well-formed message: encodable, bit fields in range, every
    /// section entry well formed, and the header counts equal to the actual
    /// list lengths.
    pub open spec fn wf(self) -> bool {
        &&& self.encodable()
        &&& self.header.wf()
        &&& forall|i: int| 0 <= i < self.questions.len() ==> (#[trigger] self.questions[i]).wf()
        &&& forall|i: int| 0 <= i < self.answers.len() ==> (#[trigger] self.answers[i]).wf()
        &&& self.header.qdcount == self.questions.len()
        &&& self.header.ancount == self.answers.len()
    }
}

/// A question: a domain name in dotted form, a query type and a query class.
#[derive(Debug)]
pub struct DnsQuestion {
    /// The domain name, labels joined by literal dots.
    pub qname: Vec<u8>,
    /// The query-type code.
    pub qtype: Qtype,
    /// The query-class code.
    pub qclass: Qclass,
}

impl View for DnsQuestion {
    type V = QuestionV;

    open spec fn view(&self) -> QuestionV {
        QuestionV { qname: self.qname@, qtype: self.qtype, qclass: self.qclass }
    }
}

/// A resource record: a question-shaped triple plus TTL and raw data.
#[derive(Debug)]
pub struct DnsRecord {
    /// The domain name, labels joined by literal dots.
    pub qname: Vec<u8>,
    /// The record-type code.
    pub qtype: Qtype,
    /// The record-class code.
    pub qclass: Qclass,
    /// Time to live, in seconds.
    pub ttl: u32,
    /// The declared resource-data length.
    pub rdlen: u16,
    /// The raw resource-data bytes.
    pub rdata: Vec<u8>,
}

impl View for DnsRecord {
    type V = RecordV;

    open spec fn view(&self) -> RecordV {
        RecordV {
            qname: self.qname@,
            qtype: self.qtype,
            qclass: self.qclass,
            ttl: self.ttl,
            rdlen: self.rdlen,
            rdata: self.rdata@,
        }
    }
}

/// A whole message: header, questions and answers.
#[derive(Debug)]
pub struct DnsPacket {
    /// The header.
    pub header: DnsHeader,
    /// The question section, in order.
    pub questions: Vec<DnsQuestion>,
    /// The answer section, in order.
    pub answers: Vec<DnsRecord>,
}

/// The ghost values of a question list.
pub open spec fn questions_view(s: Seq<DnsQuestion>) -> Seq<QuestionV> {
    s.map_values(|q: DnsQuestion| q@)
}

/// The ghost values of a record list.
pub open spec fn records_view(s: Seq<DnsRecord>) -> Seq<RecordV> {
    s.map_values(|r: DnsRecord| r@)
}

impl View for DnsPacket {
    type V = PacketV;

    open spec fn view(&self) -> PacketV {
        PacketV {
            header: self.header,
            questions: questions_view(self.questions@),
            answers: records_view(self.answers@),
        }
    }
}

/// Appending a question appends its ghost value to the list's view.
pub proof fn lemma_questions_view_push(s: Seq<DnsQuestion>, q: DnsQuestion)
    ensures
        questions_view(s.push(q)) == questions_view(s) + seq![q@],
{
    assert forall|k: int| 0 <= k < s.len() + 1 implies questions_view(s.push(q))[k] == (
    questions_view(s) + seq![q@])[k] by {
        if k < s.len() {
            assert(s.push(q)[k] == s[k]);
        } else {
            assert(s.push(q)[k] == q);
        }
    }
    assert(questions_view(s.push(q)) =~= questions_view(s) + seq![q@]);
}

/// Appending a record appends its ghost value to the list's view.
pub proof fn lemma_records_view_push(s: Seq<DnsRecord>, r: DnsRecord)
    ensures
        records_view(s.push(r)) == records_view(s) + seq![r@],
{
    assert forall|k: int| 0 <= k < s.len() + 1 implies records_view(s.push(r))[k] == (records_view(
        s,
    ) + seq![r@])[k] by {
        if k < s.len() {
            assert(s.push(r)[k] == s[k]);
        } else {
            assert(s.push(r)[k] == r);
        }
    }
    assert(records_view(s.push(r)) =~= records_view(s) + seq![r@]);
}

/// Concatenating question lists concatenates their views.
pub proof fn lemma_questions_view_concat(a: Seq<DnsQuestion>, b: Seq<DnsQuestion>)
    ensures
        questions_view(a + b) == questions_view(a) + questions_view(b),
{
    assert forall|k: int| 0 <= k < a.len() + b.len() implies questions_view(a + b)[k] == (
    questions_view(a) + questions_view(b))[k] by {
        if k < a.len() {
            assert((a + b)[k] == a[k]);
        } else {
            assert((a + b)[k] == b[k - a.len()]);
        }
    }
    assert(questions_view(a + b) =~= questions_view(a) + questions_view(b));
}

/// Concatenating record lists concatenates their views.
pub proof fn lemma_records_view_concat(a: Seq<DnsRecord>, b: Seq<DnsRecord>)
    ensures
        records_view(a + b) == records_view(a) + records_view(b),
{
    assert forall|k: int| 0 <= k < a.len() + b.len() implies records_view(a + b)[k] == (
    records_view(a) + records_view(b))[k] by {
        if k < a.len() {
            assert((a + b)[k] == a[k]);
        } else {
            assert((a + b)[k] == b[k - a.len()]);
        }
    }
    assert(records_view(a + b) =~= records_view(a) + records_view(b));
}

/// An owned copy of a byte vector.
fn clone_bytes(v: &Vec<u8>) -> (r: Vec<u8>)
    ensures
        r@ == v@,
{
    let mut r: Vec<u8> = Vec::new();
    let mut i: usize = 0;
    while i < v.len()
        invariant
            i <= v@.len(),
            r@ == v@.subrange(0, i as int),
        decreases v@.len() - i,
    {
        r.push(v[i]);
        assert(r@ =~= v@.subrange(0, i + 1));
        i += 1;
    }
    assert(r@ =~= v@);
    r
}

impl Clone for DnsQuestion {
    /// A clone carries the same ghost value.
    fn clone(&self) -> (r: Self)
        ensures
            r@ == self@,
    {
        DnsQuestion { qname: clone_bytes(&self.qname), qtype: self.qtype, qclass: self.qclass }
    }
}

impl Clone for DnsRecord {
    /// A clone carries the same ghost value.
    fn clone(&self) -> (r: Self)
        ensures
            r@ == self@,
    {
        DnsRecord {
            qname: clone_bytes(&self.qname),
            qtype: self.qtype,
            qclass: self.qclass,
            ttl: self.ttl,
            rdlen: self.rdlen,
            rdata: clone_bytes(&self.rdata),
        }
    }
}

/// An owned copy of a question list.
fn clone_questions(v: &Vec<DnsQuestion>) -> (r: Vec<DnsQuestion>)
    ensures
        questions_view(r@) == questions_view(v@),
        r@.len() == v@.len(),
{
    let mut r: Vec<DnsQuestion> = Vec::new();
    let mut i: usize = 0;
    while i < v.len()
        invariant
            i <= v@.len(),
            r@.len() == i,
            questions_view(r@) == questions_view(v@.subrange(0, i as int)),
        decreases v@.len() - i,
    {
        let q = v[i].clone();
        proof {
            lemma_questions_view_push(r@, q);
            lemma_questions_view_push(v@.subrange(0, i as int), v@[i as int]);
            assert(v@.subrange(0, i as int).push(v@[i as int]) =~= v@.subrange(0, i + 1));
        }
        r.push(q);
        assert(questions_view(r@) =~= questions_view(v@.subrange(0, i + 1)));
        i += 1;
    }
    assert(questions_view(r@) =~= questions_view(v@));
    r
}

/// An owned copy of a record list.
fn clone_records(v: &Vec<DnsRecord>) -> (r: Vec<DnsRecord>)
    ensures
        records_view(r@) == records_view(v@),
        r@.len() == v@.len(),
{
    let mut r: Vec<DnsRecord> = Vec::new();
    let mut i: usize = 0;
    while i < v.len()
        invariant
            i <= v@.len(),
            r@.len() == i,
            records_view(r@) == records_view(v@.subrange(0, i as int)),
        decreases v@.len() - i,
    {
        let rec = v[i].clone();
        proof {
            lemma_records_view_push(r@, rec);
            lemma_records_view_push(v@.subrange(0, i as int), v@[i as int]);
            assert(v@.subrange(0, i as int).push(v@[i as int]) =~= v@.subrange(0, i + 1));
        }
        r.push(rec);
        assert(records_view(r@) =~= records_view(v@.subrange(0, i + 1)));
        i += 1;
    }
    assert(records_view(r@) =~= records_view(v@));
    r
}

impl Clone for DnsPacket {
    /// A clone carries the same ghost value.
    fn clone(&self) -> (r: Self)
        ensures
            r@ == self@,
    {
        let r = DnsPacket {
            header: self.header,
            questions: clone_questions(&self.questions),
            answers: clone_records(&self.answers),
        };
        proof {
            assert(r@ =~= self@);
        }
        r
    }
}

/// The wire bytes of one question: the uncompressed name, then the type and
/// class codes, big-endian.
pub open spec fn spec_encode_question(q: QuestionV) -> Seq<u8> {
    spec_encode_name(q.qname) + seq![
        hi16(q.qtype.spec_code()),
        lo16(q.qtype.spec_code()),
        hi16(q.qclass.spec_code()),
        lo16(q.qclass.spec_code()),
    ]
}

/// The question stored at `pos`, and the bytes it consumed.
pub open spec fn spec_decode_question(msg: Seq<u8>, pos: int) -> Option<(QuestionV, int)> {
    match spec_name_at(msg, pos) {
        Some((name, c)) => {
            if pos + c + 4 <= msg.len() {
                Some(
                    (
                        QuestionV {
                            qname: name,
                            qtype: Qtype::spec_from(be16(msg[pos + c], msg[pos + c + 1])),
                            qclass: Qclass::spec_from(be16(msg[pos + c + 2], msg[pos + c + 3])),
                        },
                        c + 4,
                    ),
                )
            } else {
                None
            }
        },
        None => None,
    }
}

/// The question section stored at `pos`: `count` questions in a row, and
/// the bytes they consumed together.
pub open spec fn spec_decode_questions(msg: Seq<u8>, pos: int, count: nat) -> Option<
    (Seq<QuestionV>, int),
>
    decreases count,
{
    if count == 0 {
        Some((Seq::empty(), 0))
    } else {
        match spec_decode_question(msg, pos) {
            Some((q, c)) => match spec_decode_questions(msg, pos + c, (count - 1) as nat) {
                Some((qs, c2)) => Some((seq![q] + qs, c + c2)),
                None => None,
            },
            None => None,
        }
    }
}

impl DnsQuestion {
    /// Builds a question from its parts.
    pub fn new(name: Vec<u8>, qtype: Qtype, qclass: Qclass) -> (r: DnsQuestion)
        ensures
            r@ == (QuestionV { qname: name@, qtype, qclass }),
    {
        DnsQuestion { qname: name, qtype, qclass }
    }

    /// Decodes one question at byte `pos` of the whole message.
    fn parse_one(packet: &Vec<u8>, pos: usize) -> (r: Option<(DnsQuestion, usize)>)
        ensures
            ({
                let s = spec_decode_question(packet@, pos as int);
                match r {
                    Some(p) => s == Some((p.0@, p.1 as int)) && pos + p.1 <= packet@.len(),
                    None => s is None,
                }
            }),
    {
        let n = packet.len();
        match decode_domain_name(packet, pos) {
            Some((name, c)) => {
                proof {
                    lemma_decode_consumed(packet@, pos as int, packet@.len() as nat);
                }
                if n - (pos + c) < 4 {
                    return None;
                }
                let qtype = Qtype::from(read_u16(packet, pos + c));
                let qclass = Qclass::from(read_u16(packet, pos + c + 2));
                Some((DnsQuestion { qname: name, qtype, qclass }, c + 4))
            },
            None => None,
        }
    }

    /// Decodes `qdcount` questions starting at byte `pos` of the whole
    /// message, returning them with the total bytes consumed so the caller
    /// can locate the next section.  `None` reports a malformed section.
    pub fn parse(packet: &Vec<u8>, pos: usize, qdcount: u16) -> (r: Option<
        (Vec<DnsQuestion>, usize),
    >)
        requires
            pos <= packet@.len(),
        ensures
            ({
                let s = spec_decode_questions(packet@, pos as int, qdcount as nat);
                match r {
                    Some(p) => s == Some((questions_view(p.0@), p.1 as int)) && pos + p.1
                        <= packet@.len(),
                    None => s is None,
                }
            }),
    {
        let ghost pos0 = pos as int;
        // the call bounds the vector's length, so the position arithmetic cannot overflow
        let _n = packet.len();
        let mut acc: Vec<DnsQuestion> = Vec::new();
        let mut cur: usize = pos;
        let mut i: u16 = 0;
        while i < qdcount
            invariant
                i <= qdcount,
                pos0 == pos as int,
                packet@.len() <= usize::MAX,
                pos0 <= cur as int <= packet@.len(),
                spec_decode_questions(packet@, pos0, qdcount as nat) == (match spec_decode_questions(
                    packet@,
                    cur as int,
                    (qdcount - i) as nat,
                ) {
                    Some((qs, c)) => Some(
                        (questions_view(acc@) + qs, (cur as int - pos0) + c),
                    ),
                    None => None::<(Seq<QuestionV>, int)>,
                }),
            decreases qdcount - i,
        {
            match Self::parse_one(packet, cur) {
                Some((q, c)) => {
                    proof {
                        let rest = spec_decode_questions(
                            packet@,
                            cur as int + c as int,
                            (qdcount - i - 1) as nat,
                        );
                        lemma_questions_view_push(acc@, q);
                        if rest is Some {
                            let (qs, c2) = rest.unwrap();
                            assert((questions_view(acc@) + seq![q@]) + qs =~= questions_view(acc@)
                                + (seq![q@] + qs));
                        }
                    }
                    acc.push(q);
                    cur = cur + c;
                    i = i + 1;
                },
                None => {
                    proof {
                        assert(spec_decode_questions(packet@, cur as int, (qdcount - i) as nat)
                            is None);
                    }
                    return None;
                },
            }
        }
        proof {
            assert(questions_view(acc@) + Seq::<QuestionV>::empty() =~= questions_view(acc@));
        }
        Some((acc, cur - pos))
    }

    /// Encodes the question: the name in uncompressed form, then the type
    /// and class codes in big-endian order.
    pub fn to_bytes(&self) -> (r: Vec<u8>)
        requires
            valid_name(self.qname@),
        ensures
            r@ == spec_encode_question(self@),
    {
        let mut out = encode_domain_name(&self.qname);
        push_u16(&mut out, self.qtype.code());
        push_u16(&mut out, self.qclass.code());
        assert(out@ =~= spec_encode_question(self@));
        out
    }
}

/// The wire bytes of one record: the uncompressed name, the type and class
/// codes, the TTL, the declared data length, then the raw data.
pub open spec fn spec_encode_record(r: RecordV) -> Seq<u8> {
    spec_encode_name(r.qname) + seq![
        hi16(r.qtype.spec_code()),
        lo16(r.qtype.spec_code()),
        hi16(r.qclass.spec_code()),
        lo16(r.qclass.spec_code()),
        be32_byte(r.ttl, 0),
        be32_byte(r.ttl, 1),
        be32_byte(r.ttl, 2),
        be32_byte(r.ttl, 3),
        hi16(r.rdlen),
        lo16(r.rdlen),
    ] + r.rdata
}

/// The record stored at `pos`, and the bytes it consumed: exactly as many
/// raw data bytes are taken as the declared length says, and fewer in the
/// buffer is a fatal decode error.
pub open spec fn spec_decode_record(msg: Seq<u8>, pos: int) -> Option<(RecordV, int)> {
    match spec_name_at(msg, pos) {
        Some((name, c)) => {
            if pos + c + 10 <= msg.len() {
                let rdlen = be16(msg[pos + c + 8], msg[pos + c + 9]);
                if pos + c + 10 + rdlen <= msg.len() {
                    Some(
                        (
                            RecordV {
                                qname: name,
                                qtype: Qtype::spec_from(be16(msg[pos + c], msg[pos + c + 1])),
                                qclass: Qclass::spec_from(be16(msg[pos + c + 2], msg[pos + c + 3])),
                                ttl: be32(
                                    msg[pos + c + 4],
                                    msg[pos + c + 5],
                                    msg[pos + c + 6],
                                    msg[pos + c + 7],
                                ),
                                rdlen: rdlen,
                                rdata: msg.subrange(pos + c + 10, pos + c + 10 + rdlen),
                            },
                            c + 10 + rdlen,
                        ),
                    )
                } else {
                    None
                }
            } else {
                None
            }
        },
        None => None,
    }
}

/// The answer section stored at `pos`: `count` records in a row, and the
/// bytes they consumed together.
pub open spec fn spec_decode_records(msg: Seq<u8>, pos: int, count: nat) -> Option<
    (Seq<RecordV>, int),
>
    decreases count,
{
    if count == 0 {
        Some((Seq::empty(), 0))
    } else {
        match spec_decode_record(msg, pos) {
            Some((r, c)) => match spec_decode_records(msg, pos + c, (count - 1) as nat) {
                Some((rs, c2)) => Some((seq![r] + rs, c + c2)),
                None => None,
            },
            None => None,
        }
    }
}

impl DnsRecord {
    /// Builds a record from its parts.
    pub fn new(qname: Vec<u8>, qtype: Qtype, qclass: Qclass, ttl: u32, rdlen: u16, rdata: Vec<u8>)
        -> (r: DnsRecord)
        ensures
            r@ == (RecordV { qname: qname@, qtype, qclass, ttl, rdlen, rdata: rdata@ }),
    {
        DnsRecord { qname, qtype, qclass, ttl, rdlen, rdata }
    }

    /// Decodes one record at byte `pos` of the whole message.
    fn parse_one(packet: &Vec<u8>, pos: usize) -> (r: Option<(DnsRecord, usize)>)
        ensures
            ({
                let s = spec_decode_record(packet@, pos as int);
                match r {
                    Some(p) => s == Some((p.0@, p.1 as int)) && pos + p.1 <= packet@.len(),
                    None => s is None,
                }
            }),
    {
        let n = packet.len();
        match decode_domain_name(packet, pos) {
            Some((name, c)) => {
                proof {
                    lemma_decode_consumed(packet@, pos as int, packet@.len() as nat);
                }
                if n - (pos + c) < 10 {
                    return None;
                }
                let qtype = Qtype::from(read_u16(packet, pos + c));
                let qclass = Qclass::from(read_u16(packet, pos + c + 2));
                let ttl = read_u32(packet, pos + c + 4);
                let rdlen = read_u16(packet, pos + c + 8);
                if n - (pos + c + 10) < rdlen as usize {
                    return None;
                }
                let mut rdata: Vec<u8> = Vec::new();
                let base = pos + c + 10;
                let mut j: usize = 0;
                while j < rdlen as usize
                    invariant
                        j <= rdlen as usize,
                        base + rdlen as usize <= packet@.len(),
                        packet@.len() <= usize::MAX,
                        base == pos + c + 10,
                        rdata@ == packet@.subrange(base as int, base as int + j as int),
                    decreases rdlen as usize - j,
                {
                    rdata.push(packet[base + j]);
                    assert(rdata@ =~= packet@.subrange(base as int, base as int + (j + 1)));
                    j += 1;
                }
                Some(
                    (
                        DnsRecord { qname: name, qtype, qclass, ttl, rdlen, rdata },
                        c + 10 + rdlen as usize,
                    ),
                )
            },
            None => None,
        }
    }

    /// Decodes `ancount` records starting at byte `pos` of the whole
    /// message, returning them with the total bytes consumed.  `None`
    /// reports a malformed section.
    pub fn parse(packet: &Vec<u8>, pos: usize, ancount: u16) -> (r: Option<(Vec<DnsRecord>, usize)>)
        requires
            pos <= packet@.len(),
        ensures
            ({
                let s = spec_decode_records(packet@, pos as int, ancount as nat);
                match r {
                    Some(p) => s == Some((records_view(p.0@), p.1 as int)) && pos + p.1
                        <= packet@.len(),
                    None => s is None,
                }
            }),
    {
        let ghost pos0 = pos as int;
        // the call bounds the vector's length, so the position arithmetic cannot overflow
        let _n = packet.len();
        let mut acc: Vec<DnsRecord> = Vec::new();
        let mut cur: usize = pos;
        let mut i: u16 = 0;
        while i < ancount
            invariant
                i <= ancount,
                pos0 == pos as int,
                packet@.len() <= usize::MAX,
                pos0 <= cur as int <= packet@.len(),
                spec_decode_records(packet@, pos0, ancount as nat) == (match spec_decode_records(
                    packet@,
                    cur as int,
                    (ancount - i) as nat,
                ) {
                    Some((rs, c)) => Some((records_view(acc@) + rs, (cur as int - pos0) + c)),
                    None => None::<(Seq<RecordV>, int)>,
                }),
            decreases ancount - i,
        {
            match Self::parse_one(packet, cur) {
                Some((rec, c)) => {
                    proof {
                        let rest = spec_decode_records(
                            packet@,
                            cur as int + c as int,
                            (ancount - i - 1) as nat,
                        );
                        lemma_records_view_push(acc@, rec);
                        if rest is Some {
                            let (rs, c2) = rest.unwrap();
                            assert((records_view(acc@) + seq![rec@]) + rs =~= records_view(acc@) + (
                            seq![rec@] + rs));
                        }
                    }
                    acc.push(rec);
                    cur = cur + c;
                    i = i + 1;
                },
                None => {
                    proof {
                        assert(spec_decode_records(packet@, cur as int, (ancount - i) as nat)
                            is None);
                    }
                    return None;
                },
            }
        }
        proof {
            assert(records_view(acc@) + Seq::<RecordV>::empty() =~= records_view(acc@));
        }
        Some((acc, cur - pos))
    }

    /// Encodes the record: the name in uncompressed form, the codes, the
    /// TTL, the declared data length and the raw data bytes.
    pub fn to_bytes(&self) -> (r: Vec<u8>)
        requires
            valid_name(self.qname@),
        ensures
            r@ == spec_encode_record(self@),
    {
        let mut out = encode_domain_name(&self.qname);
        push_u16(&mut out, self.qtype.code());
        push_u16(&mut out, self.qclass.code());
        push_u32(&mut out, self.ttl);
        push_u16(&mut out, self.rdlen);
        let mut data = clone_bytes(&self.rdata);
        out.append(&mut data);
        assert(out@ =~= spec_encode_record(self@));
        out
    }
}

/// The wire bytes of a question section, in order.
pub open spec fn spec_encode_questions(qs: Seq<QuestionV>) -> Seq<u8>
    decreases qs.len(),
{
    if qs.len() == 0 {
        Seq::empty()
    } else {
        spec_encode_question(qs[0]) + spec_encode_questions(qs.drop_first())
    }
}

/// The wire bytes of an answer section, in order.
pub open spec fn spec_encode_records(rs: Seq<RecordV>) -> Seq<u8>
    decreases rs.len(),
{
    if rs.len() == 0 {
        Seq::empty()
    } else {
        spec_encode_record(rs[0]) + spec_encode_records(rs.drop_first())
    }
}

/// Appending a question appends its encoding.
pub proof fn lemma_encode_questions_push(qs: Seq<QuestionV>, q: QuestionV)
    ensures
        spec_encode_questions(qs.push(q)) == spec_encode_questions(qs) + spec_encode_question(q),
    decreases qs.len(),
{
    if qs.len() == 0 {
        reveal_with_fuel(spec_encode_questions, 3);
        assert(qs.push(q).drop_first() =~= Seq::<QuestionV>::empty());
        assert(qs.push(q)[0] == q);
        assert(spec_encode_questions(qs.push(q)) =~= spec_encode_question(q));
        assert(spec_encode_questions(qs) + spec_encode_question(q) =~= spec_encode_question(q));
    } else {
        assert(qs.push(q).drop_first() =~= qs.drop_first().push(q));
        lemma_encode_questions_push(qs.drop_first(), q);
        assert(spec_encode_questions(qs.push(q)) =~= spec_encode_questions(qs)
            + spec_encode_question(q));
    }
}

/// Appending a record appends its encoding.
pub proof fn lemma_encode_records_push(rs: Seq<RecordV>, r: RecordV)
    ensures
        spec_encode_records(rs.push(r)) == spec_encode_records(rs) + spec_encode_record(r),
    decreases rs.len(),
{
    if rs.len() == 0 {
        reveal_with_fuel(spec_encode_records, 3);
        assert(rs.push(r).drop_first() =~= Seq::<RecordV>::empty());
        assert(rs.push(r)[0] == r);
        assert(spec_encode_records(rs.push(r)) =~= spec_encode_record(r));
        assert(spec_encode_records(rs) + spec_encode_record(r) =~= spec_encode_record(r));
    } else {
        assert(rs.push(r).drop_first() =~= rs.drop_first().push(r));
        lemma_encode_records_push(rs.drop_first(), r);
        assert(spec_encode_records(rs.push(r)) =~= spec_encode_records(rs)
            + spec_encode_record(r));
    }
}

/// The header actually written before a message's sections: the question
/// and answer counts are recomputed from the lists, never trusted.
pub open spec fn counted_header(p: PacketV) -> DnsHeader {
    DnsHeader {
        qdcount: p.questions.len() as u16,
        ancount: p.answers.len() as u16,
        ..p.header
    }
}

/// The wire bytes of a whole message.
pub open spec fn spec_encode_packet(p: PacketV) -> Seq<u8> {
    spec_encode_header(counted_header(p)) + spec_encode_questions(p.questions)
        + spec_encode_records(p.answers)
}

/// The message a byte buffer decodes to: the header from the first 12
/// bytes, then as many questions and answers as its counts declare.  Bytes
/// after the answer section (authority and additional records) are left
/// unread.  `None` is a fatal decode error: a buffer too short for a
/// declared section or length.
pub open spec fn spec_parse_packet(b: Seq<u8>) -> Option<PacketV> {
    if b.len() < 12 {
        None
    } else {
        let h = spec_header_of(b);
        match spec_decode_questions(b, 12, h.qdcount as nat) {
            Some((qs, qc)) => match spec_decode_records(b, 12 + qc, h.ancount as nat) {
                Some((ans, _)) => Some(PacketV { header: h, questions: qs, answers: ans }),
                None => None,
            },
            None => None,
        }
    }
}

impl DnsPacket {
    /// An empty message with an all-zero header.
    pub fn new() -> (r: DnsPacket)
        ensures
            r@.header == (DnsHeader {
                id: 0,
                qr: false,
                opcode: 0,
                aa: false,
                tc: false,
                rd: false,
                ra: false,
                z: 0,
                rcode: 0,
                qdcount: 0,
                ancount: 0,
                nscount: 0,
                arcount: 0,
            }),
            r@.questions.len() == 0,
            r@.answers.len() == 0,
    {
        let r = DnsPacket { header: DnsHeader::new(), questions: Vec::new(), answers: Vec::new() };
        proof {
            assert(questions_view(Seq::<DnsQuestion>::empty()) =~= Seq::<QuestionV>::empty());
            assert(records_view(Seq::<DnsRecord>::empty()) =~= Seq::<RecordV>::empty());
        }
        r
    }

    /// Decodes a whole message from raw bytes.  `None` reports a malformed
    /// or truncated message; the datagram should be dropped, never crash
    /// the server.
    pub fn parse(packet: &Vec<u8>) -> (r: Option<DnsPacket>)
        ensures
            ({
                let s = spec_parse_packet(packet@);
                match r {
                    Some(p) => s == Some(p@),
                    None => s is None,
                }
            }),
    {
        // the call bounds the vector's length, so the section offsets cannot overflow
        let _n = packet.len();
        let header = match DnsHeader::parse(packet) {
            Some(h) => h,
            None => {
                return None;
            },
        };
        let (questions, qlen) = match DnsQuestion::parse(packet, 12, header.qdcount) {
            Some(p) => p,
            None => {
                return None;
            },
        };
        let (answers, _alen) = match DnsRecord::parse(packet, 12 + qlen, header.ancount) {
            Some(p) => p,
            None => {
                return None;
            },
        };
        let r = DnsPacket { header, questions, answers };
        proof {
            assert(spec_parse_packet(packet@) == Some(r@));
        }
        Some(r)
    }

    /// True when the encoder can write this message: every name is made of
    /// labels of 1 to 191 bytes and the section lengths fit the 16-bit
    /// count fields.  `to_bytes` asks for exactly this.
    pub fn is_encodable(&self) -> (r: bool)
        ensures
            r == self@.encodable(),
    {
        if self.questions.len() > 0xFFFF || self.answers.len() > 0xFFFF {
            return false;
        }
        let mut i: usize = 0;
        while i < self.questions.len()
            invariant
                i <= self.questions@.len(),
                forall|j: int| 0 <= j < i ==> valid_name(
                    #[trigger] questions_view(self.questions@)[j].qname,
                ),
            decreases self.questions@.len() - i,
        {
            let ok = is_valid_name(&self.questions[i].qname);
            proof {
                assert(self@.questions[i as int] == self.questions@[i as int]@);
            }
            if !ok {
                proof {
                    assert(!valid_name(self@.questions[i as int].qname));
                }
                return false;
            }
            i += 1;
        }
        let mut k: usize = 0;
        while k < self.answers.len()
            invariant
                k <= self.answers@.len(),
                forall|j: int| 0 <= j < k ==> valid_name(
                    #[trigger] records_view(self.answers@)[j].qname,
                ),
            decreases self.answers@.len() - k,
        {
            let ok = is_valid_name(&self.answers[k].qname);
            proof {
                assert(self@.answers[k as int] == self.answers@[k as int]@);
            }
            if !ok {
                proof {
                    assert(!valid_name(self@.answers[k as int].qname));
                }
                return false;
            }
            k += 1;
        }
        true
    }

    /// Encodes the whole message: the header with the question and answer
    /// counts recomputed from the lists, then every question, then every
    /// answer, names always in uncompressed form.
    pub fn to_bytes(&self) -> (r: Vec<u8>)
        requires
            self@.encodable(),
        ensures
            r@ == spec_encode_packet(self@),
            spec_header_of(r@).qdcount == self@.questions.len(),
            spec_header_of(r@).ancount == self@.answers.len(),
    {
        let counted = DnsHeader {
            id: self.header.id,
            qr: self.header.qr,
            opcode: self.header.opcode,
            aa: self.header.aa,
            tc: self.header.tc,
            rd: self.header.rd,
            ra: self.header.ra,
            z: self.header.z,
            rcode: self.header.rcode,
            qdcount: self.questions.len() as u16,
            ancount: self.answers.len() as u16,
            nscount: self.header.nscount,
            arcount: self.header.arcount,
        };
        let mut out = counted.to_bytes();
        let ghost qv = questions_view(self.questions@);
        let ghost hdr_bytes = spec_encode_header(counted_header(self@));
        proof {
            assert(counted == counted_header(self@));
        }
        let mut i: usize = 0;
        while i < self.questions.len()
            invariant
                i <= self.questions@.len(),
                qv == questions_view(self.questions@),
                self@.encodable(),
                out@ == hdr_bytes + spec_encode_questions(qv.subrange(0, i as int)),
            decreases self.questions@.len() - i,
        {
            proof {
                assert(valid_name(self.questions@[i as int]@.qname));
            }
            let mut qb = self.questions[i].to_bytes();
            proof {
                lemma_encode_questions_push(qv.subrange(0, i as int), qv[i as int]);
                assert(qv.subrange(0, i as int).push(qv[i as int]) =~= qv.subrange(0, i + 1));
            }
            out.append(&mut qb);
            assert(out@ =~= hdr_bytes + spec_encode_questions(qv.subrange(0, i + 1)));
            i += 1;
        }
        proof {
            assert(qv.subrange(0, qv.len() as int) =~= qv);
        }
        let ghost rv = records_view(self.answers@);
        let mut k: usize = 0;
        while k < self.answers.len()
            invariant
                k <= self.answers@.len(),
                qv == questions_view(self.questions@),
                rv == records_view(self.answers@),
                self@.encodable(),
                out@ == hdr_bytes + spec_encode_questions(qv) + spec_encode_records(
                    rv.subrange(0, k as int),
                ),
            decreases self.answers@.len() - k,
        {
            proof {
                assert(valid_name(self.answers@[k as int]@.qname));
            }
            let mut rb = self.answers[k].to_bytes();
            proof {
                lemma_encode_records_push(rv.subrange(0, k as int), rv[k as int]);
                assert(rv.subrange(0, k as int).push(rv[k as int]) =~= rv.subrange(0, k + 1));
            }
            out.append(&mut rb);
            assert(out@ =~= hdr_bytes + spec_encode_questions(qv) + spec_encode_records(
                rv.subrange(0, k + 1),
            ));
            k += 1;
        }
        proof {
            assert(rv.subrange(0, rv.len() as int) =~= rv);
            assert(out@ =~= spec_encode_packet(self@));
            lemma_count_integrity(self@);
        }
        out
    }
}

/// Count integrity: after encoding, the question and answer count fields of
/// the wire header equal the actual list lengths, regardless of what the
/// in-memory header fields held before encoding.
pub proof fn lemma_count_integrity(p: PacketV)
    requires
        p.questions.len() <= 0xFFFF,
        p.answers.len() <= 0xFFFF,
    ensures
        spec_header_of(spec_encode_packet(p)).qdcount == p.questions.len(),
        spec_header_of(spec_encode_packet(p)).ancount == p.answers.len(),
{
    let ch = counted_header(p);
    let hb = spec_encode_header(ch);
    let b = spec_encode_packet(p);
    assert(b[4] == hb[4] && b[5] == hb[5] && b[6] == hb[6] && b[7] == hb[7]);
    lemma_be16_split(ch.qdcount);
    lemma_be16_split(ch.ancount);
}

/// Round trip for one question.
proof fn lemma_question_round_trip(msg: Seq<u8>, pos: int, q: QuestionV)
    requires
        q.wf(),
        0 <= pos,
        pos + spec_encode_question(q).len() <= msg.len(),
        msg.subrange(pos, pos + spec_encode_question(q).len() as int) == spec_encode_question(q),
    ensures
        spec_decode_question(msg, pos) == Some((q, spec_encode_question(q).len() as int)),
{
    let enc = spec_encode_question(q);
    let en = spec_encode_name(q.qname);
    let c = en.len() as int;
    lemma_region_sub(msg, pos, enc, 0, c);
    assert(enc.subrange(0, c) =~= en);
    lemma_name_round_trip(msg, pos, q.qname, msg.len() as nat);
    assert(spec_name_at(msg, pos) == Some((q.qname, c)));
    lemma_region_index(msg, pos, enc, c);
    lemma_region_index(msg, pos, enc, c + 1);
    lemma_region_index(msg, pos, enc, c + 2);
    lemma_region_index(msg, pos, enc, c + 3);
    lemma_be16_split(q.qtype.spec_code());
    lemma_be16_split(q.qclass.spec_code());
    lemma_qtype_from_code(q.qtype);
    lemma_qclass_from_code(q.qclass);
}

/// Round trip for a question section.
proof fn lemma_questions_round_trip(msg: Seq<u8>, pos: int, qs: Seq<QuestionV>)
    requires
        forall|i: int| 0 <= i < qs.len() ==> (#[trigger] qs[i]).wf(),
        0 <= pos,
        pos + spec_encode_questions(qs).len() <= msg.len(),
        msg.subrange(pos, pos + spec_encode_questions(qs).len() as int) == spec_encode_questions(
            qs,
        ),
    ensures
        spec_decode_questions(msg, pos, qs.len()) == Some(
            (qs, spec_encode_questions(qs).len() as int),
        ),
    decreases qs.len(),
{
    if qs.len() == 0 {
        assert(spec_decode_questions(msg, pos, 0) == Some((Seq::<QuestionV>::empty(), 0int)));
        assert(qs =~= Seq::<QuestionV>::empty());
    } else {
        let enc = spec_encode_questions(qs);
        let e0 = spec_encode_question(qs[0]);
        let c0 = e0.len() as int;
        lemma_region_sub(msg, pos, enc, 0, c0);
        assert(enc.subrange(0, c0) =~= e0);
        lemma_question_round_trip(msg, pos, qs[0]);
        lemma_region_sub(msg, pos, enc, c0, enc.len() as int);
        assert(enc.subrange(c0, enc.len() as int) =~= spec_encode_questions(qs.drop_first()));
        lemma_questions_round_trip(msg, pos + c0, qs.drop_first());
        assert(seq![qs[0]] + qs.drop_first() =~= qs);
    }
}

/// Round trip for one record.
proof fn lemma_record_round_trip(msg: Seq<u8>, pos: int, r: RecordV)
    requires
        r.wf(),
        0 <= pos,
        pos + spec_encode_record(r).len() <= msg.len(),
        msg.subrange(pos, pos + spec_encode_record(r).len() as int) == spec_encode_record(r),
    ensures
        spec_decode_record(msg, pos) == Some((r, spec_encode_record(r).len() as int)),
{
    let enc = spec_encode_record(r);
    let en = spec_encode_name(r.qname);
    let c = en.len() as int;
    lemma_region_sub(msg, pos, enc, 0, c);
    assert(enc.subrange(0, c) =~= en);
    lemma_name_round_trip(msg, pos, r.qname, msg.len() as nat);
    assert(spec_name_at(msg, pos) == Some((r.qname, c)));
    lemma_region_index(msg, pos, enc, c);
    lemma_region_index(msg, pos, enc, c + 1);
    lemma_region_index(msg, pos, enc, c + 2);
    lemma_region_index(msg, pos, enc, c + 3);
    lemma_region_index(msg, pos, enc, c + 4);
    lemma_region_index(msg, pos, enc, c + 5);
    lemma_region_index(msg, pos, enc, c + 6);
    lemma_region_index(msg, pos, enc, c + 7);
    lemma_region_index(msg, pos, enc, c + 8);
    lemma_region_index(msg, pos, enc, c + 9);
    lemma_be16_split(r.qtype.spec_code());
    lemma_be16_split(r.qclass.spec_code());
    lemma_be32_split(r.ttl);
    lemma_be16_split(r.rdlen);
    lemma_qtype_from_code(r.qtype);
    lemma_qclass_from_code(r.qclass);
    lemma_region_sub(msg, pos, enc, c + 10, enc.len() as int);
    assert(enc.subrange(c + 10, enc.len() as int) =~= r.rdata);
    assert(msg.subrange(pos + c + 10, pos + c + 10 + r.rdata.len() as int) == r.rdata);
}

/// Round trip for an answer section.
proof fn lemma_records_round_trip(msg: Seq<u8>, pos: int, rs: Seq<RecordV>)
    requires
        forall|i: int| 0 <= i < rs.len() ==> (#[trigger] rs[i]).wf(),
        0 <= pos,
        pos + spec_encode_records(rs).len() <= msg.len(),
        msg.subrange(pos, pos + spec_encode_records(rs).len() as int) == spec_encode_records(rs),
    ensures
        spec_decode_records(msg, pos, rs.len()) == Some(
            (rs, spec_encode_records(rs).len() as int),
        ),
    decreases rs.len(),
{
    if rs.len() == 0 {
        assert(spec_decode_records(msg, pos, 0) == Some((Seq::<RecordV>::empty(), 0int)));
        assert(rs =~= Seq::<RecordV>::empty());
    } else {
        let enc = spec_encode_records(rs);
        let e0 = spec_encode_record(rs[0]);
        let c0 = e0.len() as int;
        lemma_region_sub(msg, pos, enc, 0, c0);
        assert(enc.subrange(0, c0) =~= e0);
        lemma_record_round_trip(msg, pos, rs[0]);
        lemma_region_sub(msg, pos, enc, c0, enc.len() as int);
        assert(enc.subrange(c0, enc.len() as int) =~= spec_encode_records(rs.drop_first()));
        lemma_records_round_trip(msg, pos + c0, rs.drop_first());
        assert(seq![rs[0]] + rs.drop_first() =~= rs);
    }
}

/// Round trip: decoding the encoding of any well-formed message gives the
/// message back, for the header fields, the question list and the answer
/// list.  Encoding never produces compression, so none is involved here.
pub proof fn lemma_packet_round_trip(p: PacketV)
    requires
        p.wf(),
    ensures
        spec_parse_packet(spec_encode_packet(p)) == Some(p),
{
    let ch = counted_header(p);
    let hb = spec_encode_header(ch);
    let qb = spec_encode_questions(p.questions);
    let rb = spec_encode_records(p.answers);
    let b = spec_encode_packet(p);
    assert(b.len() == 12 + qb.len() as int + rb.len() as int);
    // the first 12 bytes are the header bytes
    assert(ch.wf());
    lemma_header_round_trip(ch);
    assert forall|j: int| 0 <= j < 12 implies b[j] == hb[j] by {}
    assert(spec_header_of(b) == spec_header_of(hb));
    assert(spec_header_of(b) == ch);
    assert(ch == p.header);
    // the question section follows
    assert(b.subrange(12, 12 + qb.len() as int) =~= qb);
    lemma_questions_round_trip(b, 12, p.questions);
    assert(spec_decode_questions(b, 12, p.header.qdcount as nat) == Some(
        (p.questions, qb.len() as int),
    ));
    // the answer section follows the questions
    assert(b.subrange(12 + qb.len() as int, 12 + qb.len() as int + rb.len() as int) =~= rb);
    lemma_records_round_trip(b, 12 + qb.len() as int, p.answers);
    assert(spec_decode_records(b, 12 + qb.len() as int, p.header.ancount as nat) == Some(
        (p.answers, rb.len() as int),
    ));
    assert(spec_parse_packet(b) == Some(p));
}

/// Single-question fast path, byte level: an upstream payload that is the
/// canonical encoding of a well-formed message is decoded and re-encoded
/// byte for byte, so forwarding the decoded response reproduces the
/// upstream payload exactly.
pub proof fn lemma_forward_verbatim(b: Seq<u8>, p: PacketV)
    requires
        p.wf(),
        b == spec_encode_packet(p),
    ensures
        spec_parse_packet(b) == Some(p),
        spec_encode_packet(spec_parse_packet(b).unwrap()) == b,
{
    lemma_packet_round_trip(p);
}

} // verus!
