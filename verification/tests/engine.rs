use dns_relay::codes::{Qclass, Qtype};
use dns_relay::engine::{Forwarder, RespAction};
use dns_relay::message::{DnsPacket, DnsQuestion, DnsRecord};

fn query(id: u16, names: &[&[u8]]) -> DnsPacket {
    let mut q = DnsPacket::new();
    q.header.id = id;
    q.header.rd = true;
    q.header.qdcount = names.len() as u16;
    for name in names {
        q.questions.push(DnsQuestion::new(name.to_vec(), Qtype::A, Qclass::IN));
    }
    q
}

fn single_answer_response(id: u16, name: &[u8], addr: [u8; 4]) -> DnsPacket {
    let mut r = DnsPacket::new();
    r.header.id = id;
    r.header.qr = true;
    r.header.rd = true;
    r.header.ra = true;
    r.header.qdcount = 1;
    r.header.ancount = 1;
    r.questions.push(DnsQuestion::new(name.to_vec(), Qtype::A, Qclass::IN));
    r.answers.push(DnsRecord::new(name.to_vec(), Qtype::A, Qclass::IN, 60, 4, addr.to_vec()));
    r
}

#[test]
fn multi_question_query_is_split() {
    let mut engine = Forwarder::new();
    let q = query(7, &[b"a.example", b"b.example", b"c.example"]);
    let outs = engine.on_query(42, q);
    // exactly one single-question message per question, same id, flags kept
    assert_eq!(outs.len(), 3);
    let names: [&[u8]; 3] = [b"a.example", b"b.example", b"c.example"];
    for (i, out) in outs.iter().enumerate() {
        assert_eq!(out.header.id, 7);
        assert!(!out.header.qr);
        assert_eq!(out.header.qdcount, 1);
        assert!(out.header.rd);
        assert_eq!(out.questions.len(), 1);
        assert_eq!(out.questions[0].qname, names[i].to_vec());
    }
    assert_eq!(engine.pending.len(), 1);
    assert_eq!(engine.pending[0].id, 7);
    assert_eq!(engine.pending[0].client, 42);
}

#[test]
fn single_question_query_goes_verbatim() {
    let mut engine = Forwarder::new();
    let q = query(3, &[b"one.example"]);
    let wire = q.to_bytes();
    let outs = engine.on_query(8, q);
    assert_eq!(outs.len(), 1);
    assert_eq!(outs[0].to_bytes(), wire);
    assert_eq!(engine.pending.len(), 1);
}

#[test]
fn fast_path_forwards_response_unmodified() {
    let mut engine = Forwarder::new();
    let outs = engine.on_query(8, query(3, &[b"one.example"]));
    assert_eq!(outs.len(), 1);
    // the upstream answers with one record; its payload is a canonical encoding
    let upstream = single_answer_response(3, b"one.example", [192, 0, 2, 1]);
    let payload = upstream.to_bytes();
    let parsed = DnsPacket::parse(&payload).unwrap();
    match engine.on_response(parsed) {
        RespAction::Reply { client, message } => {
            assert_eq!(client, 8);
            // byte-for-byte what the upstream sent
            assert_eq!(message.to_bytes(), payload);
        },
        _ => panic!("expected a reply"),
    }
    assert_eq!(engine.pending.len(), 0);
    assert_eq!(engine.partial.len(), 0);
}

#[test]
fn unmatched_response_is_dropped() {
    let mut engine = Forwarder::new();
    engine.on_query(1, query(5, &[b"x.example"]));
    let stray = single_answer_response(999, b"x.example", [1, 2, 3, 4]);
    assert!(matches!(engine.on_response(stray), RespAction::NoMatch));
    // the tables are untouched
    assert_eq!(engine.pending.len(), 1);
    assert_eq!(engine.partial.len(), 0);
}

#[test]
fn split_responses_reassemble() {
    let mut engine = Forwarder::new();
    let outs = engine.on_query(9, query(9, &[b"a.example", b"b.example"]));
    assert_eq!(outs.len(), 2);
    // the first single-answer response is accumulated
    let r1 = single_answer_response(9, b"a.example", [10, 0, 0, 1]);
    assert!(matches!(engine.on_response(r1), RespAction::Accumulated));
    assert_eq!(engine.partial.len(), 1);
    assert_eq!(engine.pending.len(), 1);
    // the second completes the merge
    let r2 = single_answer_response(9, b"b.example", [10, 0, 0, 2]);
    match engine.on_response(r2) {
        RespAction::Reply { client, message } => {
            assert_eq!(client, 9);
            assert_eq!(message.questions.len(), 2);
            assert_eq!(message.answers.len(), 2);
            // arrival order, positionally paired, nothing duplicated or missing
            assert_eq!(message.questions[0].qname, b"a.example".to_vec());
            assert_eq!(message.questions[1].qname, b"b.example".to_vec());
            assert_eq!(message.answers[0].rdata, vec![10, 0, 0, 1]);
            assert_eq!(message.answers[1].rdata, vec![10, 0, 0, 2]);
            // the wire reply carries the recomputed counts
            let wire = message.to_bytes();
            let h = dns_relay::header::DnsHeader::parse(&wire).unwrap();
            assert_eq!(h.qdcount, 2);
            assert_eq!(h.ancount, 2);
            assert_eq!(h.id, 9);
        },
        _ => panic!("expected the reassembled reply"),
    }
    // both tables are cleared
    assert_eq!(engine.pending.len(), 0);
    assert_eq!(engine.partial.len(), 0);
}

#[test]
fn three_way_split_reassembles_in_arrival_order() {
    let mut engine = Forwarder::new();
    engine.on_query(4, query(4, &[b"a.example", b"b.example", b"c.example"]));
    // answers arrive out of the original question order
    let rb = single_answer_response(4, b"b.example", [10, 0, 0, 2]);
    let rc = single_answer_response(4, b"c.example", [10, 0, 0, 3]);
    let ra = single_answer_response(4, b"a.example", [10, 0, 0, 1]);
    assert!(matches!(engine.on_response(rb), RespAction::Accumulated));
    assert!(matches!(engine.on_response(rc), RespAction::Accumulated));
    match engine.on_response(ra) {
        RespAction::Reply { client: _, message } => {
            assert_eq!(message.questions.len(), 3);
            assert_eq!(message.answers.len(), 3);
            // arrival order, not the original request order
            assert_eq!(message.questions[0].qname, b"b.example".to_vec());
            assert_eq!(message.questions[1].qname, b"c.example".to_vec());
            assert_eq!(message.questions[2].qname, b"a.example".to_vec());
        },
        _ => panic!("expected the reassembled reply"),
    }
}

#[test]
fn response_routes_to_first_matching_pending_entry() {
    let mut engine = Forwarder::new();
    engine.on_query(11, query(6, &[b"first.example"]));
    engine.on_query(22, query(6, &[b"second.example"]));
    let r = single_answer_response(6, b"first.example", [10, 9, 8, 7]);
    match engine.on_response(r) {
        RespAction::Reply { client, message: _ } => {
            assert_eq!(client, 11);
        },
        _ => panic!("expected a reply"),
    }
    // only the matched entry is discarded
    assert_eq!(engine.pending.len(), 1);
    assert_eq!(engine.pending[0].client, 22);
}
