//! The forwarding correlation engine.
//!
//! The engine tracks in-flight client queries keyed by the 16-bit
//! transaction id.  A query with one question is forwarded verbatim; one
//! with several questions is split into single-question upstream requests
//! sharing the id.  An upstream response is matched to the first pending
//! entry with its id: for a single-question query it is replied to the
//! client unmodified, for a split query its question and answer are
//! appended to the id's accumulator (in arrival order, which need not match
//! the original question order), and the accumulated message is sent once
//! its answer count reaches the original question count.  A response whose
//! id matches no pending entry is a handled "unmatched response" error,
//! never a crash.  Transaction-id collisions between concurrent clients,
//! unbounded growth of abandoned entries and arrival-order reassembly are
//! known hazards of this design, inherited deliberately.
//!
//! The engine decides; it does no I/O.  The caller performs each returned
//! action (encode and send), and hands every received message back in.

use vstd::prelude::*;

use crate::header::DnsHeader;
use crate::message::{
    DnsPacket, DnsQuestion, PacketV, QuestionV, RecordV, questions_view,
    lemma_questions_view_push, lemma_questions_view_concat, lemma_records_view_concat,
};

verus! {

/// A pending client query: created when the query arrives, removed once
/// every expected answer has been delivered back to the client.
#[derive(Debug)]
pub struct PendingQuery {
    /// The query's transaction id.
    pub id: u16,
    /// The originating client, as an opaque token the caller assigns.
    pub client: u64,
    /// The original, possibly multi-question, message.
    pub query: DnsPacket,
}

/// The ghost value of a pending-query entry.
#[verifier::ext_equal]
pub ghost struct PendingV {
    /// The query's transaction id.
    pub id: u16,
    /// The originating client token.
    pub client: u64,
    /// The original message.
    pub query: PacketV,
}

impl View for PendingQuery {
    type V = PendingV;

    open spec fn view(&self) -> PendingV {
        PendingV { id: self.id, client: self.client, query: self.query@ }
    }
}

/// A partial-response accumulator: created on the first upstream answer
/// for a split query, grown on each further answer, discarded when the
/// reassembled reply has been sent.
#[derive(Debug)]
pub struct PartialResponse {
    /// The transaction id the answers share.
    pub id: u16,
    /// The destination client token.
    pub client: u64,
    /// The message being assembled from the single-answer responses.
    pub response: DnsPacket,
}

/// The ghost value of a partial-response accumulator.
#[verifier::ext_equal]
pub ghost struct PartialV {
    /// The transaction id the answers share.
    pub id: u16,
    /// The destination client token.
    pub client: u64,
    /// The message being assembled.
    pub response: PacketV,
}

impl View for PartialResponse {
    type V = PartialV;

    open spec fn view(&self) -> PartialV {
        PartialV { id: self.id, client: self.client, response: self.response@ }
    }
}

/// What the caller must do with a response the engine was handed.
#[derive(Debug)]
pub enum RespAction {
    /// The transaction id matches no pending query: drop the datagram and
    /// report it; an unexpected or stale response must not crash the server.
    NoMatch,
    /// The answer was added to its accumulator; more are still expected.
    Accumulated,
    /// Send `message` to the client `client` names.
    Reply {
        /// The destination client token.
        client: u64,
        /// The message to encode and send.
        message: DnsPacket,
    },
}

/// The ghost value of an action.
#[verifier::ext_equal]
pub ghost enum ActionV {
    /// No pending query carries the id.
    NoMatch,
    /// The answer was accumulated.
    Accumulated,
    /// Send `message` to `client`.
    Reply {
        /// The destination client token.
        client: u64,
        /// The message to send.
        message: PacketV,
    },
}

impl View for RespAction {
    type V = ActionV;

    open spec fn view(&self) -> ActionV {
        match self {
            RespAction::NoMatch => ActionV::NoMatch,
            RespAction::Accumulated => ActionV::Accumulated,
            RespAction::Reply { client, message } => ActionV::Reply {
                client: *client,
                message: message@,
            },
        }
    }
}

/// The engine's whole state: the pending-query and partial-response
/// tables.  Processing is strictly serial, so no locking is involved.
#[derive(Debug)]
pub struct Forwarder {
    /// Pending client queries, in arrival order.
    pub pending: Vec<PendingQuery>,
    /// Partial-response accumulators, in creation order.
    pub partial: Vec<PartialResponse>,
}

/// The ghost value of the engine state.
#[verifier::ext_equal]
pub ghost struct ForwarderV {
    /// Pending client queries, in arrival order.
    pub pending: Seq<PendingV>,
    /// Partial-response accumulators, in creation order.
    pub partial: Seq<PartialV>,
}

/// The ghost values of a pending-query list.
pub open spec fn pendings_view(s: Seq<PendingQuery>) -> Seq<PendingV> {
    s.map_values(|p: PendingQuery| p@)
}

/// The ghost values of an accumulator list.
pub open spec fn partials_view(s: Seq<PartialResponse>) -> Seq<PartialV> {
    s.map_values(|p: PartialResponse| p@)
}

/// The ghost values of a message list.
pub open spec fn packets_view(s: Seq<DnsPacket>) -> Seq<PacketV> {
    s.map_values(|p: DnsPacket| p@)
}

impl View for Forwarder {
    type V = ForwarderV;

    open spec fn view(&self) -> ForwarderV {
        ForwarderV { pending: pendings_view(self.pending@), partial: partials_view(self.partial@) }
    }
}

/// The ids of the pending entries, in order.
pub open spec fn pending_ids(ps: Seq<PendingV>) -> Seq<u16> {
    ps.map_values(|p: PendingV| p.id)
}

/// The ids of the accumulators, in order.
pub open spec fn partial_ids(ps: Seq<PartialV>) -> Seq<u16> {
    ps.map_values(|p: PartialV| p.id)
}

/// The least index holding `id`, if any.
pub open spec fn find_first(ids: Seq<u16>, id: u16) -> Option<int>
    decreases ids.len(),
{
    if ids.len() == 0 {
        None
    } else if ids[0] == id {
        Some(0)
    } else {
        match find_first(ids.drop_first(), id) {
            Some(i) => Some(i + 1),
            None => None,
        }
    }
}

/// An index with no hit before it and a hit (or the end) at it decides
/// `find_first`.
pub proof fn lemma_find_first_is(ids: Seq<u16>, id: u16, k: int)
    requires
        0 <= k <= ids.len(),
        forall|j: int| 0 <= j < k ==> ids[j] != id,
        k == ids.len() || ids[k] == id,
    ensures
        k == ids.len() ==> find_first(ids, id) is None,
        k < ids.len() ==> find_first(ids, id) == Some(k),
    decreases ids.len(),
{
    if ids.len() == 0 {
    } else if ids[0] == id {
        assert(k == 0);
    } else {
        let t = ids.drop_first();
        assert forall|j: int| 0 <= j < k - 1 implies t[j] != id by {
            assert(t[j] == ids[j + 1]);
        }
        if k < ids.len() {
            assert(t[k - 1] == ids[k]);
        }
        lemma_find_first_is(t, id, k - 1);
    }
}

/// The header of a forwarded sub-query: the transaction id and the
/// client-desired flags kept, QR forced back to a query, the question
/// count forced to one.
pub open spec fn sub_header(h: DnsHeader) -> DnsHeader {
    DnsHeader {
        id: h.id,
        qr: false,
        opcode: h.opcode,
        aa: h.aa,
        tc: h.tc,
        rd: h.rd,
        ra: h.ra,
        z: h.z,
        rcode: h.rcode,
        qdcount: 1,
        ancount: h.ancount,
        nscount: h.nscount,
        arcount: h.arcount,
    }
}

/// The i-th single-question message a multi-question query is split into.
pub open spec fn sub_query(q: PacketV, i: int) -> PacketV {
    PacketV { header: sub_header(q.header), questions: seq![q.questions[i]], answers: q.answers }
}

/// What arrives at the upstream for a query: the whole message verbatim
/// when it carries at most one question, else one single-question message
/// per question; and the pending entry that is recorded.
pub open spec fn query_step(s: ForwarderV, client: u64, q: PacketV) -> (ForwarderV, Seq<PacketV>) {
    let s2 = ForwarderV {
        pending: s.pending.push(PendingV { id: q.header.id, client, query: q }),
        partial: s.partial,
    };
    let outs = if q.questions.len() > 1 {
        Seq::new(q.questions.len(), |i: int| sub_query(q, i))
    } else {
        seq![q]
    };
    (s2, outs)
}

/// The accumulator list with the first entry for `id` discarded, if any.
pub open spec fn remove_partial(ps: Seq<PartialV>, id: u16) -> Seq<PartialV> {
    match find_first(partial_ids(ps), id) {
        Some(i) => ps.remove(i),
        None => ps,
    }
}

/// The state change and action for one upstream response, per the state
/// machine: match the first pending entry by id (none: an unmatched
/// response, dropped); a single-question query is answered verbatim and
/// discarded; otherwise the response's questions and answers are appended
/// to the id's accumulator (created from this response if absent), and the
/// reply is sent once the accumulated answer count reaches the original
/// question count.
pub open spec fn response_step(s: ForwarderV, r: PacketV) -> (ForwarderV, ActionV) {
    match find_first(pending_ids(s.pending), r.header.id) {
        None => (s, ActionV::NoMatch),
        Some(pi) => {
            let p = s.pending[pi];
            if p.query.questions.len() <= 1 {
                (
                    ForwarderV {
                        pending: s.pending.remove(pi),
                        partial: remove_partial(s.partial, r.header.id),
                    },
                    ActionV::Reply { client: p.client, message: r },
                )
            } else {
                match find_first(partial_ids(s.partial), r.header.id) {
                    None => (
                        ForwarderV {
                            pending: s.pending,
                            partial: s.partial.push(
                                PartialV { id: r.header.id, client: p.client, response: r },
                            ),
                        },
                        ActionV::Accumulated,
                    ),
                    Some(qi) => {
                        let acc = s.partial[qi];
                        let merged = PacketV {
                            header: acc.response.header,
                            questions: acc.response.questions + r.questions,
                            answers: acc.response.answers + r.answers,
                        };
                        if merged.answers.len() == p.query.questions.len() {
                            (
                                ForwarderV {
                                    pending: s.pending.remove(pi),
                                    partial: s.partial.remove(qi),
                                },
                                ActionV::Reply { client: acc.client, message: merged },
                            )
                        } else {
                            (
                                ForwarderV {
                                    pending: s.pending,
                                    partial: s.partial.update(
                                        qi,
                                        PartialV {
                                            id: acc.id,
                                            client: acc.client,
                                            response: merged,
                                        },
                                    ),
                                },
                                ActionV::Accumulated,
                            )
                        }
                    },
                }
            }
        },
    }
}

impl Forwarder {
    /// An engine with empty tables; nothing persists across restarts.
    pub fn new() -> (r: Forwarder)
        ensures
            r@.pending.len() == 0,
            r@.partial.len() == 0,
    {
        Forwarder { pending: Vec::new(), partial: Vec::new() }
    }

    /// The index of the first pending entry with this id.
    fn find_pending(&self, id: u16) -> (r: Option<usize>)
        ensures
            ({
                let f = find_first(pending_ids(self@.pending), id);
                match r {
                    Some(k) => f == Some(k as int) && k < self.pending@.len(),
                    None => f is None,
                }
            }),
    {
        let mut i: usize = 0;
        while i < self.pending.len()
            invariant
                i <= self.pending@.len(),
                forall|j: int| 0 <= j < i ==> pending_ids(pendings_view(self.pending@))[j] != id,
            decreases self.pending@.len() - i,
        {
            let hit = self.pending[i].id == id;
            proof {
                assert(pending_ids(pendings_view(self.pending@))[i as int] == self.pending@[
                    i as int].id);
            }
            if hit {
                proof {
                    lemma_find_first_is(pending_ids(pendings_view(self.pending@)), id, i as int);
                }
                return Some(i);
            }
            i += 1;
        }
        proof {
            lemma_find_first_is(
                pending_ids(pendings_view(self.pending@)),
                id,
                self.pending@.len() as int,
            );
        }
        None
    }

    /// The index of the first accumulator with this id.
    fn find_partial(&self, id: u16) -> (r: Option<usize>)
        ensures
            ({
                let f = find_first(partial_ids(self@.partial), id);
                match r {
                    Some(k) => f == Some(k as int) && k < self.partial@.len(),
                    None => f is None,
                }
            }),
    {
        let mut i: usize = 0;
        while i < self.partial.len()
            invariant
                i <= self.partial@.len(),
                forall|j: int| 0 <= j < i ==> partial_ids(partials_view(self.partial@))[j] != id,
            decreases self.partial@.len() - i,
        {
            let hit = self.partial[i].id == id;
            proof {
                assert(partial_ids(partials_view(self.partial@))[i as int] == self.partial@[
                    i as int].id);
            }
            if hit {
                proof {
                    lemma_find_first_is(partial_ids(partials_view(self.partial@)), id, i as int);
                }
                return Some(i);
            }
            i += 1;
        }
        proof {
            lemma_find_first_is(
                partial_ids(partials_view(self.partial@)),
                id,
                self.partial@.len() as int,
            );
        }
        None
    }

    /// Handles an inbound client query: records the pending entry and
    /// returns the messages to forward to the upstream, exactly as
    /// `query_step` says — the query verbatim when it carries at most one
    /// question, else one single-question message per question, each
    /// keeping the transaction id and the client-desired flags with the
    /// question count forced to one.
    pub fn on_query(&mut self, client: u64, query: DnsPacket) -> (outs: Vec<DnsPacket>)
        ensures
            ({
                let (s2, o) = query_step(old(self)@, client, query@);
                final(self)@ == s2 && packets_view(outs@) == o
            }),
    {
        let ghost qv = query@;
        let mut outs: Vec<DnsPacket> = Vec::new();
        let qlen = query.questions.len();
        if qlen > 1 {
            let mut i: usize = 0;
            while i < qlen
                invariant
                    i <= qlen,
                    qlen == query.questions@.len(),
                    qv == query@,
                    packets_view(outs@) == Seq::new(i as nat, |k: int| sub_query(qv, k)),
                decreases qlen - i,
            {
                let mut sub = query.clone();
                sub.header.qr = false;
                sub.header.qdcount = 1;
                let mut one: Vec<DnsQuestion> = Vec::new();
                one.push(query.questions[i].clone());
                sub.questions = one;
                proof {
                    lemma_questions_view_push(Seq::<DnsQuestion>::empty(), sub
                        .questions@[0]);
                    assert(questions_view(sub.questions@) =~= seq![qv.questions[i as int]]);
                    assert(sub@ =~= sub_query(qv, i as int));
                    assert(packets_view(outs@.push(sub)) =~= packets_view(outs@) + seq![sub@]);
                    assert(packets_view(outs@) + seq![sub@] =~= Seq::new(
                        (i + 1) as nat,
                        |k: int| sub_query(qv, k),
                    ));
                }
                outs.push(sub);
                i += 1;
            }
        } else {
            let copy = query.clone();
            proof {
                assert(packets_view(outs@.push(copy)) =~= seq![qv]);
            }
            outs.push(copy);
        }
        let id = query.header.id;
        let entry = PendingQuery { id, client, query };
        proof {
            assert(entry@ == (PendingV { id, client, query: qv }));
        }
        let ghost before = self.pending@;
        self.pending.push(entry);
        proof {
            assert forall|k: int| 0 <= k < before.len() + 1 implies pendings_view(self.pending@)[k]
                == (pendings_view(before) + seq![(PendingV { id, client, query: qv })])[k] by {
                if k < before.len() {
                    assert(self.pending@[k] == before[k]);
                }
            }
            assert(pendings_view(self.pending@) =~= pendings_view(before) + seq![
                (PendingV { id, client, query: qv }),
            ]);
            assert(pendings_view(before) + seq![(PendingV { id, client, query: qv })]
                =~= pendings_view(before).push(PendingV { id, client, query: qv }));
            assert(self@ =~= query_step(old(self)@, client, qv).0);
        }
        outs
    }

    /// Handles an upstream response, exactly as `response_step` says: the
    /// returned action tells the caller what to send, and to whom.
    pub fn on_response(&mut self, resp: DnsPacket) -> (action: RespAction)
        ensures
            ({
                let (s2, a) = response_step(old(self)@, resp@);
                final(self)@ == s2 && action@ == a
            }),
    {
        let ghost rv = resp@;
        let id = resp.header.id;
        let pi = match self.find_pending(id) {
            Some(i) => i,
            None => {
                return RespAction::NoMatch;
            },
        };
        let n_questions = self.pending[pi].query.questions.len();
        proof {
            assert(self@.pending[pi as int] == self.pending@[pi as int]@);
        }
        if n_questions <= 1 {
            let client = self.pending[pi].client;
            let removed = self.pending.remove(pi);
            proof {
                assert(pendings_view(old(self).pending@.remove(pi as int)) =~= pendings_view(
                    old(self).pending@,
                ).remove(pi as int));
            }
            match self.find_partial(id) {
                Some(j) => {
                    let dropped = self.partial.remove(j);
                    proof {
                        assert(partials_view(old(self).partial@.remove(j as int)) =~= partials_view(
                            old(self).partial@,
                        ).remove(j as int));
                    }
                },
                None => {},
            }
            proof {
                assert(self@ =~= response_step(old(self)@, rv).0);
            }
            return RespAction::Reply { client, message: resp };
        }
        match self.find_partial(id) {
            None => {
                let client = self.pending[pi].client;
                let entry = PartialResponse { id, client, response: resp };
                proof {
                    assert(partials_view(self.partial@.push(entry)) =~= partials_view(
                        self.partial@,
                    ) + seq![entry@]);
                }
                self.partial.push(entry);
                proof {
                    assert(self@ =~= response_step(old(self)@, rv).0);
                }
                RespAction::Accumulated
            },
            Some(qi) => {
                let ghost before_partial = self.partial@;
                let mut acc = self.partial.remove(qi);
                proof {
                    assert(partials_view(before_partial)[qi as int] == before_partial[qi as int]@);
                    assert(partials_view(before_partial.remove(qi as int)) =~= partials_view(
                        before_partial,
                    ).remove(qi as int));
                }
                let ghost accv = acc@;
                let ghost merged = (PacketV {
                    header: accv.response.header,
                    questions: accv.response.questions + rv.questions,
                    answers: accv.response.answers + rv.answers,
                });
                let ghost acc0_q = acc.response.questions@;
                let ghost acc0_a = acc.response.answers@;
                let ghost resp_q = resp.questions@;
                let ghost resp_a = resp.answers@;
                let mut resp = resp;
                acc.response.questions.append(&mut resp.questions);
                acc.response.answers.append(&mut resp.answers);
                proof {
                    lemma_questions_view_concat(acc0_q, resp_q);
                    lemma_records_view_concat(acc0_a, resp_a);
                    assert(acc.response@ =~= merged);
                }
                if acc.response.answers.len() == n_questions {
                    let removed = self.pending.remove(pi);
                    proof {
                        assert(pendings_view(old(self).pending@.remove(pi as int))
                            =~= pendings_view(old(self).pending@).remove(pi as int));
                        assert(self@ =~= response_step(old(self)@, rv).0);
                    }
                    RespAction::Reply { client: acc.client, message: acc.response }
                } else {
                    let ghost held = self.partial@;
                    self.partial.insert(qi, acc);
                    proof {
                        assert(partials_view(held.insert(qi as int, acc)) =~= partials_view(
                            held,
                        ).insert(qi as int, acc@));
                        assert(partials_view(self.partial@) =~= partials_view(
                            before_partial,
                        ).update(qi as int, (PartialV {
                            id: accv.id,
                            client: accv.client,
                            response: merged,
                        })));
                        assert(self@ =~= response_step(old(self)@, rv).0);
                    }
                    RespAction::Accumulated
                }
            },
        }
    }
}

/// Splitting: a query with several questions produces exactly one forwarded
/// single-question message per question, each preserving the original
/// transaction id and the client-desired flags, with the question count
/// forced to one and QR forced back to a query; the original message is
/// recorded as a pending entry and the accumulators are untouched.
pub proof fn lemma_splitting(s: ForwarderV, client: u64, q: PacketV)
    requires
        q.questions.len() > 1,
    ensures
        ({
            let (s2, outs) = query_step(s, client, q);
            &&& outs.len() == q.questions.len()
            &&& forall|i: int|
                0 <= i < outs.len() ==> {
                    let o = #[trigger] outs[i];
                    &&& o.header.id == q.header.id
                    &&& !o.header.qr
                    &&& o.header.qdcount == 1
                    &&& o.header.opcode == q.header.opcode
                    &&& o.header.aa == q.header.aa
                    &&& o.header.tc == q.header.tc
                    &&& o.header.rd == q.header.rd
                    &&& o.header.ra == q.header.ra
                    &&& o.header.z == q.header.z
                    &&& o.header.rcode == q.header.rcode
                    &&& o.questions == seq![q.questions[i]]
                }
            &&& s2.pending == s.pending.push(PendingV { id: q.header.id, client, query: q })
            &&& s2.partial == s.partial
        }),
{
}

/// Single-question fast path: a response whose id matches a pending
/// single-question query is replied, unmodified, to that query's client;
/// the pending entry and any accumulator sharing the id are discarded.
pub proof fn lemma_fast_path(s: ForwarderV, r: PacketV, pi: int)
    requires
        0 <= pi < s.pending.len(),
        s.pending[pi].id == r.header.id,
        forall|j: int| 0 <= j < pi ==> s.pending[j].id != r.header.id,
        s.pending[pi].query.questions.len() <= 1,
    ensures
        response_step(s, r) == (
            ForwarderV {
                pending: s.pending.remove(pi),
                partial: remove_partial(s.partial, r.header.id),
            },
            ActionV::Reply { client: s.pending[pi].client, message: r },
        ),
{
    let ids = pending_ids(s.pending);
    assert forall|j: int| 0 <= j < pi implies ids[j] != r.header.id by {
        assert(ids[j] == s.pending[j].id);
    }
    assert(ids[pi] == s.pending[pi].id);
    lemma_find_first_is(ids, r.header.id, pi);
}

/// Unmatched response: one whose transaction id no pending entry carries
/// changes nothing and is reported, never a crash.
pub proof fn lemma_unmatched(s: ForwarderV, r: PacketV)
    requires
        forall|j: int| 0 <= j < s.pending.len() ==> (#[trigger] s.pending[j]).id != r.header.id,
    ensures
        response_step(s, r) == (s, ActionV::NoMatch),
{
    let ids = pending_ids(s.pending);
    assert forall|j: int| 0 <= j < ids.len() implies ids[j] != r.header.id by {
        assert(ids[j] == s.pending[j].id);
    }
    lemma_find_first_is(ids, r.header.id, ids.len() as int);
}

/// The engine's state and the actions it takes after a run of upstream
/// responses, in arrival order.
pub open spec fn run_responses(s: ForwarderV, rs: Seq<PacketV>) -> (ForwarderV, Seq<ActionV>)
    decreases rs.len(),
{
    if rs.len() == 0 {
        (s, Seq::empty())
    } else {
        let (s1, a) = response_step(s, rs[0]);
        let (s2, acts) = run_responses(s1, rs.drop_first());
        (s2, seq![a] + acts)
    }
}

/// The reply a completed reassembly sends: the first response's header, and
/// every received question and answer in arrival order.
pub open spec fn reassembled(
    first_header: DnsHeader,
    head_q: Seq<QuestionV>,
    head_a: Seq<RecordV>,
    rs: Seq<PacketV>,
) -> PacketV {
    PacketV {
        header: first_header,
        questions: head_q + Seq::new(rs.len(), |i: int| rs[i].questions[0]),
        answers: head_a + Seq::new(rs.len(), |i: int| rs[i].answers[0]),
    }
}

/// The induction behind reassembly: with an accumulator for `id` already
/// holding as many answers as questions, and exactly enough single-answer
/// responses left to reach the original question count, every response but
/// the last is accumulated and the last one completes the reply.
proof fn lemma_reassembly_go(s: ForwarderV, rs: Seq<PacketV>, id: u16, pi: int, qi: int)
    requires
        0 <= pi < s.pending.len(),
        s.pending[pi].id == id,
        forall|j: int| 0 <= j < pi ==> s.pending[j].id != id,
        0 <= qi < s.partial.len(),
        s.partial[qi].id == id,
        forall|j: int| 0 <= j < qi ==> s.partial[j].id != id,
        1 <= s.partial[qi].response.answers.len(),
        s.partial[qi].response.questions.len() == s.partial[qi].response.answers.len(),
        s.partial[qi].response.answers.len() + rs.len() == s.pending[pi].query.questions.len(),
        rs.len() >= 1,
        forall|i: int|
            0 <= i < rs.len() ==> {
                let r = #[trigger] rs[i];
                r.header.id == id && r.questions.len() == 1 && r.answers.len() == 1
            },
    ensures
        ({
            let (s2, acts) = run_responses(s, rs);
            &&& acts.len() == rs.len()
            &&& forall|k: int| 0 <= k < rs.len() - 1 ==> #[trigger] acts[k] == ActionV::Accumulated
            &&& acts[rs.len() - 1] == ActionV::Reply {
                client: s.partial[qi].client,
                message: reassembled(
                    s.partial[qi].response.header,
                    s.partial[qi].response.questions,
                    s.partial[qi].response.answers,
                    rs,
                ),
            }
            &&& s2.pending == s.pending.remove(pi)
            &&& s2.partial == s.partial.remove(qi)
        }),
    decreases rs.len(),
{
    let r = rs[0];
    let p_ids = pending_ids(s.pending);
    assert forall|j: int| 0 <= j < pi implies p_ids[j] != id by {
        assert(p_ids[j] == s.pending[j].id);
    }
    assert(p_ids[pi] == s.pending[pi].id);
    lemma_find_first_is(p_ids, id, pi);
    let q_ids = partial_ids(s.partial);
    assert forall|j: int| 0 <= j < qi implies q_ids[j] != id by {
        assert(q_ids[j] == s.partial[j].id);
    }
    assert(q_ids[qi] == s.partial[qi].id);
    lemma_find_first_is(q_ids, id, qi);
    let acc = s.partial[qi];
    let merged = PacketV {
        header: acc.response.header,
        questions: acc.response.questions + r.questions,
        answers: acc.response.answers + r.answers,
    };
    if rs.len() == 1 {
        // the last answer arrives: the merge is complete
        assert(merged.answers.len() == s.pending[pi].query.questions.len());
        assert(r.questions =~= seq![r.questions[0]]);
        assert(r.answers =~= seq![r.answers[0]]);
        assert(merged =~= reassembled(
            acc.response.header,
            acc.response.questions,
            acc.response.answers,
            rs,
        ));
        let (step1, a1) = response_step(s, r);
        assert(a1 == ActionV::Reply { client: acc.client, message: merged });
        assert(step1 =~= (ForwarderV {
            pending: s.pending.remove(pi),
            partial: s.partial.remove(qi),
        }));
        assert(rs.drop_first().len() == 0);
        reveal_with_fuel(run_responses, 2);
        let (s2, acts) = run_responses(s, rs);
        assert(s2 == step1);
        assert(acts =~= seq![a1]);
    } else {
        // one more answer is folded in and the accumulator stays
        assert(merged.answers.len() < s.pending[pi].query.questions.len());
        let acc2 = PartialV { id: acc.id, client: acc.client, response: merged };
        let s1 = ForwarderV { pending: s.pending, partial: s.partial.update(qi, acc2) };
        let (step1, a1) = response_step(s, r);
        assert(step1 =~= s1);
        assert(a1 == ActionV::Accumulated);
        let rest = rs.drop_first();
        assert forall|j: int| 0 <= j < qi implies s1.partial[j].id != id by {
            assert(s1.partial[j] == s.partial[j]);
        }
        assert forall|i: int|
            0 <= i < rest.len() implies {
                let rr = #[trigger] rest[i];
                rr.header.id == id && rr.questions.len() == 1 && rr.answers.len() == 1
            } by {
            assert(rest[i] == rs[i + 1]);
        }
        assert(r.questions =~= seq![r.questions[0]]);
        assert(r.answers =~= seq![r.answers[0]]);
        lemma_reassembly_go(s1, rest, id, pi, qi);
        let (s2, acts_rest) = run_responses(s1, rest);
        // the recursion's reply is the same reassembled message
        assert(s1.partial[qi].response.questions + Seq::new(rest.len(), |i: int| rest[i].questions[0])
            =~= acc.response.questions + Seq::new(rs.len(), |i: int| rs[i].questions[0]));
        assert(s1.partial[qi].response.answers + Seq::new(rest.len(), |i: int| rest[i].answers[0])
            =~= acc.response.answers + Seq::new(rs.len(), |i: int| rs[i].answers[0]));
        assert(reassembled(
            s1.partial[qi].response.header,
            s1.partial[qi].response.questions,
            s1.partial[qi].response.answers,
            rest,
        ) =~= reassembled(acc.response.header, acc.response.questions, acc.response.answers, rs));
        // both tables end as if the entry had been removed from the start
        assert(s1.partial.update(qi, acc2).remove(qi) =~= s.partial.remove(qi));
        let (s2w, acts) = run_responses(s, rs);
        assert(s2w == s2);
        assert(acts =~= seq![a1] + acts_rest);
        assert forall|k: int| 0 <= k < rs.len() - 1 implies #[trigger] acts[k]
            == ActionV::Accumulated by {
            if k > 0 {
                assert(acts[k] == acts_rest[k - 1]);
            }
        }
        assert(acts[rs.len() - 1] == acts_rest[rest.len() - 1]);
    }
}

/// Reassembly: given N single-answer upstream responses sharing a
/// transaction id tied to a pending N-question query (with no accumulator
/// for the id yet), the first N-1 responses are accumulated and the N-th
/// produces exactly one reply to the original client, holding every
/// received question and answer, positionally paired in arrival order —
/// none duplicated, none missing; the pending entry is discarded and the
/// accumulator table ends as it began.
pub proof fn lemma_reassembly(s: ForwarderV, rs: Seq<PacketV>, id: u16, pi: int)
    requires
        0 <= pi < s.pending.len(),
        s.pending[pi].id == id,
        forall|j: int| 0 <= j < pi ==> s.pending[j].id != id,
        s.pending[pi].query.questions.len() == rs.len(),
        rs.len() > 1,
        forall|j: int| 0 <= j < s.partial.len() ==> (#[trigger] s.partial[j]).id != id,
        forall|i: int|
            0 <= i < rs.len() ==> {
                let r = #[trigger] rs[i];
                r.header.id == id && r.questions.len() == 1 && r.answers.len() == 1
            },
    ensures
        ({
            let (s2, acts) = run_responses(s, rs);
            &&& acts.len() == rs.len()
            &&& forall|k: int| 0 <= k < rs.len() - 1 ==> #[trigger] acts[k] == ActionV::Accumulated
            &&& acts[rs.len() - 1] == ActionV::Reply {
                client: s.pending[pi].client,
                message: (PacketV {
                    header: rs[0].header,
                    questions: Seq::new(rs.len(), |i: int| rs[i].questions[0]),
                    answers: Seq::new(rs.len(), |i: int| rs[i].answers[0]),
                }),
            }
            &&& s2.pending == s.pending.remove(pi)
            &&& s2.partial == s.partial
        }),
{
    let r = rs[0];
    let p_ids = pending_ids(s.pending);
    assert forall|j: int| 0 <= j < pi implies p_ids[j] != id by {
        assert(p_ids[j] == s.pending[j].id);
    }
    assert(p_ids[pi] == s.pending[pi].id);
    lemma_find_first_is(p_ids, id, pi);
    let q_ids = partial_ids(s.partial);
    assert forall|j: int| 0 <= j < q_ids.len() implies q_ids[j] != id by {
        assert(q_ids[j] == s.partial[j].id);
    }
    lemma_find_first_is(q_ids, id, q_ids.len() as int);
    // the first response creates the accumulator at the end of the table
    let acc0 = PartialV { id, client: s.pending[pi].client, response: r };
    let s1 = ForwarderV { pending: s.pending, partial: s.partial.push(acc0) };
    let (step1, a1) = response_step(s, r);
    assert(step1 =~= s1);
    assert(a1 == ActionV::Accumulated);
    let qi = s.partial.len() as int;
    let rest = rs.drop_first();
    assert forall|j: int| 0 <= j < qi implies s1.partial[j].id != id by {
        assert(s1.partial[j] == s.partial[j]);
    }
    assert(s1.partial[qi] == acc0);
    assert forall|i: int|
        0 <= i < rest.len() implies {
            let rr = #[trigger] rest[i];
            rr.header.id == id && rr.questions.len() == 1 && rr.answers.len() == 1
        } by {
        assert(rest[i] == rs[i + 1]);
    }
    lemma_reassembly_go(s1, rest, id, pi, qi);
    let (s2, acts_rest) = run_responses(s1, rest);
    assert(r.questions =~= seq![r.questions[0]]);
    assert(r.answers =~= seq![r.answers[0]]);
    assert(reassembled(r.header, r.questions, r.answers, rest) =~= (PacketV {
        header: rs[0].header,
        questions: Seq::new(rs.len(), |i: int| rs[i].questions[0]),
        answers: Seq::new(rs.len(), |i: int| rs[i].answers[0]),
    }));
    assert(s1.partial.remove(qi) =~= s.partial);
    let (s2w, acts) = run_responses(s, rs);
    assert(s2w == s2);
    assert(acts =~= seq![a1] + acts_rest);
    assert forall|k: int| 0 <= k < rs.len() - 1 implies #[trigger] acts[k]
        == ActionV::Accumulated by {
        if k > 0 {
            assert(acts[k] == acts_rest[k - 1]);
        }
    }
    assert(acts[rs.len() - 1] == acts_rest[rest.len() - 1]);
}

} // verus!
