//! The walk along the path to the target: probes with increasing TTL, several per hop.

use vstd::prelude::*;

use crate::ip::{unspecified, IpAddr};
use crate::random::random_identifier;
use crate::traceroute::{from_target, is_from_target, ProbeReply};

verus! {

/// Maximum number of hops to trace.
pub const MAX_HOPS: u8 = 30;

/// Number of probes per hop.
pub const ATTEMPTS_PER_HOP: u32 = 3;

/// Time limit of a probe, in seconds.
pub const PROBE_TIMEOUT_SECS: u64 = 2;

// ---------------------------------------------------------------------------------------------
// Hops
// ---------------------------------------------------------------------------------------------

/// Data collected for a single hop on the path.
#[derive(Clone, Debug)]
pub struct HopData {
    pub hop_number: u8,
    /// The responder, or 0.0.0.0 where nobody answered
    pub ip: IpAddr,
    /// RTT measurements in nanoseconds
    pub rtts: Vec<u64>,
    pub packets_sent: u32,
    pub packets_received: u32,
}

/// What a [`HopData`] holds.
#[verifier::ext_equal]
pub struct HopDataView {
    pub hop_number: u8,
    pub ip: IpAddr,
    pub rtts: Seq<u64>,
    pub packets_sent: u32,
    pub packets_received: u32,
}

impl View for HopData {
    type V = HopDataView;

    open spec fn view(&self) -> HopDataView {
        HopDataView {
            hop_number: self.hop_number,
            ip: self.ip,
            rtts: self.rtts@,
            packets_sent: self.packets_sent,
            packets_received: self.packets_received,
        }
    }
}

/// What a list of hops holds.
pub open spec fn hop_data_views(hops: Seq<HopData>) -> Seq<HopDataView> {
    hops.map_values(|hop: HopData| hop@)
}

/// The answers among the replies to a hop's probes, in order.
pub open spec fn answers(replies: Seq<Option<ProbeReply>>) -> Seq<ProbeReply> {
    replies.filter(|reply: Option<ProbeReply>| reply is Some).map_values(
        |reply: Option<ProbeReply>| reply->0,
    )
}

/// The address of a hop: that of the first responder, or 0.0.0.0.
pub open spec fn responder(replies: Seq<Option<ProbeReply>>) -> IpAddr {
    if answers(replies).len() == 0 {
        unspecified()
    } else {
        answers(replies)[0].ip
    }
}

/// The hop that the replies to its probes make up.
pub open spec fn hop_from(number: u8, replies: Seq<Option<ProbeReply>>) -> HopDataView {
    HopDataView {
        hop_number: number,
        ip: responder(replies),
        rtts: answers(replies).map_values(|answer: ProbeReply| answer.rtt_ns),
        packets_sent: replies.len() as u32,
        packets_received: answers(replies).len() as u32,
    }
}

/// Whether the target itself answered one of a hop's probes.
pub open spec fn reaches_target(replies: Seq<Option<ProbeReply>>) -> bool {
    exists|i: int| 0 <= i < replies.len() && from_target(#[trigger] replies[i])
}

/// One more reply adds its answer, if it is one.
proof fn lemma_answers_push(replies: Seq<Option<ProbeReply>>, reply: Option<ProbeReply>)
    ensures
        answers(replies.push(reply)) == (match reply {
            Some(answer) => answers(replies).push(answer),
            None => answers(replies),
        }),
{
    reveal(Seq::filter);
    assert(replies.push(reply).drop_last() =~= replies);
    assert(answers(replies.push(reply)) =~= (match reply {
        Some(answer) => answers(replies).push(answer),
        None => answers(replies),
    }));
}

/// There are at most as many answers as probes.
proof fn lemma_answers_len(replies: Seq<Option<ProbeReply>>)
    ensures
        answers(replies).len() <= replies.len(),
    decreases replies.len(),
{
    if replies.len() > 0 {
        lemma_answers_len(replies.drop_last());
        lemma_answers_push(replies.drop_last(), replies.last());
        assert(replies.drop_last().push(replies.last()) =~= replies);
    } else {
        reveal(Seq::filter);
        assert(answers(replies).len() == 0);
    }
}

/// Puts together the hop that the replies to its probes make up.
fn collect_hop(number: u8, replies: &Vec<Option<ProbeReply>>) -> (r: (HopData, bool))
    requires
        replies@.len() <= u32::MAX,
    ensures
        r.0@ == hop_from(number, replies@),
        r.1 == reaches_target(replies@),
{
    let mut ip: IpAddr = IpAddr::V4(0);
    let mut rtts: Vec<u64> = Vec::new();
    let mut received: u32 = 0;
    let mut reached: bool = false;
    let mut i: usize = 0;
    proof {
        reveal(Seq::filter);
        assert(answers(replies@.take(0)).len() == 0);
    }
    while i < replies.len()
        invariant
            i <= replies@.len() <= u32::MAX,
            ip == responder(replies@.take(i as int)),
            rtts@ == answers(replies@.take(i as int)).map_values(
                |answer: ProbeReply| answer.rtt_ns,
            ),
            received == answers(replies@.take(i as int)).len() <= i,
            reached == reaches_target(replies@.take(i as int)),
        decreases replies@.len() - i,
    {
        let ghost before = replies@.take(i as int);
        let ghost after = replies@.take(i + 1);
        proof {
            assert(after =~= before.push(replies@[i as int]));
            lemma_answers_push(before, replies@[i as int]);
            assert(after[i as int] == replies@[i as int]);
            assert forall|j: int| 0 <= j < i implies after[j] == before[j] by {}
        }
        if is_from_target(&replies[i]) {
            reached = true;
            assert(from_target(after[i as int]));
        } else {
            assert(reached ==> reaches_target(after)) by {
                if reached {
                    let j = choose|j: int| 0 <= j < before.len() && from_target(before[j]);
                    assert(from_target(after[j]));
                }
            }
            assert(reaches_target(after) ==> reached) by {
                if reaches_target(after) {
                    let j = choose|j: int| 0 <= j < after.len() && from_target(after[j]);
                    assert(from_target(before[j]));
                }
            }
        }
        match replies[i] {
            Some(answer) => {
                if received == 0 {
                    ip = answer.ip;
                }
                rtts.push(answer.rtt_ns);
                received = received + 1;
                assert(rtts@ =~= answers(after).map_values(|answer: ProbeReply| answer.rtt_ns));
            },
            None => {},
        }
        i = i + 1;
    }
    proof {
        assert(replies@.take(i as int) =~= replies@);
    }
    let hop = HopData {
        hop_number: number,
        ip,
        rtts,
        packets_sent: replies.len() as u32,
        packets_received: received,
    };
    (hop, reached)
}

// ---------------------------------------------------------------------------------------------
// The walk
// ---------------------------------------------------------------------------------------------

/// A probe to send.
#[derive(Clone, Copy, Debug, PartialEq, Eq, Structural)]
pub struct ProbeRequest {
    pub ttl: u8,
    pub ident: u16,
    pub seq: u16,
}

/// A traceroute in progress.
#[derive(Clone, Debug)]
pub struct Trace {
    ident: u16,
    hops: Vec<HopData>,
    replies: Vec<Option<ProbeReply>>,
    target_reached: bool,
}

/// What a [`Trace`] holds: the identifier of its probes, the hops that are complete, the replies
/// so far to the probes of the current hop, and whether the target has answered.
#[verifier::ext_equal]
pub struct TraceView {
    pub ident: u16,
    pub hops: Seq<HopDataView>,
    pub replies: Seq<Option<ProbeReply>>,
    pub target_reached: bool,
}

impl TraceView {
    /// A traceroute that has sent nothing yet.
    pub open spec fn initial(ident: u16) -> TraceView {
        TraceView { ident, hops: Seq::empty(), replies: Seq::empty(), target_reached: false }
    }

    /// Whether no more probes are to be sent: the target has answered, or the last hop that may
    /// be probed is complete.
    pub open spec fn finished(self) -> bool {
        self.target_reached || self.hops.len() >= MAX_HOPS
    }

    /// What holds of every traceroute.
    pub open spec fn wf(self) -> bool {
        &&& self.hops.len() <= MAX_HOPS
        &&& self.replies.len() < ATTEMPTS_PER_HOP
        &&& self.finished() ==> self.replies.len() == 0
    }

    /// The probe to send next. Its TTL is the number of the current hop; every probe of a
    /// traceroute has its own sequence number.
    pub open spec fn next_probe(self) -> Option<ProbeRequest> {
        if self.finished() {
            None
        } else {
            Some(
                ProbeRequest {
                    ttl: (self.hops.len() + 1) as u8,
                    ident: self.ident,
                    seq: (self.hops.len() * ATTEMPTS_PER_HOP + self.replies.len()) as u16,
                },
            )
        }
    }

    /// The traceroute after the outcome of the next probe: the last probe of a hop completes it.
    pub open spec fn step(self, reply: Option<ProbeReply>) -> TraceView {
        let replies = self.replies.push(reply);
        if replies.len() < ATTEMPTS_PER_HOP {
            TraceView { replies, ..self }
        } else {
            TraceView {
                ident: self.ident,
                hops: self.hops.push(hop_from((self.hops.len() + 1) as u8, replies)),
                replies: Seq::empty(),
                target_reached: reaches_target(replies),
            }
        }
    }
}

impl View for Trace {
    type V = TraceView;

    closed spec fn view(&self) -> TraceView {
        TraceView {
            ident: self.ident,
            hops: hop_data_views(self.hops@),
            replies: self.replies@,
            target_reached: self.target_reached,
        }
    }
}

impl Trace {
    /// Starts a traceroute whose probes carry the given identifier.
    pub fn with_ident(ident: u16) -> (r: Trace)
        ensures
            r@ == TraceView::initial(ident),
            r@.wf(),
    {
        let r = Trace { ident, hops: Vec::new(), replies: Vec::new(), target_reached: false };
        assert(r@ =~= TraceView::initial(ident));
        r
    }

    /// Starts a traceroute whose probes carry a random identifier.
    pub fn start() -> (r: Trace)
        ensures
            exists|ident: u16| r@ == #[trigger] TraceView::initial(ident),
            r@.wf(),
    {
        Trace::with_ident(random_identifier())
    }

    /// The probe to send next, or `None` where the traceroute is finished.
    pub fn next_probe(&self) -> (r: Option<ProbeRequest>)
        requires
            self@.wf(),
        ensures
            r == self@.next_probe(),
    {
        if self.target_reached || self.hops.len() >= MAX_HOPS as usize {
            None
        } else {
            let seq: usize = self.hops.len() * (ATTEMPTS_PER_HOP as usize) + self.replies.len();
            Some(
                ProbeRequest {
                    ttl: (self.hops.len() + 1) as u8,
                    ident: self.ident,
                    seq: seq as u16,
                },
            )
        }
    }

    /// Takes note of the outcome of the next probe.
    pub fn record(&mut self, reply: Option<ProbeReply>)
        requires
            old(self)@.wf(),
            !old(self)@.finished(),
        ensures
            final(self)@ == old(self)@.step(reply),
            final(self)@.wf(),
    {
        let ghost before = self@;
        self.replies.push(reply);
        if self.replies.len() >= ATTEMPTS_PER_HOP as usize {
            let number: u8 = (self.hops.len() + 1) as u8;
            let (hop, reached) = collect_hop(number, &self.replies);
            self.hops.push(hop);
            self.replies = Vec::new();
            self.target_reached = reached;
        }
        assert(self@ =~= before.step(reply));
    }

    /// Hands out the hops found and whether the target was reached.
    pub fn finish(self) -> (r: (Vec<HopData>, bool))
        ensures
            hop_data_views(r.0@) == self@.hops,
            r.1 == self@.target_reached,
    {
        (self.hops, self.target_reached)
    }
}

// ---------------------------------------------------------------------------------------------
// Laws
// ---------------------------------------------------------------------------------------------

/// A traceroute after the outcomes of its first probes, in order; outcomes past its end are
/// ignored.
pub open spec fn trace_after(ident: u16, replies: Seq<Option<ProbeReply>>) -> TraceView
    decreases replies.len(),
{
    if replies.len() == 0 {
        TraceView::initial(ident)
    } else {
        let before = trace_after(ident, replies.drop_last());
        if before.finished() {
            before
        } else {
            before.step(replies.last())
        }
    }
}

/// The replies to the probes of hop number `i + 1`.
pub open spec fn replies_of_hop(replies: Seq<Option<ProbeReply>>, i: int) -> Seq<
    Option<ProbeReply>,
> {
    replies.subrange(i * ATTEMPTS_PER_HOP, (i + 1) * ATTEMPTS_PER_HOP)
}

/// The path that a traceroute finds, for all outcomes of its probes. Hops are numbered from 1
/// on without gaps, at most [`MAX_HOPS`] of them; each is made up of its own
/// [`ATTEMPTS_PER_HOP`] probes. The walk goes on past hops that do not answer, ends with the
/// first hop at which the target answers, and reports the target as reached exactly then. It
/// consumes every outcome until it is finished, and is finished after the probes of
/// [`MAX_HOPS`] hops at the latest.
pub proof fn law_trace_finds_the_path(ident: u16, replies: Seq<Option<ProbeReply>>)
    ensures
        ({
            let trace = trace_after(ident, replies);
            let found = trace.hops.len() as int;
            &&& trace.wf()
            &&& trace.ident == ident
            &&& found * ATTEMPTS_PER_HOP <= replies.len()
            &&& forall|i: int| #![trigger trace.hops[i]]
                0 <= i < found ==> trace.hops[i] == hop_from(
                    (i + 1) as u8,
                    replies_of_hop(replies, i),
                )
            &&& forall|i: int| 0 <= i < found - 1 ==> !reaches_target(
                #[trigger] replies_of_hop(replies, i),
            )
            &&& trace.target_reached <==> found > 0 && reaches_target(
                replies_of_hop(replies, found - 1),
            )
            &&& !trace.finished() ==> trace.replies == replies.skip(found * ATTEMPTS_PER_HOP)
            &&& replies.len() >= MAX_HOPS * ATTEMPTS_PER_HOP ==> trace.finished()
        }),
    decreases replies.len(),
{
    let trace = trace_after(ident, replies);
    if replies.len() == 0 {
        assert(trace.replies =~= replies.skip(0));
    } else {
        let shorter = replies.drop_last();
        law_trace_finds_the_path(ident, shorter);
        let before = trace_after(ident, shorter);
        let n = before.hops.len() as int;
        assert forall|i: int| 0 <= i < n implies #[trigger] replies_of_hop(replies, i)
            == replies_of_hop(shorter, i) by {
            assert((i + 1) * ATTEMPTS_PER_HOP <= n * ATTEMPTS_PER_HOP) by (nonlinear_arith)
                requires
                    i + 1 <= n,
            ;
            assert(replies_of_hop(replies, i) =~= replies_of_hop(shorter, i));
        }
        if !before.finished() {
            let last = replies.last();
            assert(before.replies == shorter.skip(n * ATTEMPTS_PER_HOP));
            if before.replies.len() + 1 < ATTEMPTS_PER_HOP {
                assert(trace.replies =~= replies.skip(n * ATTEMPTS_PER_HOP));
            } else {
                assert(before.replies.push(last) =~= replies_of_hop(replies, n));
                assert forall|i: int| 0 <= i < n implies !reaches_target(
                    #[trigger] replies_of_hop(replies, i),
                ) by {}
                assert(trace.replies =~= replies.skip((n + 1) * ATTEMPTS_PER_HOP));
            }
        }
    }
}

/// Every hop of a traceroute counts [`ATTEMPTS_PER_HOP`] probes sent, at most as many answers,
/// and one RTT per answer; it has the address 0.0.0.0 where nobody answered.
pub proof fn law_hop_counts(number: u8, replies: Seq<Option<ProbeReply>>)
    requires
        replies.len() == ATTEMPTS_PER_HOP,
    ensures
        hop_from(number, replies).packets_sent == ATTEMPTS_PER_HOP,
        hop_from(number, replies).packets_received <= ATTEMPTS_PER_HOP,
        hop_from(number, replies).rtts.len() == hop_from(number, replies).packets_received,
        (forall|i: int| 0 <= i < replies.len() ==> replies[i] is None) ==> hop_from(
            number,
            replies,
        ).ip == unspecified(),
{
    lemma_answers_len(replies);
    if forall|i: int| 0 <= i < replies.len() ==> replies[i] is None {
        lemma_no_answers(replies);
    }
}

/// Where nobody answered there are no answers.
proof fn lemma_no_answers(replies: Seq<Option<ProbeReply>>)
    requires
        forall|i: int| 0 <= i < replies.len() ==> replies[i] is None,
    ensures
        answers(replies).len() == 0,
    decreases replies.len(),
{
    if replies.len() > 0 {
        lemma_no_answers(replies.drop_last());
        lemma_answers_push(replies.drop_last(), replies.last());
        assert(replies.drop_last().push(replies.last()) =~= replies);
    } else {
        reveal(Seq::filter);
    }
}

/// No two probes of a traceroute share a sequence number, so an answer belongs to one of them.
pub proof fn law_sequence_numbers_differ(a: TraceView, b: TraceView)
    requires
        a.wf(),
        b.wf(),
        a.next_probe() is Some,
        b.next_probe() is Some,
        a.next_probe()->0.seq == b.next_probe()->0.seq,
    ensures
        a.hops.len() == b.hops.len(),
        a.replies.len() == b.replies.len(),
{
}

/// What the replies to a hop's probes make of it: every probe counts as sent, every answer as
/// received. The RTT of an answer stands at the place that the number of answers before it gives,
/// there are no other RTTs, and the hop has the address of its first answer.
pub proof fn law_hop_collects_every_answer(number: u8, replies: Seq<Option<ProbeReply>>)
    requires
        replies.len() <= u32::MAX,
    ensures
        ({
            let hop = hop_from(number, replies);
            let answered = replies.filter(|reply: Option<ProbeReply>| reply is Some);
            &&& hop.hop_number == number
            &&& hop.packets_sent == replies.len()
            &&& hop.packets_received == answered.len()
            &&& hop.rtts.len() == answered.len()
            &&& forall|i: int|
                0 <= i < replies.len() && (#[trigger] replies[i]) is Some ==> {
                    let place = replies.take(i).filter(
                        |reply: Option<ProbeReply>| reply is Some,
                    ).len() as int;
                    &&& place < hop.rtts.len()
                    &&& hop.rtts[place] == replies[i]->0.rtt_ns
                    &&& place == 0 ==> hop.ip == replies[i]->0.ip
                }
            &&& answered.len() == 0 ==> hop.ip == IpAddr::V4(0)
        }),
    decreases replies.len(),
{
    let is_answer = |reply: Option<ProbeReply>| reply is Some;
    let hop = hop_from(number, replies);
    reveal(Seq::filter);
    lemma_answers_len(replies);
    assert(replies.filter(is_answer).len() == answers(replies).len());
    if replies.len() > 0 {
        let shorter = replies.drop_last();
        let last = replies.last();
        law_hop_collects_every_answer(number, shorter);
        lemma_answers_push(shorter, last);
        assert(shorter.push(last) =~= replies);
        let before = hop_from(number, shorter);
        lemma_answers_len(shorter);
        assert(shorter.filter(is_answer).len() == answers(shorter).len());
        assert forall|i: int| 0 <= i < replies.len() && (#[trigger] replies[i]) is Some implies {
            let place = replies.take(i).filter(
                |reply: Option<ProbeReply>| reply is Some,
            ).len() as int;
            &&& place < hop.rtts.len()
            &&& hop.rtts[place] == replies[i]->0.rtt_ns
            &&& place == 0 ==> hop.ip == replies[i]->0.ip
        } by {
            if i < shorter.len() {
                assert(shorter[i] == replies[i]);
                assert(shorter.take(i) =~= replies.take(i));
                let place = shorter.take(i).filter(
                    |reply: Option<ProbeReply>| reply is Some,
                ).len() as int;
                assert(before.rtts[place] == replies[i]->0.rtt_ns);
                assert(hop.rtts[place] == before.rtts[place]);
            } else {
                assert(replies.take(i) =~= shorter);
            }
        }
    }
}

/// A hop that answers all of its probes has all of their RTTs, in order, and no loss.
pub proof fn law_hop_that_answers_everything(number: u8, replies: Seq<Option<ProbeReply>>)
    requires
        replies.len() <= u32::MAX,
        forall|i: int| 0 <= i < replies.len() ==> (#[trigger] replies[i]) is Some,
    ensures
        hop_from(number, replies).packets_received == replies.len(),
        hop_from(number, replies).packets_sent == replies.len(),
        hop_from(number, replies).rtts.len() == replies.len(),
        forall|i: int|
            0 <= i < replies.len() ==> #[trigger] hop_from(number, replies).rtts[i]
                == replies[i]->0.rtt_ns,
        replies.len() > 0 ==> hop_from(number, replies).ip == replies[0]->0.ip,
    decreases replies.len(),
{
    reveal(Seq::filter);
    if replies.len() > 0 {
        let shorter = replies.drop_last();
        law_hop_that_answers_everything(number, shorter);
        lemma_answers_push(shorter, replies.last());
        assert(shorter.push(replies.last()) =~= replies);
        lemma_answers_len(replies);
        lemma_answers_len(shorter);
        assert(answers(shorter).len() == shorter.len());
        let before = hop_from(number, shorter);
        let hop = hop_from(number, replies);
        assert forall|i: int| 0 <= i < replies.len() implies #[trigger] hop.rtts[i]
            == replies[i]->0.rtt_ns by {
            if i < shorter.len() {
                assert(before.rtts[i] == shorter[i]->0.rtt_ns);
                assert(hop.rtts[i] == before.rtts[i]);
            }
        }
    } else {
        assert(answers(replies).len() == 0);
    }
}

/// The target has answered a hop's probes exactly where one of the replies is an echo reply.
pub proof fn law_target_answers_by_echo_reply(replies: Seq<Option<ProbeReply>>)
    ensures
        reaches_target(replies) <==> exists|i: int|
            0 <= i < replies.len() && (#[trigger] replies[i]) is Some && replies[i]->0.response
                is EchoReply,
{
    if reaches_target(replies) {
        let i = choose|i: int| 0 <= i < replies.len() && from_target(#[trigger] replies[i]);
        assert(replies[i] is Some && replies[i]->0.response is EchoReply);
    }
    if exists|i: int|
        0 <= i < replies.len() && (#[trigger] replies[i]) is Some && replies[i]->0.response
            is EchoReply {
        let i = choose|i: int|
            0 <= i < replies.len() && (#[trigger] replies[i]) is Some && replies[i]->0.response
                is EchoReply;
        assert(from_target(replies[i]));
    }
}

/// The walk, told by its probes alone. Probe number `n`, counted from 0, has the sequence number
/// `n` and the TTL `n / 3 + 1`. Hop `i` is made of the replies to the probes `3 * i` to
/// `3 * i + 2`, and sends no others. The walk is over once a hop is complete among whose replies is
/// an echo reply, or after 90 probes, and not before.
pub proof fn law_walk_by_its_probes(ident: u16, replies: Seq<Option<ProbeReply>>)
    ensures
        ({
            let trace = trace_after(ident, replies);
            let found = trace.hops.len() as int;
            &&& trace.finished() <==> trace.next_probe() is None
            &&& !trace.finished() ==> {
                &&& replies.len() < 90
                &&& found == replies.len() / 3
                &&& trace.next_probe() == Some(
                    ProbeRequest {
                        ttl: (replies.len() / 3 + 1) as u8,
                        ident,
                        seq: replies.len() as u16,
                    },
                )
                &&& forall|p: int|
                    0 <= p < 3 * found ==> !((#[trigger] replies[p]) is Some
                        && replies[p]->0.response is EchoReply)
            }
            &&& trace.finished() ==> found == 30 || exists|p: int|
                3 * (found - 1) <= p < 3 * found && (#[trigger] replies[p]) is Some
                    && replies[p]->0.response is EchoReply
            &&& found <= 30 && 3 * found <= replies.len()
            &&& forall|p: int|
                0 <= p < 3 * (found - 1) ==> !((#[trigger] replies[p]) is Some
                    && replies[p]->0.response is EchoReply)
            &&& trace.target_reached <==> exists|p: int|
                0 <= p < 3 * found && (#[trigger] replies[p]) is Some && replies[p]->0.response
                    is EchoReply
            &&& forall|i: int|
                0 <= i < found ==> #[trigger] trace.hops[i] == hop_from(
                    (i + 1) as u8,
                    seq![replies[3 * i], replies[3 * i + 1], replies[3 * i + 2]],
                )
        }),
{
    let trace = trace_after(ident, replies);
    let found = trace.hops.len() as int;
    law_trace_finds_the_path(ident, replies);
    assert forall|i: int| 0 <= i < found implies #[trigger] trace.hops[i] == hop_from(
        (i + 1) as u8,
        seq![replies[3 * i], replies[3 * i + 1], replies[3 * i + 2]],
    ) by {
        assert(replies_of_hop(replies, i) =~= seq![
            replies[3 * i],
            replies[3 * i + 1],
            replies[3 * i + 2],
        ]);
    }
    assert forall|p: int| 0 <= p < 3 * (found - 1) implies !((#[trigger] replies[p]) is Some
        && replies[p]->0.response is EchoReply) by {
        let own = replies_of_hop(replies, p / 3);
        law_target_answers_by_echo_reply(own);
        assert(!reaches_target(own));
        assert(own[p % 3] == replies[p]);
    }
    if found > 0 {
        let own = replies_of_hop(replies, found - 1);
        law_target_answers_by_echo_reply(own);
        if trace.target_reached {
            let i = choose|i: int|
                0 <= i < own.len() && (#[trigger] own[i]) is Some && own[i]->0.response
                    is EchoReply;
            let p = 3 * (found - 1) + i;
            assert(replies[p] == own[i]);
        } else {
            assert forall|p: int| 3 * (found - 1) <= p < 3 * found implies !((
            #[trigger] replies[p]) is Some && replies[p]->0.response is EchoReply) by {
                assert(own[p - 3 * (found - 1)] == replies[p]);
            }
        }
    }
    if !trace.finished() {
        assert(trace.replies.len() == replies.len() - 3 * found);
    }
}

} // verus!
