//! Network engine: the hops on the path, and what to do with them.

use std::time::Instant;

use vstd::prelude::*;

use crate::app_state::{AppState, AppStateView, HopStateView};
use crate::ip::{ping_protocol, protocol_of, unspecified, IpAddr, PingProtocol};
use crate::random::random_identifier;
use crate::ratio::Ratio;
use crate::rolling::{last_n, law_rolling_buffer_keeps_the_latest, push_rolling, roll, rolled};
use crate::stats::{greatest, least, mean_jump, total};
use crate::stats::{is_max, is_min, jitter_of, jumps, max_of, min_of, sum};
use crate::trace::{hop_data_views, law_trace_finds_the_path, trace_after};
use crate::trace::{HopData, HopDataView, MAX_HOPS};
use crate::traceroute::ProbeReply;

verus! {

/// Number of RTT measurements that a hop keeps.
pub const MAX_RTTS: usize = 100;

// ---------------------------------------------------------------------------------------------
// Hops
// ---------------------------------------------------------------------------------------------

/// A single hop on the path.
#[derive(Clone, Debug)]
pub struct Hop {
    pub hop_number: u8,
    pub ip: IpAddr,
    pub hostname: Option<String>,
    /// Rolling buffer of the last RTT measurements, in nanoseconds
    pub rtts: Vec<u64>,
    /// Total packets sent to this hop
    pub packets_sent: u32,
    /// Total packets received (successful responses)
    pub packets_received: u32,
}

/// What a [`Hop`] holds.
#[verifier::ext_equal]
pub struct HopView {
    pub hop_number: u8,
    pub ip: IpAddr,
    pub hostname: Option<Seq<char>>,
    pub rtts: Seq<u64>,
    pub packets_sent: u32,
    pub packets_received: u32,
}

/// The characters of an optional string.
pub open spec fn text_of(s: Option<String>) -> Option<Seq<char>> {
    match s {
        Some(text) => Some(text@),
        None => None,
    }
}

impl HopView {
    /// A hop that was never probed.
    pub open spec fn initial(hop_number: u8, ip: IpAddr, hostname: Option<Seq<char>>) -> HopView {
        HopView {
            hop_number,
            ip,
            hostname,
            rtts: Seq::empty(),
            packets_sent: 0,
            packets_received: 0,
        }
    }
}

impl View for Hop {
    type V = HopView;

    open spec fn view(&self) -> HopView {
        HopView {
            hop_number: self.hop_number,
            ip: self.ip,
            hostname: text_of(self.hostname),
            rtts: self.rtts@,
            packets_sent: self.packets_sent,
            packets_received: self.packets_received,
        }
    }
}

impl Hop {
    /// A new hop with the given number and address.
    pub fn new(hop_number: u8, ip: IpAddr) -> (r: Hop)
        ensures
            r@ == HopView::initial(hop_number, ip, None),
            r@.hop_number == hop_number && r@.ip == ip && r@.hostname is None,
            r@.rtts.len() == 0 && r@.packets_sent == 0 && r@.packets_received == 0,
    {
        let r = Hop {
            hop_number,
            ip,
            hostname: None,
            rtts: Vec::with_capacity(MAX_RTTS),
            packets_sent: 0,
            packets_received: 0,
        };
        assert(r@ =~= HopView::initial(hop_number, ip, None));
        r
    }

    /// A new hop with an optional hostname.
    pub fn with_hostname(hop_number: u8, ip: IpAddr, hostname: Option<String>) -> (r: Hop)
        ensures
            r@ == HopView::initial(hop_number, ip, text_of(hostname)),
            r@.hop_number == hop_number && r@.ip == ip,
            hostname matches Some(name) ==> r@.hostname == Some(name@),
            hostname is None ==> r@.hostname is None,
            r@.rtts.len() == 0 && r@.packets_sent == 0 && r@.packets_received == 0,
    {
        let r = Hop {
            hop_number,
            ip,
            hostname,
            rtts: Vec::with_capacity(MAX_RTTS),
            packets_sent: 0,
            packets_received: 0,
        };
        assert(r@ =~= HopView::initial(hop_number, ip, text_of(hostname)));
        r
    }

    /// The percentage of packets lost, zero where none was sent.
    pub fn loss_percentage(&self) -> (r: Ratio)
        requires
            self@.packets_sent == 0 || self@.packets_received <= self@.packets_sent,
        ensures
            r == if self@.packets_sent == 0 {
                (Ratio { num: 0, den: 1 })
            } else {
                (Ratio {
                    num: ((self@.packets_sent - self@.packets_received) * 100) as u128,
                    den: self@.packets_sent as u64,
                })
            },
            r.valid(),
            !r.above(100),
    {
        if self.packets_sent == 0 {
            return Ratio { num: 0, den: 1 };
        }
        let lost: u128 = (self.packets_sent - self.packets_received) as u128;
        Ratio { num: lost * 100, den: self.packets_sent as u64 }
    }

    /// The average jitter in nanoseconds: the mean distance between consecutive RTTs.
    pub fn jitter(&self) -> (r: Ratio)
        ensures
            r == jitter_of(self@.rtts),
            self@.rtts.len() >= 2 ==> r.num == jumps(self@.rtts) && r.den == self@.rtts.len() - 1,
            r.valid(),
    {
        mean_jump(&self.rtts)
    }

    /// The least, average and greatest RTT in nanoseconds.
    pub fn rtt_stats(&self) -> (r: (Option<u64>, Option<Ratio>, Option<u64>))
        ensures
            r.0 == min_of(self@.rtts),
            r.1 == if self@.rtts.len() == 0 {
                None
            } else {
                Some(Ratio { num: sum(self@.rtts) as u128, den: self@.rtts.len() as u64 })
            },
            r.2 == max_of(self@.rtts),
            r.0 matches Some(lo) ==> is_min(self@.rtts, lo),
            r.1 matches Some(average) ==> {
                &&& average.num == sum(self@.rtts)
                &&& average.den == self@.rtts.len()
                &&& average.valid()
            },
            r.2 matches Some(hi) ==> is_max(self@.rtts, hi),
    {
        if self.rtts.len() == 0 {
            return (None, None, None);
        }
        let average = Ratio { num: total(&self.rtts), den: self.rtts.len() as u64 };
        (least(&self.rtts), Some(average), greatest(&self.rtts))
    }

    /// Adds an RTT measurement in nanoseconds; only the latest [`MAX_RTTS`] are kept.
    pub fn add_rtt(&mut self, rtt_ns: u64)
        ensures
            final(self)@ == (HopView {
                rtts: roll(old(self)@.rtts, MAX_RTTS as nat, rtt_ns),
                ..old(self)@
            }),
    {
        push_rolling(&mut self.rtts, MAX_RTTS, rtt_ns);
    }

    /// Whether the hop has answered at least once.
    pub fn is_alive(&self) -> (r: bool)
        ensures
            r == (self@.packets_received > 0),
    {
        self.packets_received > 0
    }
}

/// What a list of hops holds.
pub open spec fn hop_views(hops: Seq<Hop>) -> Seq<HopView> {
    hops.map_values(|hop: Hop| hop@)
}

/// The hop that a traceroute's data for it make up.
pub open spec fn hop_of(data: HopDataView) -> HopView {
    HopView {
        hop_number: data.hop_number,
        ip: data.ip,
        hostname: None,
        rtts: data.rtts,
        packets_sent: data.packets_sent,
        packets_received: data.packets_received,
    }
}

/// The hops of a traceroute that answered, in order.
pub open spec fn answering_hops(trace: Seq<HopDataView>) -> Seq<HopView> {
    trace.filter(|data: HopDataView| data.ip != unspecified()).map_values(
        |data: HopDataView| hop_of(data),
    )
}

/// One more hop is kept if it answered.
proof fn lemma_answering_push(trace: Seq<HopDataView>, data: HopDataView)
    ensures
        answering_hops(trace.push(data)) == if data.ip != unspecified() {
            answering_hops(trace).push(hop_of(data))
        } else {
            answering_hops(trace)
        },
{
    reveal(Seq::filter);
    assert(trace.push(data).drop_last() =~= trace);
    assert(answering_hops(trace.push(data)) =~= if data.ip != unspecified() {
        answering_hops(trace).push(hop_of(data))
    } else {
        answering_hops(trace)
    });
}

// ---------------------------------------------------------------------------------------------
// The engine
// ---------------------------------------------------------------------------------------------

/// Why the engine cannot do what it was asked for.
#[derive(Clone, Debug)]
pub enum EngineError {
    /// The lookup of the target gave no address.
    NoAddress(String),
    /// There are no hops to ping.
    NoHops,
}

impl EngineError {
    /// The text shown for the error.
    pub fn message(&self) -> (r: String)
        ensures
            r@ == (match self {
                EngineError::NoAddress(target) => "No IP address found for target: "@ + target@,
                EngineError::NoHops => "No hops to ping. Run traceroute first."@,
            }),
    {
        match self {
            EngineError::NoAddress(target) => {
                "No IP address found for target: ".to_owned().concat(target.as_str())
            },
            EngineError::NoHops => "No hops to ping. Run traceroute first.".to_owned(),
        }
    }
}

/// How to get the address of a target.
#[derive(Clone, Debug)]
pub enum Resolution {
    /// The target is an address itself.
    Address(IpAddr),
    /// The target is to be looked up under this name.
    Lookup(String),
}

/// Manages the path to a target and its pinging.
#[derive(Debug)]
pub struct NetworkEngine {
    target: String,
    hops: Vec<Hop>,
    is_running: bool,
}

/// What a [`NetworkEngine`] holds.
#[verifier::ext_equal]
pub struct EngineView {
    pub target: Seq<char>,
    pub hops: Seq<HopView>,
    pub is_running: bool,
}

impl EngineView {
    /// The engine after a traceroute that found the given hops.
    pub open spec fn traced(self, hops: Seq<HopView>) -> EngineView {
        EngineView { hops, ..self }
    }

    /// The engine after it was asked to ping continuously: it runs if it has hops.
    pub open spec fn started(self) -> EngineView {
        EngineView { is_running: self.is_running || self.hops.len() > 0, ..self }
    }

    /// The engine after it was asked to stop.
    pub open spec fn stopped(self) -> EngineView {
        EngineView { is_running: false, ..self }
    }
}

impl View for NetworkEngine {
    type V = EngineView;

    closed spec fn view(&self) -> EngineView {
        EngineView {
            target: self.target@,
            hops: hop_views(self.hops@),
            is_running: self.is_running,
        }
    }
}

impl NetworkEngine {
    /// A new engine for a hostname or an IP address.
    pub fn new(target: String) -> (r: NetworkEngine)
        ensures
            r@ == (EngineView { target: target@, hops: Seq::empty(), is_running: false }),
    {
        let r = NetworkEngine { target, hops: Vec::new(), is_running: false };
        assert(r@.hops =~= Seq::empty());
        r
    }

    /// Decides how to get the address of the target, given what it parses to as an address.
    pub fn resolve_target(&self, parsed: Option<IpAddr>) -> (r: Resolution)
        ensures
            match parsed {
                Some(ip) => r == Resolution::Address(ip),
                None => r matches Resolution::Lookup(name) && name@ == self@.target + ":80"@,
            },
    {
        match parsed {
            Some(ip) => Resolution::Address(ip),
            None => Resolution::Lookup(self.target.clone().concat(":80")),
        }
    }

    /// The address of the target among those that its lookup gave: the first one.
    pub fn first_address(&self, found: &Vec<IpAddr>) -> (r: Result<IpAddr, EngineError>)
        ensures
            found@.len() > 0 ==> r == Ok::<IpAddr, EngineError>(found@[0]),
            found@.len() == 0 ==> (r matches Err(EngineError::NoAddress(target)) && target@
                == self@.target),
    {
        if found.len() > 0 {
            Ok(found[0])
        } else {
            Err(EngineError::NoAddress(self.target.clone()))
        }
    }

    /// Replaces the hops by those that a traceroute found, leaving out hops that did not answer;
    /// a traceroute that failed (`None`) leaves no hops. Returns whether the target is to be
    /// pinged because the traceroute did not reach it.
    pub fn traceroute(&mut self, found: Option<(Vec<HopData>, bool)>) -> (r: bool)
        ensures
            final(self)@ == old(self)@.traced(
                match found {
                    Some((hops, _)) => answering_hops(hop_data_views(hops@)),
                    None => Seq::empty(),
                },
            ),
            r == (found matches Some((_, target_reached)) && !target_reached),
    {
        let ghost before = self@;
        self.hops.clear();
        proof {
            assert(self@.hops =~= Seq::empty());
        }
        let (trace, target_reached) = match found {
            Some(found) => found,
            None => {
                return false;
            },
        };
        let ghost views = hop_data_views(trace@);
        let mut i: usize = 0;
        proof {
            reveal(Seq::filter);
            assert(answering_hops(views.take(0)) =~= Seq::empty());
        }
        while i < trace.len()
            invariant
                i <= trace@.len(),
                views == hop_data_views(trace@),
                self@ == before.traced(answering_hops(views.take(i as int))),
            decreases trace@.len() - i,
        {
            let data = &trace[i];
            let ghost previous = self@;
            proof {
                assert(views[i as int] == data@);
                assert(views.take(i + 1) =~= views.take(i as int).push(views[i as int]));
                lemma_answering_push(views.take(i as int), views[i as int]);
            }
            // A hop that timed out adds nothing
            if data.ip != IpAddr::unspecified_v4() {
                let mut hop = Hop::new(data.hop_number, data.ip);
                hop.rtts = data.rtts.clone();
                hop.packets_sent = data.packets_sent;
                hop.packets_received = data.packets_received;
                proof {
                    assert(hop.rtts@ =~= data.rtts@);
                    assert(hop@ =~= hop_of(views[i as int]));
                }
                self.hops.push(hop);
                proof {
                    assert(self@.hops =~= previous.hops.push(hop@));
                }
            }
            i = i + 1;
        }
        proof {
            assert(views.take(i as int) =~= views);
        }
        !target_reached
    }

    /// Starts continuous pinging of all hops. `Ok(None)` where it is running already; else the
    /// rounds of pings to run.
    pub fn start_continuous_ping(&mut self) -> (r: Result<Option<PingLoop>, EngineError>)
        ensures
            final(self)@ == old(self)@.started(),
            match r {
                Ok(None) => old(self)@.is_running,
                Ok(Some(rounds)) => {
                    &&& !old(self)@.is_running && old(self)@.hops.len() > 0
                    &&& rounds@ == PingLoopView::initial(old(self)@.hops)
                },
                Err(e) => !old(self)@.is_running && old(self)@.hops.len() == 0 && e
                    == EngineError::NoHops,
            },
    {
        if self.is_running {
            return Ok(None);
        }
        if self.hops.len() == 0 {
            return Err(EngineError::NoHops);
        }
        self.is_running = true;
        Ok(Some(PingLoop::new(&self.hops)))
    }

    /// Stops continuous pinging. Returns whether it was running, so that its task is to be
    /// aborted.
    pub fn stop(&mut self) -> (r: bool)
        ensures
            final(self)@ == old(self)@.stopped(),
            r == old(self)@.is_running,
    {
        if self.is_running {
            self.is_running = false;
            true
        } else {
            false
        }
    }

    /// The hops on the path.
    pub fn hops(&self) -> (r: &Vec<Hop>)
        ensures
            hop_views(r@) == self@.hops,
    {
        &self.hops
    }

    /// Whether continuous ping is running.
    pub fn is_running(&self) -> (r: bool)
        ensures
            r == self@.is_running,
    {
        self.is_running
    }

    /// The target hostname or IP address.
    pub fn target(&self) -> (r: &str)
        ensures
            r@ == self@.target,
    {
        self.target.as_str()
    }

    /// The number of hops on the path.
    pub fn hop_count(&self) -> (r: usize)
        ensures
            r == self@.hops.len(),
    {
        self.hops.len()
    }
}

// ---------------------------------------------------------------------------------------------
// Continuous ping
// ---------------------------------------------------------------------------------------------

/// Number of rounds between progress reports.
pub const PROGRESS_ROUNDS: u64 = 60;

/// A hop to ping.
#[derive(Clone, Copy, Debug, PartialEq, Eq, Structural)]
pub struct PingTarget {
    pub hop_number: u8,
    pub ip: IpAddr,
}

/// A ping to send: the hop, the protocol, and the identifier.
#[derive(Clone, Copy, Debug, PartialEq, Eq, Structural)]
pub struct PingRequest {
    pub target: PingTarget,
    pub protocol: PingProtocol,
    pub ident: u16,
}

/// The rounds of a continuous ping. Every round pings each hop once; the pings of a round run
/// side by side, and a round does not wait for the outcomes of the one before.
#[derive(Debug)]
pub struct PingLoop {
    targets: Vec<PingTarget>,
    protocol: PingProtocol,
    rounds: u64,
}

/// What a [`PingLoop`] holds: the hops, the protocol, and the number of rounds begun.
#[verifier::ext_equal]
pub struct PingLoopView {
    pub targets: Seq<PingTarget>,
    pub protocol: PingProtocol,
    pub rounds: u64,
}

/// The hops to ping, in order.
pub open spec fn targets_of(hops: Seq<HopView>) -> Seq<PingTarget> {
    hops.map_values(|hop: HopView| PingTarget { hop_number: hop.hop_number, ip: hop.ip })
}

/// The protocol for a path: that of its first hop, ICMPv4 for an empty path.
pub open spec fn protocol_for(hops: Seq<HopView>) -> PingProtocol {
    if hops.len() == 0 {
        PingProtocol::V4
    } else {
        protocol_of(hops[0].ip)
    }
}

/// The history of a hop with the outcome of a ping: its RTT, or `None` for a failure.
pub open spec fn history_with_outcome(
    history: HopStateView,
    at: Instant,
    outcome: Option<u64>,
) -> HopStateView {
    match outcome {
        Some(rtt_ns) => history.record(at, rtt_ns, true),
        None => history.record(at, 0, false),
    }
}

/// The state with the outcome of a ping to a hop: its RTT, or `None` for a failure.
pub open spec fn with_outcome(
    state: AppStateView,
    hop_number: u8,
    at: Instant,
    outcome: Option<u64>,
) -> AppStateView {
    match outcome {
        Some(rtt_ns) => state.record(hop_number, at, rtt_ns, true),
        None => state.record(hop_number, at, 0, false),
    }
}

impl PingLoopView {
    /// A continuous ping before its first round.
    pub open spec fn initial(hops: Seq<HopView>) -> PingLoopView {
        PingLoopView { targets: targets_of(hops), protocol: protocol_for(hops), rounds: 0 }
    }

    /// The continuous ping in its next round.
    pub open spec fn next_round(self) -> PingLoopView {
        PingLoopView { rounds: self.rounds.wrapping_add(1), ..self }
    }

    /// The pings of a round, with an identifier for each.
    pub open spec fn requests(self, idents: Seq<u16>) -> Seq<PingRequest> {
        Seq::new(
            self.targets.len(),
            |i: int|
                PingRequest {
                    target: self.targets[i],
                    protocol: self.protocol,
                    ident: idents[i],
                },
        )
    }

    /// The number of rounds to report: every [`PROGRESS_ROUNDS`] rounds.
    pub open spec fn progress(self) -> Option<u64> {
        if self.rounds > 0 && self.rounds % PROGRESS_ROUNDS == 0 {
            Some(self.rounds)
        } else {
            None
        }
    }
}

impl View for PingLoop {
    type V = PingLoopView;

    closed spec fn view(&self) -> PingLoopView {
        PingLoopView { targets: self.targets@, protocol: self.protocol, rounds: self.rounds }
    }
}

/// Takes note of the outcome of a ping to a hop at the given time.
pub fn record_outcome_at(state: &mut AppState, hop_number: u8, at: Instant, outcome: Option<u64>)
    ensures
        final(state)@ == with_outcome(old(state)@, hop_number, at, outcome),
{
    match outcome {
        Some(rtt_ns) => state.add_ping_result_at(hop_number, at, rtt_ns, true),
        None => state.add_ping_result_at(hop_number, at, 0, false),
    }
}

/// Takes note of the outcome of a ping to a hop now.
pub fn record_outcome(state: &mut AppState, hop_number: u8, outcome: Option<u64>)
    ensures
        exists|at: Instant|
            final(state)@ == #[trigger] with_outcome(old(state)@, hop_number, at, outcome),
{
    let ghost before = state@;
    match outcome {
        Some(rtt_ns) => state.add_ping_result(hop_number, rtt_ns, true),
        None => state.add_ping_result(hop_number, 0, false),
    }
    proof {
        let (rtt_ns, success) = match outcome {
            Some(rtt_ns) => (rtt_ns, true),
            None => (0, false),
        };
        let at = choose|at: Instant| state@ == before.record(hop_number, at, rtt_ns, success);
        assert(state@ == with_outcome(before, hop_number, at, outcome));
    }
}

/// Draws random identifiers.
fn draw_identifiers(count: usize) -> (r: Vec<u16>)
    ensures
        r@.len() == count,
{
    let mut idents: Vec<u16> = Vec::new();
    let mut i: usize = 0;
    while i < count
        invariant
            i <= count,
            idents@.len() == i,
        decreases count - i,
    {
        idents.push(random_identifier());
        i = i + 1;
    }
    idents
}

impl PingLoop {
    /// A continuous ping of the given hops before its first round.
    pub fn new(hops: &Vec<Hop>) -> (r: PingLoop)
        ensures
            r@ == PingLoopView::initial(hop_views(hops@)),
    {
        let ghost views = hop_views(hops@);
        let mut targets: Vec<PingTarget> = Vec::new();
        let mut i: usize = 0;
        while i < hops.len()
            invariant
                i <= hops@.len(),
                views == hop_views(hops@),
                targets@.len() == i,
                forall|j: int| 0 <= j < i ==> targets@[j] == targets_of(views)[j],
            decreases hops@.len() - i,
        {
            targets.push(PingTarget { hop_number: hops[i].hop_number, ip: hops[i].ip });
            i = i + 1;
        }
        let protocol = if hops.len() > 0 {
            ping_protocol(hops[0].ip)
        } else {
            PingProtocol::V4
        };
        let r = PingLoop { targets, protocol, rounds: 0 };
        assert(r@ =~= PingLoopView::initial(views));
        r
    }

    /// The pings of a round, with the given identifiers, one for each hop.
    pub fn requests(&self, idents: &Vec<u16>) -> (r: Vec<PingRequest>)
        requires
            idents@.len() == self@.targets.len(),
        ensures
            r@ == self@.requests(idents@),
    {
        let mut requests: Vec<PingRequest> = Vec::new();
        let mut i: usize = 0;
        while i < self.targets.len()
            invariant
                i <= self.targets@.len(),
                idents@.len() == self.targets@.len(),
                requests@.len() == i,
                forall|j: int|
                    0 <= j < i ==> #[trigger] requests@[j] == self@.requests(idents@)[j],
            decreases self.targets@.len() - i,
        {
            requests.push(
                PingRequest {
                    target: self.targets[i],
                    protocol: self.protocol,
                    ident: idents[i],
                },
            );
            i = i + 1;
        }
        assert(requests@ =~= self@.requests(idents@));
        requests
    }

    /// Begins the next round and returns its pings, with random identifiers.
    pub fn begin_round(&mut self) -> (r: Vec<PingRequest>)
        ensures
            final(self)@ == old(self)@.next_round(),
            exists|idents: Seq<u16>|
                idents.len() == old(self)@.targets.len() && r@
                    == #[trigger] final(self)@.requests(idents),
    {
        self.rounds = self.rounds.wrapping_add(1);
        let idents = draw_identifiers(self.targets.len());
        self.requests(&idents)
    }

    /// The number of rounds to report, if it is time to.
    pub fn progress(&self) -> (r: Option<u64>)
        ensures
            r == self@.progress(),
    {
        if self.rounds > 0 && self.rounds % PROGRESS_ROUNDS == 0 {
            Some(self.rounds)
        } else {
            None
        }
    }
}

// ---------------------------------------------------------------------------------------------
// Reachability
// ---------------------------------------------------------------------------------------------

/// Number of pings that decide whether a target is reachable.
pub const REACHABILITY_PINGS: u16 = 3;

/// Identifier of the pings that decide whether a target is reachable.
pub const REACHABILITY_IDENT: u16 = 0x1234;

/// What to do next to find out whether a target is reachable.
#[derive(Clone, Copy, Debug, PartialEq, Eq, Structural)]
pub enum ReachStep {
    /// Ping it with this sequence number.
    Ping(u16),
    /// It is reachable.
    Reachable,
    /// It is not, as far as can be told.
    Unreachable,
}

/// The first step for a target: IPv6 targets are not pinged.
pub open spec fn first_reach_step(target: IpAddr) -> ReachStep {
    match target {
        IpAddr::V4(_) => ReachStep::Ping(0),
        IpAddr::V6(_) => ReachStep::Unreachable,
    }
}

/// The step after the ping with the given sequence number: the first reply decides.
pub open spec fn next_reach_step(seq: u16, replied: bool) -> ReachStep {
    if replied {
        ReachStep::Reachable
    } else if seq + 1 < REACHABILITY_PINGS {
        ReachStep::Ping((seq + 1) as u16)
    } else {
        ReachStep::Unreachable
    }
}

/// Begins to find out whether a target is reachable.
pub fn ping_target(target: IpAddr) -> (r: ReachStep)
    ensures
        r == first_reach_step(target),
{
    if target.is_ipv6() {
        ReachStep::Unreachable
    } else {
        ReachStep::Ping(0)
    }
}

/// Goes on after the outcome of a ping.
pub fn ping_target_again(seq: u16, replied: bool) -> (r: ReachStep)
    requires
        seq < REACHABILITY_PINGS,
    ensures
        r == next_reach_step(seq, replied),
{
    if replied {
        ReachStep::Reachable
    } else if seq + 1 < REACHABILITY_PINGS {
        ReachStep::Ping(seq + 1)
    } else {
        ReachStep::Unreachable
    }
}

/// Where the steps lead from `step` on, `replied` telling for each sequence number whether its
/// ping is answered.
pub open spec fn reach_outcome(step: ReachStep, replied: spec_fn(int) -> bool) -> ReachStep
    decreases
            (match step {
                ReachStep::Ping(seq) => REACHABILITY_PINGS - seq,
                _ => 0,
            }),
{
    match step {
        ReachStep::Ping(seq) => if seq < REACHABILITY_PINGS {
            reach_outcome(next_reach_step(seq, replied(seq as int)), replied)
        } else {
            step
        },
        _ => step,
    }
}

// ---------------------------------------------------------------------------------------------
// Laws
// ---------------------------------------------------------------------------------------------

/// An IPv4 target is reachable exactly where one of its first [`REACHABILITY_PINGS`] pings is
/// answered, and unreachable otherwise; an IPv6 target counts as unreachable.
pub proof fn law_reachable_iff_a_ping_is_answered(target: IpAddr, replied: spec_fn(int) -> bool)
    ensures
        reach_outcome(first_reach_step(target), replied) == if target is V4 && exists|seq: int|
            0 <= seq < REACHABILITY_PINGS && #[trigger] replied(seq) {
            ReachStep::Reachable
        } else {
            ReachStep::Unreachable
        },
{
    reveal_with_fuel(reach_outcome, 5);
    assert(replied(0) || replied(1) || replied(2) <==> exists|seq: int|
        0 <= seq < REACHABILITY_PINGS && #[trigger] replied(seq)) by {
        if exists|seq: int| 0 <= seq < REACHABILITY_PINGS && #[trigger] replied(seq) {
            let seq = choose|seq: int| 0 <= seq < REACHABILITY_PINGS && #[trigger] replied(seq);
            assert(seq == 0 || seq == 1 || seq == 2);
        }
    }
}

/// Starting is idempotent, stopping undoes starting and keeps the hops, and an engine without
/// hops cannot be started.
pub proof fn law_start_and_stop(engine: EngineView)
    ensures
        engine.started().started() == engine.started(),
        engine.started().is_running <==> engine.is_running || engine.hops.len() > 0,
        !engine.started().stopped().is_running,
        !engine.is_running ==> engine.started().stopped() == engine,
        engine.started().stopped().hops == engine.hops,
        engine.started().stopped().target == engine.target,
{
}

/// Whether the hop numbers of a traceroute ascend.
pub open spec fn ascending(trace: Seq<HopDataView>) -> bool {
    forall|i: int, j: int| 0 <= i < j < trace.len() ==> trace[i].hop_number < trace[j].hop_number
}

/// The hops that an engine keeps are exactly those of the traceroute that answered, in its order:
/// where the hop numbers of the traceroute ascend, so do those of the engine.
pub proof fn law_engine_keeps_answering_hops_in_order(trace: Seq<HopDataView>)
    ensures
        forall|i: int|
            0 <= i < answering_hops(trace).len() ==> (#[trigger] answering_hops(trace)[i]).ip
                != unspecified(),
        ascending(trace) ==> (forall|i: int, j: int|
            0 <= i < j < answering_hops(trace).len() ==> answering_hops(trace)[i].hop_number
                < answering_hops(trace)[j].hop_number),
        forall|k: int|
            0 <= k < trace.len() && (#[trigger] trace[k]).ip != unspecified() ==> answering_hops(
                trace,
            ).contains(hop_of(trace[k])),
        forall|i: int|
            0 <= i < answering_hops(trace).len() ==> exists|k: int|
                0 <= k < trace.len() && #[trigger] hop_of(trace[k]) == #[trigger] answering_hops(
                    trace,
                )[i],
    decreases trace.len(),
{
    let kept = answering_hops(trace);
    if trace.len() == 0 {
        reveal(Seq::filter);
        assert(kept.len() == 0);
    } else {
        let shorter = trace.drop_last();
        let before = answering_hops(shorter);
        law_engine_keeps_answering_hops_in_order(shorter);
        lemma_answering_push(shorter, trace.last());
        assert(shorter.push(trace.last()) =~= trace);
        assert forall|i: int| 0 <= i < kept.len() implies exists|k: int|
            0 <= k < trace.len() && #[trigger] hop_of(trace[k]) == #[trigger] kept[i] by {
            if i < before.len() {
                let k = choose|k: int|
                    0 <= k < shorter.len() && #[trigger] hop_of(shorter[k]) == before[i];
                assert(hop_of(trace[k]) == kept[i]);
            } else {
                assert(hop_of(trace[trace.len() - 1]) == kept[i]);
            }
        }
        assert forall|k: int|
            0 <= k < trace.len() && (#[trigger] trace[k]).ip != unspecified() implies kept.contains(
            hop_of(trace[k]),
        ) by {
            if k < shorter.len() {
                assert(shorter[k] == trace[k]);
                let i = choose|i: int| 0 <= i < before.len() && before[i] == hop_of(trace[k]);
                assert(kept[i] == hop_of(trace[k]));
            } else {
                assert(kept.last() == hop_of(trace[k]));
            }
        }
        assert forall|i: int, j: int|
            ascending(trace) && 0 <= i < j < kept.len() implies kept[i].hop_number
            < kept[j].hop_number by {
            assert(ascending(shorter)) by {
                assert forall|a: int, b: int| 0 <= a < b < shorter.len() implies
                    shorter[a].hop_number < shorter[b].hop_number by {
                    assert(trace[a].hop_number < trace[b].hop_number);
                }
            }
            if j >= before.len() {
                let m = choose|m: int|
                    0 <= m < shorter.len() && #[trigger] hop_of(shorter[m]) == before[i];
                assert(trace[m].hop_number < trace[trace.len() - 1].hop_number);
            }
        }
    }
}

/// The outcome of a ping to a hop, and when it came in.
pub struct PingOutcome {
    pub hop_number: u8,
    pub at: Instant,
    pub outcome: Option<u64>,
}

/// The state after the given outcomes, in the order in which they came in.
pub open spec fn after_outcomes(state: AppStateView, outcomes: Seq<PingOutcome>) -> AppStateView
    decreases outcomes.len(),
{
    if outcomes.len() == 0 {
        state
    } else {
        let last = outcomes.last();
        with_outcome(
            after_outcomes(state, outcomes.drop_last()),
            last.hop_number,
            last.at,
            last.outcome,
        )
    }
}

/// The history of a hop after the given outcomes of its own pings.
pub open spec fn history_after_outcomes(
    history: HopStateView,
    outcomes: Seq<PingOutcome>,
) -> HopStateView
    decreases outcomes.len(),
{
    if outcomes.len() == 0 {
        history
    } else {
        history_with_outcome(
            history_after_outcomes(history, outcomes.drop_last()),
            outcomes.last().at,
            outcomes.last().outcome,
        )
    }
}

/// The outcomes of a hop's own pings, in order.
pub open spec fn outcomes_of(outcomes: Seq<PingOutcome>, hop_number: u8) -> Seq<PingOutcome> {
    outcomes.filter(|outcome: PingOutcome| outcome.hop_number == hop_number)
}

/// Pings of several hops can run side by side: however their outcomes are interleaved, the
/// history of a hop depends on the outcomes of its own pings alone.
pub proof fn law_pings_do_not_disturb_each_other(
    state: AppStateView,
    outcomes: Seq<PingOutcome>,
    hop_number: u8,
)
    ensures
        after_outcomes(state, outcomes).hop_or_fresh(hop_number) == history_after_outcomes(
            state.hop_or_fresh(hop_number),
            outcomes_of(outcomes, hop_number),
        ),
    decreases outcomes.len(),
{
    reveal(Seq::filter);
    if outcomes.len() > 0 {
        let shorter = outcomes.drop_last();
        let own = outcomes_of(shorter, hop_number);
        law_pings_do_not_disturb_each_other(state, shorter, hop_number);
        if outcomes.last().hop_number == hop_number {
            assert(outcomes_of(outcomes, hop_number) =~= own.push(outcomes.last()));
            assert(own.push(outcomes.last()).drop_last() =~= own);
        } else {
            assert(outcomes_of(outcomes, hop_number) =~= own);
        }
    }
}

/// A round of pings gives every hop exactly one more result, its own, and no other hop any, in
/// whatever order the outcomes come in: where hop numbers do not repeat.
pub proof fn law_round_gives_each_hop_its_result(state: AppStateView, outcomes: Seq<PingOutcome>)
    requires
        forall|i: int, j: int|
            0 <= i < j < outcomes.len() ==> outcomes[i].hop_number != outcomes[j].hop_number,
    ensures
        forall|i: int|
            0 <= i < outcomes.len() ==> after_outcomes(state, outcomes).hop_or_fresh(
                (#[trigger] outcomes[i]).hop_number,
            ) == history_with_outcome(
                state.hop_or_fresh(outcomes[i].hop_number),
                outcomes[i].at,
                outcomes[i].outcome,
            ),
        forall|k: u8|
            (forall|i: int| 0 <= i < outcomes.len() ==> (#[trigger] outcomes[i]).hop_number != k)
                ==> #[trigger] after_outcomes(state, outcomes).hop_or_fresh(k)
                == state.hop_or_fresh(k),
    decreases outcomes.len(),
{
    if outcomes.len() > 0 {
        let shorter = outcomes.drop_last();
        let last = outcomes.last();
        law_round_gives_each_hop_its_result(state, shorter);
        let before = after_outcomes(state, shorter);
        let after = after_outcomes(state, outcomes);
        assert forall|i: int| 0 <= i < shorter.len() implies (#[trigger] shorter[i]).hop_number
            != last.hop_number by {
            assert(outcomes[i].hop_number != outcomes[outcomes.len() - 1].hop_number);
        }
        assert(before.hop_or_fresh(last.hop_number) == state.hop_or_fresh(last.hop_number));
        assert forall|i: int| 0 <= i < outcomes.len() implies after.hop_or_fresh(
            (#[trigger] outcomes[i]).hop_number,
        ) == history_with_outcome(
            state.hop_or_fresh(outcomes[i].hop_number),
            outcomes[i].at,
            outcomes[i].outcome,
        ) by {
            if i < shorter.len() {
                assert(shorter[i] == outcomes[i]);
                assert(after.hop_or_fresh(shorter[i].hop_number) == before.hop_or_fresh(
                    shorter[i].hop_number,
                ));
            }
        }
        assert forall|k: u8|
            (forall|i: int| 0 <= i < outcomes.len() ==> (#[trigger] outcomes[i]).hop_number != k)
            implies #[trigger] after.hop_or_fresh(k) == state.hop_or_fresh(k) by {
            assert(outcomes[outcomes.len() - 1].hop_number != k);
            assert forall|i: int| 0 <= i < shorter.len() implies (#[trigger] shorter[i]).hop_number
                != k by {
                assert(outcomes[i].hop_number != k);
            }
            assert(before.hop_or_fresh(k) == state.hop_or_fresh(k));
            assert(after.hop_or_fresh(k) == before.hop_or_fresh(k));
        }
    }
}

/// The hops that an engine keeps of a traceroute, for all outcomes of its probes: they are
/// numbered from 1 up to [`MAX_HOPS`], in ascending order, and all of them have an address.
pub proof fn law_traced_hops_are_in_path_order(ident: u16, replies: Seq<Option<ProbeReply>>)
    ensures
        ({
            let hops = answering_hops(trace_after(ident, replies).hops);
            &&& forall|i: int|
                0 <= i < hops.len() ==> 1 <= (#[trigger] hops[i]).hop_number <= MAX_HOPS
                    && hops[i].ip != unspecified()
            &&& forall|i: int, j: int|
                0 <= i < j < hops.len() ==> hops[i].hop_number < hops[j].hop_number
        }),
{
    let trace = trace_after(ident, replies).hops;
    let hops = answering_hops(trace);
    law_trace_finds_the_path(ident, replies);
    assert forall|i: int| 0 <= i < trace.len() implies (#[trigger] trace[i]).hop_number == i
        + 1 by {}
    law_engine_keeps_answering_hops_in_order(trace);
    assert forall|i: int| 0 <= i < hops.len() implies 1 <= (#[trigger] hops[i]).hop_number
        <= MAX_HOPS by {
        let k = choose|k: int| 0 <= k < trace.len() && #[trigger] hop_of(trace[k]) == hops[i];
        assert(trace[k].hop_number == k + 1);
    }
}

/// A hop that starts without measurements keeps exactly its last [`MAX_RTTS`] ones, in order.
pub proof fn law_hop_keeps_the_latest_rtts(measured: Seq<u64>)
    ensures
        rolled(measured, MAX_RTTS as nat) == last_n(measured, MAX_RTTS as nat),
{
    law_rolling_buffer_keeps_the_latest(measured, MAX_RTTS as nat);
}

/// Every round of a continuous ping pings each hop of the path exactly once, in path order and
/// over the protocol of the path, whichever round it is.
pub proof fn law_round_pings_every_hop_once(hops: Seq<HopView>, rounds: u64, idents: Seq<u16>)
    requires
        idents.len() == hops.len(),
    ensures
        ({
            let pings = PingLoopView { rounds, ..PingLoopView::initial(hops) };
            let requests = pings.requests(idents);
            &&& requests.len() == hops.len()
            &&& forall|i: int|
                0 <= i < hops.len() ==> #[trigger] requests[i] == (PingRequest {
                    target: PingTarget { hop_number: hops[i].hop_number, ip: hops[i].ip },
                    protocol: protocol_for(hops),
                    ident: idents[i],
                })
            &&& pings.next_round() == (PingLoopView { rounds: rounds.wrapping_add(1), ..pings })
            &&& pings.next_round().requests(idents) == requests
        }),
{
    let pings = PingLoopView { rounds, ..PingLoopView::initial(hops) };
    assert(pings.next_round().requests(idents) =~= pings.requests(idents));
}

/// The hops that an engine takes over from a traceroute: those with an address other than
/// 0.0.0.0, each at the place that the number of such hops before it gives, with its number, its
/// address, its RTTs and its counts, and without a hostname.
pub proof fn law_engine_takes_hops_over_as_they_are(trace: Seq<HopDataView>)
    ensures
        ({
            let hops = answering_hops(trace);
            &&& hops.len() == trace.filter(|data: HopDataView| data.ip != IpAddr::V4(0)).len()
            &&& forall|k: int|
                0 <= k < trace.len() && (#[trigger] trace[k]).ip != IpAddr::V4(0) ==> {
                    let place = trace.take(k).filter(
                        |data: HopDataView| data.ip != IpAddr::V4(0),
                    ).len() as int;
                    &&& place < hops.len()
                    &&& hops[place].hop_number == trace[k].hop_number
                    &&& hops[place].ip == trace[k].ip
                    &&& hops[place].hostname is None
                    &&& hops[place].rtts == trace[k].rtts
                    &&& hops[place].packets_sent == trace[k].packets_sent
                    &&& hops[place].packets_received == trace[k].packets_received
                }
        }),
    decreases trace.len(),
{
    reveal(Seq::filter);
    let hops = answering_hops(trace);
    if trace.len() > 0 {
        let shorter = trace.drop_last();
        let last = trace.last();
        let before = answering_hops(shorter);
        law_engine_takes_hops_over_as_they_are(shorter);
        lemma_answering_push(shorter, last);
        assert(shorter.push(last) =~= trace);
        assert forall|k: int|
            0 <= k < trace.len() && (#[trigger] trace[k]).ip != IpAddr::V4(0) implies {
            let place = trace.take(k).filter(
                |data: HopDataView| data.ip != IpAddr::V4(0),
            ).len() as int;
            &&& place < hops.len()
            &&& hops[place].hop_number == trace[k].hop_number
            &&& hops[place].ip == trace[k].ip
            &&& hops[place].hostname is None
            &&& hops[place].rtts == trace[k].rtts
            &&& hops[place].packets_sent == trace[k].packets_sent
            &&& hops[place].packets_received == trace[k].packets_received
        } by {
            if k < shorter.len() {
                assert(shorter[k] == trace[k]);
                assert(shorter.take(k) =~= trace.take(k));
                let place = shorter.take(k).filter(
                    |data: HopDataView| data.ip != IpAddr::V4(0),
                ).len() as int;
                assert(place < before.len());
                assert(hops[place] == before[place]);
            } else {
                assert(trace.take(k) =~= shorter);
            }
        }
    }
}

/// A path is pinged over ICMPv6 exactly where its first hop has an IPv6 address, and over ICMPv4
/// otherwise.
pub proof fn law_first_hop_decides_the_protocol(hops: Seq<HopView>)
    ensures
        protocol_for(hops) == PingProtocol::V6 <==> hops.len() > 0 && hops[0].ip is V6,
        protocol_for(hops) == PingProtocol::V4 <==> hops.len() == 0 || hops[0].ip is V4,
        PingLoopView::initial(hops).protocol == protocol_for(hops),
        PingLoopView::initial(hops).rounds == 0,
{
}

/// Progress is reported after every sixtieth round and at no other time, as the number of rounds.
pub proof fn law_progress_is_reported_every_minute(rounds: PingLoopView)
    ensures
        rounds.progress() is Some <==> rounds.rounds != 0 && rounds.rounds % 60 == 0,
        rounds.progress() matches Some(n) ==> n == rounds.rounds,
        rounds.rounds < u64::MAX ==> rounds.next_round().rounds == rounds.rounds + 1,
        rounds.next_round().targets == rounds.targets,
        rounds.next_round().protocol == rounds.protocol,
{
}

/// The outcome of a ping becomes the latest result of its hop: an answer as a success with its
/// RTT, a failure as a failure with RTT zero. It changes the other hops no more than any other
/// result does.
pub proof fn law_outcome_becomes_a_result(
    state: AppStateView,
    hop_number: u8,
    at: Instant,
    outcome: Option<u64>,
)
    ensures
        ({
            let after = with_outcome(state, hop_number, at, outcome);
            let results = after.hops[hop_number].results;
            &&& after.hops.contains_key(hop_number)
            &&& results.len() > 0
            &&& results[results.len() - 1].timestamp == at
            &&& results[results.len() - 1].success <==> outcome is Some
            &&& outcome matches Some(rtt_ns) ==> {
                &&& results[results.len() - 1].rtt_ns == rtt_ns
                &&& after == state.record(hop_number, at, rtt_ns, true)
            }
            &&& outcome is None ==> {
                &&& results[results.len() - 1].rtt_ns == 0
                &&& after == state.record(hop_number, at, 0, false)
            }
        }),
{
}

/// Pings go on until the first reply: a target is pinged with the sequence numbers 0, 1 and 2,
/// each only where the one before got no reply.
pub proof fn law_pings_go_on_until_a_reply(target: IpAddr, seq: u16)
    requires
        seq < REACHABILITY_PINGS,
    ensures
        first_reach_step(target) == ReachStep::Ping(0) <==> target is V4,
        first_reach_step(target) == ReachStep::Unreachable <==> target is V6,
        next_reach_step(seq, true) == ReachStep::Reachable,
        next_reach_step(seq, false) == ReachStep::Unreachable <==> seq == 2,
        seq < 2 ==> next_reach_step(seq, false) == ReachStep::Ping((seq + 1) as u16),
{
}

/// A traceroute replaces the hops of an engine, starting and stopping change whether it runs, and
/// none of them changes anything else.
pub proof fn law_engine_changes_only_what_it_is_asked_to(engine: EngineView, hops: Seq<HopView>)
    ensures
        engine.traced(hops).hops == hops,
        engine.traced(hops).target == engine.target,
        engine.traced(hops).is_running == engine.is_running,
        engine.started().hops == engine.hops,
        engine.started().target == engine.target,
        engine.stopped().hops == engine.hops,
        engine.stopped().target == engine.target,
        !engine.stopped().is_running,
{
}

/// The targets of a continuous ping are the hops in path order, each with its number and address.
pub proof fn law_targets_are_the_hops(hops: Seq<HopView>)
    ensures
        targets_of(hops).len() == hops.len(),
        forall|i: int|
            0 <= i < hops.len() ==> (#[trigger] targets_of(hops)[i]).hop_number
                == hops[i].hop_number && targets_of(hops)[i].ip == hops[i].ip,
{
}

} // verus!
