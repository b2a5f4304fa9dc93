//! The terminal tool: its lines, its summary, and its continuous mode.

use vstd::prelude::*;

use crate::console::law_hop_numbers_have_three_digits;
use crate::ip::{ping_protocol, protocol_of, IpAddr, PingProtocol};
use crate::network_engine::{hop_views, targets_of};
use crate::network_engine::{Hop, HopView, NetworkEngine, PingTarget};
use crate::random::random_identifier;
use crate::text::{decimal, padded_left, padded_right};
use crate::text::{pad_left, pad_right, write_decimal};

verus! {

// ---------------------------------------------------------------------------------------------
// Lines
// ---------------------------------------------------------------------------------------------

/// What is shown of a hop.
#[derive(Clone, Debug)]
pub struct HopDisplay {
    pub hop_number: u8,
    pub ip_str: String,
    /// The RTT in nanoseconds, if there is one
    pub rtt_ns: Option<u64>,
    pub is_target: bool,
}

/// Whether a hop counts as having answered: it has an RTT above zero.
pub open spec fn has_answered(rtt_ns: Option<u64>) -> bool {
    rtt_ns matches Some(rtt) && rtt > 0
}

/// The line of a hop, `rtt_text` being the text of its RTT: number, address, RTT or `timeout`,
/// a check mark or a cross, and whether it is the target.
pub open spec fn display_line(
    hop_number: u8,
    ip: Seq<char>,
    answered: bool,
    rtt_text: Seq<char>,
    is_target: bool,
) -> Seq<char> {
    padded_left(decimal(hop_number as nat), 3, ' ') + "  "@ + padded_right(ip, 20) + "  "@
        + padded_right(
        if answered {
            rtt_text
        } else {
            "timeout"@
        },
        10,
    ) + "  "@ + (if answered {
        "\u{2713}"@
    } else {
        "\u{2717}"@
    }) + (if is_target {
        " (target)"@
    } else {
        ""@
    })
}

impl HopDisplay {
    /// What is shown of a hop.
    pub fn new(
        hop_number: u8,
        ip_str: String,
        rtt_ns: Option<u64>,
        is_target: bool,
    ) -> (r: HopDisplay)
        ensures
            r == (HopDisplay { hop_number, ip_str, rtt_ns, is_target }),
    {
        HopDisplay { hop_number, ip_str, rtt_ns, is_target }
    }

    /// The RTT to show, if the hop counts as having answered.
    pub fn shown_rtt(&self) -> (r: Option<u64>)
        ensures
            r == if has_answered(self.rtt_ns) {
                self.rtt_ns
            } else {
                None
            },
    {
        match self.rtt_ns {
            Some(rtt) => {
                if rtt > 0 {
                    Some(rtt)
                } else {
                    None
                }
            },
            None => None,
        }
    }

    /// Lays out the line of the hop; `rtt_text` is the text of the RTT to show.
    pub fn line(&self, rtt_text: &str) -> (r: String)
        ensures
            r@ == display_line(
                self.hop_number,
                self.ip_str@,
                has_answered(self.rtt_ns),
                rtt_text@,
                self.is_target,
            ),
    {
        let answered: bool = self.shown_rtt().is_some();
        proof {
            reveal_strlit(" ");
            reveal_strlit("");
        }
        let number = write_decimal(self.hop_number as u128);
        let mut line = pad_left(number.as_str(), 3, " ");
        line.append("  ");
        let ip = pad_right(self.ip_str.as_str(), 20);
        line.append(ip.as_str());
        line.append("  ");
        let rtt = if answered {
            pad_right(rtt_text, 10)
        } else {
            pad_right("timeout", 10)
        };
        line.append(rtt.as_str());
        line.append("  ");
        if answered {
            line.append("\u{2713}");
        } else {
            line.append("\u{2717}");
        }
        if self.is_target {
            line.append(" (target)");
        }
        assert(line@ =~= display_line(
            self.hop_number,
            self.ip_str@,
            answered,
            rtt_text@,
            self.is_target,
        ));
        line
    }
}

// ---------------------------------------------------------------------------------------------
// A single traceroute
// ---------------------------------------------------------------------------------------------

/// Whether a hop is the target: by its address where the target is given as one, else by being
/// the hop whose number is the number of hops.
pub open spec fn is_target_of(
    hop_number: u8,
    ip: IpAddr,
    hop_count: nat,
    target_ip: Option<IpAddr>,
) -> bool {
    match target_ip {
        Some(target) => ip == target,
        None => hop_number == hop_count % 256,
    }
}

/// A hop in the list that a traceroute prints.
#[derive(Clone, Copy, Debug, PartialEq, Eq, Structural)]
pub struct TraceRow {
    pub hop_number: u8,
    pub ip: IpAddr,
    /// The last RTT in nanoseconds, if there is one
    pub rtt_ns: Option<u64>,
    pub is_target: bool,
}

/// The row of a hop.
pub open spec fn trace_row(hop: HopView, hop_count: nat, target_ip: Option<IpAddr>) -> TraceRow {
    TraceRow {
        hop_number: hop.hop_number,
        ip: hop.ip,
        rtt_ns: if hop.rtts.len() == 0 {
            None
        } else {
            Some(hop.rtts.last())
        },
        is_target: is_target_of(hop.hop_number, hop.ip, hop_count, target_ip),
    }
}

/// The number of hops as a hop number: its low eight bits.
fn count_as_number(hop_count: usize) -> (r: u8)
    ensures
        r == hop_count % 256,
{
    (hop_count % 256) as u8
}

/// Builds the rows of a traceroute, one per hop.
pub fn trace_rows(hops: &Vec<Hop>, target_ip: Option<IpAddr>) -> (r: Vec<TraceRow>)
    ensures
        r@ == hop_views(hops@).map_values(
            |hop: HopView| trace_row(hop, hops@.len(), target_ip),
        ),
{
    let mut rows: Vec<TraceRow> = Vec::new();
    let mut i: usize = 0;
    while i < hops.len()
        invariant
            i <= hops@.len(),
            rows@.len() == i,
            forall|j: int|
                0 <= j < i ==> #[trigger] rows@[j] == trace_row(
                    hops@[j]@,
                    hops@.len(),
                    target_ip,
                ),
        decreases hops@.len() - i,
    {
        let hop = &hops[i];
        let is_target: bool = match target_ip {
            Some(target) => hop.ip == target,
            None => hop.hop_number == count_as_number(hops.len()),
        };
        let rtt_ns = if hop.rtts.len() == 0 {
            None
        } else {
            Some(hop.rtts[hop.rtts.len() - 1])
        };
        rows.push(TraceRow { hop_number: hop.hop_number, ip: hop.ip, rtt_ns, is_target });
        i = i + 1;
    }
    assert(rows@ =~= hop_views(hops@).map_values(
        |hop: HopView| trace_row(hop, hops@.len(), target_ip),
    ));
    rows
}

/// The hop at which the target was reached: the last one, where the target is given as an
/// address and the last hop has it.
pub fn reached_at(hops: &Vec<Hop>, target_ip: Option<IpAddr>) -> (r: Option<u8>)
    ensures
        r == if hops@.len() > 0 && target_ip == Some(hops@.last()@.ip) {
            Some(hops@.last()@.hop_number)
        } else {
            None
        },
{
    if hops.len() == 0 {
        return None;
    }
    let last = &hops[hops.len() - 1];
    match target_ip {
        Some(target) => {
            if last.ip == target {
                Some(last.hop_number)
            } else {
                None
            }
        },
        None => None,
    }
}

// ---------------------------------------------------------------------------------------------
// Continuous mode
// ---------------------------------------------------------------------------------------------

/// The text shown where there is nothing to ping.
pub fn no_hops_message() -> (r: &'static str)
    ensures
        r@ == "No hops discovered. Run traceroute first (omit --continuous flag)."@,
{
    "No hops discovered. Run traceroute first (omit --continuous flag)."
}

/// How to ping a hop: the protocol that reaches it, and a random identifier.
pub fn ping_hop(ip: IpAddr) -> (r: (PingProtocol, u16))
    ensures
        r.0 == protocol_of(ip),
{
    (ping_protocol(ip), random_identifier())
}

/// Pings all hops again and again.
#[derive(Debug)]
pub struct ContinuousPing {
    targets: Vec<PingTarget>,
    iterations: u64,
    previous: Vec<Option<u64>>,
}

/// What a [`ContinuousPing`] holds: the hops, the number of iterations begun, and the last RTT
/// for each hop number, counted from 1.
#[verifier::ext_equal]
pub struct ContinuousView {
    pub targets: Seq<PingTarget>,
    pub iterations: u64,
    pub previous: Seq<Option<u64>>,
}

impl ContinuousView {
    /// A continuous ping that has not begun.
    pub open spec fn initial(hops: Seq<HopView>) -> ContinuousView {
        ContinuousView {
            targets: targets_of(hops),
            iterations: 0,
            previous: Seq::new(hops.len(), |i: int| None),
        }
    }

    /// The continuous ping with the last RTT for a hop number. A hop number above the number of
    /// hops, as it occurs where hops in between did not answer, has no place.
    pub open spec fn with_rtt(self, hop_number: u8, rtt_ns: Option<u64>) -> ContinuousView {
        if 1 <= hop_number <= self.previous.len() {
            ContinuousView { previous: self.previous.update(hop_number - 1, rtt_ns), ..self }
        } else {
            self
        }
    }

    /// What holds of every continuous ping.
    pub open spec fn wf(self) -> bool {
        self.previous.len() == self.targets.len()
    }
}

impl View for ContinuousPing {
    type V = ContinuousView;

    closed spec fn view(&self) -> ContinuousView {
        ContinuousView {
            targets: self.targets@,
            iterations: self.iterations,
            previous: self.previous@,
        }
    }
}

impl ContinuousPing {
    /// A continuous ping of the hops that an engine found; `None` where it found none.
    pub fn start(engine: &NetworkEngine) -> (r: Option<ContinuousPing>)
        ensures
            r is None <==> engine@.hops.len() == 0,
            r matches Some(pings) ==> pings@ == ContinuousView::initial(engine@.hops)
                && pings@.wf(),
    {
        let hops = engine.hops();
        proof {
            assert(hop_views(hops@).len() == hops@.len());
        }
        if hops.len() == 0 {
            return None;
        }
        let mut targets: Vec<PingTarget> = Vec::new();
        let mut previous: Vec<Option<u64>> = Vec::new();
        let mut i: usize = 0;
        while i < hops.len()
            invariant
                i <= hops@.len(),
                hop_views(hops@) == engine@.hops,
                targets@.len() == i,
                previous@.len() == i,
                forall|j: int| 0 <= j < i ==> targets@[j] == targets_of(engine@.hops)[j],
                forall|j: int| 0 <= j < i ==> previous@[j] is None,
            decreases hops@.len() - i,
        {
            assert(engine@.hops[i as int] == hops@[i as int]@);
            targets.push(PingTarget { hop_number: hops[i].hop_number, ip: hops[i].ip });
            previous.push(None);
            i = i + 1;
        }
        let r = ContinuousPing { targets, iterations: 0, previous };
        assert(r@ =~= ContinuousView::initial(engine@.hops));
        Some(r)
    }

    /// The hops to ping in an iteration, in order.
    pub fn targets(&self) -> (r: &Vec<PingTarget>)
        ensures
            r@ == self@.targets,
    {
        &self.targets
    }

    /// The number of lines to clear before an iteration is printed: one per hop, and two.
    pub fn lines_to_clear(&self) -> (r: u128)
        ensures
            r == self@.targets.len() + 2,
    {
        self.targets.len() as u128 + 2
    }

    /// Begins an iteration and returns its number.
    pub fn begin_iteration(&mut self) -> (r: u64)
        ensures
            final(self)@ == (ContinuousView {
                iterations: old(self)@.iterations.wrapping_add(1),
                ..old(self)@
            }),
            r == final(self)@.iterations,
    {
        self.iterations = self.iterations.wrapping_add(1);
        self.iterations
    }

    /// The number of iterations begun.
    pub fn iterations(&self) -> (r: u64)
        ensures
            r == self@.iterations,
    {
        self.iterations
    }

    /// Whether a hop counts as the target: its number is the number of hops.
    pub fn is_target(&self, target: PingTarget) -> (r: bool)
        ensures
            r == is_target_of(target.hop_number, target.ip, self@.targets.len(), None),
    {
        target.hop_number == count_as_number(self.targets.len())
    }

    /// Takes note of the last RTT for a hop number; one without a place is passed over.
    pub fn record(&mut self, hop_number: u8, rtt_ns: Option<u64>)
        ensures
            final(self)@ == old(self)@.with_rtt(hop_number, rtt_ns),
            old(self)@.wf() ==> final(self)@.wf(),
    {
        if 1 <= hop_number && (hop_number as usize) <= self.previous.len() {
            self.previous.set(hop_number as usize - 1, rtt_ns);
        }
    }
}

// ---------------------------------------------------------------------------------------------
// Laws
// ---------------------------------------------------------------------------------------------

/// The columns of a hop's line: the number ends at column 3, the address begins at column 5, the
/// RTT or `timeout` two columns after the address, and the mark two columns after that, a check
/// mark exactly where the hop has an RTT above zero; the target is named at the end. All columns
/// between them are blank. An address of more than 20 characters, or an RTT of more than 10, moves
/// what follows to the right.
pub proof fn law_hop_line_has_columns(
    hop_number: u8,
    ip: Seq<char>,
    rtt_ns: Option<u64>,
    rtt_text: Seq<char>,
    is_target: bool,
)
    ensures
        ({
            let answered = rtt_ns is Some && rtt_ns->0 > 0;
            let text = display_line(hop_number, ip, has_answered(rtt_ns), rtt_text, is_target);
            let number = decimal(hop_number as nat);
            let rtt = if answered { rtt_text } else { "timeout"@ };
            let rtt_start = 7 + if ip.len() < 20 { 20 } else { ip.len() as int };
            let mark = rtt_start + 2 + if rtt.len() < 10 { 10 } else { rtt.len() as int };
            &&& text.subrange(3 - number.len(), 3) == number
            &&& text.subrange(5, 5int + ip.len()) == ip
            &&& text.subrange(rtt_start, rtt_start + rtt.len()) == rtt
            &&& text[mark] == if answered { '\u{2713}' } else { '\u{2717}' }
            &&& text.skip(mark + 1) == if is_target { " (target)"@ } else { Seq::empty() }
            &&& forall|i: int|
                (0 <= i < 3 - number.len() || 3 <= i < 5 || 5 + ip.len() <= i < rtt_start
                    || rtt_start + rtt.len() <= i < mark) ==> #[trigger] text[i] == ' '
        }),
{
    reveal_strlit("  ");
    reveal_strlit("");
    reveal_strlit("\u{2713}");
    reveal_strlit("\u{2717}");
    let answered = rtt_ns is Some && rtt_ns->0 > 0;
    let text = display_line(hop_number, ip, has_answered(rtt_ns), rtt_text, is_target);
    let number = decimal(hop_number as nat);
    let rtt = if answered { rtt_text } else { "timeout"@ };
    law_hop_numbers_have_three_digits(hop_number);
    let n = padded_left(number, 3, ' ');
    let a = padded_right(ip, 20);
    let r = padded_right(rtt, 10);
    let gap = seq![' ', ' '];
    let sign = seq![if answered { '\u{2713}' } else { '\u{2717}' }];
    let end = if is_target { " (target)"@ } else { Seq::<char>::empty() };
    assert("  "@ =~= gap);
    assert(""@ =~= Seq::<char>::empty());
    assert("\u{2713}"@ =~= seq!['\u{2713}']);
    assert("\u{2717}"@ =~= seq!['\u{2717}']);
    assert(has_answered(rtt_ns) == answered);
    assert(text == n + gap + a + gap + r + gap + sign + end);
    let rtt_start = 7int + a.len();
    let mark = rtt_start + 2 + r.len();
    assert(text.subrange(3 - number.len(), 3) =~= number);
    assert(text.subrange(5, 5int + ip.len()) =~= ip);
    assert(text.subrange(rtt_start, rtt_start + rtt.len()) =~= rtt);
    assert(text.skip(mark + 1) =~= end);
}

/// A row has its hop's number and address and its last RTT, none where there is none. It is the
/// target by its address where the target's is known; else where its number is the number of hops,
/// as far as that fits a hop number.
pub proof fn law_rows_have_the_last_rtt(hop: HopView, hop_count: nat, target_ip: Option<IpAddr>)
    ensures
        ({
            let row = trace_row(hop, hop_count, target_ip);
            &&& row.hop_number == hop.hop_number
            &&& row.ip == hop.ip
            &&& row.rtt_ns is Some <==> hop.rtts.len() > 0
            &&& row.rtt_ns matches Some(rtt) ==> rtt == hop.rtts[hop.rtts.len() - 1]
            &&& target_ip matches Some(target) ==> (row.is_target <==> hop.ip == target)
            &&& target_ip is None ==> (row.is_target <==> hop.hop_number == hop_count % 256)
        }),
{
}

/// A continuous ping starts with every hop in path order, no iteration, and no RTT. The RTT of a
/// hop number replaces that number's own and no other; nothing else changes.
pub proof fn law_rtt_replaces_that_of_its_number(
    hops: Seq<HopView>,
    pings: ContinuousView,
    hop_number: u8,
    rtt_ns: Option<u64>,
)
    ensures
        ({
            let fresh = ContinuousView::initial(hops);
            &&& fresh.targets.len() == hops.len()
            &&& fresh.previous.len() == hops.len()
            &&& fresh.iterations == 0
            &&& forall|i: int|
                0 <= i < hops.len() ==> (#[trigger] fresh.targets[i]).hop_number
                    == hops[i].hop_number && fresh.targets[i].ip == hops[i].ip
                    && fresh.previous[i] is None
        }),
        ({
            let after = pings.with_rtt(hop_number, rtt_ns);
            &&& after.targets == pings.targets
            &&& after.iterations == pings.iterations
            &&& after.previous.len() == pings.previous.len()
            &&& forall|i: int|
                0 <= i < pings.previous.len() ==> #[trigger] after.previous[i] == if i + 1
                    == hop_number {
                    rtt_ns
                } else {
                    pings.previous[i]
                }
        }),
{
}

} // verus!
