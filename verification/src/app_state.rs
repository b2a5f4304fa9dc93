//! Application state shared between the user interface and the network engine.

use std::collections::HashMap;
use std::time::Instant;

use vstd::prelude::*;

use crate::clock::{elapsed_nanos, instant_nanos, monotonic_now, nanos_between};
use crate::ip::IpAddr;
use crate::network_engine::{hop_views, Hop, HopView};
use crate::ratio::Ratio;
use crate::rolling::{last_n, law_last_items_end_the_list, push_rolling, roll};
use crate::stats::{greatest, least, mean_jump, total};
use crate::stats::{is_max, is_min, jitter_of, jumps, law_sum_is_bounded, max_of, min_of, sum};

verus! {

/// Maximum number of ping results to keep in the history of a hop.
pub const MAX_HISTORY_SIZE: usize = 1000;

/// Number of ping results, counted from the latest, that the statistics cover.
pub const STATISTICS_WINDOW: usize = 100;

// ---------------------------------------------------------------------------------------------
// Ping results
// ---------------------------------------------------------------------------------------------

/// Ping result for a hop at a point in time.
#[derive(Clone, Copy, Debug)]
pub struct PingResult {
    pub timestamp: Instant,
    /// Round-trip time in nanoseconds
    pub rtt_ns: u64,
    pub success: bool,
}

/// The RTTs of the successful results, in order.
pub open spec fn successful_rtts(results: Seq<PingResult>) -> Seq<u64> {
    results.filter(|result: PingResult| result.success).map_values(
        |result: PingResult| result.rtt_ns,
    )
}

/// The number of failed results.
pub open spec fn failures(results: Seq<PingResult>) -> nat {
    results.filter(|result: PingResult| !result.success).len()
}

/// The average of the RTTs of the successful results, if there are any.
pub open spec fn average_of(results: Seq<PingResult>) -> Option<Ratio> {
    let rtts = successful_rtts(results);
    if rtts.len() == 0 {
        None
    } else {
        Some(Ratio { num: sum(rtts) as u128, den: rtts.len() as u64 })
    }
}

/// The percentage of failed results, zero where there are no results.
pub open spec fn loss_of(results: Seq<PingResult>) -> Ratio {
    if results.len() == 0 {
        Ratio { num: 0, den: 1 }
    } else {
        Ratio { num: (failures(results) * 100) as u128, den: results.len() as u64 }
    }
}

/// One more result counts where it belongs.
proof fn lemma_results_push(results: Seq<PingResult>, result: PingResult)
    ensures
        successful_rtts(results.push(result)) == if result.success {
            successful_rtts(results).push(result.rtt_ns)
        } else {
            successful_rtts(results)
        },
        failures(results.push(result)) == if result.success {
            failures(results)
        } else {
            failures(results) + 1
        },
{
    reveal(Seq::filter);
    assert(results.push(result).drop_last() =~= results);
    assert(successful_rtts(results.push(result)) =~= if result.success {
        successful_rtts(results).push(result.rtt_ns)
    } else {
        successful_rtts(results)
    });
}

/// Every result is either successful or failed.
pub proof fn law_results_are_successes_or_failures(results: Seq<PingResult>)
    ensures
        successful_rtts(results).len() + failures(results) == results.len(),
    decreases results.len(),
{
    if results.len() > 0 {
        law_results_are_successes_or_failures(results.drop_last());
        lemma_results_push(results.drop_last(), results.last());
        assert(results.drop_last().push(results.last()) =~= results);
    } else {
        reveal(Seq::filter);
    }
}

/// The loss lies between 0 and 100 percent. It is 0 exactly where no result failed, and 100
/// exactly where there are results and none was successful.
pub proof fn law_loss_is_a_percentage(results: Seq<PingResult>)
    requires
        results.len() <= u64::MAX,
    ensures
        loss_of(results).valid(),
        !loss_of(results).above(100),
        loss_of(results).num == 0 <==> failures(results) == 0,
        loss_of(results).num == 100 * loss_of(results).den <==> results.len() > 0
            && successful_rtts(results).len() == 0,
{
    law_results_are_successes_or_failures(results);
    if results.len() == 0 {
        reveal(Seq::filter);
    }
}

// ---------------------------------------------------------------------------------------------
// The history of a hop
// ---------------------------------------------------------------------------------------------

/// State for a single hop's ping history.
#[derive(Clone, Debug)]
pub struct HopState {
    pub results: Vec<PingResult>,
    /// Most recent RTT, in nanoseconds
    pub latest_rtt: Option<u64>,
    /// Whether the hop is currently responding
    pub is_alive: bool,
}

/// What a [`HopState`] holds.
#[verifier::ext_equal]
pub struct HopStateView {
    pub results: Seq<PingResult>,
    pub latest_rtt: Option<u64>,
    pub is_alive: bool,
}

impl HopStateView {
    /// The history of a hop that was never pinged.
    pub open spec fn initial() -> HopStateView {
        HopStateView { results: Seq::empty(), latest_rtt: None, is_alive: false }
    }

    /// The history with one more result. A success makes the hop alive and its RTT the latest
    /// one; a failure makes it dead if it has ever answered.
    pub open spec fn record(self, at: Instant, rtt_ns: u64, success: bool) -> HopStateView {
        HopStateView {
            results: roll(
                self.results,
                MAX_HISTORY_SIZE as nat,
                PingResult { timestamp: at, rtt_ns, success },
            ),
            latest_rtt: if success {
                Some(rtt_ns)
            } else {
                self.latest_rtt
            },
            is_alive: if success {
                true
            } else if self.latest_rtt is Some {
                false
            } else {
                self.is_alive
            },
        }
    }

    /// The results that the statistics cover.
    pub open spec fn window(self) -> Seq<PingResult> {
        last_n(self.results, STATISTICS_WINDOW as nat)
    }

    /// What holds of every history that starts empty: it is bounded, and a hop that is alive has
    /// answered.
    pub open spec fn wf(self) -> bool {
        &&& self.results.len() <= MAX_HISTORY_SIZE
        &&& self.is_alive ==> self.latest_rtt is Some
    }
}

impl View for HopState {
    type V = HopStateView;

    open spec fn view(&self) -> HopStateView {
        HopStateView {
            results: self.results@,
            latest_rtt: self.latest_rtt,
            is_alive: self.is_alive,
        }
    }
}

impl HopState {
    /// The history of a hop that was never pinged.
    pub fn new() -> (r: HopState)
        ensures
            r@ == HopStateView::initial(),
            r@.results.len() == 0,
            r@.latest_rtt is None,
            !r@.is_alive,
    {
        let r = HopState {
            results: Vec::with_capacity(MAX_HISTORY_SIZE),
            latest_rtt: None,
            is_alive: false,
        };
        assert(r@ =~= HopStateView::initial());
        r
    }

    /// Adds a ping result that came in at the given time.
    pub fn add_result_at(&mut self, at: Instant, rtt_ns: u64, success: bool)
        ensures
            final(self)@ == old(self)@.record(at, rtt_ns, success),
            final(self)@.results.last() == (PingResult { timestamp: at, rtt_ns, success }),
            final(self)@.results.drop_last() == if old(self)@.results.len() >= MAX_HISTORY_SIZE {
                old(self)@.results.skip(1)
            } else {
                old(self)@.results
            },
            success ==> final(self)@.latest_rtt == Some(rtt_ns) && final(self)@.is_alive,
            !success ==> final(self)@.latest_rtt == old(self)@.latest_rtt,
            !success && old(self)@.latest_rtt is Some ==> !final(self)@.is_alive,
            !success && old(self)@.latest_rtt is None ==> final(self)@.is_alive
                == old(self)@.is_alive,
    {
        let ghost before = self@;
        push_rolling(
            &mut self.results,
            MAX_HISTORY_SIZE,
            PingResult { timestamp: at, rtt_ns, success },
        );
        if success {
            self.latest_rtt = Some(rtt_ns);
            self.is_alive = true;
        } else {
            // Only a hop that had answered before counts as dead now
            if self.latest_rtt.is_some() {
                self.is_alive = false;
            }
        }
        assert(self@ =~= before.record(at, rtt_ns, success));
    }

    /// Adds a ping result that came in now.
    pub fn add_result(&mut self, rtt_ns: u64, success: bool)
        ensures
            exists|at: Instant|
                final(self)@ == #[trigger] old(self)@.record(at, rtt_ns, success),
    {
        self.add_result_at(monotonic_now(), rtt_ns, success);
    }

    /// The last `count` results, oldest first.
    pub fn get_recent_results(&self, count: usize) -> (r: Vec<&PingResult>)
        ensures
            r@.map_values(|result: &PingResult| *result) == last_n(self@.results, count as nat),
    {
        let start: usize = if self.results.len() > count {
            self.results.len() - count
        } else {
            0
        };
        let mut recent: Vec<&PingResult> = Vec::new();
        let mut i: usize = start;
        while i < self.results.len()
            invariant
                start <= i <= self.results@.len(),
                recent@.len() == i - start,
                forall|j: int| 0 <= j < recent@.len() ==> *recent@[j] == self.results@[start + j],
            decreases self.results@.len() - i,
        {
            recent.push(&self.results[i]);
            i = i + 1;
        }
        proof {
            assert(recent@.map_values(|result: &PingResult| *result) =~= last_n(
                self@.results,
                count as nat,
            ));
        }
        recent
    }

    /// The RTTs of the successful results that the statistics cover.
    fn window_rtts(&self) -> (r: Vec<u64>)
        ensures
            r@ == successful_rtts(self@.window()),
    {
        let recent = self.get_recent_results(STATISTICS_WINDOW);
        let ghost window = self@.window();
        let mut rtts: Vec<u64> = Vec::new();
        let mut i: usize = 0;
        proof {
            reveal(Seq::filter);
            assert(successful_rtts(window.take(0)) =~= Seq::<u64>::empty());
            assert(recent@.map_values(|result: &PingResult| *result).len() == recent@.len());
        }
        while i < recent.len()
            invariant
                i <= recent@.len(),
                window == recent@.map_values(|result: &PingResult| *result),
                rtts@ == successful_rtts(window.take(i as int)),
            decreases recent@.len() - i,
        {
            proof {
                assert(window.take(i + 1) =~= window.take(i as int).push(window[i as int]));
                lemma_results_push(window.take(i as int), window[i as int]);
            }
            if recent[i].success {
                rtts.push(recent[i].rtt_ns);
            }
            i = i + 1;
        }
        assert(window.take(i as int) =~= window);
        rtts
    }

    /// The average RTT in nanoseconds over the recent successful results.
    pub fn average_rtt(&self) -> (r: Option<Ratio>)
        ensures
            r == average_of(self@.window()),
            r matches Some(average) ==> {
                &&& average.num == sum(successful_rtts(self@.window()))
                &&& average.den == successful_rtts(self@.window()).len()
                &&& average.valid()
            },
    {
        let rtts = self.window_rtts();
        if rtts.len() == 0 {
            return None;
        }
        Some(Ratio { num: total(&rtts), den: rtts.len() as u64 })
    }

    /// The percentage of failures among the recent results.
    pub fn loss_percentage(&self) -> (r: Ratio)
        ensures
            r == loss_of(self@.window()),
            self@.window().len() == 0 ==> r.num == 0,
            self@.window().len() > 0 ==> r.num * self@.window().len() == 100
                * self@.window().filter(|result: PingResult| !result.success).len() * r.den,
            r.valid(),
            !r.above(100),
    {
        let recent = self.get_recent_results(STATISTICS_WINDOW);
        let ghost window = self@.window();
        assert(recent@.map_values(|result: &PingResult| *result).len() == recent@.len());
        proof {
            law_loss_is_a_percentage(window);
            law_loss_is_the_share_of_failures(window);
        }
        if recent.len() == 0 {
            return Ratio { num: 0, den: 1 };
        }
        let mut failed: u128 = 0;
        let mut i: usize = 0;
        proof {
            reveal(Seq::filter);
            assert(failures(window.take(0)) == 0);
        }
        while i < recent.len()
            invariant
                i <= recent@.len() <= STATISTICS_WINDOW,
                window == recent@.map_values(|result: &PingResult| *result),
                failed == failures(window.take(i as int)) <= i,
            decreases recent@.len() - i,
        {
            proof {
                assert(window.take(i + 1) =~= window.take(i as int).push(window[i as int]));
                lemma_results_push(window.take(i as int), window[i as int]);
            }
            if !recent[i].success {
                failed = failed + 1;
            }
            i = i + 1;
        }
        assert(window.take(i as int) =~= window);
        Ratio { num: failed * 100, den: recent.len() as u64 }
    }

    /// The least RTT in nanoseconds among the recent successful results.
    pub fn min_rtt(&self) -> (r: Option<u64>)
        ensures
            r == min_of(successful_rtts(self@.window())),
            r matches Some(m) ==> is_min(successful_rtts(self@.window()), m),
    {
        least(&self.window_rtts())
    }

    /// The greatest RTT in nanoseconds among the recent successful results.
    pub fn max_rtt(&self) -> (r: Option<u64>)
        ensures
            r == max_of(successful_rtts(self@.window())),
            r matches Some(m) ==> is_max(successful_rtts(self@.window()), m),
    {
        greatest(&self.window_rtts())
    }

    /// The jitter in nanoseconds: the mean distance between consecutive recent RTTs, failures
    /// left out.
    pub fn jitter(&self) -> (r: Ratio)
        ensures
            r == jitter_of(successful_rtts(self@.window())),
            successful_rtts(self@.window()).len() >= 2 ==> {
                &&& r.num == jumps(successful_rtts(self@.window()))
                &&& r.den == successful_rtts(self@.window()).len() - 1
            },
            r.valid(),
    {
        mean_jump(&self.window_rtts())
    }
}

/// A history stays well formed: never more than [`MAX_HISTORY_SIZE`] results, and a hop that is
/// alive has answered.
pub proof fn law_history_stays_well_formed(
    history: HopStateView,
    at: Instant,
    rtt_ns: u64,
    success: bool,
)
    ensures
        HopStateView::initial().wf(),
        history.wf() ==> history.record(at, rtt_ns, success).wf(),
{
}

/// A hop is alive after a success and dead after a failure, once it has answered; a hop that
/// never answered stays dead.
pub proof fn law_liveness_follows_the_last_result(
    history: HopStateView,
    at: Instant,
    rtt_ns: u64,
    success: bool,
)
    requires
        history.wf(),
    ensures
        history.record(at, rtt_ns, success).is_alive == success,
        history.record(at, rtt_ns, success).latest_rtt == if success {
            Some(rtt_ns)
        } else {
            history.latest_rtt
        },
{
}

// ---------------------------------------------------------------------------------------------
// The application state
// ---------------------------------------------------------------------------------------------

/// Main application state, shared between the user interface and the network engine.
#[derive(Debug)]
pub struct AppState {
    /// Target being traced
    pub target: String,
    /// State for each hop
    pub hops: HashMap<u8, HopState>,
    /// IP addresses for each hop
    pub hop_ips: HashMap<u8, IpAddr>,
    /// Whether the traceroute has been completed
    pub traceroute_complete: bool,
    /// Whether continuous ping is running
    pub ping_running: bool,
    /// Start time of the session
    pub session_start: Instant,
}

/// What an [`AppState`] holds.
#[verifier::ext_equal]
pub struct AppStateView {
    pub target: Seq<char>,
    pub hops: Map<u8, HopStateView>,
    pub hop_ips: Map<u8, IpAddr>,
    pub traceroute_complete: bool,
    pub ping_running: bool,
    pub session_start: Instant,
}

/// The state of a session on `target` that has just started.
pub open spec fn new_session(target: Seq<char>, session_start: Instant) -> AppStateView {
    AppStateView {
        target,
        hops: Map::empty(),
        hop_ips: Map::empty(),
        traceroute_complete: false,
        ping_running: false,
        session_start,
    }
}

/// Hop states with a fresh one for each of the given hop numbers.
pub open spec fn with_fresh_hops(
    hops: Map<u8, HopStateView>,
    numbers: Seq<u8>,
) -> Map<u8, HopStateView>
    decreases numbers.len(),
{
    if numbers.len() == 0 {
        hops
    } else {
        with_fresh_hops(hops, numbers.drop_last()).insert(
            numbers.last(),
            HopStateView::initial(),
        )
    }
}

/// The addresses of a list of hops by hop number, a later hop overriding an earlier one.
pub open spec fn addresses(hops: Seq<HopView>) -> Map<u8, IpAddr>
    decreases hops.len(),
{
    if hops.len() == 0 {
        Map::empty()
    } else {
        addresses(hops.drop_last()).insert(hops.last().hop_number, hops.last().ip)
    }
}

/// The hop numbers below `n` that have a state, in ascending order.
pub open spec fn numbers_below(hops: Map<u8, HopStateView>, n: nat) -> Seq<u8>
    decreases n,
{
    if n == 0 {
        Seq::empty()
    } else {
        let k = (n - 1) as u8;
        if hops.contains_key(k) {
            numbers_below(hops, (n - 1) as nat).push(k)
        } else {
            numbers_below(hops, (n - 1) as nat)
        }
    }
}

impl AppStateView {
    /// The state of a hop, a fresh one where it has none.
    pub open spec fn hop_or_fresh(self, hop_number: u8) -> HopStateView {
        if self.hops.contains_key(hop_number) {
            self.hops[hop_number]
        } else {
            HopStateView::initial()
        }
    }

    /// The state with one more ping result for a hop.
    pub open spec fn record(
        self,
        hop_number: u8,
        at: Instant,
        rtt_ns: u64,
        success: bool,
    ) -> AppStateView {
        AppStateView {
            hops: self.hops.insert(
                hop_number,
                self.hop_or_fresh(hop_number).record(at, rtt_ns, success),
            ),
            ..self
        }
    }

    /// All hop numbers in ascending order.
    pub open spec fn hop_numbers(self) -> Seq<u8> {
        numbers_below(self.hops, 256)
    }
}

impl View for AppState {
    type V = AppStateView;

    open spec fn view(&self) -> AppStateView {
        AppStateView {
            target: self.target@,
            hops: self.hops@.map_values(|hop: HopState| hop@),
            hop_ips: self.hop_ips@,
            traceroute_complete: self.traceroute_complete,
            ping_running: self.ping_running,
            session_start: self.session_start,
        }
    }
}

impl AppState {
    /// The state of a session that starts at the given time.
    pub fn new_at(target: String, session_start: Instant) -> (r: AppState)
        ensures
            r@ == new_session(target@, session_start),
            r@.target == target@,
            r@.session_start == session_start,
            r@.hops == Map::<u8, HopStateView>::empty(),
            r@.hop_ips == Map::<u8, IpAddr>::empty(),
            !r@.traceroute_complete,
            !r@.ping_running,
    {
        let r = AppState {
            target,
            hops: HashMap::new(),
            hop_ips: HashMap::new(),
            traceroute_complete: false,
            ping_running: false,
            session_start,
        };
        assert(r@ =~= new_session(target@, session_start));
        r
    }

    /// The state of a session that starts now.
    pub fn new(target: String) -> (r: AppState)
        ensures
            r@ == new_session(target@, r@.session_start),
            r@.target == target@,
            r@.hops == Map::<u8, HopStateView>::empty(),
            r@.hop_ips == Map::<u8, IpAddr>::empty(),
            !r@.traceroute_complete,
            !r@.ping_running,
    {
        AppState::new_at(target, monotonic_now())
    }

    /// Gives each of the given hops a fresh state.
    pub fn initialize_hops(&mut self, hop_numbers: Vec<u8>)
        ensures
            final(self)@ == (AppStateView {
                hops: with_fresh_hops(old(self)@.hops, hop_numbers@),
                ..old(self)@
            }),
    {
        let ghost before = self@;
        let mut i: usize = 0;
        proof {
            assert(hop_numbers@.take(0) =~= Seq::empty());
        }
        while i < hop_numbers.len()
            invariant
                i <= hop_numbers@.len(),
                self@ == (AppStateView {
                    hops: with_fresh_hops(before.hops, hop_numbers@.take(i as int)),
                    ..before
                }),
            decreases hop_numbers@.len() - i,
        {
            let ghost previous = self@;
            self.hops.insert(hop_numbers[i], HopState::new());
            proof {
                assert(hop_numbers@.take(i + 1).drop_last() =~= hop_numbers@.take(i as int));
                assert(self@.hops =~= previous.hops.insert(
                    hop_numbers@[i as int],
                    HopStateView::initial(),
                ));
            }
            i = i + 1;
        }
        proof {
            assert(hop_numbers@.take(i as int) =~= hop_numbers@);
        }
    }

    /// Adds a ping result for a hop that came in at the given time.
    pub fn add_ping_result_at(&mut self, hop_number: u8, at: Instant, rtt_ns: u64, success: bool)
        ensures
            final(self)@ == old(self)@.record(hop_number, at, rtt_ns, success),
    {
        let ghost before = self@;
        let mut hop = match self.hops.remove(&hop_number) {
            Some(hop) => hop,
            None => HopState::new(),
        };
        hop.add_result_at(at, rtt_ns, success);
        self.hops.insert(hop_number, hop);
        assert(self@ =~= before.record(hop_number, at, rtt_ns, success));
    }

    /// Adds a ping result for a hop that came in now.
    pub fn add_ping_result(&mut self, hop_number: u8, rtt_ns: u64, success: bool)
        ensures
            exists|at: Instant|
                final(self)@ == #[trigger] old(self)@.record(hop_number, at, rtt_ns, success),
    {
        self.add_ping_result_at(hop_number, monotonic_now(), rtt_ns, success);
    }

    /// The state of a hop, if it has one.
    pub fn get_hop_state(&self, hop_number: u8) -> (r: Option<&HopState>)
        ensures
            match r {
                Some(hop) => self@.hops.contains_key(hop_number) && hop@
                    == self@.hops[hop_number],
                None => !self@.hops.contains_key(hop_number),
            },
    {
        self.hops.get(&hop_number)
    }

    /// Sets whether the traceroute has been completed.
    pub fn set_traceroute_complete(&mut self, complete: bool)
        ensures
            final(self)@ == (AppStateView { traceroute_complete: complete, ..old(self)@ }),
    {
        self.traceroute_complete = complete;
    }

    /// Sets whether continuous ping is running.
    pub fn set_ping_running(&mut self, running: bool)
        ensures
            final(self)@ == (AppStateView { ping_running: running, ..old(self)@ }),
    {
        self.ping_running = running;
    }

    /// The time from the start of the session to the given time, in nanoseconds.
    pub fn session_duration_at(&self, now: Instant) -> (r: u128)
        ensures
            r == elapsed_nanos(now, self@.session_start),
            instant_nanos(now) >= instant_nanos(self@.session_start) ==> r == instant_nanos(now)
                - instant_nanos(self@.session_start),
            instant_nanos(now) < instant_nanos(self@.session_start) ==> r == 0,
    {
        nanos_between(now, self.session_start)
    }

    /// The time since the session started, in nanoseconds.
    pub fn session_duration(&self) -> (r: u128)
        ensures
            exists|now: Instant| r == #[trigger] elapsed_nanos(now, self@.session_start),
    {
        self.session_duration_at(monotonic_now())
    }

    /// All hop numbers in ascending order.
    pub fn hop_numbers(&self) -> (r: Vec<u8>)
        ensures
            r@ == self@.hop_numbers(),
    {
        let mut numbers: Vec<u8> = Vec::new();
        let mut n: u16 = 0;
        while n < 256
            invariant
                n <= 256,
                numbers@ == numbers_below(self@.hops, n as nat),
            decreases 256 - n,
        {
            let k: u8 = n as u8;
            if self.hops.contains_key(&k) {
                numbers.push(k);
            }
            n = n + 1;
        }
        numbers
    }

    /// Takes the hop addresses over from a list of hops.
    pub fn set_hop_ips(&mut self, hops: &Vec<Hop>)
        ensures
            final(self)@ == (AppStateView { hop_ips: addresses(hop_views(hops@)), ..old(self)@ }),
    {
        self.hop_ips.clear();
        let ghost before = self@;
        let ghost views = hop_views(hops@);
        let mut i: usize = 0;
        proof {
            assert(views.take(0) =~= Seq::empty());
        }
        while i < hops.len()
            invariant
                i <= hops@.len(),
                views == hop_views(hops@),
                self@ == (AppStateView { hop_ips: addresses(views.take(i as int)), ..before }),
            decreases hops@.len() - i,
        {
            proof {
                assert(views.take(i + 1).drop_last() =~= views.take(i as int));
            }
            self.hop_ips.insert(hops[i].hop_number, hops[i].ip);
            i = i + 1;
        }
        proof {
            assert(views.take(i as int) =~= views);
        }
    }

    /// The address of a hop, if it is known.
    pub fn get_hop_ip(&self, hop_number: u8) -> (r: Option<IpAddr>)
        ensures
            r == if self@.hop_ips.contains_key(hop_number) {
                Some(self@.hop_ips[hop_number])
            } else {
                None
            },
    {
        match self.hop_ips.get(&hop_number) {
            Some(ip) => Some(*ip),
            None => None,
        }
    }
}

impl Default for AppState {
    /// The state of a session without a target.
    fn default() -> (r: AppState)
        ensures
            r@ == new_session(Seq::empty(), r@.session_start),
    {
        AppState::new(String::new())
    }
}

// ---------------------------------------------------------------------------------------------
// Laws
// ---------------------------------------------------------------------------------------------

/// The hop numbers come in strictly ascending order, and are exactly those of the hops that have
/// a state.
pub proof fn law_hop_numbers_are_sorted_and_complete(state: AppStateView)
    ensures
        forall|i: int, j: int|
            0 <= i < j < state.hop_numbers().len() ==> state.hop_numbers()[i]
                < state.hop_numbers()[j],
        forall|k: u8| #[trigger]
            state.hop_numbers().contains(k) <==> state.hops.contains_key(k),
{
    lemma_numbers_below(state.hops, 256);
}

/// There are at most as many hop numbers as bytes.
pub proof fn lemma_hop_numbers_fit(state: AppStateView)
    ensures
        state.hop_numbers().len() <= 256,
{
    lemma_numbers_below_fit(state.hops, 256);
}

/// There are at most `n` numbers below `n`.
proof fn lemma_numbers_below_fit(hops: Map<u8, HopStateView>, n: nat)
    ensures
        numbers_below(hops, n).len() <= n,
    decreases n,
{
    if n > 0 {
        lemma_numbers_below_fit(hops, (n - 1) as nat);
    }
}

/// The numbers below `n` are strictly ascending, below `n`, and complete.
proof fn lemma_numbers_below(hops: Map<u8, HopStateView>, n: nat)
    requires
        n <= 256,
    ensures
        forall|i: int, j: int|
            0 <= i < j < numbers_below(hops, n).len() ==> numbers_below(hops, n)[i]
                < numbers_below(hops, n)[j],
        forall|k: u8| #[trigger]
            numbers_below(hops, n).contains(k) <==> k < n && hops.contains_key(k),
    decreases n,
{
    let numbers = numbers_below(hops, n);
    if n > 0 {
        let m = (n - 1) as nat;
        let shorter = numbers_below(hops, m);
        lemma_numbers_below(hops, m);
        assert forall|i: int| 0 <= i < shorter.len() implies #[trigger] shorter[i] < m by {
            assert(shorter.contains(shorter[i]));
        }
        assert forall|k: u8| #[trigger] numbers.contains(k) <==> k < n && hops.contains_key(k) by {
            if numbers.contains(k) {
                let i = choose|i: int| 0 <= i < numbers.len() && numbers[i] == k;
                if i < shorter.len() {
                    assert(shorter.contains(shorter[i]));
                }
            }
            if k < n && hops.contains_key(k) {
                if k < m {
                    assert(shorter.contains(k));
                    let i = choose|i: int| 0 <= i < shorter.len() && shorter[i] == k;
                    assert(numbers[i] == k);
                } else {
                    assert(numbers.last() == k);
                }
            }
        }
    }
}

/// Initializing hops gives exactly the listed ones a fresh state and leaves the others alone.
pub proof fn law_initialized_hops_are_fresh(hops: Map<u8, HopStateView>, numbers: Seq<u8>)
    ensures
        forall|k: u8| #[trigger]
            with_fresh_hops(hops, numbers).contains_key(k) <==> hops.contains_key(k)
                || numbers.contains(k),
        forall|k: u8| #[trigger]
            numbers.contains(k) ==> with_fresh_hops(hops, numbers)[k] == HopStateView::initial(),
        forall|k: u8|
            hops.contains_key(k) && !numbers.contains(k) ==> #[trigger] with_fresh_hops(
                hops,
                numbers,
            )[k] == hops[k],
    decreases numbers.len(),
{
    if numbers.len() > 0 {
        let shorter = numbers.drop_last();
        law_initialized_hops_are_fresh(hops, shorter);
        assert forall|k: u8| numbers.contains(k) <==> shorter.contains(k) || k
            == numbers.last() by {
            if numbers.contains(k) {
                let i = choose|i: int| 0 <= i < numbers.len() && numbers[i] == k;
                if i < shorter.len() {
                    assert(shorter[i] == k);
                }
            }
            if shorter.contains(k) {
                let i = choose|i: int| 0 <= i < shorter.len() && shorter[i] == k;
                assert(numbers[i] == k);
            }
            assert(numbers[numbers.len() - 1] == numbers.last());
        }
    }
}

/// A ping result changes the state of its own hop only.
pub proof fn law_ping_result_stays_with_its_hop(
    state: AppStateView,
    hop_number: u8,
    at: Instant,
    rtt_ns: u64,
    success: bool,
    other: u8,
)
    requires
        other != hop_number,
    ensures
        state.record(hop_number, at, rtt_ns, success).hops.contains_key(other)
            <==> state.hops.contains_key(other),
        state.record(hop_number, at, rtt_ns, success).hops[other] == state.hops[other],
        state.record(hop_number, at, rtt_ns, success).hops.contains_key(hop_number),
{
}

/// Whether no hop after the one at place `i` has its number.
pub open spec fn is_last_of_its_number(hops: Seq<HopView>, i: int) -> bool {
    forall|j: int| i < j < hops.len() ==> (#[trigger] hops[j]).hop_number != hops[i].hop_number
}

/// The address that is found under a hop number is that of the last hop with this number, and
/// the numbers that have an address are exactly those that occur.
pub proof fn law_the_last_address_counts(hops: Seq<HopView>)
    ensures
        forall|i: int|
            0 <= i < hops.len() && is_last_of_its_number(hops, i) ==> addresses(
                hops,
            )[(#[trigger] hops[i]).hop_number] == hops[i].ip,
        forall|k: u8| #[trigger]
            addresses(hops).contains_key(k) <==> exists|i: int|
                0 <= i < hops.len() && (#[trigger] hops[i]).hop_number == k,
    decreases hops.len(),
{
    if hops.len() > 0 {
        let shorter = hops.drop_last();
        law_the_last_address_counts(shorter);
        assert forall|i: int|
            0 <= i < hops.len() && is_last_of_its_number(hops, i) implies addresses(
            hops,
        )[(#[trigger] hops[i]).hop_number] == hops[i].ip by {
            if i < shorter.len() {
                assert(shorter[i] == hops[i]);
                assert(hops[hops.len() - 1].hop_number != hops[i].hop_number);
                assert forall|j: int| i < j < shorter.len() implies (
                #[trigger] shorter[j]).hop_number != shorter[i].hop_number by {
                    assert(hops[j].hop_number != hops[i].hop_number);
                }
                assert(is_last_of_its_number(shorter, i));
            }
        }
        assert forall|k: u8| #[trigger] addresses(hops).contains_key(k) <==> exists|i: int|
            0 <= i < hops.len() && (#[trigger] hops[i]).hop_number == k by {
            if addresses(hops).contains_key(k) {
                if k == hops.last().hop_number {
                    assert(hops[hops.len() - 1].hop_number == k);
                } else {
                    assert(addresses(shorter).contains_key(k));
                    let i = choose|i: int|
                        0 <= i < shorter.len() && (#[trigger] shorter[i]).hop_number == k;
                    assert(hops[i].hop_number == k);
                }
            }
            if exists|i: int| 0 <= i < hops.len() && (#[trigger] hops[i]).hop_number == k {
                let i = choose|i: int|
                    0 <= i < hops.len() && (#[trigger] hops[i]).hop_number == k;
                if i < shorter.len() {
                    assert(shorter[i].hop_number == k);
                    assert(addresses(shorter).contains_key(k));
                }
            }
        }
    }
}

/// Where hop numbers do not repeat, every hop's address can be looked up by its number, and no
/// other number has an address.
pub proof fn law_addresses_are_found_by_hop_number(hops: Seq<HopView>)
    requires
        forall|i: int, j: int|
            0 <= i < j < hops.len() ==> hops[i].hop_number != hops[j].hop_number,
    ensures
        forall|i: int|
            0 <= i < hops.len() ==> addresses(hops).contains_key((#[trigger] hops[i]).hop_number)
                && addresses(hops)[hops[i].hop_number] == hops[i].ip,
        forall|k: u8| #[trigger]
            addresses(hops).contains_key(k) ==> exists|i: int|
                0 <= i < hops.len() && (#[trigger] hops[i]).hop_number == k,
{
    law_the_last_address_counts(hops);
    assert forall|i: int| 0 <= i < hops.len() implies is_last_of_its_number(hops, i)
        && addresses(hops).contains_key((#[trigger] hops[i]).hop_number) by {
        assert forall|j: int| i < j < hops.len() implies (#[trigger] hops[j]).hop_number
            != hops[i].hop_number by {}
    }
}

/// Whether results are in order of time.
pub open spec fn in_time_order(results: Seq<PingResult>) -> bool {
    forall|i: int, j: int|
        0 <= i <= j < results.len() ==> instant_nanos(#[trigger] results[i].timestamp)
            <= instant_nanos(#[trigger] results[j].timestamp)
}

/// A history in order of time stays so when a result comes in that is not older than the latest
/// one, also where it drops its oldest result.
pub proof fn law_history_stays_in_time_order(
    history: HopStateView,
    at: Instant,
    rtt_ns: u64,
    success: bool,
)
    requires
        in_time_order(history.results),
        history.results.len() > 0 ==> instant_nanos(history.results.last().timestamp)
            <= instant_nanos(at),
    ensures
        in_time_order(HopStateView::initial().results),
        in_time_order(history.record(at, rtt_ns, success).results),
{
    let before = history.results;
    let after = history.record(at, rtt_ns, success).results;
    let dropped = before.len() + 1 - after.len();
    assert forall|i: int, j: int| 0 <= i <= j < after.len() implies instant_nanos(
        #[trigger] after[i].timestamp,
    ) <= instant_nanos(#[trigger] after[j].timestamp) by {
        if i < after.len() - 1 {
            assert(after[i] == before[i + dropped]);
            assert(instant_nanos(before[i + dropped].timestamp) <= instant_nanos(
                before[before.len() - 1].timestamp,
            ));
            if j < after.len() - 1 {
                assert(after[j] == before[j + dropped]);
            }
        }
    }
}

/// The history of a hop after the given results came in, oldest first.
pub open spec fn history_after(results: Seq<PingResult>) -> HopStateView
    decreases results.len(),
{
    if results.len() == 0 {
        HopStateView::initial()
    } else {
        let last = results.last();
        history_after(results.drop_last()).record(last.timestamp, last.rtt_ns, last.success)
    }
}

/// A history holds the last [`MAX_HISTORY_SIZE`] results in order. Its latest RTT is that of the
/// last success, however long ago, and its hop is alive exactly where the last result is a
/// success.
pub proof fn law_history_keeps_the_latest_results(results: Seq<PingResult>)
    ensures
        history_after(results).wf(),
        history_after(results).results == last_n(results, MAX_HISTORY_SIZE as nat),
        history_after(results).latest_rtt == if successful_rtts(results).len() == 0 {
            None
        } else {
            Some(successful_rtts(results).last())
        },
        history_after(results).is_alive <==> results.len() > 0 && results.last().success,
    decreases results.len(),
{
    if results.len() > 0 {
        let shorter = results.drop_last();
        law_history_keeps_the_latest_results(shorter);
        lemma_results_push(shorter, results.last());
        assert(shorter.push(results.last()) =~= results);
        assert(history_after(results).results =~= last_n(results, MAX_HISTORY_SIZE as nat));
    } else {
        reveal(Seq::filter);
        assert(successful_rtts(results).len() == 0);
    }
}

impl AppStateView {
    /// What holds of every state: the history of every hop is well formed.
    pub open spec fn wf(self) -> bool {
        forall|k: u8| #[trigger] self.hops.contains_key(k) ==> self.hops[k].wf()
    }
}

/// A state stays well formed: at the start of a session, when hops are initialized, and when a
/// ping result comes in.
pub proof fn law_state_stays_well_formed(
    state: AppStateView,
    numbers: Seq<u8>,
    hop_number: u8,
    at: Instant,
    rtt_ns: u64,
    success: bool,
)
    requires
        state.wf(),
    ensures
        new_session(state.target, state.session_start).wf(),
        (AppStateView { hops: with_fresh_hops(state.hops, numbers), ..state }).wf(),
        state.record(hop_number, at, rtt_ns, success).wf(),
{
    law_initialized_hops_are_fresh(state.hops, numbers);
    let fresh = with_fresh_hops(state.hops, numbers);
    assert forall|k: u8| #[trigger] fresh.contains_key(k) implies fresh[k].wf() by {
        if numbers.contains(k) {
            assert(fresh[k] == HopStateView::initial());
        } else {
            assert(state.hops.contains_key(k));
            assert(fresh[k] == state.hops[k]);
        }
    }
    let after = state.record(hop_number, at, rtt_ns, success);
    assert forall|k: u8| #[trigger] after.hops.contains_key(k) implies after.hops[k].wf() by {
        if k != hop_number {
            assert(state.hops.contains_key(k));
        }
    }
}

/// The RTT of every success, failures left out, stands at the place that the number of successes
/// before it gives, and there are no other RTTs. Every result that is no success is a failure.
pub proof fn law_rtts_are_those_of_the_successes(results: Seq<PingResult>)
    ensures
        ({
            let rtts = successful_rtts(results);
            &&& rtts.len() == results.filter(|result: PingResult| result.success).len()
            &&& failures(results) == results.filter(|result: PingResult| !result.success).len()
            &&& failures(results) == results.len() - rtts.len()
            &&& forall|i: int|
                0 <= i < results.len() && (#[trigger] results[i]).success ==> {
                    let place = results.take(i).filter(
                        |result: PingResult| result.success,
                    ).len() as int;
                    place < rtts.len() && rtts[place] == results[i].rtt_ns
                }
        }),
    decreases results.len(),
{
    let rtts = successful_rtts(results);
    reveal(Seq::filter);
    law_results_are_successes_or_failures(results);
    if results.len() > 0 {
        let shorter = results.drop_last();
        law_rtts_are_those_of_the_successes(shorter);
        lemma_results_push(shorter, results.last());
        assert(shorter.push(results.last()) =~= results);
        assert forall|i: int| 0 <= i < results.len() && (#[trigger] results[i]).success implies {
            let place = results.take(i).filter(|result: PingResult| result.success).len() as int;
            place < rtts.len() && rtts[place] == results[i].rtt_ns
        } by {
            if i < shorter.len() {
                assert(shorter[i] == results[i]);
                assert(shorter.take(i) =~= results.take(i));
                let place = shorter.take(i).filter(
                    |result: PingResult| result.success,
                ).len() as int;
                assert(successful_rtts(shorter)[place] == results[i].rtt_ns);
                assert(rtts[place] == successful_rtts(shorter)[place]);
            } else {
                assert(results.take(i) =~= shorter);
            }
        }
    }
}

/// The loss is the share of failures: times the number of results it is a hundred times the
/// number of results that failed. Without results there is none.
pub proof fn law_loss_is_the_share_of_failures(results: Seq<PingResult>)
    requires
        results.len() <= u64::MAX,
    ensures
        loss_of(results).den > 0,
        results.len() == 0 ==> loss_of(results).num == 0,
        results.len() > 0 ==> loss_of(results).num * results.len() == 100 * results.filter(
            |result: PingResult| !result.success,
        ).len() * loss_of(results).den,
{
    law_rtts_are_those_of_the_successes(results);
    if results.len() > 0 {
        let failed = results.filter(|result: PingResult| !result.success).len();
        assert(loss_of(results).num == failed * 100);
        assert(loss_of(results).den == results.len());
    }
}

/// The average is that of the successes: times their number it is the sum of their RTTs. There is
/// none exactly where no result was successful.
pub proof fn law_average_is_that_of_the_successes(results: Seq<PingResult>)
    requires
        results.len() <= u64::MAX,
    ensures
        average_of(results) is None <==> forall|i: int|
            0 <= i < results.len() ==> !(#[trigger] results[i]).success,
        average_of(results) matches Some(average) ==> {
            &&& average.den > 0
            &&& average.num * results.filter(|result: PingResult| result.success).len() == sum(
                successful_rtts(results),
            ) * average.den
        },
{
    let rtts = successful_rtts(results);
    law_rtts_are_those_of_the_successes(results);
    law_sum_is_bounded(rtts);
    assert(u64::MAX * rtts.len() <= u64::MAX * u64::MAX) by (nonlinear_arith)
        requires
            rtts.len() <= u64::MAX,
    ;
    if rtts.len() == 0 {
        assert forall|i: int| 0 <= i < results.len() implies !(#[trigger] results[i]).success by {
            if results[i].success {
                let place = results.take(i).filter(
                    |result: PingResult| result.success,
                ).len() as int;
                assert(place < rtts.len());
            }
        }
    } else if forall|i: int| 0 <= i < results.len() ==> !(#[trigger] results[i]).success {
        lemma_no_successes(results);
    }
}

/// Where no result was successful there are no RTTs.
proof fn lemma_no_successes(results: Seq<PingResult>)
    requires
        forall|i: int| 0 <= i < results.len() ==> !(#[trigger] results[i]).success,
    ensures
        successful_rtts(results).len() == 0,
    decreases results.len(),
{
    reveal(Seq::filter);
    if results.len() > 0 {
        let shorter = results.drop_last();
        assert forall|i: int| 0 <= i < shorter.len() implies !(#[trigger] shorter[i]).success by {
            assert(shorter[i] == results[i]);
        }
        lemma_no_successes(shorter);
        assert(results[results.len() - 1] == results.last());
        lemma_results_push(shorter, results.last());
        assert(shorter.push(results.last()) =~= results);
    }
}

/// The statistics cover the last [`STATISTICS_WINDOW`] results of a history, or all where there
/// are fewer, each at its place counted from the latest.
pub proof fn law_statistics_cover_the_latest_results(history: HopStateView)
    ensures
        history.window().len() == if history.results.len() <= STATISTICS_WINDOW {
            history.results.len()
        } else {
            STATISTICS_WINDOW as nat
        },
        forall|i: int|
            1 <= i <= history.window().len() ==> #[trigger] history.window()[history.window().len()
                - i] == history.results[history.results.len() - i],
{
    law_last_items_end_the_list(history.results, STATISTICS_WINDOW as nat);
}

/// A result that comes in becomes the latest one as it is, and moves a history of
/// [`MAX_HISTORY_SIZE`] results up by one place.
pub proof fn law_result_becomes_the_latest(
    history: HopStateView,
    at: Instant,
    rtt_ns: u64,
    success: bool,
)
    ensures
        ({
            let after = history.record(at, rtt_ns, success);
            let n = history.results.len() as int;
            let dropped = after.results.len() != n + 1;
            &&& dropped <==> n >= MAX_HISTORY_SIZE
            &&& dropped ==> after.results.len() == n
            &&& after.results[after.results.len() - 1] == (PingResult {
                timestamp: at,
                rtt_ns,
                success,
            })
            &&& forall|i: int|
                2 <= i <= after.results.len() ==> #[trigger] after.results[after.results.len() - i]
                    == history.results[n + 1 - i]
            &&& success ==> after.latest_rtt == Some(rtt_ns) && after.is_alive
            &&& !success ==> after.latest_rtt == history.latest_rtt
            &&& !success && history.latest_rtt is Some ==> !after.is_alive
            &&& !success && history.latest_rtt is None ==> after.is_alive == history.is_alive
        }),
{
}

/// A ping result is recorded in the history of its hop, which starts empty where the hop had none.
/// The other hops and everything else in the state stay as they are.
pub proof fn law_ping_result_reaches_its_hop(
    state: AppStateView,
    hop_number: u8,
    at: Instant,
    rtt_ns: u64,
    success: bool,
)
    ensures
        ({
            let after = state.record(hop_number, at, rtt_ns, success);
            &&& after.hops.contains_key(hop_number)
            &&& state.hops.contains_key(hop_number) ==> after.hops[hop_number]
                == state.hops[hop_number].record(at, rtt_ns, success)
            &&& !state.hops.contains_key(hop_number) ==> {
                &&& after.hops[hop_number].results == seq![
                    PingResult { timestamp: at, rtt_ns, success },
                ]
                &&& after.hops[hop_number].is_alive == success
                &&& after.hops[hop_number].latest_rtt is Some <==> success
            }
            &&& forall|k: u8|
                k != hop_number ==> (#[trigger] after.hops.contains_key(k)
                    <==> state.hops.contains_key(k)) && after.hops[k] == state.hops[k]
            &&& after.target == state.target
            &&& after.hop_ips == state.hop_ips
            &&& after.traceroute_complete == state.traceroute_complete
            &&& after.ping_running == state.ping_running
            &&& after.session_start == state.session_start
        }),
{
    let after = state.record(hop_number, at, rtt_ns, success);
    if !state.hops.contains_key(hop_number) {
        assert(after.hops[hop_number].results =~= seq![
            PingResult { timestamp: at, rtt_ns, success },
        ]);
    }
}

/// A session starts with its target and its start time, and with nothing else: no hops, no
/// addresses, no complete traceroute, no pinging.
pub proof fn law_session_starts_empty(target: Seq<char>, session_start: Instant)
    ensures
        new_session(target, session_start).target == target,
        new_session(target, session_start).session_start == session_start,
        new_session(target, session_start).hops.dom() == Set::<u8>::empty(),
        new_session(target, session_start).hop_ips.dom() == Set::<u8>::empty(),
        !new_session(target, session_start).traceroute_complete,
        !new_session(target, session_start).ping_running,
        HopStateView::initial().results.len() == 0,
        HopStateView::initial().latest_rtt is None,
        !HopStateView::initial().is_alive,
{
    assert(new_session(target, session_start).hops.dom() =~= Set::<u8>::empty());
    assert(new_session(target, session_start).hop_ips.dom() =~= Set::<u8>::empty());
}

} // verus!
