//! The window's session: what the user selected, and how the engine's findings reach the state.

use vstd::prelude::*;

use crate::app_state::{addresses, is_last_of_its_number, new_session, with_fresh_hops};
use crate::app_state::{law_initialized_hops_are_fresh, law_the_last_address_counts};
use crate::app_state::{AppState, AppStateView, HopStateView};
use crate::network_engine::{hop_views, HopView, PingLoopView};
use crate::network_engine::{NetworkEngine, PingLoop};
use crate::sorting::{after_click, click_header, SortColumn, SortDirection};

verus! {

/// A session of the window on a target.
#[derive(Debug)]
pub struct RustyPlotApp {
    pub target: String,
    pub state: AppState,
    /// Whether the user has asked to stop pinging
    pub stop_signal: bool,
    /// The selected hop, by its place among all hops
    pub selected_hop: Option<usize>,
    pub sort_column: SortColumn,
    pub sort_direction: SortDirection,
    /// Whether the engine task has been spawned
    pub engine_initialized: bool,
}

/// What a [`RustyPlotApp`] holds.
#[verifier::ext_equal]
pub struct SessionView {
    pub target: Seq<char>,
    pub state: AppStateView,
    pub stop_signal: bool,
    pub selected_hop: Option<usize>,
    pub sort_column: SortColumn,
    pub sort_direction: SortDirection,
    pub engine_initialized: bool,
}

impl View for RustyPlotApp {
    type V = SessionView;

    open spec fn view(&self) -> SessionView {
        SessionView {
            target: self.target@,
            state: self.state@,
            stop_signal: self.stop_signal,
            selected_hop: self.selected_hop,
            sort_column: self.sort_column,
            sort_direction: self.sort_direction,
            engine_initialized: self.engine_initialized,
        }
    }
}

/// The hop numbers of a list of hops.
pub open spec fn numbers_of(hops: Seq<HopView>) -> Seq<u8> {
    hops.map_values(|hop: HopView| hop.hop_number)
}

/// The state once a traceroute has found the given hops.
pub open spec fn discovered(state: AppStateView, hops: Seq<HopView>) -> AppStateView {
    AppStateView {
        hops: with_fresh_hops(state.hops, numbers_of(hops)),
        hop_ips: addresses(hops),
        traceroute_complete: true,
        ..state
    }
}

impl SessionView {
    /// The session after the start of a frame: the engine is spawned by then. A request to stop
    /// is taken back, and the session no longer counts as pinging; rounds of pings that have been
    /// started go on.
    pub open spec fn after_frame(self) -> SessionView {
        SessionView {
            engine_initialized: true,
            stop_signal: false,
            state: if self.stop_signal {
                AppStateView { ping_running: false, ..self.state }
            } else {
                self.state
            },
            ..self
        }
    }
}

impl RustyPlotApp {
    /// A new session: nothing selected, the default sorting, the engine not spawned.
    pub fn new(target: String) -> (r: RustyPlotApp)
        ensures
            r@ == (SessionView {
                target: target@,
                state: new_session(target@, r@.state.session_start),
                stop_signal: false,
                selected_hop: None,
                sort_column: SortColumn::AvgRtt,
                sort_direction: SortDirection::Desc,
                engine_initialized: false,
            }),
    {
        let state = AppState::new(target.clone());
        RustyPlotApp {
            target,
            state,
            stop_signal: false,
            selected_hop: None,
            sort_column: SortColumn::default(),
            sort_direction: SortDirection::default(),
            engine_initialized: false,
        }
    }

    /// Takes note that the engine task is spawned. Returns whether the caller is to spawn it:
    /// the first time only.
    pub fn spawn_engine_task(&mut self) -> (r: bool)
        ensures
            final(self)@ == (SessionView { engine_initialized: true, ..old(self)@ }),
            r == !old(self)@.engine_initialized,
    {
        if self.engine_initialized {
            return false;
        }
        self.engine_initialized = true;
        true
    }

    /// Begins a frame. Returns whether the engine task is to be spawned.
    pub fn update(&mut self) -> (r: bool)
        ensures
            final(self)@ == old(self)@.after_frame(),
            r == !old(self)@.engine_initialized,
    {
        let ghost before = self@;
        let spawn: bool = self.spawn_engine_task();
        if self.stop_signal {
            self.stop_signal = false;
            self.state.set_ping_running(false);
        }
        assert(self@ =~= before.after_frame());
        spawn
    }

    /// Takes note that the user has asked to stop pinging.
    pub fn press_stop(&mut self)
        ensures
            final(self)@ == (SessionView { stop_signal: true, ..old(self)@ }),
    {
        self.stop_signal = true;
    }

    /// Selects a hop by its place among all hops.
    pub fn select_hop(&mut self, index: usize)
        ensures
            final(self)@ == (SessionView { selected_hop: Some(index), ..old(self)@ }),
    {
        self.selected_hop = Some(index);
    }

    /// Closes the isolate view.
    pub fn close_isolate_view(&mut self)
        ensures
            final(self)@ == (SessionView { selected_hop: None, ..old(self)@ }),
    {
        self.selected_hop = None;
    }

    /// Changes the sorting after a click on a column header.
    pub fn click_sort_header(&mut self, clicked: SortColumn)
        ensures
            final(self)@ == (SessionView {
                sort_column: after_click(
                    old(self)@.sort_column,
                    old(self)@.sort_direction,
                    clicked,
                ).0,
                sort_direction: after_click(
                    old(self)@.sort_column,
                    old(self)@.sort_direction,
                    clicked,
                ).1,
                ..old(self)@
            }),
    {
        let mut column = self.sort_column;
        let mut direction = self.sort_direction;
        click_header(&mut column, &mut direction, clicked);
        self.sort_column = column;
        self.sort_direction = direction;
    }

    /// Takes over the hops that a traceroute found. Returns whether to go on with pinging: the
    /// user has not asked to stop.
    pub fn traceroute_done(&mut self, engine: &NetworkEngine) -> (r: bool)
        ensures
            final(self)@ == (SessionView {
                state: discovered(old(self)@.state, engine@.hops),
                ..old(self)@
            }),
            r == !old(self)@.stop_signal,
    {
        let ghost before = self@;
        let hops = engine.hops();
        let mut numbers: Vec<u8> = Vec::new();
        let mut i: usize = 0;
        while i < hops.len()
            invariant
                i <= hops@.len(),
                hop_views(hops@) == engine@.hops,
                numbers@.len() == i,
                forall|j: int| 0 <= j < i ==> numbers@[j] == numbers_of(engine@.hops)[j],
            decreases hops@.len() - i,
        {
            assert(engine@.hops[i as int] == hops@[i as int]@);
            numbers.push(hops[i].hop_number);
            i = i + 1;
        }
        proof {
            assert(hop_views(hops@).len() == hops@.len());
            assert(numbers@ =~= numbers_of(engine@.hops));
        }
        self.state.initialize_hops(numbers);
        self.state.set_hop_ips(hops);
        self.state.set_traceroute_complete(true);
        assert(self@.state =~= discovered(before.state, engine@.hops));
        !self.stop_signal
    }

    /// Takes note that the traceroute failed.
    pub fn traceroute_failed(&mut self)
        ensures
            final(self)@ == (SessionView {
                state: AppStateView { traceroute_complete: false, ..old(self)@.state },
                ..old(self)@
            }),
    {
        self.state.set_traceroute_complete(false);
    }

    /// Starts the continuous ping of the hops that the engine found. Returns the rounds of pings
    /// to run.
    pub fn start_ping_task(&mut self, engine: &NetworkEngine) -> (r: PingLoop)
        ensures
            final(self)@ == (SessionView {
                state: AppStateView { ping_running: true, ..old(self)@.state },
                ..old(self)@
            }),
            r@ == PingLoopView::initial(engine@.hops),
    {
        self.state.set_ping_running(true);
        PingLoop::new(engine.hops())
    }
}

/// The engine is spawned exactly once, however many frames there are.
pub proof fn law_engine_is_spawned_once(session: SessionView)
    ensures
        session.after_frame().engine_initialized,
        session.after_frame().after_frame() == session.after_frame(),
{
}

/// A finished traceroute gives every hop that it found a fresh state and an address, that of the
/// last hop with its number, and leaves the states of other hops alone.
pub proof fn law_discovered_hops_are_fresh_and_addressed(state: AppStateView, hops: Seq<HopView>)
    ensures
        forall|i: int|
            0 <= i < hops.len() ==> {
                let after = discovered(state, hops);
                let hop = #[trigger] hops[i];
                &&& after.hops.contains_key(hop.hop_number)
                &&& after.hops[hop.hop_number] == HopStateView::initial()
                &&& after.hop_ips.contains_key(hop.hop_number)
                &&& is_last_of_its_number(hops, i) ==> after.hop_ips[hop.hop_number] == hop.ip
            },
        forall|k: u8|
            (forall|i: int| 0 <= i < hops.len() ==> (#[trigger] hops[i]).hop_number != k) ==> {
                &&& #[trigger] discovered(state, hops).hops.contains_key(k)
                    <==> state.hops.contains_key(k)
                &&& state.hops.contains_key(k) ==> discovered(state, hops).hops[k]
                    == state.hops[k]
                &&& !discovered(state, hops).hop_ips.contains_key(k)
            },
{
    let numbers = numbers_of(hops);
    law_initialized_hops_are_fresh(state.hops, numbers);
    law_the_last_address_counts(hops);
    assert forall|i: int| 0 <= i < hops.len() implies numbers.contains(
        (#[trigger] hops[i]).hop_number,
    ) by {
        assert(numbers[i] == hops[i].hop_number);
    }
    assert forall|k: u8| #[trigger] numbers.contains(k) implies exists|i: int|
        0 <= i < hops.len() && (#[trigger] hops[i]).hop_number == k by {
        let i = choose|i: int| 0 <= i < numbers.len() && numbers[i] == k;
        assert(hops[i].hop_number == k);
    }
    assert forall|k: u8|
        (forall|i: int| 0 <= i < hops.len() ==> (#[trigger] hops[i]).hop_number != k) implies {
        &&& #[trigger] discovered(state, hops).hops.contains_key(k) <==> state.hops.contains_key(k)
        &&& state.hops.contains_key(k) ==> discovered(state, hops).hops[k] == state.hops[k]
        &&& !discovered(state, hops).hop_ips.contains_key(k)
    } by {
        assert(!numbers.contains(k));
        assert(with_fresh_hops(state.hops, numbers).contains_key(k)
            <==> state.hops.contains_key(k));
    }
}

/// What the start of a frame changes: the engine counts as spawned, a request to stop is taken
/// back, and where there was one the session no longer counts as pinging. Everything else stays.
pub proof fn law_frame_changes_nothing_else(session: SessionView)
    ensures
        ({
            let after = session.after_frame();
            &&& after.engine_initialized
            &&& !after.stop_signal
            &&& after.state.ping_running <==> session.state.ping_running && !session.stop_signal
            &&& after.state.target == session.state.target
            &&& after.state.hops == session.state.hops
            &&& after.state.hop_ips == session.state.hop_ips
            &&& after.state.traceroute_complete == session.state.traceroute_complete
            &&& after.state.session_start == session.state.session_start
            &&& after.target == session.target
            &&& after.selected_hop == session.selected_hop
            &&& after.sort_column == session.sort_column
            &&& after.sort_direction == session.sort_direction
        }),
{
}

/// A finished traceroute counts as complete, and leaves the target, the start of the session and
/// whether it is pinging as they are.
pub proof fn law_discovery_completes_the_traceroute(state: AppStateView, hops: Seq<HopView>)
    ensures
        discovered(state, hops).traceroute_complete,
        discovered(state, hops).target == state.target,
        discovered(state, hops).session_start == state.session_start,
        discovered(state, hops).ping_running == state.ping_running,
{
}

} // verus!
