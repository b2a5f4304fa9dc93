//! What the window shows: header, hop table, isolate view and timeline.

use std::time::Instant;

use vstd::prelude::*;

use crate::app_state::{average_of, in_time_order, loss_of, successful_rtts};
use crate::app_state::{law_hop_numbers_are_sorted_and_complete, law_loss_is_a_percentage};
use crate::app_state::{law_results_are_successes_or_failures, lemma_hop_numbers_fit};
use crate::app_state::{AppState, AppStateView, HopState, HopStateView, PingResult};
use crate::clock::{elapsed_nanos, instant_nanos, monotonic_now, nanos_between};
use crate::ip::{address_less, IpAddr};
use crate::ratio::Ratio;
use crate::rolling::last_n;
use crate::sorting::{
    is_row_order, law_row_order_exists, law_row_order_is_complete, law_row_order_is_unique,
    stands_before,
};
use crate::sorting::{sort_rows, SortKey};
pub use crate::sorting::{SortColumn, SortDirection};
use crate::stats::{jitter_of, max_of, min_of};
use crate::text::{decimal, padded_left};
use crate::text::{pad_left, write_decimal};

verus! {

/// A color by its red, green and blue parts.
#[derive(Clone, Copy, Debug, PartialEq, Eq, Structural)]
pub struct Rgb {
    pub r: u8,
    pub g: u8,
    pub b: u8,
}

// ---------------------------------------------------------------------------------------------
// Header
// ---------------------------------------------------------------------------------------------

/// The status of a session.
#[derive(Clone, Copy, Debug, PartialEq, Eq, Structural)]
pub enum Status {
    Running,
    TracerouteComplete,
    Initializing,
}

/// The status that a state stands for: pinging comes before a complete traceroute.
pub open spec fn status_of(state: AppStateView) -> Status {
    if state.ping_running {
        Status::Running
    } else if state.traceroute_complete {
        Status::TracerouteComplete
    } else {
        Status::Initializing
    }
}

/// The status of a session.
pub fn status(state: &AppState) -> (r: Status)
    ensures
        r == status_of(state@),
        r == Status::Running <==> state@.ping_running,
        r == Status::TracerouteComplete <==> !state@.ping_running && state@.traceroute_complete,
        r == Status::Initializing <==> !state@.ping_running && !state@.traceroute_complete,
{
    if state.ping_running {
        Status::Running
    } else if state.traceroute_complete {
        Status::TracerouteComplete
    } else {
        Status::Initializing
    }
}

impl Status {
    /// The text of the status.
    pub fn label(&self) -> (r: &'static str)
        ensures
            r@ == (match self {
                Status::Running => "Running"@,
                Status::TracerouteComplete => "Traceroute complete"@,
                Status::Initializing => "Initializing..."@,
            }),
    {
        match self {
            Status::Running => "Running",
            Status::TracerouteComplete => "Traceroute complete",
            Status::Initializing => "Initializing...",
        }
    }

    /// The color of the status.
    pub fn color(&self) -> (r: Rgb)
        ensures
            r == (match self {
                Status::Running => (Rgb { r: 0, g: 200, b: 100 }),
                Status::TracerouteComplete => (Rgb { r: 200, g: 200, b: 0 }),
                Status::Initializing => (Rgb { r: 200, g: 100, b: 0 }),
            }),
    {
        match self {
            Status::Running => Rgb { r: 0, g: 200, b: 100 },
            Status::TracerouteComplete => Rgb { r: 200, g: 200, b: 0 },
            Status::Initializing => Rgb { r: 200, g: 100, b: 0 },
        }
    }
}

/// Nanoseconds in a second.
pub const NANOS_PER_SEC: u128 = 1_000_000_000;

/// A duration as minutes and two-digit seconds, such as `3m 07s`.
pub open spec fn duration_text(nanos: u128) -> Seq<char> {
    let secs = nanos as nat / NANOS_PER_SEC as nat;
    decimal(secs / 60) + "m "@ + padded_left(decimal(secs % 60), 2, '0') + "s"@
}

/// Writes a duration as minutes and two-digit seconds.
pub fn write_duration(nanos: u128) -> (r: String)
    ensures
        r@ == duration_text(nanos),
{
    let secs: u128 = nanos / NANOS_PER_SEC;
    let mut text = write_decimal(secs / 60);
    text.append("m ");
    let digits = write_decimal(secs % 60);
    proof {
        reveal_strlit("0");
    }
    let padded = pad_left(digits.as_str(), 2, "0");
    text.append(padded.as_str());
    text.append("s");
    text
}

/// The heading of the window.
pub fn heading(state: &AppState) -> (r: String)
    ensures
        r@ == "RustyPlot - "@ + state@.target,
{
    "RustyPlot - ".to_owned().concat(state.target.as_str())
}

// ---------------------------------------------------------------------------------------------
// Hop table
// ---------------------------------------------------------------------------------------------

/// What an address is sorted by: IPv4 before IPv6, by number within each, and a missing address
/// last.
pub open spec fn address_key(ip: Option<IpAddr>) -> SortKey {
    match ip {
        Some(IpAddr::V4(address)) => SortKey::Finite(Ratio::whole(address as nat)),
        Some(IpAddr::V6(address)) => SortKey::Beyond(Ratio::whole(address as nat)),
        None => SortKey::Infinite,
    }
}

/// What a hop is sorted by in a column. A hop without successful results counts as zero in the
/// columns of average and greatest RTT, and as infinite in the column of the least RTT.
pub open spec fn sort_key(
    hop: HopStateView,
    hop_number: u8,
    ip: Option<IpAddr>,
    column: SortColumn,
) -> SortKey {
    let rtts = successful_rtts(hop.window());
    match column {
        SortColumn::HopNumber => SortKey::Finite(Ratio::whole(hop_number as nat)),
        SortColumn::IpAddress => address_key(ip),
        SortColumn::AvgRtt => SortKey::Finite(
            match average_of(hop.window()) {
                Some(average) => average,
                None => Ratio::whole(0),
            },
        ),
        SortColumn::MinRtt => match min_of(rtts) {
            Some(m) => SortKey::Finite(Ratio::whole(m as nat)),
            None => SortKey::Infinite,
        },
        SortColumn::MaxRtt => SortKey::Finite(
            match max_of(rtts) {
                Some(m) => Ratio::whole(m as nat),
                None => Ratio::whole(0),
            },
        ),
        SortColumn::Jitter => SortKey::Finite(jitter_of(rtts)),
        SortColumn::Loss => SortKey::Finite(loss_of(hop.window())),
        SortColumn::PingCount => SortKey::Finite(Ratio::whole(hop.results.len())),
    }
}

/// The sort keys of all hops, by ascending hop number.
pub open spec fn sort_keys(state: AppStateView, column: SortColumn) -> Seq<SortKey> {
    state.hop_numbers().map_values(
        |hop_number: u8|
            sort_key(state.hops[hop_number], hop_number, address_of(state, hop_number), column),
    )
}

/// Computes what an address is sorted by.
fn key_of_address(ip: Option<IpAddr>) -> (r: SortKey)
    ensures
        r == address_key(ip),
        r.valid(),
{
    match ip {
        Some(IpAddr::V4(address)) => SortKey::Finite(Ratio { num: address as u128, den: 1 }),
        Some(IpAddr::V6(address)) => SortKey::Beyond(Ratio { num: address, den: 1 }),
        None => SortKey::Infinite,
    }
}

/// Computes what a hop is sorted by in a column.
fn key_of(
    hop: &HopState,
    hop_number: u8,
    ip: Option<IpAddr>,
    column: SortColumn,
) -> (r: SortKey)
    ensures
        r == sort_key(hop@, hop_number, ip, column),
        r.valid(),
{
    match column {
        SortColumn::HopNumber => SortKey::Finite(Ratio { num: hop_number as u128, den: 1 }),
        SortColumn::IpAddress => key_of_address(ip),
        SortColumn::AvgRtt => match hop.average_rtt() {
            Some(average) => SortKey::Finite(average),
            None => SortKey::Finite(Ratio { num: 0, den: 1 }),
        },
        SortColumn::MinRtt => match hop.min_rtt() {
            Some(m) => SortKey::Finite(Ratio { num: m as u128, den: 1 }),
            None => SortKey::Infinite,
        },
        SortColumn::MaxRtt => match hop.max_rtt() {
            Some(m) => SortKey::Finite(Ratio { num: m as u128, den: 1 }),
            None => SortKey::Finite(Ratio { num: 0, den: 1 }),
        },
        SortColumn::Jitter => SortKey::Finite(hop.jitter()),
        SortColumn::Loss => SortKey::Finite(hop.loss_percentage()),
        SortColumn::PingCount => {
            let pings: usize = hop.results.len();
            SortKey::Finite(Ratio { num: pings as u128, den: 1 })
        },
    }
}

/// The address column sorts addresses by their order, hops without an address after all others.
pub proof fn law_addresses_are_sorted_by_number(a: IpAddr, b: IpAddr)
    ensures
        address_key(Some(a)).less(address_key(Some(b))) <==> address_less(a, b),
        address_key(Some(a)).less(address_key(None)),
        !address_key(None).less(address_key(Some(a))),
{
    match (a, b) {
        (IpAddr::V4(x), IpAddr::V4(y)) => {
            lemma_whole_less(x as u128, y as u128);
        },
        (IpAddr::V6(x), IpAddr::V6(y)) => {
            lemma_whole_less(x, y);
        },
        _ => {},
    }
}

/// Integers compare as quotients as they do as integers.
proof fn lemma_whole_less(x: u128, y: u128)
    ensures
        Ratio::whole(x as nat).less(Ratio::whole(y as nat)) <==> x < y,
{
    let (a, b) = (Ratio::whole(x as nat), Ratio::whole(y as nat));
    assert(a.num * b.den == x && b.num * a.den == y) by (nonlinear_arith)
        requires
            a.num == x,
            b.num == y,
            a.den == 1,
            b.den == 1,
    ;
}

/// The color of a loss percentage: red above 50, yellow above 10, green otherwise.
pub open spec fn loss_color_of(loss: Ratio) -> Rgb {
    if loss.above(50) {
        Rgb { r: 200, g: 0, b: 0 }
    } else if loss.above(10) {
        Rgb { r: 200, g: 200, b: 0 }
    } else {
        Rgb { r: 0, g: 200, b: 100 }
    }
}

/// Picks the color of a loss percentage.
pub fn loss_color(loss: Ratio) -> (r: Rgb)
    requires
        loss.valid(),
    ensures
        r == loss_color_of(loss),
        loss.num > 50 * loss.den <==> r == (Rgb { r: 200, g: 0, b: 0 }),
        10 * loss.den < loss.num <= 50 * loss.den <==> r == (Rgb { r: 200, g: 200, b: 0 }),
        loss.num <= 10 * loss.den <==> r == (Rgb { r: 0, g: 200, b: 100 }),
{
    if loss.exceeds(50) {
        Rgb { r: 200, g: 0, b: 0 }
    } else if loss.exceeds(10) {
        Rgb { r: 200, g: 200, b: 0 }
    } else {
        Rgb { r: 0, g: 200, b: 100 }
    }
}

/// A row of the hop table. RTTs are in nanoseconds.
#[derive(Clone, Copy, Debug, PartialEq, Eq, Structural)]
pub struct HopRow {
    pub hop_number: u8,
    pub ip: Option<IpAddr>,
    /// The place of the hop among all hops by ascending number
    pub index: usize,
    pub selected: bool,
    pub min_rtt: Option<u64>,
    pub max_rtt: Option<u64>,
    pub average_rtt: Option<Ratio>,
    pub jitter: Ratio,
    pub loss: Ratio,
    pub loss_color: Rgb,
    pub pings: usize,
}

impl HopRow {
    /// The quotients of a row have positive denominators.
    pub open spec fn valid(self) -> bool {
        &&& self.average_rtt matches Some(average) ==> average.valid()
        &&& self.jitter.valid()
        &&& self.loss.valid()
    }
}

/// The address of a hop, if it is known.
pub open spec fn address_of(state: AppStateView, hop_number: u8) -> Option<IpAddr> {
    if state.hop_ips.contains_key(hop_number) {
        Some(state.hop_ips[hop_number])
    } else {
        None
    }
}

/// The row of the hop at place `index`.
pub open spec fn row_of(state: AppStateView, index: usize, selected: Option<usize>) -> HopRow {
    let hop_number = state.hop_numbers()[index as int];
    let hop = state.hops[hop_number];
    HopRow {
        hop_number,
        ip: address_of(state, hop_number),
        index,
        selected: selected == Some(index),
        min_rtt: min_of(successful_rtts(hop.window())),
        max_rtt: max_of(successful_rtts(hop.window())),
        average_rtt: average_of(hop.window()),
        jitter: jitter_of(successful_rtts(hop.window())),
        loss: loss_of(hop.window()),
        loss_color: loss_color_of(loss_of(hop.window())),
        pings: hop.results.len() as usize,
    }
}

/// The order of the rows of the hop table.
pub open spec fn table_order(
    state: AppStateView,
    column: SortColumn,
    direction: SortDirection,
) -> Seq<usize> {
    choose|order: Seq<usize>| is_row_order(order, sort_keys(state, column), direction)
}

/// The hop table: a row for every hop, sorted by the given column in the given direction, rows
/// that tie by ascending hop number.
pub open spec fn table_of(
    state: AppStateView,
    selected: Option<usize>,
    column: SortColumn,
    direction: SortDirection,
) -> Seq<HopRow> {
    table_order(state, column, direction).map_values(|index: usize| row_of(state, index, selected))
}

/// Builds the hop table.
pub fn hop_table(
    state: &AppState,
    selected: Option<usize>,
    column: SortColumn,
    direction: SortDirection,
) -> (r: Vec<HopRow>)
    ensures
        r@ == table_of(state@, selected, column, direction),
        forall|i: int| 0 <= i < r@.len() ==> (#[trigger] r@[i]).valid(),
{
    let numbers = state.hop_numbers();
    proof {
        law_hop_numbers_are_sorted_and_complete(state@);
    }
    let mut keys: Vec<SortKey> = Vec::new();
    let mut i: usize = 0;
    while i < numbers.len()
        invariant
            i <= numbers@.len(),
            numbers@ == state@.hop_numbers(),
            forall|k: u8| #[trigger] numbers@.contains(k) <==> state@.hops.contains_key(k),
            keys@.len() == i,
            forall|j: int| 0 <= j < i ==> #[trigger] keys@[j] == sort_keys(state@, column)[j],
            forall|j: int| 0 <= j < i ==> (#[trigger] keys@[j]).valid(),
        decreases numbers@.len() - i,
    {
        let hop_number: u8 = numbers[i];
        assert(numbers@.contains(hop_number));
        let hop = state.get_hop_state(hop_number).unwrap();
        let ip = state.get_hop_ip(hop_number);
        keys.push(key_of(hop, hop_number, ip, column));
        i = i + 1;
    }
    assert(keys@ =~= sort_keys(state@, column));
    let order = sort_rows(&keys, direction);
    proof {
        law_row_order_is_unique(
            order@,
            table_order(state@, column, direction),
            keys@,
            direction,
        );
    }
    let mut rows: Vec<HopRow> = Vec::new();
    let mut n: usize = 0;
    while n < order.len()
        invariant
            n <= order@.len(),
            numbers@ == state@.hop_numbers(),
            forall|k: u8| #[trigger] numbers@.contains(k) <==> state@.hops.contains_key(k),
            forall|j: int| 0 <= j < order@.len() ==> (#[trigger] order@[j]) < numbers@.len(),
            rows@.len() == n,
            forall|j: int|
                0 <= j < n ==> #[trigger] rows@[j] == row_of(state@, order@[j], selected),
            forall|j: int| 0 <= j < n ==> (#[trigger] rows@[j]).valid(),
        decreases order@.len() - n,
    {
        let index: usize = order[n];
        let hop_number: u8 = numbers[index];
        assert(numbers@.contains(hop_number));
        let hop = state.get_hop_state(hop_number).unwrap();
        let loss = hop.loss_percentage();
        let is_selected: bool = match selected {
            Some(place) => place == index,
            None => false,
        };
        rows.push(
            HopRow {
                hop_number,
                ip: state.get_hop_ip(hop_number),
                index,
                selected: is_selected,
                min_rtt: hop.min_rtt(),
                max_rtt: hop.max_rtt(),
                average_rtt: hop.average_rtt(),
                jitter: hop.jitter(),
                loss,
                loss_color: loss_color(loss),
                pings: hop.results.len(),
            },
        );
        n = n + 1;
    }
    assert(rows@ =~= table_of(state@, selected, column, direction));
    rows
}

/// The sort keys of the hop table are valid.
proof fn lemma_sort_keys_valid(state: AppStateView, column: SortColumn)
    ensures
        sort_keys(state, column).len() <= 256,
        forall|i: int|
            0 <= i < sort_keys(state, column).len() ==> (#[trigger] sort_keys(
                state,
                column,
            )[i]).valid(),
{
    lemma_hop_numbers_fit(state);
    assert forall|i: int| 0 <= i < sort_keys(state, column).len() implies (#[trigger] sort_keys(
        state,
        column,
    )[i]).valid() by {
        let hop = state.hops[state.hop_numbers()[i]];
        law_results_are_successes_or_failures(hop.window());
        law_loss_is_a_percentage(hop.window());
    }
}

/// The hop table lists every hop exactly once, in an order in which each row stands before the
/// later ones.
pub proof fn law_table_lists_every_hop(
    state: AppStateView,
    selected: Option<usize>,
    column: SortColumn,
    direction: SortDirection,
)
    ensures
        ({
            let rows = table_of(state, selected, column, direction);
            let keys = sort_keys(state, column);
            &&& rows.len() == state.hop_numbers().len()
            &&& is_row_order(rows.map_values(|row: HopRow| row.index), keys, direction)
            &&& forall|i: int|
                0 <= i < rows.len() ==> state.hops.contains_key((#[trigger] rows[i]).hop_number)
            &&& forall|i: int, j: int|
                0 <= i < j < rows.len() ==> rows[i].hop_number != rows[j].hop_number
            &&& forall|k: u8| #[trigger]
                state.hops.contains_key(k) ==> exists|i: int|
                    0 <= i < rows.len() && (#[trigger] rows[i]).hop_number == k
        }),
{
    let rows = table_of(state, selected, column, direction);
    let keys = sort_keys(state, column);
    let order = table_order(state, column, direction);
    let numbers = state.hop_numbers();
    lemma_sort_keys_valid(state, column);
    law_row_order_exists(keys, direction);
    law_row_order_is_complete(order, keys, direction);
    law_hop_numbers_are_sorted_and_complete(state);
    assert(rows.map_values(|row: HopRow| row.index) =~= order);
    assert forall|i: int| 0 <= i < rows.len() implies state.hops.contains_key(
        (#[trigger] rows[i]).hop_number,
    ) by {
        assert(numbers.contains(numbers[order[i] as int]));
    }
    assert forall|i: int, j: int| 0 <= i < j < rows.len() implies rows[i].hop_number
        != rows[j].hop_number by {
        assert(order[i] != order[j]);
    }
    assert forall|k: u8| #[trigger] state.hops.contains_key(k) implies exists|i: int|
        0 <= i < rows.len() && (#[trigger] rows[i]).hop_number == k by {
        assert(numbers.contains(k));
        let place = choose|place: int| 0 <= place < numbers.len() && numbers[place] == k;
        assert(order.contains(place as usize));
        let i = choose|i: int| 0 <= i < order.len() && order[i] == place as usize;
        assert(rows[i].hop_number == k);
    }
}

// ---------------------------------------------------------------------------------------------
// Isolate view
// ---------------------------------------------------------------------------------------------

/// Number of results that the isolate view lists.
pub const ISOLATE_RESULTS: usize = 20;

/// A result in the list of the isolate view.
#[derive(Clone, Copy, Debug, PartialEq, Eq, Structural)]
pub struct RecentPing {
    /// The RTT in nanoseconds, or `None` for a failure
    pub rtt_ns: Option<u64>,
    pub color: Rgb,
    /// Whether another result follows
    pub followed: bool,
}

/// The entry of the result at place `i` of a list of results.
pub open spec fn recent_ping(results: Seq<PingResult>, i: int) -> RecentPing {
    RecentPing {
        rtt_ns: if results[i].success {
            Some(results[i].rtt_ns)
        } else {
            None
        },
        color: if results[i].success {
            Rgb { r: 0, g: 200, b: 100 }
        } else {
            Rgb { r: 200, g: 50, b: 50 }
        },
        followed: i < results.len() - 1,
    }
}

/// The list of the latest results of a hop, oldest first.
pub open spec fn recent_pings(hop: HopStateView) -> Seq<RecentPing> {
    let results = last_n(hop.results, ISOLATE_RESULTS as nat);
    Seq::new(results.len(), |i: int| recent_ping(results, i))
}

/// Details of the selected hop. RTTs are in nanoseconds.
#[derive(Clone, Debug)]
pub struct Isolated {
    pub hop_number: u8,
    pub ip: Option<IpAddr>,
    pub average_rtt: Option<Ratio>,
    pub min_rtt: Option<u64>,
    pub max_rtt: Option<u64>,
    pub loss: Ratio,
    pub pings: usize,
    pub latest_rtt: Option<u64>,
    pub recent: Vec<RecentPing>,
}

/// What an [`Isolated`] holds.
#[verifier::ext_equal]
pub struct IsolatedView {
    pub hop_number: u8,
    pub ip: Option<IpAddr>,
    pub average_rtt: Option<Ratio>,
    pub min_rtt: Option<u64>,
    pub max_rtt: Option<u64>,
    pub loss: Ratio,
    pub pings: usize,
    pub latest_rtt: Option<u64>,
    pub recent: Seq<RecentPing>,
}

impl View for Isolated {
    type V = IsolatedView;

    open spec fn view(&self) -> IsolatedView {
        IsolatedView {
            hop_number: self.hop_number,
            ip: self.ip,
            average_rtt: self.average_rtt,
            min_rtt: self.min_rtt,
            max_rtt: self.max_rtt,
            loss: self.loss,
            pings: self.pings,
            latest_rtt: self.latest_rtt,
            recent: self.recent@,
        }
    }
}

/// The hop number at a selected place, if there is one.
pub open spec fn selected_number(state: AppStateView, selected: Option<usize>) -> Option<u8> {
    match selected {
        Some(index) => if index < state.hop_numbers().len() {
            Some(state.hop_numbers()[index as int])
        } else {
            None
        },
        None => None,
    }
}

/// The details of a hop.
pub open spec fn isolated(state: AppStateView, hop_number: u8) -> IsolatedView {
    let hop = state.hops[hop_number];
    IsolatedView {
        hop_number,
        ip: address_of(state, hop_number),
        average_rtt: average_of(hop.window()),
        min_rtt: min_of(successful_rtts(hop.window())),
        max_rtt: max_of(successful_rtts(hop.window())),
        loss: loss_of(hop.window()),
        pings: hop.results.len() as usize,
        latest_rtt: hop.latest_rtt,
        recent: recent_pings(hop),
    }
}

/// Lists the latest results of a hop.
fn list_recent(hop: &HopState) -> (r: Vec<RecentPing>)
    ensures
        r@ == recent_pings(hop@),
{
    let results = hop.get_recent_results(ISOLATE_RESULTS);
    let ghost plain = last_n(hop@.results, ISOLATE_RESULTS as nat);
    assert(results@.map_values(|result: &PingResult| *result).len() == results@.len());
    let mut recent: Vec<RecentPing> = Vec::new();
    let mut i: usize = 0;
    while i < results.len()
        invariant
            i <= results@.len(),
            plain == results@.map_values(|result: &PingResult| *result),
            recent@.len() == i,
            forall|j: int| 0 <= j < i ==> #[trigger] recent@[j] == recent_ping(plain, j),
        decreases results@.len() - i,
    {
        let result = results[i];
        assert(plain[i as int] == *result);
        let followed: bool = i < results.len() - 1;
        recent.push(
            if result.success {
                RecentPing {
                    rtt_ns: Some(result.rtt_ns),
                    color: Rgb { r: 0, g: 200, b: 100 },
                    followed,
                }
            } else {
                RecentPing { rtt_ns: None, color: Rgb { r: 200, g: 50, b: 50 }, followed }
            },
        );
        i = i + 1;
    }
    assert(recent@ =~= recent_pings(hop@));
    recent
}

/// Builds the details of the selected hop, if one is selected.
pub fn isolate_view(state: &AppState, selected: Option<usize>) -> (r: Option<Isolated>)
    ensures
        match selected_number(state@, selected) {
            Some(hop_number) => r matches Some(details) && details@ == isolated(
                state@,
                hop_number,
            ),
            None => r is None,
        },
        r matches Some(details) ==> details.loss.valid() && (details.average_rtt matches Some(
            average,
        ) ==> average.valid()),
{
    let numbers = state.hop_numbers();
    match selected {
        Some(index) => {
            if index < numbers.len() {
                let hop_number: u8 = numbers[index];
                proof {
                    law_hop_numbers_are_sorted_and_complete(state@);
                    assert(state@.hop_numbers().contains(hop_number));
                }
                let hop = state.get_hop_state(hop_number).unwrap();
                let details = Isolated {
                    hop_number,
                    ip: state.get_hop_ip(hop_number),
                    average_rtt: hop.average_rtt(),
                    min_rtt: hop.min_rtt(),
                    max_rtt: hop.max_rtt(),
                    loss: hop.loss_percentage(),
                    pings: hop.results.len(),
                    latest_rtt: hop.latest_rtt,
                    recent: list_recent(hop),
                };
                assert(details@ =~= isolated(state@, hop_number));
                Some(details)
            } else {
                None
            }
        },
        None => None,
    }
}

// ---------------------------------------------------------------------------------------------
// Timeline
// ---------------------------------------------------------------------------------------------

/// The age in nanoseconds up to which a result is on the timeline: one minute.
pub const TIMELINE_NANOS: u128 = 60_000_000_000;

/// The hops on the timeline: the selected one, or all of them.
pub open spec fn timeline_hops(state: AppStateView, selected: Option<usize>) -> Seq<u8> {
    match selected_number(state, selected) {
        Some(hop_number) => seq![hop_number],
        None => state.hop_numbers(),
    }
}

/// Whether a result is young enough at `now` to be on the timeline.
pub open spec fn is_young(result: PingResult, now: Instant) -> bool {
    elapsed_nanos(now, result.timestamp) <= TIMELINE_NANOS
}

/// The results on the timeline at `now`: going back from the latest one, those before the first
/// one that is too old.
pub open spec fn young_results(results: Seq<PingResult>, now: Instant) -> Seq<PingResult>
    decreases results.len(),
{
    if results.len() == 0 || !is_young(results.last(), now) {
        Seq::empty()
    } else {
        young_results(results.drop_last(), now).push(results.last())
    }
}

/// The points of a list of results: nanoseconds since the first one, and RTT in nanoseconds.
pub open spec fn points_of(results: Seq<PingResult>) -> Seq<(u128, u64)> {
    results.map_values(
        |result: PingResult|
            (elapsed_nanos(result.timestamp, results[0].timestamp), result.rtt_ns),
    )
}

/// The line of a hop on the timeline.
#[derive(Clone, Debug)]
pub struct TimelineLine {
    pub hop_number: u8,
    /// Nanoseconds since the first point, and RTT in nanoseconds
    pub points: Vec<(u128, u64)>,
}

/// What a [`TimelineLine`] holds.
#[verifier::ext_equal]
pub struct TimelineLineView {
    pub hop_number: u8,
    pub points: Seq<(u128, u64)>,
}

impl View for TimelineLine {
    type V = TimelineLineView;

    open spec fn view(&self) -> TimelineLineView {
        TimelineLineView { hop_number: self.hop_number, points: self.points@ }
    }
}

/// What a list of lines holds.
pub open spec fn line_views(lines: Seq<TimelineLine>) -> Seq<TimelineLineView> {
    lines.map_values(|line: TimelineLine| line@)
}

/// Whether a line has points, the first of them at time zero.
pub open spec fn starts_at_zero(line: TimelineLineView) -> bool {
    line.points.len() > 0 && line.points[0].0 == 0
}

/// The lines of the given hops, each read off at its own time; hops without young results have
/// none.
pub open spec fn lines_of(state: AppStateView, shown: Seq<u8>, times: Seq<Instant>) -> Seq<
    TimelineLineView,
>
    decreases shown.len(),
{
    if shown.len() == 0 {
        Seq::empty()
    } else {
        let before = lines_of(state, shown.drop_last(), times);
        let hop_number = shown.last();
        let young = young_results(state.hops[hop_number].results, times[shown.len() - 1]);
        if young.len() == 0 {
            before
        } else {
            before.push(TimelineLineView { hop_number, points: points_of(young) })
        }
    }
}

/// The label of a hop.
pub fn hop_label(hop_number: u8) -> (r: String)
    ensures
        r@ == "Hop "@ + decimal(hop_number as nat),
{
    let number = write_decimal(hop_number as u128);
    "Hop ".to_owned().concat(number.as_str())
}

/// Picks the hops on the timeline.
pub fn hops_to_show(state: &AppState, selected: Option<usize>) -> (r: Vec<u8>)
    ensures
        r@ == timeline_hops(state@, selected),
{
    let numbers = state.hop_numbers();
    match selected {
        Some(index) => {
            if index < numbers.len() {
                let mut shown: Vec<u8> = Vec::new();
                shown.push(numbers[index]);
                assert(shown@ =~= timeline_hops(state@, selected));
                shown
            } else {
                numbers
            }
        },
        None => numbers,
    }
}

/// Builds the points of a hop's results at `now`.
fn timeline_points(results: &Vec<PingResult>, now: Instant) -> (r: Vec<(u128, u64)>)
    ensures
        r@ == points_of(young_results(results@, now)),
        r@.len() > 0 ==> r@[0].0 == 0,
{
    let mut start: usize = results.len();
    proof {
        assert(results@.take(start as int) =~= results@);
        assert(young_results(results@, now) =~= young_results(
            results@.take(start as int),
            now,
        ) + results@.skip(start as int));
    }
    while start > 0 && nanos_between(now, results[start - 1].timestamp) <= TIMELINE_NANOS
        invariant
            start <= results@.len(),
            young_results(results@, now) == young_results(results@.take(start as int), now)
                + results@.skip(start as int),
        decreases start,
    {
        proof {
            let head = results@.take(start as int);
            assert(head.drop_last() =~= results@.take(start - 1));
            assert(seq![head.last()] + results@.skip(start as int) =~= results@.skip(start - 1));
            assert(young_results(head, now) + results@.skip(start as int) =~= young_results(
                head.drop_last(),
                now,
            ) + results@.skip(start - 1));
        }
        start = start - 1;
    }
    let ghost young = young_results(results@, now);
    proof {
        assert(young_results(results@.take(start as int), now) =~= Seq::empty());
        assert(young =~= results@.skip(start as int));
    }
    let mut points: Vec<(u128, u64)> = Vec::new();
    let mut i: usize = start;
    while i < results.len()
        invariant
            start <= i <= results@.len(),
            young == results@.skip(start as int),
            points@.len() == i - start,
            forall|j: int| 0 <= j < points@.len() ==> points@[j] == points_of(young)[j],
            points@.len() > 0 ==> points@[0].0 == 0,
        decreases results@.len() - i,
    {
        proof {
            assert(young[i - start] == results@[i as int]);
            assert(young[0] == results@[start as int]);
        }
        let offset: u128 = nanos_between(results[i].timestamp, results[start].timestamp);
        points.push((offset, results[i].rtt_ns));
        i = i + 1;
    }
    assert(points@ =~= points_of(young));
    points
}

/// Builds the lines of the given hops, each read off at its own time.
pub fn timeline_at(state: &AppState, shown: &Vec<u8>, times: &Vec<Instant>) -> (r: Vec<
    TimelineLine,
>)
    requires
        times@.len() == shown@.len(),
        forall|i: int| 0 <= i < shown@.len() ==> state@.hops.contains_key(#[trigger] shown@[i]),
    ensures
        line_views(r@) == lines_of(state@, shown@, times@),
        forall|i: int| 0 <= i < r@.len() ==> starts_at_zero((#[trigger] r@[i])@),
{
    let mut lines: Vec<TimelineLine> = Vec::new();
    let mut i: usize = 0;
    proof {
        assert(shown@.take(0) =~= Seq::empty());
        assert(line_views(lines@) =~= Seq::empty());
    }
    while i < shown.len()
        invariant
            i <= shown@.len(),
            times@.len() == shown@.len(),
            forall|j: int|
                0 <= j < shown@.len() ==> state@.hops.contains_key(#[trigger] shown@[j]),
            line_views(lines@) == lines_of(state@, shown@.take(i as int), times@),
            forall|j: int| 0 <= j < lines@.len() ==> starts_at_zero((#[trigger] lines@[j])@),
        decreases shown@.len() - i,
    {
        let hop_number: u8 = shown[i];
        let hop = state.get_hop_state(hop_number).unwrap();
        let points = timeline_points(&hop.results, times[i]);
        let ghost before = lines@;
        proof {
            assert(shown@.take(i + 1).drop_last() =~= shown@.take(i as int));
            assert(points@.len() == young_results(hop@.results, times@[i as int]).len());
        }
        if points.len() > 0 {
            let line = TimelineLine { hop_number, points };
            lines.push(line);
            assert(line_views(lines@) =~= line_views(before).push(line@));
        }
        i = i + 1;
    }
    assert(shown@.take(i as int) =~= shown@);
    lines
}

/// Builds the lines of the timeline now.
pub fn timeline(state: &AppState, selected: Option<usize>) -> (r: Vec<TimelineLine>)
    ensures
        exists|times: Seq<Instant>|
            times.len() == timeline_hops(state@, selected).len() && line_views(r@)
                == #[trigger] lines_of(state@, timeline_hops(state@, selected), times),
        forall|i: int| 0 <= i < r@.len() ==> starts_at_zero((#[trigger] r@[i])@),
{
    let shown = hops_to_show(state, selected);
    let mut times: Vec<Instant> = Vec::new();
    let mut i: usize = 0;
    while i < shown.len()
        invariant
            i <= shown@.len(),
            times@.len() == i,
        decreases shown@.len() - i,
    {
        times.push(monotonic_now());
        i = i + 1;
    }
    proof {
        law_hop_numbers_are_sorted_and_complete(state@);
        assert forall|j: int| 0 <= j < shown@.len() implies state@.hops.contains_key(
            #[trigger] shown@[j],
        ) by {
            match selected_number(state@, selected) {
                Some(hop_number) => {
                    assert(state@.hop_numbers().contains(hop_number));
                },
                None => {
                    assert(state@.hop_numbers().contains(shown@[j]));
                },
            }
        }
    }
    timeline_at(state, &shown, &times)
}

/// The timeline shows the longest run of young results up to the latest one: all of them are
/// young, and the result before them, if there is one, is not.
pub proof fn law_timeline_shows_the_last_minute(results: Seq<PingResult>, now: Instant)
    ensures
        ({
            let young = young_results(results, now);
            let start = results.len() - young.len();
            &&& start >= 0
            &&& young == results.skip(start)
            &&& forall|i: int| 0 <= i < young.len() ==> is_young(#[trigger] young[i], now)
            &&& start > 0 ==> !is_young(results[start - 1], now)
        }),
    decreases results.len(),
{
    let young = young_results(results, now);
    if results.len() == 0 || !is_young(results.last(), now) {
        assert(young =~= results.skip(results.len() as int));
    } else {
        law_timeline_shows_the_last_minute(results.drop_last(), now);
        assert(young =~= results.skip(results.len() - young.len()));
    }
}

/// Where the results are in order of time, the timeline shows exactly those of the last minute:
/// the young ones among them, and no other.
pub proof fn law_timeline_shows_all_of_the_last_minute(results: Seq<PingResult>, now: Instant)
    requires
        in_time_order(results),
    ensures
        ({
            let start = results.len() - young_results(results, now).len();
            &&& young_results(results, now) == results.skip(start)
            &&& forall|i: int|
                0 <= i < results.len() ==> (is_young(#[trigger] results[i], now) <==> i >= start)
        }),
{
    let young = young_results(results, now);
    let start = results.len() - young.len();
    law_timeline_shows_the_last_minute(results, now);
    assert forall|i: int| 0 <= i < results.len() implies (is_young(#[trigger] results[i], now)
        <==> i >= start) by {
        if i >= start {
            assert(young[i - start] == results[i]);
        } else {
            assert(instant_nanos(results[i].timestamp) <= instant_nanos(
                results[start - 1].timestamp,
            ));
        }
    }
}

/// Where the results are in order of time, a line of the timeline runs forward: it starts at time
/// zero, and no later point has a smaller time. Where no result is after `now`, no point is more
/// than a minute after the first.
pub proof fn law_timeline_runs_forward(results: Seq<PingResult>, now: Instant)
    requires
        in_time_order(results),
    ensures
        ({
            let points = points_of(young_results(results, now));
            &&& points.len() > 0 ==> points[0].0 == 0
            &&& forall|i: int, j: int|
                0 <= i <= j < points.len() ==> (#[trigger] points[i]).0 <= (#[trigger] points[j]).0
            &&& forall|i: int|
                0 <= i < points.len() && instant_nanos(results.last().timestamp) <= instant_nanos(
                    now,
                ) ==> (#[trigger] points[i]).0 <= TIMELINE_NANOS
        }),
{
    let young = young_results(results, now);
    let points = points_of(young);
    let start = results.len() - young.len();
    law_timeline_shows_the_last_minute(results, now);
    assert forall|i: int, j: int| 0 <= i <= j < young.len() implies instant_nanos(
        #[trigger] young[i].timestamp,
    ) <= instant_nanos(#[trigger] young[j].timestamp) by {
        assert(young[i] == results[start + i] && young[j] == results[start + j]);
        assert(instant_nanos(results[start + i].timestamp) <= instant_nanos(
            results[start + j].timestamp,
        ));
    }
    assert forall|i: int, j: int| 0 <= i <= j < points.len() implies (#[trigger] points[i]).0 <= (
    #[trigger] points[j]).0 by {
        assert(instant_nanos(young[0].timestamp) <= instant_nanos(young[i].timestamp));
        assert(instant_nanos(young[i].timestamp) <= instant_nanos(young[j].timestamp));
    }
    assert forall|i: int|
        0 <= i < points.len() && instant_nanos(results.last().timestamp) <= instant_nanos(
            now,
        ) implies (#[trigger] points[i]).0 <= TIMELINE_NANOS by {
        assert(instant_nanos(young[0].timestamp) <= instant_nanos(young[i].timestamp));
        assert(young[i] == results[start + i]);
        assert(instant_nanos(results[start + i].timestamp) <= instant_nanos(
            results[results.len() - 1].timestamp,
        ));
        assert(is_young(young[0], now));
    }
}

/// Selecting a hop isolates it: the timeline then shows exactly the young results of that hop, in
/// one line, or has no line where there are none. Without a selection, or with one outside the
/// table, it has the lines of all hops, in ascending order of their numbers.
pub proof fn law_selection_isolates_a_hop(
    state: AppStateView,
    selected: Option<usize>,
    times: Seq<Instant>,
)
    requires
        times.len() == timeline_hops(state, selected).len(),
    ensures
        ({
            let shown = timeline_hops(state, selected);
            let lines = lines_of(state, shown, times);
            match selected_number(state, selected) {
                Some(hop_number) => {
                    let young = young_results(state.hops[hop_number].results, times[0]);
                    &&& shown == seq![hop_number]
                    &&& lines == if young.len() == 0 {
                        Seq::empty()
                    } else {
                        seq![TimelineLineView { hop_number, points: points_of(young) }]
                    }
                },
                None => {
                    &&& shown == state.hop_numbers()
                    &&& forall|i: int, j: int|
                        0 <= i < j < lines.len() ==> lines[i].hop_number < lines[j].hop_number
                },
            }
        }),
{
    let shown = timeline_hops(state, selected);
    let lines = lines_of(state, shown, times);
    law_lines_are_those_of_the_shown_hops(state, shown, times);
    match selected_number(state, selected) {
        Some(hop_number) => {
            let young = young_results(state.hops[hop_number].results, times[0]);
            assert(shown.drop_last() =~= Seq::empty());
            assert(lines_of(state, shown.drop_last(), times) =~= Seq::empty());
            assert(lines =~= if young.len() == 0 {
                Seq::empty()
            } else {
                seq![TimelineLineView { hop_number, points: points_of(young) }]
            });
        },
        None => {
            law_hop_numbers_are_sorted_and_complete(state);
        },
    }
}

/// The young results of the hop at place `k` of those shown.
pub open spec fn young_of(state: AppStateView, shown: Seq<u8>, times: Seq<Instant>, k: int) -> Seq<
    PingResult,
> {
    young_results(state.hops[shown[k]].results, times[k])
}

/// The places, among the hops shown, of those that have young results, in ascending order.
pub open spec fn line_places(
    state: AppStateView,
    shown: Seq<u8>,
    times: Seq<Instant>,
    n: nat,
) -> Seq<int>
    decreases n,
{
    if n == 0 {
        Seq::empty()
    } else {
        let before = line_places(state, shown, times, (n - 1) as nat);
        if young_of(state, shown, times, n - 1).len() > 0 {
            before.push(n - 1)
        } else {
            before
        }
    }
}

/// The places with young results are ascending and complete.
proof fn lemma_line_places(state: AppStateView, shown: Seq<u8>, times: Seq<Instant>, n: nat)
    ensures
        forall|i: int|
            0 <= i < line_places(state, shown, times, n).len() ==> 0 <= #[trigger] line_places(
                state,
                shown,
                times,
                n,
            )[i] < n,
        forall|i: int, j: int|
            0 <= i < j < line_places(state, shown, times, n).len() ==> line_places(
                state,
                shown,
                times,
                n,
            )[i] < line_places(state, shown, times, n)[j],
        forall|k: int|
            0 <= k < n ==> (#[trigger] line_places(state, shown, times, n).contains(k)
                <==> young_of(state, shown, times, k).len() > 0),
    decreases n,
{
    if n > 0 {
        let places = line_places(state, shown, times, n);
        let before = line_places(state, shown, times, (n - 1) as nat);
        lemma_line_places(state, shown, times, (n - 1) as nat);
        assert forall|k: int| 0 <= k < n implies (#[trigger] places.contains(k) <==> young_of(
            state,
            shown,
            times,
            k,
        ).len() > 0) by {
            if before.contains(k) {
                let i = choose|i: int| 0 <= i < before.len() && before[i] == k;
                assert(places[i] == k);
            }
            if places.contains(k) && k < n - 1 {
                let i = choose|i: int| 0 <= i < places.len() && places[i] == k;
                assert(before[i] == k);
            }
            if k == n - 1 && young_of(state, shown, times, k).len() > 0 {
                assert(places.last() == k);
            }
        }
    }
}

/// The lines of the first `n` hops shown are those of the places with young results.
proof fn lemma_lines_stand_at_places(
    state: AppStateView,
    shown: Seq<u8>,
    times: Seq<Instant>,
    n: nat,
)
    requires
        n <= shown.len(),
    ensures
        lines_of(state, shown.take(n as int), times) == line_places(
            state,
            shown,
            times,
            n,
        ).map_values(
            |k: int|
                TimelineLineView {
                    hop_number: shown[k],
                    points: points_of(young_of(state, shown, times, k)),
                },
        ),
    decreases n,
{
    let places = line_places(state, shown, times, n);
    let line = |k: int|
        TimelineLineView {
            hop_number: shown[k],
            points: points_of(young_of(state, shown, times, k)),
        };
    if n > 0 {
        lemma_lines_stand_at_places(state, shown, times, (n - 1) as nat);
        assert(shown.take(n as int).drop_last() =~= shown.take(n - 1));
        assert(shown.take(n as int).last() == shown[n - 1]);
        assert(lines_of(state, shown.take(n as int), times) =~= places.map_values(line));
    } else {
        assert(lines_of(state, shown.take(0), times) =~= places.map_values(line));
    }
}

/// The lines of the timeline are those of the hops shown that have young results, in the order
/// of the hops shown: each such hop has one line, whose points are exactly those of its young
/// results, and no other hop has any. Where the hop numbers shown ascend, so do those of the
/// lines.
pub proof fn law_lines_are_those_of_the_shown_hops(
    state: AppStateView,
    shown: Seq<u8>,
    times: Seq<Instant>,
)
    requires
        times.len() == shown.len(),
    ensures
        ({
            let lines = lines_of(state, shown, times);
            let places = line_places(state, shown, times, shown.len());
            &&& lines.len() == places.len()
            &&& forall|i: int|
                0 <= i < lines.len() ==> #[trigger] lines[i] == (TimelineLineView {
                    hop_number: shown[places[i]],
                    points: points_of(young_of(state, shown, times, places[i])),
                })
            &&& forall|i: int| 0 <= i < places.len() ==> 0 <= #[trigger] places[i] < shown.len()
            &&& forall|i: int, j: int| 0 <= i < j < places.len() ==> places[i] < places[j]
            &&& forall|k: int|
                0 <= k < shown.len() ==> (#[trigger] places.contains(k) <==> young_of(
                    state,
                    shown,
                    times,
                    k,
                ).len() > 0)
            &&& (forall|a: int, b: int| 0 <= a < b < shown.len() ==> shown[a] < shown[b]) ==> (
            forall|i: int, j: int|
                0 <= i < j < lines.len() ==> lines[i].hop_number < lines[j].hop_number)
        }),
{
    assert(shown.take(shown.len() as int) =~= shown);
    lemma_lines_stand_at_places(state, shown, times, shown.len());
    lemma_line_places(state, shown, times, shown.len());
    let lines = lines_of(state, shown, times);
    let places = line_places(state, shown, times, shown.len());
    if forall|a: int, b: int| 0 <= a < b < shown.len() ==> shown[a] < shown[b] {
        assert forall|i: int, j: int| 0 <= i < j < lines.len() implies lines[i].hop_number
            < lines[j].hop_number by {
            assert(places[i] < places[j]);
            assert(shown[places[i]] < shown[places[j]]);
        }
    }
}

/// The table is in order of what it shows. Of two rows, the upper one has the smaller value in the
/// column that is sorted by where it is sorted upwards, and the larger one where it is sorted
/// downwards; rows with equal values stand in the order of their hop numbers. A missing average or
/// greatest RTT counts as zero; a missing least RTT or address as larger than any other.
pub proof fn law_table_is_in_order(
    state: AppStateView,
    selected: Option<usize>,
    column: SortColumn,
    direction: SortDirection,
    i: int,
    j: int,
)
    requires
        0 <= i < j < table_of(state, selected, column, direction).len(),
        forall|k: u8| #[trigger]
            state.hops.contains_key(k) ==> state.hops[k].results.len() <= usize::MAX,
    ensures
        ({
            let rows = table_of(state, selected, column, direction);
            let (a, b) = match direction {
                SortDirection::Asc => (rows[i], rows[j]),
                SortDirection::Desc => (rows[j], rows[i]),
            };
            let tie = rows[i].hop_number < rows[j].hop_number;
            match column {
                SortColumn::HopNumber => a.hop_number < b.hop_number,
                SortColumn::IpAddress => match (a.ip, b.ip) {
                    (Some(IpAddr::V4(x)), Some(IpAddr::V4(y))) => x < y || (x == y && tie),
                    (Some(IpAddr::V6(x)), Some(IpAddr::V6(y))) => x < y || (x == y && tie),
                    (Some(IpAddr::V4(_)), Some(IpAddr::V6(_))) => true,
                    (Some(IpAddr::V6(_)), Some(IpAddr::V4(_))) => false,
                    (Some(_), None) => true,
                    (None, Some(_)) => false,
                    (None, None) => tie,
                },
                SortColumn::AvgRtt => {
                    let (x, m) = match a.average_rtt {
                        Some(average) => (average.num as int, average.den as int),
                        None => (0, 1),
                    };
                    let (y, n) = match b.average_rtt {
                        Some(average) => (average.num as int, average.den as int),
                        None => (0, 1),
                    };
                    x * n < y * m || (x * n == y * m && tie)
                },
                SortColumn::MinRtt => match (a.min_rtt, b.min_rtt) {
                    (Some(x), Some(y)) => x < y || (x == y && tie),
                    (Some(_), None) => true,
                    (None, Some(_)) => false,
                    (None, None) => tie,
                },
                SortColumn::MaxRtt => {
                    let x = match a.max_rtt {
                        Some(x) => x as int,
                        None => 0,
                    };
                    let y = match b.max_rtt {
                        Some(y) => y as int,
                        None => 0,
                    };
                    x < y || (x == y && tie)
                },
                SortColumn::Jitter => {
                    let x = a.jitter.num * b.jitter.den;
                    let y = b.jitter.num * a.jitter.den;
                    x < y || (x == y && tie)
                },
                SortColumn::Loss => {
                    let x = a.loss.num * b.loss.den;
                    let y = b.loss.num * a.loss.den;
                    x < y || (x == y && tie)
                },
                SortColumn::PingCount => a.pings < b.pings || (a.pings == b.pings && tie),
            }
        }),
{
    let rows = table_of(state, selected, column, direction);
    let keys = sort_keys(state, column);
    let order = table_order(state, column, direction);
    let numbers = state.hop_numbers();
    lemma_sort_keys_valid(state, column);
    law_row_order_exists(keys, direction);
    law_row_order_is_complete(order, keys, direction);
    law_hop_numbers_are_sorted_and_complete(state);
    let p = order[i] as int;
    let q = order[j] as int;
    assert(p != q);
    assert(stands_before(keys, direction, p, q));
    assert(rows[i] == row_of(state, order[i], selected));
    assert(rows[j] == row_of(state, order[j], selected));
    let (hop_p, hop_q) = (state.hops[numbers[p]], state.hops[numbers[q]]);
    assert(numbers.contains(numbers[p]) && numbers.contains(numbers[q]));
    assert(keys[p] == sort_key(hop_p, numbers[p], address_of(state, numbers[p]), column));
    assert(keys[q] == sort_key(hop_q, numbers[q], address_of(state, numbers[q]), column));
    assert(p < q <==> numbers[p] < numbers[q]);
    match column {
        SortColumn::HopNumber => {
            lemma_whole_less(numbers[p] as u128, numbers[q] as u128);
            lemma_whole_less(numbers[q] as u128, numbers[p] as u128);
        },
        SortColumn::IpAddress => {
            if let (Some(x), Some(y)) = (rows[i].ip, rows[j].ip) {
                law_addresses_are_sorted_by_number(x, y);
                law_addresses_are_sorted_by_number(y, x);
            }
        },
        SortColumn::MinRtt => {
            if let (Some(x), Some(y)) = (rows[i].min_rtt, rows[j].min_rtt) {
                lemma_whole_less(x as u128, y as u128);
                lemma_whole_less(y as u128, x as u128);
            }
        },
        SortColumn::MaxRtt => {
            let x: u64 = match rows[i].max_rtt {
                Some(x) => x,
                None => 0,
            };
            let y: u64 = match rows[j].max_rtt {
                Some(y) => y,
                None => 0,
            };
            lemma_whole_less(x as u128, y as u128);
            lemma_whole_less(y as u128, x as u128);
        },
        SortColumn::PingCount => {
            lemma_whole_less(rows[i].pings as u128, rows[j].pings as u128);
            lemma_whole_less(rows[j].pings as u128, rows[i].pings as u128);
        },
        _ => {},
    }
}

/// A row shows its hop: number and address, whether it is selected, the statistics over its latest
/// results, a color for its loss, red above 50 percent and yellow above 10, and the number of all
/// results.
pub proof fn law_rows_show_their_hops(
    state: AppStateView,
    selected: Option<usize>,
    column: SortColumn,
    direction: SortDirection,
    i: int,
)
    requires
        0 <= i < table_of(state, selected, column, direction).len(),
    ensures
        ({
            let row = table_of(state, selected, column, direction)[i];
            let hop = state.hops[row.hop_number];
            let rtts = successful_rtts(hop.window());
            &&& row.index < state.hop_numbers().len()
            &&& row.hop_number == state.hop_numbers()[row.index as int]
            &&& state.hops.contains_key(row.hop_number)
            &&& row.selected <==> selected == Some(row.index)
            &&& row.ip is Some <==> state.hop_ips.contains_key(row.hop_number)
            &&& row.ip matches Some(ip) ==> ip == state.hop_ips[row.hop_number]
            &&& row.min_rtt == min_of(rtts)
            &&& row.max_rtt == max_of(rtts)
            &&& row.average_rtt == average_of(hop.window())
            &&& row.jitter == jitter_of(rtts)
            &&& row.loss == loss_of(hop.window())
            &&& row.loss_color == if row.loss.num > 50 * row.loss.den {
                Rgb { r: 200, g: 0, b: 0 }
            } else if row.loss.num > 10 * row.loss.den {
                Rgb { r: 200, g: 200, b: 0 }
            } else {
                Rgb { r: 0, g: 200, b: 100 }
            }
            &&& hop.results.len() <= usize::MAX ==> row.pings == hop.results.len()
        }),
{
    let keys = sort_keys(state, column);
    let order = table_order(state, column, direction);
    lemma_sort_keys_valid(state, column);
    law_row_order_exists(keys, direction);
    law_hop_numbers_are_sorted_and_complete(state);
    assert(order[i] < keys.len());
    assert(state.hop_numbers().contains(state.hop_numbers()[order[i] as int]));
}

/// A selected place stands for the hop at that place among all hops by ascending number; a place
/// that no hop has stands for none.
pub proof fn law_selection_is_a_place(state: AppStateView, selected: Option<usize>)
    ensures
        selected_number(state, selected) is Some <==> selected is Some && selected->0
            < state.hop_numbers().len(),
        selected_number(state, selected) matches Some(hop_number) ==> hop_number
            == state.hop_numbers()[selected->0 as int],
{
}

/// The isolate view shows the selected hop: its address, the statistics over its latest results,
/// its latest RTT, and its last 20 results or all of them, oldest first. A success is shown with
/// its RTT, in green; a failure without one, in red. All but the last are followed by another.
pub proof fn law_isolate_view_shows_the_hop(state: AppStateView, hop_number: u8)
    ensures
        ({
            let hop = state.hops[hop_number];
            let shown = isolated(state, hop_number);
            let rtts = successful_rtts(hop.window());
            let n = shown.recent.len() as int;
            &&& shown.hop_number == hop_number
            &&& shown.ip is Some <==> state.hop_ips.contains_key(hop_number)
            &&& shown.ip matches Some(ip) ==> ip == state.hop_ips[hop_number]
            &&& shown.average_rtt == average_of(hop.window())
            &&& shown.min_rtt == min_of(rtts)
            &&& shown.max_rtt == max_of(rtts)
            &&& shown.loss == loss_of(hop.window())
            &&& shown.latest_rtt == hop.latest_rtt
            &&& hop.results.len() <= usize::MAX ==> shown.pings == hop.results.len()
            &&& n == if hop.results.len() <= 20 {
                hop.results.len() as int
            } else {
                20
            }
            &&& forall|i: int|
                0 <= i < n ==> {
                    let result = hop.results[hop.results.len() - n + i];
                    let ping = #[trigger] shown.recent[i];
                    &&& result.success ==> ping.rtt_ns == Some(result.rtt_ns) && ping.color == (Rgb {
                        r: 0,
                        g: 200,
                        b: 100,
                    })
                    &&& !result.success ==> ping.rtt_ns is None && ping.color == (Rgb {
                        r: 200,
                        g: 50,
                        b: 50,
                    })
                    &&& ping.followed <==> i + 1 < n
                }
        }),
{
}

/// A result is young up to an age of exactly 60 seconds.
pub proof fn law_young_is_up_to_a_minute(result: PingResult, now: Instant)
    ensures
        is_young(result, now) <==> instant_nanos(now) - instant_nanos(result.timestamp)
            <= 60_000_000_000,
{
}

/// Every young result is plotted as it was recorded, successes and failures alike: point `i` from
/// the end of a line has the RTT of result `i` from the end, and the time from the first result
/// of the line to this one.
pub proof fn law_points_are_the_results(results: Seq<PingResult>, now: Instant)
    ensures
        ({
            let points = points_of(young_results(results, now));
            let start = results.len() - points.len();
            &&& start >= 0
            &&& forall|i: int|
                0 <= i < points.len() ==> {
                    let result = results[start + i];
                    let first = results[start];
                    &&& (#[trigger] points[i]).1 == result.rtt_ns
                    &&& instant_nanos(result.timestamp) >= instant_nanos(first.timestamp)
                        ==> points[i].0 == instant_nanos(result.timestamp) - instant_nanos(
                        first.timestamp,
                    )
                    &&& instant_nanos(result.timestamp) < instant_nanos(first.timestamp)
                        ==> points[i].0 == 0
                }
            &&& forall|i: int|
                start <= i < results.len() ==> instant_nanos(now) - instant_nanos(
                    (#[trigger] results[i]).timestamp,
                ) <= 60_000_000_000
            &&& start > 0 ==> instant_nanos(now) - instant_nanos(results[start - 1].timestamp)
                > 60_000_000_000
        }),
{
    let young = young_results(results, now);
    let points = points_of(young);
    let start = results.len() - points.len();
    law_timeline_shows_the_last_minute(results, now);
    assert forall|i: int| 0 <= i < points.len() implies {
        let result = results[start + i];
        let first = results[start];
        &&& (#[trigger] points[i]).1 == result.rtt_ns
        &&& instant_nanos(result.timestamp) >= instant_nanos(first.timestamp) ==> points[i].0
            == instant_nanos(result.timestamp) - instant_nanos(first.timestamp)
        &&& instant_nanos(result.timestamp) < instant_nanos(first.timestamp) ==> points[i].0 == 0
    } by {
        assert(young[i] == results[start + i]);
        assert(young[0] == results[start]);
    }
    assert forall|i: int| start <= i < results.len() implies instant_nanos(now) - instant_nanos(
        (#[trigger] results[i]).timestamp,
    ) <= 60_000_000_000 by {
        assert(young[i - start] == results[i]);
        assert(is_young(young[i - start], now));
    }
}

/// Every line of the timeline plots the last results of its hop as they were recorded.
pub proof fn law_lines_plot_the_results(
    state: AppStateView,
    shown: Seq<u8>,
    times: Seq<Instant>,
    i: int,
    j: int,
)
    requires
        times.len() == shown.len(),
        0 <= i < lines_of(state, shown, times).len(),
        0 <= j < lines_of(state, shown, times)[i].points.len(),
    ensures
        ({
            let line = lines_of(state, shown, times)[i];
            let results = state.hops[line.hop_number].results;
            let start = results.len() - line.points.len();
            let elapsed = instant_nanos(results[start + j].timestamp) - instant_nanos(
                results[start].timestamp,
            );
            &&& shown.contains(line.hop_number)
            &&& start >= 0
            &&& line.points[j].1 == results[start + j].rtt_ns
            &&& line.points[j].0 == if elapsed >= 0 {
                elapsed
            } else {
                0
            }
        }),
{
    law_lines_are_those_of_the_shown_hops(state, shown, times);
    let line = lines_of(state, shown, times)[i];
    let k = line_places(state, shown, times, shown.len())[i];
    let results = state.hops[shown[k]].results;
    assert(line.points == points_of(young_results(results, times[k])));
    assert(shown[k] == line.hop_number);
    law_points_are_the_results(results, times[k]);
    assert(line.points[j] == points_of(young_results(results, times[k]))[j]);
}

/// A duration is written as its whole minutes, and the seconds of the minute that has begun in two
/// digits.
pub proof fn law_duration_is_minutes_and_seconds(nanos: u128)
    ensures
        ({
            let secs = nanos as int / 1_000_000_000;
            duration_text(nanos) == decimal((secs / 60) as nat) + seq!['m', ' '] + seq![
                ('0' as int + secs % 60 / 10) as char,
                ('0' as int + secs % 60 % 10) as char,
            ] + seq!['s']
        }),
{
    reveal_strlit("m ");
    reveal_strlit("s");
    let secs = nanos as int / 1_000_000_000;
    let s = (secs % 60) as nat;
    assert("m "@ =~= seq!['m', ' ']);
    assert("s"@ =~= seq!['s']);
    reveal_with_fuel(decimal, 3);
    assert(padded_left(decimal(s), 2, '0') =~= seq![
        ('0' as int + s / 10) as char,
        ('0' as int + s % 10) as char,
    ]);
}

} // verus!
