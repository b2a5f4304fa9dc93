//! RustyPlot: the logic of a graphical traceroute and ping monitor.
//!
//! Probes and their responses ([`traceroute`], [`packet`]), the walk along the path ([`trace`]),
//! the hops and their pinging ([`network_engine`]), the state of a session ([`app_state`],
//! [`session`]), and what is shown of it ([`ui_renderer`], [`sorting`], [`console`], [`cli`]).
//! Times are nanoseconds, and averages and percentages exact quotients ([`ratio`]).

pub mod app_state;
pub mod cli;
pub mod clock;
pub mod console;
pub mod ip;
pub mod network_engine;
pub mod packet;
pub mod random;
pub mod ratio;
pub mod rolling;
pub mod session;
pub mod sorting;
pub mod stats;
pub mod text;
pub mod trace;
pub mod traceroute;
pub mod ui_renderer;

pub use app_state::AppState;
pub use network_engine::NetworkEngine;
