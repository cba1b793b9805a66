//! Collect flame graphs and flame charts.
//!
//! A flame chart shows the precise timing of each call: if one function calls another a hundred
//! times, there are a hundred separate events. In a flame graph all those calls are lumped
//! together into one span with their total time.
//!
//! The library keeps what one thread records in a value ([`GraphThreadData`],
//! [`StencilThreadData`]) and what is configured in another ([`Settings`]). It reads no clock and
//! writes no log: readings are handed in, and what is to be logged is handed back.

pub mod chart_laws;
pub mod collapse;
pub mod config;
pub mod flamechart;
pub mod flamegraph;
pub mod graph_laws;
pub mod logging;
pub mod soa;
pub mod text;
pub mod time;
pub mod vec_trie;

pub use collapse::call_sites_to_flame_chart;
pub use config::{
    enable_flame_chart_collection, enable_flame_graph_collection, limit_entry_points,
    SetConfigOutcome, Settings,
};
pub use flamechart::{
    outline, outline_with, set_flame_chart_handler, set_flame_chart_min_duration, Callsite,
    Closing, CompleteTrace, StencilThreadData, Until,
};
pub use flamegraph::{set_flame_graph_handler, FlameGraph, GraphThreadData, Span};
