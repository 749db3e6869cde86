//! An executable model of a flattened gate-level netlist: a signal store,
//! lookup-table and latch elements, and a parser for the text format.
pub mod store;
pub mod text;
pub mod config;
pub mod parser;
pub mod util;
