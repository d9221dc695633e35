//! A dynamic network of signal-processing units.
//!
//! Units are owned by a [`net::Net48`], wired together through ports,
//! scheduled so that every unit runs after the units it reads, and run one
//! sample or one block at a time. The same wiring can be asked what it does
//! to constant signals at one frequency.
//!
//! - [`port`]: ports and edges.
//! - [`sample`], [`signal`]: the values that flow through a network.
//! - [`unit`]: what every unit offers, and the units the network itself needs.
//! - [`graph`]: the wiring as mathematical data.
//! - [`schedule`]: evaluation orders and cycles.
//! - [`flow`]: what a whole wiring answers to a history of inputs.
//! - [`net`]: the network.
//! - [`nested`]: networks as units of other networks.
//! - [`laws`]: how the operations of a network relate to each other.

pub mod flow;
pub mod graph;
pub mod laws;
pub mod nested;
pub mod net;
pub mod port;
pub mod sample;
pub mod schedule;
pub mod signal;
pub mod unit;
