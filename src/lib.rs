//! Gate-level netlist evaluation over an abstract signal type.
//!
//! A [`Module`] describes ports, cells and nets wired by global bit indices.
//! A [`Runner`] owns one module and a state vector of signals, evaluates the
//! boolean gates in an order derived from the netlist's internal net names,
//! and reads back the values of the user-visible nets.
pub mod eval;
pub mod laws;
pub mod netlist;
pub mod runner;
pub mod schedule;
pub mod signal;

pub use netlist::{Cell, Circuit, Direction, Module, Netname, Port};
pub use eval::GateKind;
pub use runner::{evaluate, Runner};
pub use schedule::RunError;
pub use signal::Signal;
