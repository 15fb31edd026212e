//! Logic networks built from And, Xor, Mux, Maj and flip-flop gates.
//!
//! - [`network`] holds the representation: signals, gates and their
//!   canonical form, the network with hash-consed construction, and the
//!   passes that sweep, sort and deduplicate it, with what they preserve.
//! - [`unroll`] and [`miter`] build one combinational network out of one
//!   network over several clock steps, or out of two networks to compare;
//!   [`meaning`] says what these compute.
//! - [`equiv`] turns a network into clauses and checks two networks for
//!   equivalence with the SAT solver of [`solver`].
//! - [`aig_node`] and [`literal`] hold a compact node over three literals,
//!   with its own canonical form.

pub mod aig_node;
pub mod equiv;
pub mod literal;
pub mod literal_order;
pub mod meaning;
pub mod miter;
pub mod network;
pub mod solver;
pub mod unroll;

pub use network::aig::Aig;
pub use network::gates::Gate;
pub use network::gates::Normalization;
pub use network::signal::Signal;
pub use network::signal::SignalKind;
