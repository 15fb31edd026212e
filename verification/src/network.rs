//! The network representation: signals, gates and the network itself.

pub mod aig;
pub mod dedup;
pub mod eval;
pub mod gates;
pub mod nary;
pub mod order;
pub mod preserve;
pub mod reach;
pub mod signal;
pub mod text;
pub mod topo;
pub mod view;
