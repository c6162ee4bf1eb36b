//! A digital-logic circuit: gates with tri-state inputs and outputs,
//! connectors on the gates, and connection lines between connectors,
//! together with the simulation step and the edit operations that keep the
//! bookkeeping of the three consistent.
//!
//! - [`signal`] holds the values and the rules that compute outputs.
//! - [`gate`] and [`connector`] hold the records a circuit is made of.
//! - [`model`] says what a circuit is as a mathematical value, when it is
//!   well formed, and what each operation makes of it.
//! - [`circuit`] holds the circuit itself, with every operation proved to
//!   do what the model says.
//! - [`proofs`] shows that the operations keep a circuit's records in
//!   agreement, [`shape`] what adding and dropping slots leaves of a
//!   circuit, and [`laws`] what holds across several operations.

pub mod circuit;
pub mod connector;
pub mod gate;
pub mod laws;
pub mod model;
pub mod proofs;
pub mod shape;
pub mod signal;
