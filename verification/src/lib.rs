//! Statement routing for a validator node.
//!
//! Validators exchange signed statements about candidates over gossip. This
//! crate holds the rules of that exchange: which statements are deferred until
//! their candidate is known, in what order a batch is handed to the statement
//! table, what follows from the table's answer, how a unit of validation work
//! ends, and how outgoing messages are grouped per destination.

pub mod primitives;
pub mod statement;
pub mod deferred;
pub mod egress;
pub mod router;
pub mod work;
