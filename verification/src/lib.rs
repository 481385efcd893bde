use vstd::prelude::*;

pub mod catalog;
pub mod engine;
pub mod parser;
pub mod state;

verus! {

/// Direction of a migration script: forward (`UP`) or reverse (`DOWN`).
/// An up file applies a schema change, the down file of the same batch
/// reverses it.
#[derive(Clone, Copy, PartialEq, Eq, Structural)]
pub enum Migrations {
    UP,
    DOWN,
}

} // verus!
