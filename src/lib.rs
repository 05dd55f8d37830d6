//! Selective-disclosure Merkle commitment: the schedule, the witness trace and
//! the algebraic constraints of a postorder Merkle hashing computation.
//!
//! For `n` leaves (a power of two, at least two) the `n - 1` internal nodes of
//! the tree are hashed in postorder, one hash cycle each: a cycle whose node
//! sits just above the leaves loads the next leaf pair, any other pairs the
//! most recent stored result (left) with the result just computed (right).
//! After the root's cycle the root digest stays in the first digest lanes, the
//! blinding nonce enters the second, and one more cycle hashes the two; the
//! rate lanes of its result are the commitment.
use vstd::prelude::*;

pub mod air;
pub mod field;
pub mod layout;
pub mod periodic;
pub mod schedule;
pub mod theorems;
pub mod trace;

verus! {

} // verus!
