//! Circuit-synthesis logic of the Schnorr signature gadgets.
//!
//! - `truncation`: how many leading bits of a field element to drop so that
//!   it reads as a value below another field's modulus.
//! - `plan`: straight-line register programs of gadget operations, and their
//!   well-formedness (single assignment, definition before use).
//! - `gadgets`: the gadget values, and the plans that key randomization and
//!   signature verification synthesize.
//! - `semantics`: what a plan computes, given what each operation computes.
//! - `correctness`: that those plans compute `pk + g·r` and
//!   `e' = H(m ‖ x(s·g − e·pk) ‖ pk)`, and compare `e'` with `e`.
pub mod correctness;
pub mod gadgets;
pub mod plan;
pub mod semantics;
pub mod truncation;
