//! Verified core of an IC3-based hardware model checker: literal vectors
//! and their text form; relation data for symmetry and equivalence
//! predicates; variable naming; the frame bookkeeping used during
//! generalization; the searches that generalize cubes, by dropping literals
//! or by equivalence predicates, and that push lemmas to later frames; the
//! cone-of-influence reduction and renumbering of a transition system; and
//! the clauses that check an inductive invariant and the counterexample
//! trace of an unsafe model.
pub mod lit;
pub mod litvec;
pub mod text;
pub mod relation;
pub mod var2name;
pub mod config;
pub mod mic;
pub mod frame;
pub mod display;
pub mod ghash;
pub mod equiv;
pub mod similar;
pub mod transys;
pub mod push;
pub mod certify;
pub mod witness;
