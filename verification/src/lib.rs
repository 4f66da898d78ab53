//! Analysis of context-free grammars for the LL(1) class, and finite automata.
//!
//! A grammar is built and checked for well-formedness in [`cfg`]. The sets
//! that a one-token predictive parser needs (nullability, FIRST, FOLLOW and
//! PREDICT) are defined mathematically in [`theory`], computed in
//! [`compute`] and kept in the tables of [`tables`]; [`ll1`] applies the two
//! LL(1) rules to them, and [`laws`] states what holds of every grammar.
//! [`toyc`] names the symbols of the ToyC language for its grammar.
//!
//! Finite automata for regular expressions stand beside the grammars:
//! nondeterministic ones in [`nfa`], deterministic ones in [`dfa`], the
//! construction of the second from the first in [`subsets`], and the tokens of
//! the notation for regular expressions in [`scanner`].

mod bits;
pub mod cfg;
pub mod compute;
mod dense;
pub mod dfa;
mod encoding;
pub mod laws;
pub mod lists;
pub mod ll1;
mod memo;
pub mod nfa;
pub mod scanner;
pub mod subsets;
pub mod tables;
pub mod theory;
pub mod toyc;
mod transfer;
