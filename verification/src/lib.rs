//! The core of a compiler generator, which turns an attributed grammar into
//! a scanner and a recursive-descent parser.
//!
//! `dfa` holds the sets of characters; `tab` the symbols, the character
//! classes and the nodes of the syntax graph; `graph` builds the graph of a
//! production from fragments. `deletable`, `first`, `follow` and `owner`
//! analyse the graph in passes that `fixpoint` describes, `ll1` lists where
//! the grammar is not LL(1), and `tokens` and `automaton` make the
//! automaton of the scanner. `scanner`, `parser` and `trace` hold what a
//! run of the generator is made of.

pub mod automaton;
pub mod deletable;
pub mod dfa;
pub mod first;
pub mod fixpoint;
pub mod follow;
pub mod graph;
pub mod ll1;
pub mod owner;
pub mod parser;
pub mod scanner;
pub mod tab;
pub mod tokens;
pub mod trace;
