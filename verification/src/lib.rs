//! Multiparty session types with asynchronous subtyping: finite state
//! machines of local protocols, a bounded checker for asynchronous
//! subtyping between them, and the refinements (predicates and side
//! effects) that annotate their transitions.

pub mod channel;
pub mod effect;
pub mod fsm;
pub mod generate;
pub mod index;
pub mod label;
pub mod lexer;
pub mod local;
pub mod matrix;
pub mod oneshot;
pub mod pair;
pub mod parse;
pub mod predicate;
pub mod prefix;
pub mod protocol;
pub mod readback;
pub mod render;
pub mod session;
pub mod subtype;
pub mod symbol;
pub mod text;
pub mod token;
pub mod tree;
pub mod variables;

use vstd::prelude::*;

verus! {

} // verus!
