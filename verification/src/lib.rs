//! Verified core of the tender-document review agents: the session knowledge
//! graph shared by the review agents and the rule-based document tools.
use vstd::prelude::*;

pub mod chunk;
pub mod deep_eq;
pub mod dup;
pub mod graph_types;
pub mod risk_index;
pub mod session_graph;
pub mod strmap;
pub mod testing;
pub mod text;
pub mod tools;

verus! {

} // verus!
