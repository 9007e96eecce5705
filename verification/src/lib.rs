//! Verified pieces of a small ML-to-JavaScript compiler: the JavaScript
//! expression tree with its printer and dead-code pass, the bound-pairs
//! relation used during type checking, the reachability graph with its
//! save/revert journal, and the result that compilation reports.

use vstd::prelude::*;
use vstd::string::*;

pub mod ast;
pub mod bound_pairs_set;
pub mod js;
pub mod reachability;

verus! {

/// The outcome of compiling a piece of source: the JavaScript code, or the
/// error message.
#[derive(Debug, Clone, PartialEq, Eq)]
pub enum CompilationResult {
    Success(String),
    Error(String),
}

impl CompilationResult {
    /// The result as it is printed: a line `SUCCESS` and then the code, or a
    /// line `ERROR` and then the message.
    pub fn to_string(&self) -> (r: String)
        ensures
            r@ == match self {
                CompilationResult::Success(code) => "SUCCESS\n"@ + code@,
                CompilationResult::Error(msg) => "ERROR\n"@ + msg@,
            },
    {
        let mut s = String::new();
        match self {
            CompilationResult::Success(code) => {
                s.append("SUCCESS\n");
                s.append(code.as_str());
            },
            CompilationResult::Error(msg) => {
                s.append("ERROR\n");
                s.append(msg.as_str());
            },
        }
        s
    }
}

} // verus!
