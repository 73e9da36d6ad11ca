//! The errors of the regular expression engine.
use vstd::prelude::*;

verus! {

/// Why a pattern was refused.
#[derive(Debug, PartialEq, Eq, Structural)]
pub enum RegexError {
    /// The pattern could not be parsed; `pos` is where the parse stopped.
    Parse { pos: usize },
}

} // verus!
