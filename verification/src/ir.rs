//! Why the host refuses what a sandboxed parser sent back.

use vstd::prelude::*;

verus! {

/// The schema name every intermediate representation carries.
pub const SCHEMA: &'static str = "ehkatra.import.ir/1";

/// Why the host would not accept a child's output.
#[derive(Clone, Copy, PartialEq, Eq, Debug)]
pub enum IrError {
    NotJson,
    WrongSchema,
    MissingField(&'static str),
    /// The output broke a bound the parser was supposed to enforce: the
    /// parser is compromised or broken, and its output is discarded.
    BoundViolated(&'static str),
}

} // verus!
