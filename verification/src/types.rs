//! Identity types shared by every layer: actors, op ids, row and column ids.

use vstd::prelude::*;

verus! {

/// A replica/participant identity.
#[derive(Clone, Copy, PartialEq, Eq, Structural, PartialOrd, Ord, Hash, Debug)]
pub struct ActorId(pub u128);

/// Globally unique op identity: an actor and its monotonic counter.
#[derive(Clone, Copy, PartialEq, Eq, Structural, PartialOrd, Ord, Hash, Debug)]
pub struct OpId {
    pub actor: ActorId,
    pub counter: u64,
}

/// A permanent row identity.
#[derive(Clone, Copy, PartialEq, Eq, Structural, PartialOrd, Ord, Hash, Debug)]
pub struct RowId(pub OpId);

/// A permanent column identity.
#[derive(Clone, Copy, PartialEq, Eq, Structural, PartialOrd, Ord, Hash, Debug)]
pub struct ColId(pub OpId);

/// Spreadsheet error kinds; errors are values, never panics.
#[derive(Clone, Copy, PartialEq, Eq, Structural, Debug)]
pub enum ErrorKind {
    Div0,
    Value,
    Ref,
    Name,
    Num,
    Na,
    Circ,
    Spill,
}


/// Which coercion rule set a workbook runs under: Excel's rules, quirks
/// included, or no silent conversion at all.
#[derive(Clone, Copy, PartialEq, Eq, Structural, Debug)]
pub enum Profile {
    /// Excel's rules exactly, including its data-mangling quirks.
    Compat,
    /// Never convert silently; refuse and explain instead.
    Strict,
}

} // verus!
