//! Errors raised by catalog construction, blacklist construction and the
//! generation loop.

use vstd::prelude::*;

verus! {

/// Everything that can go wrong inside the combination engine.
///
/// Catalog construction fails fast, before any sampling begins; the
/// generation loop fails only with `ToleranceExceeded`, which carries the
/// configuration name, the amount requested and the tolerance that was
/// exhausted, so the operator knows which configuration to enlarge.
#[derive(Debug, Clone, PartialEq, Eq)]
pub enum EngineError {
    /// The same trait name appears twice among the catalog's image files.
    DuplicateTraitName(String),
    /// A weight suffix in a file name is not a valid unsigned integer.
    UnparsableWeight(String),
    /// A layer ended up with no selectable entries at all.
    EmptyLayer(String),
    /// The same excluded trait is claimed by two blacklist lines.
    AmbiguousBlacklistEntry(String),
    /// The cumulative failure budget ran out before `amount` unique
    /// combinations were accepted: configuration name, amount, tolerance.
    ToleranceExceeded(String, usize, usize),
}

} // verus!
