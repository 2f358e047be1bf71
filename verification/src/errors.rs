//! The error kinds a command can surface.

use vstd::prelude::*;

verus! {

/// Everything that can go wrong while classifying or transforming an object,
/// or while running a batch over the current selection.
#[derive(Clone, Copy, PartialEq, Eq, Debug)]
pub enum Error {
    /// Malformed alias text.
    FormatError,
    /// A required section or key is absent.
    MissingField,
    /// The named effect is not registered as a Filter.
    UnknownEffect,
    /// The effect may not serve as a Filter Object.
    NotFilterCapable,
    /// The object is neither a Filter Object nor a Filter Effect.
    NotApplicable,
    /// No object is selected and none is focused.
    NoTarget,
    /// Every targeted object failed; the count is carried along.
    AllFailed(usize),
}

} // verus!
