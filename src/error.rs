//! What can go wrong in an operation of this library.
use vstd::prelude::*;

verus! {

/// Why an operation failed. A key that is not there is no failure: the
/// operations report it as `None` or as a count.
#[derive(Debug)]
pub enum ToolError {
    /// A tree name, key or value is not hexadecimal text of even length.
    InvalidEncoding,
    /// Both "greater than" and "less than" were asked of one lookup.
    ConflictingModifiers,
    /// The store failed to read, write or open a tree.
    Store(sled::Error),
}

impl ToolError {
    /// Whether this is a failure of the store itself.
    pub open spec fn is_store(&self) -> bool {
        self is Store
    }
}

} // verus!
