//! The part of a key press that the components read.

use vstd::prelude::*;

verus! {

/// A key press, reduced to what the components tell apart.
#[derive(Debug, Clone, Copy, PartialEq, Eq, Structural)]
pub enum Key {
    /// A printable character.
    Char(char),
    /// The Enter key.
    Enter,
    /// Any other key.
    Other,
}

} // verus!
