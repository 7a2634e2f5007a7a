//! The basic value types shared by every module.

use vstd::prelude::*;

verus! {

/// One byte of text.
pub type MintChar = u8;

/// An offset, a length or a count.
pub type MintCount = u32;

/// A byte string.
pub type MintString = Vec<u8>;

} // verus!
