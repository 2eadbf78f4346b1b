//! Extracts the text embedded in a 32-bit Windows-style executable into
//! an editable manifest, and patches a copy of the executable so that
//! every instruction referencing an original string points at its
//! translated replacement, relocated into freshly grown section space.

pub mod binary;
pub mod executable;
pub mod extract;
pub mod headers;
pub mod hex;
pub mod manifest;
pub mod patch;
pub mod patcher;
pub mod sjis;
pub mod strtable;
pub mod xref;

use vstd::prelude::*;

verus! {

/// Error kinds reported by the library.
///
/// `ErrIO` carries the description of an underlying stream failure supplied
/// by the caller; the other variants are produced by the library itself.
#[derive(Debug)]
pub enum NError {
    ErrInvalidOperation,
    ErrIO(String),
    ErrInvalidExe,
    ErrNoSection,
    ErrOther(String),
}

} // verus!
