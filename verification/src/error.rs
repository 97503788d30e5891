//! What an engine operation can fail with.

use vstd::prelude::*;

verus! {

#[derive(Clone, Copy, Debug, PartialEq, Eq, Structural)]
pub enum Error {
    /// A value that is longer than the slot it would overwrite.
    InvalidData,
    /// A seek to a position before the start of the file, or beyond what can be addressed.
    InvalidInput,
    /// An index file whose records do not fit the data file: they describe more data than
    /// the file holds, name a key twice, or overlap.
    CorruptIndex,
}

} // verus!
