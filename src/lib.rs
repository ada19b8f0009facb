//! Repackages the entries of one archive into a sequence of archives that each
//! hold at most a fixed number of uncompressed bytes. The library decides, entry
//! by entry and chunk by chunk, which output archive receives what, when an
//! archive is rotated, how oversized entries are cut into fragments, and what
//! the manifest says; the caller reads and writes the archives.
use vstd::prelude::*;

pub mod manifest;
pub mod naming;
pub mod size;
pub mod splitter;

verus! {

} // verus!
