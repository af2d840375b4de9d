//! What the storage core asks of its surroundings.

use crate::obj::status_rs::Status;
use crate::util::random_access_file::RandomAccessFile;
use vstd::prelude::*;

verus! {

/// The file system as the table cache sees it.
pub trait Env {
    /// The files that this environment opens for reading at any offset.
    type File: RandomAccessFile;

    /// Opens the file of the given name for reading.
    fn new_random_access_file(&mut self, filename: &str) -> Result<Self::File, Status>;
}

} // verus!
