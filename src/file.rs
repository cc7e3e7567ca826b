//! A file interface with entries addressed by index, where `stat` and `ctrl`
//! take the index alone.

use vstd::prelude::*;
use crate::storage::Error;

verus! {

/// A device that serves files by index.
pub trait FileDevice {
    fn stat(&self, index: u64) -> Result<(), Error>;

    fn ctrl(&self, index: u64) -> Result<(), Error>;

    fn read(&self, index: u64, offset: u64, buffer: &mut [u8]) -> Result<(), Error>;

    fn write(&self, index: u64, offset: u64, buffer: &[u8]) -> Result<(), Error>;
}

/// Metadata of one file of a `FileDevice`.
pub struct Entry {
    pub index: u64,
    pub created_at: u64,
    pub last_accessed: u64,
    pub last_modified: u64,
    pub name_length: u8,
    pub data_length: u64,
    pub name: Vec<u8>,
}

} // verus!
