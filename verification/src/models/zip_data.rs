use vstd::prelude::*;

verus! {

/// The archive under attack: where it came from, its bytes, and the entry
/// to unlock.
#[derive(Debug)]
pub struct ZipData {
    pub path: String,
    pub data: Vec<u8>,
    pub file_index: usize,
}

} // verus!
