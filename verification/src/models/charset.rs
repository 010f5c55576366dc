use vstd::prelude::*;

verus! {

/// An alphabet and the lengths of the words to write in it.
#[derive(Debug, Clone)]
pub struct Charset {
    pub charset: Vec<char>,
    pub min_len: usize,
    pub max_len: usize,
}

} // verus!
