use crate::models::charset::Charset;
use crate::models::zip_data::ZipData;
use std::path::PathBuf;
use vstd::prelude::*;

verus! {

/// `std::path::PathBuf`, carried through as it is.
#[verifier::external_type_specification]
#[verifier::external_body]
pub struct ExPathBuf(PathBuf);

/// Where the candidates come from: the lines of a word list, or every word
/// over a charset.
pub enum Strategy {
    DictionaryFile { zip: ZipData, dict_path: PathBuf },
    PasswordGen { zip: ZipData, charset: Charset },
}

} // verus!
