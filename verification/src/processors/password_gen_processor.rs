//! The search over every word of a charset.

use crate::models::strategy::Strategy;
use crate::models::zip_data::ZipData;
use crate::odometer::enumeration;
use crate::password_iterator::PasswordGenerator;
use crate::processors::processor::found_among;
use crate::utils::{
    check_entry, checked_count_combinations, decrypt_entry, entry_fits, unlocks, ProgressReporter,
};
use rayon::iter::{ParallelBridge, ParallelIterator};
use vstd::prelude::*;

verus! {

/// Tries one generated word on an entry that can be tried, and hands it
/// back where it unlocks.
fn attempt<P: ProgressReporter>(pass: String, zip: &ZipData, progress_bar: &Option<P>) -> (hit:
    Option<String>)
    requires
        entry_fits(zip.data@, zip.file_index),
    ensures
        hit == if unlocks(zip.data@, zip.file_index, pass@) {
            Some(pass)
        } else {
            None
        },
{
    let hit = decrypt_entry(pass.as_str(), &zip.data, zip.file_index, progress_bar).is_some();
    if hit {
        Some(pass)
    } else {
        None
    }
}

/// rayon's `par_bridge` and `find_map_any`: draws the words of the
/// generator one by one, tries them on the archive, many at a time, and
/// returns a word that unlocks it, or `None` where no word of the generator
/// does. Which one comes back where several unlock is left open.
#[verifier::external_body]
fn find_in_generated<P: ProgressReporter + Sync>(
    generator: PasswordGenerator<'_>,
    zip: &ZipData,
    progress_bar: &Option<P>,
) -> (found: Option<String>)
    requires
        generator.wf(),
        entry_fits(zip.data@, zip.file_index),
    ensures
        found_among(
            generator@,
            zip.data@,
            zip.file_index,
            match found {
                Some(word) => Some(word@),
                None => None,
            },
        ),
{
    let mut generator = generator;
    std::iter::from_fn(move || generator.next()).par_bridge().find_map_any(
        |pass| attempt(pass, zip, progress_bar),
    )
}

/// Searches every word over the charset of `data` for a password that
/// unlocks its archive. The reporter learns how many words there are, where
/// that number is within `usize`, and of every attempt. No attempt is made
/// on an entry that cannot be tried.
pub fn process<P: ProgressReporter + Sync>(data: &Strategy, progress_bar: &Option<P>) -> (found:
    Option<String>)
    requires
        data is PasswordGen,
        data.searchable(),
    ensures
        found_among(
            enumeration(
                data->charset.charset@,
                data->charset.min_len as nat,
                data->charset.max_len as nat,
            ),
            data.archive(),
            data.entry(),
            match found {
                Some(word) => Some(word@),
                None => None,
            },
        ),
{
    let charset = data.charset().unwrap();
    if let Some(progress_bar) = progress_bar {
        if let Some(combinations_total) = checked_count_combinations(charset) {
            progress_bar.set_length(combinations_total as u64);
        }
    }
    let pass_gen_iter = PasswordGenerator::new(
        charset.charset.as_slice(),
        charset.min_len,
        charset.max_len,
    );

    let zip = data.zip_data();
    if !check_entry(&zip.data, zip.file_index) {
        return None;
    }
    find_in_generated(pass_gen_iter.unwrap(), zip, progress_bar)
}

} // verus!
