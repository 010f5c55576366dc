//! The search over a strategy's candidates, and what it may return.

use crate::models::charset::Charset;
use crate::models::strategy::Strategy;
use crate::models::zip_data::ZipData;
use crate::odometer::{count, enumeration};
use crate::odometer::lemma_enumeration_len;
use crate::password_iterator::{GeneratorError, PasswordGenerator};
use crate::processors::dictionary_processor::{lemma_line_count, line_count, newlines, text_lines};
use crate::processors::{dictionary_processor, password_gen_processor};
use crate::utils::{count_combinations, unlocks, ProgressReporter};
use std::path::PathBuf;
use vstd::prelude::*;

verus! {

/// What a search over `candidates` may return: a candidate that unlocks the
/// entry, or nothing where no candidate does.
pub open spec fn found_among(
    candidates: Seq<Seq<char>>,
    archive: Seq<u8>,
    index: usize,
    found: Option<Seq<char>>,
) -> bool {
    match found {
        Some(word) => candidates.contains(word) && unlocks(archive, index, word),
        None => forall|i: int|
            0 <= i < candidates.len() ==> !unlocks(archive, index, #[trigger] candidates[i]),
    }
}

/// A found word, by its characters.
pub open spec fn shown(found: Option<&str>) -> Option<Seq<char>> {
    match found {
        Some(word) => Some(word@),
        None => None,
    }
}

/// Where exactly one candidate unlocks the entry, the search returns it.
pub proof fn lemma_only_hit_is_found(
    candidates: Seq<Seq<char>>,
    archive: Seq<u8>,
    index: usize,
    found: Option<Seq<char>>,
    at: int,
)
    requires
        found_among(candidates, archive, index, found),
        0 <= at < candidates.len(),
        unlocks(archive, index, candidates[at]),
        forall|i: int|
            0 <= i < candidates.len() && unlocks(archive, index, #[trigger] candidates[i])
                ==> candidates[i] == candidates[at],
    ensures
        found == Some(candidates[at]),
{
    match found {
        Some(word) => {
            let i = choose|i: int| 0 <= i < candidates.len() && candidates[i] == word;
            assert(unlocks(archive, index, candidates[i]));
        },
        None => {
            assert(!unlocks(archive, index, candidates[at]));
        },
    }
}

/// Where no candidate unlocks the entry, the search returns nothing.
pub proof fn lemma_no_hit_is_none(
    candidates: Seq<Seq<char>>,
    archive: Seq<u8>,
    index: usize,
    found: Option<Seq<char>>,
)
    requires
        found_among(candidates, archive, index, found),
        forall|i: int|
            0 <= i < candidates.len() ==> !unlocks(archive, index, #[trigger] candidates[i]),
    ensures
        found is None,
{
    if let Some(word) = found {
        let i = choose|i: int| 0 <= i < candidates.len() && candidates[i] == word;
        assert(!unlocks(archive, index, candidates[i]));
    }
}

/// Counts the lines of a word list.
pub fn count_lines(text: &str) -> (total: usize)
    ensures
        total == line_count(text@),
        total == text_lines(text@).len(),
{
    let mut total: usize = 0;
    let mut open = false;
    let size = text.unicode_len();
    for c in it: text.chars()
        invariant
            it.seq() == text@,
            size == text@.len(),
            total == newlines(it.seq().take(it.index() as int)),
            open <==> it.index() > 0 && it.seq()[it.index() - 1] != '\n',
            total + if open {
                1nat
            } else {
                0nat
            } <= it.index(),
    {
        proof {
            let next = it.seq().take(it.index() + 1);
            assert(next.drop_last() =~= it.seq().take(it.index() as int));
            assert(next.last() == c);
        }
        if c == '\n' {
            total += 1;
            open = false;
        } else {
            open = true;
        }
    }
    proof {
        assert(text@.take(text@.len() as int) =~= text@);
        lemma_line_count(text@);
    }
    if open {
        total += 1;
    }
    total
}

impl Strategy {
    /// The bytes of the archive under attack.
    pub open spec fn archive(&self) -> Seq<u8> {
        match self {
            Strategy::DictionaryFile { zip, .. } => zip.data@,
            Strategy::PasswordGen { zip, .. } => zip.data@,
        }
    }

    /// The entry under attack.
    pub open spec fn entry(&self) -> usize {
        match self {
            Strategy::DictionaryFile { zip, .. } => zip.file_index,
            Strategy::PasswordGen { zip, .. } => zip.file_index,
        }
    }

    /// A generated search has an alphabet and lengths `1 <= min <= max`.
    pub open spec fn searchable(&self) -> bool {
        match self {
            Strategy::DictionaryFile { .. } => true,
            Strategy::PasswordGen { charset, .. } => {
                &&& charset.charset@.len() >= 1
                &&& 1 <= charset.min_len <= charset.max_len
            },
        }
    }

    /// The candidates in the order in which they are drawn: the lines of
    /// the word list, or every word over the charset.
    pub open spec fn candidates(&self, dictionary: Seq<char>) -> Seq<Seq<char>> {
        match self {
            Strategy::DictionaryFile { .. } => text_lines(dictionary),
            Strategy::PasswordGen { charset, .. } => enumeration(
                charset.charset@,
                charset.min_len as nat,
                charset.max_len as nat,
            ),
        }
    }

    /// Searches the candidates for a password that unlocks the archive.
    /// `dictionary` is the text of the word list; a generated search does
    /// not read it.
    pub fn process<P: ProgressReporter + Sync>(
        &self,
        dictionary: &str,
        progress_bar: &Option<P>,
    ) -> (found: Option<String>)
        requires
            self.searchable(),
        ensures
            found_among(
                self.candidates(dictionary@),
                self.archive(),
                self.entry(),
                match found {
                    Some(word) => Some(word@),
                    None => None,
                },
            ),
    {
        match self {
            Strategy::DictionaryFile { .. } => dictionary_processor::process(
                self,
                dictionary,
                progress_bar,
            ),
            Strategy::PasswordGen { .. } => password_gen_processor::process(self, progress_bar),
        }
    }

    /// The number of candidates: the lines of the word list, whose text is
    /// `dictionary`, or the words over the charset.
    pub fn count_combinations(&self, dictionary: &str) -> (total: usize)
        requires
            self matches Strategy::PasswordGen { charset, .. } ==> count(
                charset.charset@.len(),
                charset.min_len as nat,
                charset.max_len as nat,
            ) <= usize::MAX,
        ensures
            total == self.candidates(dictionary@).len(),
            total == match self {
                Strategy::DictionaryFile { .. } => line_count(dictionary@),
                Strategy::PasswordGen { charset, .. } => count(
                    charset.charset@.len(),
                    charset.min_len as nat,
                    charset.max_len as nat,
                ),
            },
    {
        match self {
            Strategy::DictionaryFile { .. } => count_lines(dictionary),
            Strategy::PasswordGen { charset, .. } => {
                proof {
                    lemma_enumeration_len(
                        charset.charset@,
                        charset.min_len as nat,
                        charset.max_len as nat,
                    );
                }
                count_combinations(charset)
            },
        }
    }

    /// The fault of a generated search without an alphabet or with lengths
    /// out of order; `None` for every other strategy.
    pub open spec fn fault(&self) -> Option<GeneratorError> {
        match self {
            Strategy::DictionaryFile { .. } => None,
            Strategy::PasswordGen { charset, .. } => if charset.min_len == 0 {
                Some(GeneratorError::ZeroMinSize)
            } else if charset.min_len > charset.max_len {
                Some(GeneratorError::MinAboveMax)
            } else if charset.charset@.len() == 0 {
                Some(GeneratorError::EmptyCharset)
            } else {
                None
            },
        }
    }

    /// Searches the candidates for a password that unlocks the archive, or
    /// reports the fault of the strategy, before anything is tried.
    /// `dictionary` is the text of the word list; a generated search does
    /// not read it.
    pub fn search<P: ProgressReporter + Sync>(
        &self,
        dictionary: &str,
        progress_bar: &Option<P>,
    ) -> (searched: Result<Option<String>, GeneratorError>)
        ensures
            match searched {
                Ok(found) => self.fault() is None && found_among(
                    self.candidates(dictionary@),
                    self.archive(),
                    self.entry(),
                    match found {
                        Some(word) => Some(word@),
                        None => None,
                    },
                ),
                Err(fault) => self.fault() == Some(fault),
            },
    {
        match self {
            Strategy::DictionaryFile { .. } => Ok(self.process(dictionary, progress_bar)),
            Strategy::PasswordGen { charset, .. } => {
                match PasswordGenerator::new(
                    charset.charset.as_slice(),
                    charset.min_len,
                    charset.max_len,
                ) {
                    Ok(_) => Ok(self.process(dictionary, progress_bar)),
                    Err(fault) => Err(fault),
                }
            },
        }
    }

    /// The charset of a generated search; a word list has none.
    pub fn charset(&self) -> (found: Option<&Charset>)
        ensures
            found == match self {
                Strategy::DictionaryFile { .. } => None,
                Strategy::PasswordGen { charset, .. } => Some(charset),
            },
    {
        match self {
            Strategy::DictionaryFile { .. } => None,
            Strategy::PasswordGen { charset, .. } => Some(charset),
        }
    }

    /// The archive under attack.
    pub fn zip_data(&self) -> (zip: &ZipData)
        ensures
            zip == match self {
                Strategy::DictionaryFile { zip, .. } => zip,
                Strategy::PasswordGen { zip, .. } => zip,
            },
    {
        match self {
            Strategy::DictionaryFile { zip, .. } => zip,
            Strategy::PasswordGen { zip, .. } => zip,
        }
    }

    /// The path of the word list; a generated search has none.
    pub fn dict_path(&self) -> (found: Option<&PathBuf>)
        ensures
            found == match self {
                Strategy::DictionaryFile { dict_path, .. } => Some(dict_path),
                Strategy::PasswordGen { .. } => None,
            },
    {
        match self {
            Strategy::DictionaryFile { dict_path, .. } => Some(dict_path),
            Strategy::PasswordGen { .. } => None,
        }
    }
}

} // verus!
