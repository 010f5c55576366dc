//! The search over the lines of a word list.

use crate::models::strategy::Strategy;
use crate::models::zip_data::ZipData;
use crate::processors::processor::{found_among, shown};
use crate::utils::{check_entry, decrypt_entry, entry_fits, ProgressReporter};
use rayon::iter::{IntoParallelRefIterator, ParallelIterator};
use vstd::prelude::*;

verus! {

/// A line without the carriage return that ends it, if one does.
pub open spec fn without_cr(line: Seq<char>) -> Seq<char> {
    if line.len() > 0 && line.last() == '\r' {
        line.drop_last()
    } else {
        line
    }
}

/// The lines that a `\n` has ended, each without its line ending (`\n`, or
/// `\r\n`), and what has come of the line after them.
pub open spec fn cut(text: Seq<char>) -> (Seq<Seq<char>>, Seq<char>)
    decreases text.len(),
{
    if text.len() == 0 {
        (Seq::empty(), Seq::empty())
    } else {
        let before = cut(text.drop_last());
        if text.last() == '\n' {
            (before.0.push(without_cr(before.1)), Seq::empty())
        } else {
            (before.0, before.1.push(text.last()))
        }
    }
}

/// The lines of a text, in their order and without their line endings. The
/// last line needs no line ending; nothing after the last line ending is no
/// line.
pub open spec fn text_lines(text: Seq<char>) -> Seq<Seq<char>> {
    if cut(text).1.len() > 0 {
        cut(text).0.push(cut(text).1)
    } else {
        cut(text).0
    }
}

/// The number of `\n` in a text.
pub open spec fn newlines(text: Seq<char>) -> nat
    decreases text.len(),
{
    if text.len() == 0 {
        0
    } else {
        newlines(text.drop_last()) + if text.last() == '\n' {
            1nat
        } else {
            0nat
        }
    }
}

/// One line for each `\n`, and one more for what follows the last of them,
/// if anything does.
pub open spec fn line_count(text: Seq<char>) -> nat {
    newlines(text) + if text.len() > 0 && text.last() != '\n' {
        1nat
    } else {
        0nat
    }
}

/// A text has as many lines as `line_count` says.
pub proof fn lemma_line_count(text: Seq<char>)
    ensures
        cut(text).0.len() == newlines(text),
        cut(text).1.len() > 0 <==> text.len() > 0 && text.last() != '\n',
        text_lines(text).len() == line_count(text),
    decreases text.len(),
{
    if text.len() > 0 {
        lemma_line_count(text.drop_last());
    }
}

/// The words of a list, each by its characters.
pub open spec fn words_of(dict: Seq<String>) -> Seq<Seq<char>> {
    Seq::new(dict.len(), |i: int| dict[i]@)
}

/// The lines of a text, in their order and without their line endings.
pub fn lines(text: &str) -> (dict: Vec<String>)
    ensures
        words_of(dict@) == text_lines(text@),
{
    let mut dict: Vec<String> = Vec::new();
    let mut line = String::new();
    let mut held_cr = false;
    for c in it: text.chars()
        invariant
            it.seq() == text@,
            words_of(dict@) == cut(it.seq().take(it.index() as int)).0,
            cut(it.seq().take(it.index() as int)).1 == if held_cr {
                line@.push('\r')
            } else {
                line@
            },
            !held_cr ==> line@.len() == 0 || line@.last() != '\r',
    {
        let ghost seen = it.seq().take(it.index() as int);
        let ghost next = it.seq().take(it.index() + 1);
        let ghost ended = words_of(dict@);
        proof {
            assert(next.drop_last() =~= seen);
            assert(next.last() == c);
            if held_cr {
                assert(line@.push('\r').drop_last() =~= line@);
            }
        }
        if c == '\n' {
            dict.push(line);
            line = String::new();
            held_cr = false;
            proof {
                assert(words_of(dict@) =~= ended.push(without_cr(cut(seen).1)));
            }
        } else {
            if held_cr {
                line.push('\r');
            }
            if c == '\r' {
                held_cr = true;
            } else {
                line.push(c);
                held_cr = false;
            }
            proof {
                assert(words_of(dict@) =~= ended);
            }
        }
    }
    proof {
        assert(text@.take(text@.len() as int) =~= text@);
    }
    let ghost ended = words_of(dict@);
    if held_cr {
        line.push('\r');
    }
    if !line.as_str().is_empty() {
        dict.push(line);
        proof {
            assert(words_of(dict@) =~= ended.push(cut(text@).1));
        }
    }
    dict
}

/// rayon's `par_iter` and `find_map_any`: tries the words of the list on
/// the archive, many at a time, and returns a word that unlocks it, or
/// `None` where no word of the list does. Which one comes back where several
/// unlock is left open.
#[verifier::external_body]
fn find_in_list<'a, P: ProgressReporter + Sync>(
    dict: &'a Vec<String>,
    zip: &ZipData,
    progress_bar: &Option<P>,
) -> (found: Option<&'a str>)
    requires
        entry_fits(zip.data@, zip.file_index),
    ensures
        found_among(words_of(dict@), zip.data@, zip.file_index, shown(found)),
{
    dict.par_iter().find_map_any(
        |pass| decrypt_entry(pass.as_str(), &zip.data, zip.file_index, progress_bar),
    )
}

/// Searches the lines of `dictionary` for a password that unlocks the
/// archive of `data`. The reporter learns how many lines there are, and of
/// every attempt. No attempt is made on an entry that cannot be tried.
pub fn process<P: ProgressReporter + Sync>(
    data: &Strategy,
    dictionary: &str,
    progress_bar: &Option<P>,
) -> (found: Option<String>)
    requires
        data is DictionaryFile,
    ensures
        found_among(
            text_lines(dictionary@),
            data.archive(),
            data.entry(),
            match found {
                Some(word) => Some(word@),
                None => None,
            },
        ),
{
    let zip = data.zip_data();
    let dict = lines(dictionary);

    if let Some(progress_bar) = progress_bar {
        let combinations_total = dict.len();
        progress_bar.set_length(combinations_total as u64);
    }
    if !check_entry(&zip.data, zip.file_index) {
        return None;
    }
    let result = find_in_list(&dict, zip, progress_bar);

    match result {
        Some(r) => Some(r.to_owned()),
        None => None,
    }
}

} // verus!
