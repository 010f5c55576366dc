//! The command line's values: what each of them may be, and how they make
//! the parameters of a run.

use crate::odometer::unique;
use crate::text::{chars_of, decimal, number, parse_number, push_decimal, shows, tells};
use std::collections::HashSet;
use vstd::prelude::*;

verus! {

/// The parameters of a run.
#[derive(Debug)]
pub struct Args {
    pub zip_path: String,
    pub dictionary_file: Option<String>,
    pub charset: Vec<char>,
    pub charset_min_len: Option<usize>,
    pub charset_max_len: Option<usize>,
    pub concurrency: usize,
    pub progress: bool,
    pub zip_file_index: usize,
}

/// The values that the command line gave, each checked by itself.
#[derive(Debug)]
pub struct Matches {
    pub zip_path: String,
    pub dictionary_file: Option<String>,
    pub charset: Option<String>,
    pub charset_len: Option<String>,
    pub concurrency: Option<usize>,
    pub progress: Option<bool>,
    pub zip_file_index: Option<usize>,
}

/// `text` with every `from` turned into `to`.
pub open spec fn swapped(text: Seq<char>, from: char, to: char) -> Seq<char> {
    Seq::new(
        text.len(),
        |i: int|
            if text[i] == from {
                to
            } else {
                text[i]
            },
    )
}

/// The path with the directory delimiters of the system: `\\` for `/` on
/// Windows, `/` for `\\` elsewhere.
pub fn sanitize_path(path: &str, windows: bool) -> (sanitized: String)
    ensures
        sanitized@ == if windows {
            swapped(path@, '/', '\\')
        } else {
            swapped(path@, '\\', '/')
        },
{
    let from: char = if windows {
        '/'
    } else {
        '\\'
    };
    let to: char = if windows {
        '\\'
    } else {
        '/'
    };
    let chars = chars_of(path);
    let mut sanitized = String::new();
    let mut i: usize = 0;
    while i < chars.len()
        invariant
            i <= chars@.len(),
            sanitized@ == swapped(chars@, from, to).take(i as int),
        decreases chars@.len() - i,
    {
        let c: char = chars[i];
        sanitized.push(
            if c == from {
                to
            } else {
                c
            },
        );
        assert(swapped(chars@, from, to).take(i + 1) =~= swapped(chars@, from, to).take(
            i as int,
        ).push(swapped(chars@, from, to)[i as int]));
        i += 1;
    }
    assert(swapped(chars@, from, to).take(i as int) =~= swapped(chars@, from, to));
    sanitized
}

/// A path is accepted where a file stands at it.
pub fn validate_file_arg(path: &str, is_file: bool) -> (checked: Result<String, String>)
    ensures
        shows(checked) == if is_file {
            Ok::<Seq<char>, Seq<char>>(path@)
        } else {
            Err::<Seq<char>, Seq<char>>("File not found."@)
        },
{
    if !is_file {
        Err(String::from_str("File not found."))
    } else {
        Ok(String::from_str(path))
    }
}

/// The code point of a character.
pub open spec fn code_of(c: char) -> u32 {
    c as u32
}

/// Two characters with one code point are one character.
pub proof fn lemma_code_of_injective(a: char, b: char)
    requires
        code_of(a) == code_of(b),
    ensures
        a == b,
{
    assert(a as u32 as char == a);
    assert(b as u32 as char == b);
}

/// The character at `at` has come before.
pub open spec fn repeats_at(chars: Seq<char>, at: int) -> bool {
    0 <= at < chars.len() && exists|i: int| 0 <= i < at && chars[i] == chars[at]
}

/// The character at `at` is the first that has come before.
pub open spec fn first_repeat(chars: Seq<char>, at: int) -> bool {
    repeats_at(chars, at) && forall|k: int| 0 <= k < at ==> !repeats_at(chars, k)
}

/// The complaint about a character that stands twice.
pub open spec fn duplicate_message(c: char) -> Seq<char> {
    "Charset cannot contains duplicate characters. Remove duplication of char '"@ + seq![c]
        + "'"@
}

/// A charset is accepted where no character stands twice in it; else the
/// first character that repeats an earlier one is named.
pub fn validate_charset_arg(charset: &str) -> (checked: Result<String, String>)
    ensures
        match checked {
            Ok(same) => same@ == charset@ && unique(charset@),
            Err(why) => exists|at: int|
                first_repeat(charset@, at) && why@ == duplicate_message(charset@[at]),
        },
{
    broadcast use vstd::std_specs::hash::group_hash_axioms;

    let chars = chars_of(charset);
    let mut char_set: HashSet<u32> = HashSet::new();
    let mut j: usize = 0;
    while j < chars.len()
        invariant
            j <= chars@.len(),
            chars@ == charset@,
            forall|i: int| 0 <= i < j ==> char_set@.contains(code_of(#[trigger] chars@[i])),
            forall|code: u32| #[trigger]
                char_set@.contains(code) ==> exists|i: int|
                    0 <= i < j && code_of(#[trigger] chars@[i]) == code,
            forall|k: int| 0 <= k < j ==> !repeats_at(chars@, k),
        decreases chars@.len() - j,
    {
        let c: char = chars[j];
        let code: u32 = c as u32;
        if char_set.contains(&code) {
            let mut why = String::from_str(
                "Charset cannot contains duplicate characters. Remove duplication of char '",
            );
            why.push(c);
            why.append("'");
            proof {
                let i = choose|i: int| 0 <= i < j && code_of(#[trigger] chars@[i]) == code;
                lemma_code_of_injective(chars@[i], c);
                assert(repeats_at(chars@, j as int));
                assert(first_repeat(chars@, j as int));
                assert(why@ =~= duplicate_message(c));
            }
            return Err(why);
        }
        let ghost before = char_set@;
        char_set.insert(code);
        proof {
            assert(!repeats_at(chars@, j as int)) by {
                if repeats_at(chars@, j as int) {
                    let i = choose|i: int| 0 <= i < j && chars@[i] == chars@[j as int];
                    assert(before.contains(code_of(chars@[i])));
                }
            }
            assert forall|x: u32| #[trigger] char_set@.contains(x) implies exists|i: int|
                0 <= i < j + 1 && code_of(#[trigger] chars@[i]) == x by {
                if x == code {
                    assert(code_of(chars@[j as int]) == x);
                } else {
                    assert(before.contains(x));
                    let i = choose|i: int| 0 <= i < j && code_of(#[trigger] chars@[i]) == x;
                    assert(0 <= i < j + 1 && code_of(chars@[i]) == x);
                }
            }
        }
        j += 1;
    }
    proof {
        assert forall|a: int, b: int| 0 <= a < b < chars@.len() implies chars@[a] != chars@[b] by {
            assert(!repeats_at(chars@, b));
        }
    }
    Ok(String::from_str(charset))
}

/// The first `-` of the text stands at `at`.
pub open spec fn dash_at(text: Seq<char>, at: int) -> bool {
    &&& 0 <= at < text.len()
    &&& text[at] == '-'
    &&& forall|k: int| 0 <= k < at ==> text[k] != '-'
}

/// Where the first `-` of the text stands.
pub open spec fn dash(text: Seq<char>) -> int {
    choose|at: int| dash_at(text, at)
}

/// The two lengths that `min-max` writes, where both are numbers, neither
/// is zero and the first is not above the second.
pub open spec fn charset_len(text: Seq<char>) -> Result<(usize, usize), Seq<char>> {
    if !text.contains('-') {
        Err("Charset length format is invalid. A valid format would be for example: 1-10"@)
    } else {
        match (number(text.take(dash(text))), number(text.skip(dash(text) + 1))) {
            (Some(min), Some(max)) => if min > max || min == 0 || max == 0 {
                Err(
                    "Charset length is invalid. Length cannot be 0 and Min length cannot be bigger than Max length"@,
                )
            } else {
                Ok((min, max))
            },
            _ => Err(
                "Charset length format is invalid. A valid format would be for example: 1-10"@,
            ),
        }
    }
}

/// Reads the two lengths of `min-max`.
pub fn parse_charset_len(text: &str) -> (read: Result<(usize, usize), String>)
    ensures
        tells(read) == charset_len(text@),
{
    let chars = chars_of(text);
    let mut at: usize = 0;
    while at < chars.len() && chars[at] != '-'
        invariant
            at <= chars@.len(),
            forall|k: int| 0 <= k < at ==> chars@[k] != '-',
        decreases chars@.len() - at,
    {
        at += 1;
    }
    if at == chars.len() {
        assert(!chars@.contains('-'));
        return Err(
            String::from_str(
                "Charset length format is invalid. A valid format would be for example: 1-10",
            ),
        );
    }
    proof {
        assert(dash_at(chars@, at as int));
        assert(chars@.contains('-'));
        assert(dash(chars@) == at) by {
            let other = dash(chars@);
            assert(dash_at(chars@, other));
        }
        assert(chars@.take(at as int) =~= chars@.subrange(0, at as int));
        assert(chars@.skip(at + 1) =~= chars@.subrange(at + 1, chars@.len() as int));
    }
    let min_val = parse_number(&chars, 0, at);
    let max_val = parse_number(&chars, at + 1, chars.len());
    match (min_val, max_val) {
        (Some(min_nr), Some(max_nr)) => {
            if min_nr > max_nr || min_nr == 0 || max_nr == 0 {
                Err(
                    String::from_str(
                        "Charset length is invalid. Length cannot be 0 and Min length cannot be bigger than Max length",
                    ),
                )
            } else {
                Ok((min_nr, max_nr))
            }
        },
        _ => Err(
            String::from_str(
                "Charset length format is invalid. A valid format would be for example: 1-10",
            ),
        ),
    }
}

/// The lengths `min-max` are accepted where both are numbers, neither is
/// zero and the first is not above the second.
pub fn validate_charset_len(charset_len: &str) -> (checked: Result<String, String>)
    ensures
        shows(checked) == match self::charset_len(charset_len@) {
            Ok(_) => Ok::<Seq<char>, Seq<char>>(charset_len@),
            Err(why) => Err::<Seq<char>, Seq<char>>(why),
        },
{
    match parse_charset_len(charset_len) {
        Ok(_) => Ok(String::from_str(charset_len)),
        Err(why) => Err(why),
    }
}

/// `num_cpus::get_physical`: the number of physical cores of this machine,
/// which is at least one.
#[verifier::external_body]
fn physical_cores() -> (cores: usize)
    ensures
        cores >= 1,
{
    num_cpus::get_physical()
}

/// What a level of parallelism is worth on a machine with
/// `max_parallelism` cores.
pub open spec fn concurrency(asked: Option<usize>, max_parallelism: usize) -> Result<
    usize,
    Seq<char>,
> {
    match asked {
        Some(level) => if level == 0 {
            Err("Concurrency must be a positive number"@)
        } else if level > max_parallelism {
            Err(
                "Concurrency must not be higher than this computer number of cores "@ + decimal(
                    max_parallelism as nat,
                ),
            )
        } else {
            Ok(level)
        },
        None => Err("Concurrency must be a positive number"@),
    }
}

/// A level of parallelism is accepted where it is a number, at least one
/// and not above the number of cores.
pub fn judge_concurrency(asked: Option<usize>, max_parallelism: usize) -> (checked: Result<
    usize,
    String,
>)
    ensures
        tells(checked) == concurrency(asked, max_parallelism),
{
    match asked {
        Some(level) => {
            if level == 0 {
                Err(String::from_str("Concurrency must be a positive number"))
            } else if level > max_parallelism {
                let mut why = String::from_str(
                    "Concurrency must not be higher than this computer number of cores ",
                );
                push_decimal(&mut why, max_parallelism);
                Err(why)
            } else {
                Ok(level)
            }
        },
        None => Err(String::from_str("Concurrency must be a positive number")),
    }
}

/// A level of parallelism is accepted where it is a number, at least one
/// and not above the number of physical cores of this machine.
pub fn validate_concurrency_arg(concurrency: &str) -> (checked: Result<usize, String>)
    ensures
        exists|cores: usize|
            cores >= 1 && tells(checked) == self::concurrency(number(concurrency@), cores),
{
    let chars = chars_of(concurrency);
    assert(chars@.subrange(0, chars@.len() as int) =~= chars@);
    let asked = parse_number(&chars, 0, chars.len());
    let max_parallelism = physical_cores();
    judge_concurrency(asked, max_parallelism)
}

/// The level of parallelism where none is asked for: all physical cores
/// but one, and at least one.
pub fn default_concurrency(physical: usize) -> (level: usize)
    ensures
        level == if physical >= 2 {
            physical - 1
        } else {
            1
        },
{
    if physical >= 2 {
        physical - 1
    } else {
        1
    }
}

/// The text in lower case, as `str::to_lowercase` writes it.
pub uninterp spec fn lowercased(text: Seq<char>) -> Seq<char>;

/// `str::to_lowercase`: the text with every character in lower case.
#[verifier::external_body]
fn lowercase(text: &str) -> (lower: String)
    ensures
        lower@ == lowercased(text@),
{
    text.to_lowercase()
}

/// What a switch in lower case says.
pub open spec fn switch(value: Seq<char>) -> Result<bool, Seq<char>> {
    if value == "true"@ {
        Ok(true)
    } else if value == "false"@ {
        Ok(false)
    } else {
        Err("Progress must be true or false."@)
    }
}

/// Reads a switch in lower case: `true` or `false`.
pub fn read_switch(value: &String) -> (checked: Result<bool, String>)
    ensures
        tells(checked) == switch(value@),
{
    if *value == String::from_str("true") {
        Ok(true)
    } else if *value == String::from_str("false") {
        Ok(false)
    } else {
        Err(String::from_str("Progress must be true or false."))
    }
}

/// The progress switch is accepted where it says `true` or `false`, in
/// letters of either case.
pub fn validate_progress_arg(progress: &str) -> (checked: Result<bool, String>)
    ensures
        tells(checked) == switch(lowercased(progress@)),
{
    let value = lowercase(progress);
    read_switch(&value)
}

/// The index of an entry is accepted where it is a number.
pub fn validate_zip_file_index_arg(zip_file_index: &str) -> (checked: Result<usize, String>)
    ensures
        tells(checked) == match number(zip_file_index@) {
            Some(index) => Ok::<usize, Seq<char>>(index),
            None => Err::<usize, Seq<char>>("Zip file index must be a positive number"@),
        },
{
    let chars = chars_of(zip_file_index);
    assert(chars@.subrange(0, chars@.len() as int) =~= chars@);
    match parse_number(&chars, 0, chars.len()) {
        Some(zip_file_index) => Ok(zip_file_index),
        None => Err(String::from_str("Zip file index must be a positive number")),
    }
}

/// The lengths of the words to generate: none for a word list; else
/// what `charset_len` writes, which has to be there.
pub open spec fn lengths(matches: Matches) -> Result<Option<(usize, usize)>, Seq<char>> {
    if matches.dictionary_file is Some {
        Ok(None)
    } else {
        match matches.charset_len {
            Some(text) => match charset_len(text@) {
                Ok(pair) => Ok(Some(pair)),
                Err(why) => Err(why),
            },
            None => Err("Charset length is required for password generation strategy."@),
        }
    }
}

/// Why `matches` make no parameters of a run: the lengths of a generated
/// search are missing or wrong, or the level of parallelism is zero.
pub open spec fn refusal(matches: Matches) -> Option<Seq<char>> {
    match lengths(matches) {
        Err(why) => Some(why),
        Ok(_) => if matches.concurrency == Some(0usize) {
            Some("Concurrency must be a positive number"@)
        } else {
            None
        },
    }
}

/// Whether `args` are the parameters that `matches` ask for on a machine
/// with `physical` cores, the lengths being `lens`.
pub open spec fn assembled(
    args: Args,
    matches: Matches,
    physical: usize,
    lens: Option<(usize, usize)>,
) -> bool {
    &&& args.zip_path == matches.zip_path
    &&& args.dictionary_file == matches.dictionary_file
    &&& args.charset@ == match matches.charset {
        Some(charset) => charset@,
        None => Seq::<char>::empty(),
    }
    &&& args.charset_min_len == match lens {
        Some(pair) => Some(pair.0),
        None => None,
    }
    &&& args.charset_max_len == match lens {
        Some(pair) => Some(pair.1),
        None => None,
    }
    &&& args.concurrency == match matches.concurrency {
        Some(level) => level,
        None => if physical >= 2 {
            (physical - 1) as usize
        } else {
            1
        },
    }
    &&& args.progress == match matches.progress {
        Some(progress) => progress,
        None => true,
    }
    &&& args.zip_file_index == match matches.zip_file_index {
        Some(index) => index,
        None => 0,
    }
}

/// Makes the parameters of a run on a machine with `physical` cores. A
/// generated search needs its lengths, and the search at least one worker;
/// the progress bar is shown and the first entry is attacked unless the
/// command line says otherwise.
pub fn assemble(matches: Matches, physical: usize) -> (built: Result<Args, String>)
    ensures
        match built {
            Ok(args) => refusal(matches) is None && args.concurrency >= 1 && assembled(
                args,
                matches,
                physical,
                lengths(matches)->Ok_0,
            ),
            Err(why) => refusal(matches) == Some(why@),
        },
{
    let charset_vec = match &matches.charset {
        Some(charset) => chars_of(charset.as_str()),
        None => Vec::new(),
    };

    let mut charset_min_len = None;
    let mut charset_max_len = None;
    if matches.dictionary_file.is_none() {
        match &matches.charset_len {
            None => {
                return Err(
                    String::from_str(
                        "Charset length is required for password generation strategy.",
                    ),
                );
            },
            Some(charset_len) => match parse_charset_len(charset_len.as_str()) {
                Ok((min_len, max_len)) => {
                    charset_min_len = Some(min_len);
                    charset_max_len = Some(max_len);
                },
                Err(why) => {
                    return Err(why);
                },
            },
        }
    }
    let concurrency = match matches.concurrency {
        Some(level) => {
            if level == 0 {
                return Err(String::from_str("Concurrency must be a positive number"));
            }
            level
        },
        None => default_concurrency(physical),
    };
    let progress = match matches.progress {
        Some(progress) => progress,
        None => true,
    };
    let zip_file_index = match matches.zip_file_index {
        Some(index) => index,
        None => 0,
    };

    Ok(
        Args {
            zip_path: matches.zip_path,
            dictionary_file: matches.dictionary_file,
            charset: charset_vec,
            charset_min_len,
            charset_max_len,
            concurrency,
            progress,
            zip_file_index,
        },
    )
}

/// Makes the parameters of a run on this machine.
pub fn build_args(matches: Matches) -> (built: Result<Args, String>)
    ensures
        match built {
            Ok(args) => refusal(matches) is None && args.concurrency >= 1 && exists|cores: usize|
                cores >= 1 && assembled(args, matches, cores, lengths(matches)->Ok_0),
            Err(why) => refusal(matches) == Some(why@),
        },
{
    let physical = physical_cores();
    assemble(matches, physical)
}

} // verus!
