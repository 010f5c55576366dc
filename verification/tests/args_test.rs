use zip_brute::args::{
    assemble, build_args, default_concurrency, judge_concurrency, parse_charset_len, read_switch,
    sanitize_path, validate_charset_arg, validate_charset_len, validate_concurrency_arg,
    validate_file_arg, validate_progress_arg, validate_zip_file_index_arg, Matches,
};
use zip_brute::text::{chars_of, parse_number, push_decimal};

const FORMAT: &str = "Charset length format is invalid. A valid format would be for example: 1-10";
const INVALID: &str =
    "Charset length is invalid. Length cannot be 0 and Min length cannot be bigger than Max length";

fn number(text: &str) -> Option<usize> {
    let chars: Vec<char> = text.chars().collect();
    parse_number(&chars, 0, chars.len())
}

fn decimal(n: usize) -> String {
    let mut text = String::new();
    push_decimal(&mut text, n);
    text
}

fn generated_matches() -> Matches {
    Matches {
        zip_path: "a.zip".to_string(),
        dictionary_file: None,
        charset: Some("abc".to_string()),
        charset_len: Some("2-4".to_string()),
        concurrency: None,
        progress: None,
        zip_file_index: None,
    }
}

#[test]
fn reads_numbers_as_the_standard_library_does() {
    for text in ["0", "7", "007", "+5", "42", "18446744073709551615", "+18446744073709551615"] {
        assert_eq!(number(text), text.parse::<usize>().ok(), "{text}");
    }
    assert_eq!(number("42"), Some(42));
    assert_eq!(number("+5"), Some(5));
    assert_eq!(number("18446744073709551615"), Some(usize::MAX));
    for text in [
        "", "+", "-", "-1", "-0", "++5", "+-5", "5+", "1 ", " 1", "1_000", "0x10", "１２",
        "18446744073709551616", "99999999999999999999999",
    ] {
        assert_eq!(number(text), None, "{text}");
        assert!(text.parse::<usize>().is_err(), "{text}");
    }
}

#[test]
fn reads_a_number_from_the_middle_of_a_text() {
    let chars: Vec<char> = "12-345".chars().collect();
    assert_eq!(parse_number(&chars, 0, 2), Some(12));
    assert_eq!(parse_number(&chars, 3, 6), Some(345));
    assert_eq!(parse_number(&chars, 2, 6), None);
    assert_eq!(parse_number(&chars, 3, 3), None);
}

#[test]
fn writes_numbers_in_decimal() {
    for n in [0, 1, 9, 10, 11, 99, 100, 101, 12345, 1_000_000, usize::MAX - 1, usize::MAX] {
        assert_eq!(decimal(n), n.to_string());
    }
    let mut text = "cores: ".to_string();
    push_decimal(&mut text, 16);
    assert_eq!(text, "cores: 16");
}

#[test]
fn reads_the_characters_of_a_text() {
    assert_eq!(chars_of("a√b"), vec!['a', '√', 'b']);
    assert_eq!(chars_of(""), Vec::<char>::new());
}

#[test]
fn sanitizes_paths_for_the_system() {
    assert_eq!(sanitize_path("a/b\\c/d", false), "a/b/c/d");
    assert_eq!(sanitize_path("a/b\\c/d", true), "a\\b\\c\\d");
    assert_eq!(sanitize_path("", true), "");
    assert_eq!(sanitize_path("plain", false), "plain");
}

#[test]
fn accepts_a_path_where_a_file_stands() {
    assert_eq!(validate_file_arg("some\\where.zip", true), Ok("some\\where.zip".to_string()));
    assert_eq!(validate_file_arg("some/where.zip", false), Err("File not found.".to_string()));
}

#[test]
fn accepts_a_charset_without_repeats() {
    assert_eq!(validate_charset_arg("abc123"), Ok("abc123".to_string()));
    assert_eq!(validate_charset_arg(""), Ok("".to_string()));
    assert_eq!(validate_charset_arg("aA"), Ok("aA".to_string()));
}

#[test]
fn names_the_first_character_that_repeats() {
    assert_eq!(
        validate_charset_arg("abca"),
        Err("Charset cannot contains duplicate characters. Remove duplication of char 'a'".to_string())
    );
    assert_eq!(
        validate_charset_arg("abcbda"),
        Err("Charset cannot contains duplicate characters. Remove duplication of char 'b'".to_string())
    );
    assert_eq!(
        validate_charset_arg("xyéé"),
        Err("Charset cannot contains duplicate characters. Remove duplication of char 'é'".to_string())
    );
}

#[test]
fn accepts_lengths_in_order() {
    assert_eq!(validate_charset_len("1-10"), Ok("1-10".to_string()));
    assert_eq!(validate_charset_len("3-3"), Ok("3-3".to_string()));
    assert_eq!(validate_charset_len("+1-+2"), Ok("+1-+2".to_string()));
    assert_eq!(parse_charset_len("1-10"), Ok((1, 10)));
    assert_eq!(parse_charset_len("007-8"), Ok((7, 8)));
}

#[test]
fn refuses_lengths_that_are_no_numbers() {
    for text in ["", "5", "a-b", "1-", "-1", "1--2", "1-2-3", "1 - 2", "1-99999999999999999999"] {
        assert_eq!(validate_charset_len(text), Err(FORMAT.to_string()), "{text}");
        assert_eq!(parse_charset_len(text), Err(FORMAT.to_string()), "{text}");
    }
}

#[test]
fn refuses_lengths_out_of_order_or_zero() {
    for text in ["2-1", "0-1", "0-0", "10-9"] {
        assert_eq!(validate_charset_len(text), Err(INVALID.to_string()), "{text}");
    }
}

#[test]
fn judges_a_level_of_parallelism() {
    assert_eq!(judge_concurrency(Some(4), 8), Ok(4));
    assert_eq!(judge_concurrency(Some(8), 8), Ok(8));
    assert_eq!(
        judge_concurrency(Some(0), 8),
        Err("Concurrency must be a positive number".to_string())
    );
    assert_eq!(judge_concurrency(Some(1), 1), Ok(1));
    assert_eq!(
        judge_concurrency(Some(9), 8),
        Err("Concurrency must not be higher than this computer number of cores 8".to_string())
    );
    assert_eq!(
        judge_concurrency(Some(200), 128),
        Err("Concurrency must not be higher than this computer number of cores 128".to_string())
    );
    assert_eq!(
        judge_concurrency(None, 8),
        Err("Concurrency must be a positive number".to_string())
    );
}

#[test]
fn holds_parallelism_to_the_cores_of_this_machine() {
    let cores = num_cpus::get_physical();
    assert_eq!(validate_concurrency_arg("1"), Ok(1));
    assert_eq!(validate_concurrency_arg(&cores.to_string()), Ok(cores));
    assert_eq!(
        validate_concurrency_arg(&(cores + 1).to_string()),
        Err(format!("Concurrency must not be higher than this computer number of cores {cores}"))
    );
    assert_eq!(
        validate_concurrency_arg("0"),
        Err("Concurrency must be a positive number".to_string())
    );
    assert_eq!(
        validate_concurrency_arg("many"),
        Err("Concurrency must be a positive number".to_string())
    );
    assert_eq!(
        validate_concurrency_arg("-2"),
        Err("Concurrency must be a positive number".to_string())
    );
}

#[test]
fn leaves_one_core_free_by_default() {
    assert_eq!(default_concurrency(0), 1);
    assert_eq!(default_concurrency(1), 1);
    assert_eq!(default_concurrency(2), 1);
    assert_eq!(default_concurrency(3), 2);
    assert_eq!(default_concurrency(64), 63);
    assert_eq!(default_concurrency(usize::MAX), usize::MAX - 1);
}

#[test]
fn reads_the_progress_switch_in_either_case() {
    assert_eq!(validate_progress_arg("true"), Ok(true));
    assert_eq!(validate_progress_arg("TRUE"), Ok(true));
    assert_eq!(validate_progress_arg("False"), Ok(false));
    assert_eq!(validate_progress_arg("fAlSe"), Ok(false));
    for text in ["", "yes", "1", "true ", "truee"] {
        assert_eq!(validate_progress_arg(text), Err("Progress must be true or false.".to_string()));
    }
}

#[test]
fn reads_a_switch_in_lower_case_only() {
    assert_eq!(read_switch(&"true".to_string()), Ok(true));
    assert_eq!(read_switch(&"false".to_string()), Ok(false));
    assert_eq!(read_switch(&"TRUE".to_string()), Err("Progress must be true or false.".to_string()));
}

#[test]
fn reads_the_index_of_an_entry() {
    assert_eq!(validate_zip_file_index_arg("0"), Ok(0));
    assert_eq!(validate_zip_file_index_arg("12"), Ok(12));
    for text in ["", "-1", "one", "1.5"] {
        assert_eq!(
            validate_zip_file_index_arg(text),
            Err("Zip file index must be a positive number".to_string())
        );
    }
}

#[test]
fn assembles_a_generated_search_with_defaults() {
    let args = assemble(generated_matches(), 8).unwrap();
    assert_eq!(args.zip_path, "a.zip");
    assert_eq!(args.dictionary_file, None);
    assert_eq!(args.charset, vec!['a', 'b', 'c']);
    assert_eq!(args.charset_min_len, Some(2));
    assert_eq!(args.charset_max_len, Some(4));
    assert_eq!(args.concurrency, 7);
    assert!(args.progress);
    assert_eq!(args.zip_file_index, 0);
}

#[test]
fn assembles_a_listed_search_with_given_values() {
    let matches = Matches {
        zip_path: "b.zip".to_string(),
        dictionary_file: Some("words.txt".to_string()),
        charset: None,
        charset_len: None,
        concurrency: Some(3),
        progress: Some(false),
        zip_file_index: Some(2),
    };
    let args = assemble(matches, 8).unwrap();
    assert_eq!(args.zip_path, "b.zip");
    assert_eq!(args.dictionary_file, Some("words.txt".to_string()));
    assert_eq!(args.charset, Vec::<char>::new());
    assert_eq!(args.charset_min_len, None);
    assert_eq!(args.charset_max_len, None);
    assert_eq!(args.concurrency, 3);
    assert!(!args.progress);
    assert_eq!(args.zip_file_index, 2);
}

#[test]
fn a_generated_search_needs_its_lengths() {
    let mut matches = generated_matches();
    matches.charset_len = None;
    assert_eq!(
        assemble(matches, 8).unwrap_err(),
        "Charset length is required for password generation strategy."
    );
    let mut matches = generated_matches();
    matches.charset_len = Some("4-2".to_string());
    assert_eq!(assemble(matches, 8).unwrap_err(), INVALID);
    let mut matches = generated_matches();
    matches.charset_len = Some("four".to_string());
    assert_eq!(assemble(matches, 8).unwrap_err(), FORMAT);
}

#[test]
fn a_search_needs_at_least_one_worker() {
    let mut matches = generated_matches();
    matches.concurrency = Some(0);
    assert_eq!(assemble(matches, 8).unwrap_err(), "Concurrency must be a positive number");
    let mut matches = generated_matches();
    matches.concurrency = Some(1);
    assert_eq!(assemble(matches, 8).unwrap().concurrency, 1);
    let mut matches = generated_matches();
    matches.charset_len = None;
    matches.concurrency = Some(0);
    assert_eq!(
        assemble(matches, 8).unwrap_err(),
        "Charset length is required for password generation strategy."
    );
}

#[test]
fn builds_args_for_this_machine() {
    let cores = num_cpus::get_physical();
    let args = build_args(generated_matches()).unwrap();
    assert_eq!(args.concurrency, default_concurrency(cores));
    assert!(args.concurrency >= 1);
    assert_eq!(args.charset_min_len, Some(2));
    let mut matches = generated_matches();
    matches.charset_len = None;
    assert!(build_args(matches).is_err());
}
