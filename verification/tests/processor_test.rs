use std::io::Write;
use std::path::PathBuf;
use std::sync::atomic::{AtomicU64, Ordering};
use zip::unstable::write::FileOptionsExt;
use zip::write::{FileOptions, ZipWriter};
use zip_brute::models::charset::Charset;
use zip_brute::models::strategy::Strategy;
use zip_brute::models::zip_data::ZipData;
use zip_brute::password_iterator::GeneratorError;
use zip_brute::processors::dictionary_processor::lines;
use zip_brute::processors::processor::count_lines;
use zip_brute::processors::{dictionary_processor, password_gen_processor};
use zip_brute::utils::ProgressReporter;

struct Meter {
    tried: AtomicU64,
    total: AtomicU64,
}

impl Meter {
    fn new() -> Option<Meter> {
        Some(Meter { tried: AtomicU64::new(0), total: AtomicU64::new(0) })
    }
}

impl ProgressReporter for Meter {
    fn inc(&self, delta: u64) {
        self.tried.fetch_add(delta, Ordering::SeqCst);
    }

    fn set_length(&self, len: u64) {
        self.total.store(len, Ordering::SeqCst);
    }
}

fn sealed(password: &str) -> ZipData {
    let mut writer = ZipWriter::new(std::io::Cursor::new(Vec::new()));
    writer
        .start_file(
            "secret.txt",
            FileOptions::default().with_deprecated_encryption(password.as_bytes()),
        )
        .unwrap();
    writer
        .write_all(b"a text long enough to make a wrong key fail its checksum")
        .unwrap();
    let data = writer.finish().unwrap().into_inner();
    ZipData { path: "sealed.zip".to_string(), data, file_index: 0 }
}

fn generated(password: &str, chars: &str, min_len: usize, max_len: usize) -> Strategy {
    Strategy::PasswordGen {
        zip: sealed(password),
        charset: Charset { charset: chars.chars().collect(), min_len, max_len },
    }
}

fn listed(password: &str) -> Strategy {
    Strategy::DictionaryFile { zip: sealed(password), dict_path: PathBuf::from("words.txt") }
}

fn in_pool<T: Send>(workers: usize, work: impl FnOnce() -> T + Send) -> T {
    rayon::ThreadPoolBuilder::new().num_threads(workers).build().unwrap().install(work)
}

#[test]
fn generated_search_finds_the_only_password_with_any_pool() {
    for workers in 1..=4 {
        let strategy = generated("cab", "abc", 1, 3);
        let meter = Meter::new();
        let found = in_pool(workers, || strategy.process("", &meter));
        assert_eq!(found, Some("cab".to_string()));
        let meter = meter.unwrap();
        let tried = meter.tried.load(Ordering::SeqCst);
        assert!(1 <= tried && tried <= 39);
        assert_eq!(meter.total.load(Ordering::SeqCst), 39);
    }
}

#[test]
fn generated_search_without_a_match_tries_every_word() {
    for workers in 1..=4 {
        let strategy = generated("zzz", "abc", 1, 3);
        let meter = Meter::new();
        let found = in_pool(workers, || password_gen_processor::process(&strategy, &meter));
        assert_eq!(found, None);
        assert_eq!(meter.unwrap().tried.load(Ordering::SeqCst), 39);
    }
}

#[test]
fn generated_search_finds_the_last_word() {
    let strategy = generated("cc", "abc", 2, 2);
    assert_eq!(strategy.process("", &None::<Meter>), Some("cc".to_string()));
}

#[test]
fn generated_search_skips_lengths_out_of_range() {
    let strategy = generated("ab", "abc", 3, 3);
    assert_eq!(strategy.process("", &None::<Meter>), None);
}

#[test]
fn listed_search_finds_the_only_password_with_any_pool() {
    let words = "alpha\nbravo\r\ncharlie\n\ndelta";
    for workers in 1..=4 {
        let strategy = listed("charlie");
        let meter = Meter::new();
        let found = in_pool(workers, || strategy.process(words, &meter));
        assert_eq!(found, Some("charlie".to_string()));
        let meter = meter.unwrap();
        let tried = meter.tried.load(Ordering::SeqCst);
        assert!(1 <= tried && tried <= 5);
        assert_eq!(meter.total.load(Ordering::SeqCst), 5);
    }
}

#[test]
fn listed_search_without_a_match_tries_every_line() {
    let words = "alpha\nbravo\ncharlie\n";
    for workers in 1..=4 {
        let strategy = listed("delta");
        let meter = Meter::new();
        let found = in_pool(workers, || dictionary_processor::process(&strategy, words, &meter));
        assert_eq!(found, None);
        assert_eq!(meter.unwrap().tried.load(Ordering::SeqCst), 3);
    }
}

#[test]
fn listed_search_cuts_lines_at_their_endings() {
    let strategy = listed("bravo");
    assert_eq!(strategy.process("alpha\r\nbravo\r\n", &None::<Meter>), Some("bravo".to_string()));
    let strategy = listed("bravo");
    assert_eq!(strategy.process("alpha bravo", &None::<Meter>), None);
    let strategy = listed("bravo");
    assert_eq!(strategy.process("", &None::<Meter>), None);
}

#[test]
fn listed_search_attacks_the_entry_of_the_index() {
    let mut writer = ZipWriter::new(std::io::Cursor::new(Vec::new()));
    writer
        .start_file("first.txt", FileOptions::default().with_deprecated_encryption(b"one"))
        .unwrap();
    writer.write_all(b"the first of two sealed entries in one archive").unwrap();
    writer
        .start_file("second.txt", FileOptions::default().with_deprecated_encryption(b"two"))
        .unwrap();
    writer.write_all(b"the second of two sealed entries in one archive").unwrap();
    let data = writer.finish().unwrap().into_inner();
    let strategy = Strategy::DictionaryFile {
        zip: ZipData { path: "pair.zip".to_string(), data, file_index: 1 },
        dict_path: PathBuf::from("words.txt"),
    };
    assert_eq!(strategy.process("one\ntwo\n", &None::<Meter>), Some("two".to_string()));
}

#[test]
fn strategy_hands_out_its_parts() {
    let strategy = generated("pw", "ab", 1, 2);
    assert_eq!(strategy.charset().unwrap().charset, vec!['a', 'b']);
    assert_eq!(strategy.charset().unwrap().min_len, 1);
    assert_eq!(strategy.charset().unwrap().max_len, 2);
    assert!(strategy.dict_path().is_none());
    assert_eq!(strategy.zip_data().path, "sealed.zip");
    assert_eq!(strategy.zip_data().file_index, 0);

    let strategy = listed("pw");
    assert!(strategy.charset().is_none());
    assert_eq!(strategy.dict_path(), Some(&PathBuf::from("words.txt")));
    assert_eq!(strategy.zip_data().path, "sealed.zip");
}

#[test]
fn strategy_counts_its_candidates() {
    let strategy = generated("pw", "abc", 1, 3);
    assert_eq!(strategy.count_combinations("ignored\n"), 39);
    let strategy = listed("pw");
    assert_eq!(strategy.count_combinations("alpha\nbravo\ncharlie"), 3);
    assert_eq!(strategy.count_combinations("alpha\nbravo\ncharlie\n"), 3);
    assert_eq!(strategy.count_combinations("a\nb"), 2);
    assert_eq!(strategy.count_combinations(""), 0);
    assert_eq!(strategy.count_combinations("a\na\n\n"), 3);
}

#[test]
fn count_lines_counts_what_each_newline_ends() {
    assert_eq!(count_lines(""), 0);
    assert_eq!(count_lines("\n"), 1);
    assert_eq!(count_lines("a"), 1);
    assert_eq!(count_lines("a\n"), 1);
    assert_eq!(count_lines("a\n\nb"), 3);
    assert_eq!(count_lines("\n\n\n"), 3);
    assert_eq!(count_lines("a\r\nb\r\n"), 2);
    assert_eq!(count_lines("é\n日本\n"), 2);
}

const TEXTS: [&str; 22] = [
    "",
    "\n",
    "\r",
    "\r\n",
    "\n\r",
    "a",
    "a\n",
    "a\r",
    "a\r\n",
    "a\r\r\n",
    "a\r\nb",
    "a\nb\n",
    "a\n\nb",
    "a\rb\nc",
    "\n\n\n",
    "\r\n\r\n",
    "a\n\r",
    "a\n\r\n",
    "alpha\nbravo\r\ncharlie\n\ndelta",
    " spaced out \n\ttabbed\n",
    "é\r\n日本\n√",
    "\r\r",
];

#[test]
fn lines_are_cut_as_the_standard_library_cuts_them() {
    for text in TEXTS {
        let expected: Vec<String> = text.lines().map(|line| line.to_string()).collect();
        assert_eq!(lines(text), expected, "{text:?}");
    }
    assert_eq!(lines("a\r\nb\n\nc\r"), vec!["a", "b", "", "c\r"]);
}

#[test]
fn the_count_of_a_word_list_is_the_number_of_its_candidates() {
    let strategy = listed("pw");
    for text in TEXTS {
        assert_eq!(count_lines(text), lines(text).len(), "{text:?}");
        assert_eq!(strategy.count_combinations(text), text.lines().count(), "{text:?}");
    }
}

#[test]
fn search_reports_the_fault_of_a_charset_before_it_tries() {
    let cases = [
        ("", 1, 2, GeneratorError::EmptyCharset),
        ("abc", 0, 2, GeneratorError::ZeroMinSize),
        ("abc", 3, 2, GeneratorError::MinAboveMax),
        ("", 0, 0, GeneratorError::ZeroMinSize),
        ("", 2, 1, GeneratorError::MinAboveMax),
    ];
    for (chars, min_len, max_len, fault) in cases {
        let strategy = generated("ab", chars, min_len, max_len);
        let meter = Meter::new();
        assert_eq!(strategy.search("", &meter), Err(fault));
        let meter = meter.unwrap();
        assert_eq!(meter.tried.load(Ordering::SeqCst), 0);
        assert_eq!(meter.total.load(Ordering::SeqCst), 0);
    }
}

#[test]
fn search_returns_what_the_search_finds() {
    let strategy = generated("cab", "abc", 1, 3);
    assert_eq!(strategy.search("", &None::<Meter>), Ok(Some("cab".to_string())));
    let strategy = generated("zzz", "abc", 1, 2);
    assert_eq!(strategy.search("", &None::<Meter>), Ok(None));
    let strategy = listed("bravo");
    assert_eq!(strategy.search("alpha\nbravo\n", &None::<Meter>), Ok(Some("bravo".to_string())));
    let strategy = listed("bravo");
    assert_eq!(strategy.search("", &None::<Meter>), Ok(None));
}

/// An archive of one AES entry of the strongest kind, `size` bytes packed,
/// with nothing behind its header.
fn short_aes_archive(size: u32) -> Vec<u8> {
    let name = b"s";
    let extra: [u8; 11] = [0x01, 0x99, 0x07, 0x00, 0x02, 0x00, 0x41, 0x45, 0x03, 0x08, 0x00];
    let mut bytes: Vec<u8> = Vec::new();
    bytes.extend_from_slice(&[0x50, 0x4b, 0x03, 0x04, 51, 0, 1, 0, 99, 0, 0, 0, 0, 0]);
    bytes.extend_from_slice(&[0, 0, 0, 0]);
    bytes.extend_from_slice(&size.to_le_bytes());
    bytes.extend_from_slice(&[0, 0, 0, 0, 1, 0, 0, 0]);
    bytes.extend_from_slice(name);
    let directory = bytes.len() as u32;
    bytes.extend_from_slice(&[0x50, 0x4b, 0x01, 0x02, 51, 0, 51, 0, 1, 0, 99, 0, 0, 0, 0, 0]);
    bytes.extend_from_slice(&[0, 0, 0, 0]);
    bytes.extend_from_slice(&size.to_le_bytes());
    bytes.extend_from_slice(&[0, 0, 0, 0, 1, 0, 11, 0, 0, 0, 0, 0, 0, 0]);
    bytes.extend_from_slice(&[0, 0, 0, 0, 0, 0, 0, 0]);
    bytes.extend_from_slice(name);
    bytes.extend_from_slice(&extra);
    let size_of_directory = bytes.len() as u32 - directory;
    bytes.extend_from_slice(&[0x50, 0x4b, 0x05, 0x06, 0, 0, 0, 0, 1, 0, 1, 0]);
    bytes.extend_from_slice(&size_of_directory.to_le_bytes());
    bytes.extend_from_slice(&directory.to_le_bytes());
    bytes.extend_from_slice(&[0, 0]);
    bytes
}

#[test]
fn an_aes_entry_shorter_than_its_header_is_a_miss() {
    for size in [0, 1, 19, 27] {
        let data = short_aes_archive(size);
        assert!(zip::ZipArchive::new(std::io::Cursor::new(data.as_slice())).is_ok());
        assert!(!zip_brute::utils::check_entry(&data, 0));
        let meter = Meter::new();
        assert_eq!(zip_brute::utils::decrypt("any", &data, 0, &meter), None);
        assert_eq!(meter.unwrap().tried.load(Ordering::SeqCst), 1);
        assert_eq!(
            zip_brute::utils::validate_zip(&data, &0),
            Err("Failed to load zip archive: AES entry is shorter than its header".to_string())
        );
        let strategy = Strategy::DictionaryFile {
            zip: ZipData { path: "short.zip".to_string(), data: data.clone(), file_index: 0 },
            dict_path: PathBuf::from("words.txt"),
        };
        assert_eq!(strategy.search("one\ntwo\n", &None::<Meter>), Ok(None));
        let strategy = Strategy::PasswordGen {
            zip: ZipData { path: "short.zip".to_string(), data, file_index: 0 },
            charset: Charset { charset: vec!['a', 'b'], min_len: 1, max_len: 2 },
        };
        assert_eq!(strategy.search("", &None::<Meter>), Ok(None));
    }
}

#[test]
fn an_aes_entry_as_long_as_its_header_is_tried() {
    let data = short_aes_archive(28);
    assert!(zip_brute::utils::check_entry(&data, 0));
    assert_eq!(zip_brute::utils::decrypt("any", &data, 0, &None::<Meter>), None);
    assert!(zip_brute::utils::check_entry(&data, 7));
    assert!(zip_brute::utils::check_entry(b"no archive", 0));
}
