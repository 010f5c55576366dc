//! Counting the candidates of a charset, and asking the archive whether a
//! candidate unlocks it.

use crate::models::charset::Charset;
use crate::odometer::{
    count, lemma_count_extend, lemma_count_holds_power, lemma_count_increases, lemma_count_of_one,
    lemma_count_of_zero, lemma_count_single, lemma_pow_nat,
};
use std::io::{Cursor, Read};
use vstd::arithmetic::power::{lemma_pow_increases, pow};
use vstd::prelude::*;
use zip::result::ZipError;
use zip::{CompressionMethod, ZipArchive};

verus! {

/// Where the search tells how far it has come. The search calls `inc` once
/// for every candidate that it has tried.
pub trait ProgressReporter {
    /// `delta` more candidates have been tried.
    fn inc(&self, delta: u64);

    /// The search will try `len` candidates in all.
    fn set_length(&self, len: u64);
}

/// What the archive says to one candidate.
#[derive(Debug, Clone, Copy, PartialEq, Eq, Structural)]
pub enum HitKind {
    /// The entry opens and its content reads to the end.
    Confirmed,
    /// The entry opens, but its content does not read to the end.
    FalsePositive,
    /// The entry does not open.
    Rejected,
}

/// How far one candidate comes with an entry.
#[derive(Debug, Clone, Copy, PartialEq, Eq, Structural)]
pub enum Attempt {
    /// The archive or the entry cannot be read at all.
    Unreadable,
    /// The entry turns the password away.
    WrongPassword,
    /// The entry takes the password, but its content does not read to the
    /// end.
    Garbled,
    /// The entry takes the password and its content reads to the end.
    Unlocked,
}

/// What an archive says when an entry is asked for without a password.
#[derive(Debug)]
pub enum EntryProbe {
    /// The bytes are no archive; the text says why.
    NotAnArchive(String),
    /// The entry opens without a password.
    Readable,
    /// The archive holds what cannot be read as it is: the reason, and the
    /// error as it is shown.
    Unsupported(String, String),
    /// Any other failure, as it is shown.
    Broken(String),
}

/// The size of the entry `index` of the archive as it is packed, and the
/// extra data of its header; `None` where there is no such entry to read.
pub uninterp spec fn entry_facts(archive: Seq<u8>, index: usize) -> Option<(u64, Seq<u8>)>;

/// How far `password` comes with the entry `index` of the archive.
pub uninterp spec fn entry_attempt(archive: Seq<u8>, index: usize, password: Seq<char>) -> Attempt;

/// What the entry `index` of the archive says when asked for without a
/// password.
pub uninterp spec fn entry_probe(archive: Seq<u8>, index: usize) -> EntryProbe;

/// Opens the archive with `zip::ZipArchive::new`, asks for the entry with
/// `ZipArchive::by_index_raw`, which reads nothing of its content, and hands
/// out `ZipFile::compressed_size` and `ZipFile::extra_data`.
#[verifier::external_body]
fn read_facts(zip_file: &[u8], file_index: usize) -> (facts: Option<(u64, Vec<u8>)>)
    ensures
        match facts {
            Some((size, extra)) => entry_facts(zip_file@, file_index) == Some((size, extra@)),
            None => entry_facts(zip_file@, file_index) is None,
        },
{
    let Ok(mut archive) = ZipArchive::new(Cursor::new(zip_file)) else {
        return None;
    };
    return match archive.by_index_raw(file_index) {
        Ok(entry) => Some((entry.compressed_size(), entry.extra_data().to_vec())),
        Err(_) => None,
    };
}

/// An AES field may start at `at`: the two bytes of its number stand there,
/// and the byte of its strength, eight bytes on, is within the data.
pub open spec fn aes_field_at(extra: Seq<u8>, at: int) -> bool {
    &&& 0 <= at
    &&& at + 8 < extra.len()
    &&& extra[at] == 0x01
    &&& extra[at + 1] == 0x99
}

/// The bytes that an AES entry of a strength holds besides its content: the
/// salt, two bytes to check the password and ten to check the content. A
/// strength that is none of the three counts as the strongest.
pub open spec fn aes_overhead(strength: u8) -> u64 {
    if strength == 1 {
        20
    } else if strength == 2 {
        24
    } else {
        28
    }
}

/// Wherever an AES field may start in the extra data, the entry is large
/// enough for what an AES entry of that strength holds besides its content.
pub open spec fn aes_fits(size: u64, extra: Seq<u8>) -> bool {
    forall|at: int| #[trigger] aes_field_at(extra, at) ==> size >= aes_overhead(extra[at + 8])
}

/// The entry `index` of the archive can be tried: it cannot be read at all,
/// or it is large enough for any AES field that its extra data may hold.
pub open spec fn entry_fits(archive: Seq<u8>, index: usize) -> bool {
    match entry_facts(archive, index) {
        Some((size, extra)) => aes_fits(size, extra),
        None => true,
    }
}

/// Whether an entry of `size` packed bytes is large enough for any AES field
/// that `extra` may hold.
pub fn header_fits(size: u64, extra: &Vec<u8>) -> (fits: bool)
    ensures
        fits == aes_fits(size, extra@),
{
    if size >= 28 || extra.len() < 9 {
        return true;
    }
    let mut at: usize = 0;
    while at < extra.len() - 8
        invariant
            size < 28,
            extra@.len() >= 9,
            at + 8 <= extra@.len(),
            forall|k: int|
                0 <= k < at && #[trigger] aes_field_at(extra@, k) ==> size >= aes_overhead(
                    extra@[k + 8],
                ),
        decreases extra@.len() - at,
    {
        if extra[at] == 0x01 && extra[at + 1] == 0x99 {
            let strength: u8 = extra[at + 8];
            let overhead: u64 = if strength == 1 {
                20
            } else if strength == 2 {
                24
            } else {
                28
            };
            if size < overhead {
                assert(aes_field_at(extra@, at as int));
                return false;
            }
        }
        at += 1;
    }
    true
}

/// Whether the entry `file_index` of the archive can be tried.
pub fn check_entry(zip_file: &[u8], file_index: usize) -> (fits: bool)
    ensures
        fits == entry_fits(zip_file@, file_index),
{
    match read_facts(zip_file, file_index) {
        Some((size, extra)) => header_fits(size, &extra),
        None => true,
    }
}

/// Opens the archive with `zip::ZipArchive::new`, asks for the entry with
/// `ZipArchive::by_index_decrypt`, and reads it to its end unless
/// `ZipFile::compression` names AES, which the zip crate cannot read and
/// panics on. For an entry with an AES field the zip crate takes the salt
/// and twelve bytes more off the packed size, and panics where the size is
/// below that: `entry_fits` leaves such an entry out. Where `by_index_raw`
/// finds no entry, `by_index_decrypt` fails at the same place, before any
/// password is looked at. Not proved: that what the zip crate says depends
/// on the bytes, the index and the password alone.
#[verifier::external_body]
fn try_entry(password: &str, zip_file: &[u8], file_index: usize) -> (tried: Attempt)
    requires
        entry_fits(zip_file@, file_index),
    ensures
        tried == entry_attempt(zip_file@, file_index, password@),
{
    let Ok(mut archive) = ZipArchive::new(Cursor::new(zip_file)) else {
        return Attempt::Unreadable;
    };
    return match archive.by_index_decrypt(file_index, password.as_bytes()) {
        Ok(Ok(mut entry)) => match entry.compression() {
            CompressionMethod::Aes => Attempt::Unreadable,
            _ => match entry.read_to_end(&mut Vec::new()) {
                Ok(_) => Attempt::Unlocked,
                Err(_) => Attempt::Garbled,
            },
        },
        Ok(Err(_)) => Attempt::WrongPassword,
        Err(_) => Attempt::Unreadable,
    };
}

/// Opens the archive with `zip::ZipArchive::new` and asks for the entry with
/// `ZipArchive::by_index`. `by_index` panics where the entry turns every
/// password away without being marked as encrypted; `by_index_decrypt` then
/// reports a wrong password, so such an entry is left out. Not proved: that
/// what the zip crate says depends on the bytes and the index alone.
#[verifier::external_body]
fn probe(zip_file: &[u8], file_index: usize) -> (found: EntryProbe)
    requires
        entry_attempt(zip_file@, file_index, ""@) != Attempt::WrongPassword,
    ensures
        found == entry_probe(zip_file@, file_index),
{
    let mut archive = match ZipArchive::new(Cursor::new(zip_file)) {
        Ok(archive) => archive,
        Err(e) => return EntryProbe::NotAnArchive(e.to_string()),
    };
    return match archive.by_index(file_index) {
        Ok(_) => EntryProbe::Readable,
        Err(ZipError::UnsupportedArchive(reason)) => EntryProbe::Unsupported(
            reason.to_string(),
            ZipError::UnsupportedArchive(reason).to_string(),
        ),
        Err(e) => EntryProbe::Broken(e.to_string()),
    };
}

/// What an attempt is worth to the search.
pub open spec fn hit_kind(tried: Attempt) -> HitKind {
    match tried {
        Attempt::Unlocked => HitKind::Confirmed,
        Attempt::Garbled => HitKind::FalsePositive,
        Attempt::WrongPassword => HitKind::Rejected,
        Attempt::Unreadable => HitKind::Rejected,
    }
}

/// What the entry `index` of the archive says to `password`. An entry
/// that cannot be tried rejects every password.
pub open spec fn entry_outcome(archive: Seq<u8>, index: usize, password: Seq<char>) -> HitKind {
    if entry_fits(archive, index) {
        hit_kind(entry_attempt(archive, index, password))
    } else {
        HitKind::Rejected
    }
}

/// Whether `password` unlocks the entry: only a confirmed hit counts.
pub open spec fn unlocks(archive: Seq<u8>, index: usize, password: Seq<char>) -> bool {
    entry_outcome(archive, index, password) == HitKind::Confirmed
}

/// Reads an attempt: a password that the entry takes is a hit where the
/// content reads to the end, and a false positive where it does not.
pub fn classify(tried: Attempt) -> (kind: HitKind)
    ensures
        kind == hit_kind(tried),
{
    match tried {
        Attempt::Unlocked => HitKind::Confirmed,
        Attempt::Garbled => HitKind::FalsePositive,
        Attempt::WrongPassword => HitKind::Rejected,
        Attempt::Unreadable => HitKind::Rejected,
    }
}

/// The password where the archive confirmed it. A false positive is a miss.
pub fn confirmed<'a>(password: &'a str, kind: HitKind) -> (hit: Option<&'a str>)
    ensures
        hit == if kind == HitKind::Confirmed {
            Some(password)
        } else {
            None
        },
{
    match kind {
        HitKind::Confirmed => Some(password),
        HitKind::FalsePositive => None,
        HitKind::Rejected => None,
    }
}

/// Tries `password` on an entry that can be tried, tells the reporter of
/// the attempt, and returns the password where it unlocks.
pub fn decrypt_entry<'a, P: ProgressReporter>(
    password: &'a str,
    zip_file: &[u8],
    file_index: usize,
    progress_bar: &Option<P>,
) -> (hit: Option<&'a str>)
    requires
        entry_fits(zip_file@, file_index),
    ensures
        hit == if unlocks(zip_file@, file_index, password@) {
            Some(password)
        } else {
            None
        },
{
    let tried = try_entry(password, zip_file, file_index);
    if let Some(progress_bar) = progress_bar {
        progress_bar.inc(1);
    }
    confirmed(password, classify(tried))
}

/// Tries `password` on the entry `file_index` of the archive, tells the
/// reporter of the attempt, and returns the password where it unlocks. An
/// entry that cannot be tried is a miss.
pub fn decrypt<'a, P: ProgressReporter>(
    password: &'a str,
    zip_file: &[u8],
    file_index: usize,
    progress_bar: &Option<P>,
) -> (hit: Option<&'a str>)
    ensures
        hit == if unlocks(zip_file@, file_index, password@) {
            Some(password)
        } else {
            None
        },
{
    if check_entry(zip_file, file_index) {
        decrypt_entry(password, zip_file, file_index, progress_bar)
    } else {
        if let Some(progress_bar) = progress_bar {
            progress_bar.inc(1);
        }
        None
    }
}

/// What a probe means for a search: `Ok` where the entry asks for a
/// password, else the reason why there is nothing to search.
pub open spec fn verdict(found: EntryProbe) -> Result<(), Seq<char>> {
    match found {
        EntryProbe::NotAnArchive(shown) => Err(shown@),
        EntryProbe::Readable => Err("Zip file not encrypted"@),
        EntryProbe::Unsupported(reason, shown) => if reason@
            == "Password required to decrypt file"@ {
            Ok(())
        } else {
            Err("Failed to load zip archive: "@ + shown@)
        },
        EntryProbe::Broken(shown) => Err("Failed to load zip archive: "@ + shown@),
    }
}

/// Whether the entry `index` of the archive can be searched: not one that
/// cannot be tried; an entry that turns the empty password away asks for
/// one; any other is judged by what it says when asked for without a
/// password.
pub open spec fn entry_verdict(archive: Seq<u8>, index: usize) -> Result<(), Seq<char>> {
    if !entry_fits(archive, index) {
        Err("Failed to load zip archive: AES entry is shorter than its header"@)
    } else if entry_attempt(archive, index, ""@) == Attempt::WrongPassword {
        Ok(())
    } else {
        verdict(entry_probe(archive, index))
    }
}

/// Whether `checked` says what `verdict` asks for.
pub open spec fn says(checked: Result<(), String>, asked: Result<(), Seq<char>>) -> bool {
    match checked {
        Ok(_) => asked is Ok,
        Err(why) => asked == Err::<(), Seq<char>>(why@),
    }
}

/// Reads a probe: only an entry that asks for a password can be searched.
pub fn judge(found: EntryProbe) -> (checked: Result<(), String>)
    ensures
        says(checked, verdict(found)),
{
    match found {
        EntryProbe::NotAnArchive(shown) => Err(shown),
        EntryProbe::Readable => Err(String::from_str("Zip file not encrypted")),
        EntryProbe::Unsupported(reason, shown) => {
            if reason == String::from_str("Password required to decrypt file") {
                Ok(())
            } else {
                Err(String::from_str("Failed to load zip archive: ").concat(shown.as_str()))
            }
        },
        EntryProbe::Broken(shown) => Err(
            String::from_str("Failed to load zip archive: ").concat(shown.as_str()),
        ),
    }
}

/// Checks that the entry `file_index` of the archive can be searched: that
/// it is there and asks for a password.
pub fn validate_zip(zip_file: &[u8], file_index: &usize) -> (checked: Result<(), String>)
    ensures
        says(checked, entry_verdict(zip_file@, *file_index)),
{
    if !check_entry(zip_file, *file_index) {
        return Err(
            String::from_str("Failed to load zip archive: AES entry is shorter than its header"),
        );
    }
    match try_entry("", zip_file, *file_index) {
        Attempt::WrongPassword => Ok(()),
        _ => judge(probe(zip_file, *file_index)),
    }
}

/// The number of words over the charset with `min_len..=max_len` symbols, or
/// `None` where that number is beyond `usize`.
pub fn checked_count_combinations(charset: &Charset) -> (total: Option<usize>)
    ensures
        total == if count(charset.charset@.len(), charset.min_len as nat, charset.max_len as nat)
            <= usize::MAX {
            Some(
                count(
                    charset.charset@.len(),
                    charset.min_len as nat,
                    charset.max_len as nat,
                ) as usize,
            )
        } else {
            None
        },
{
    let n: usize = charset.charset.len();
    let min: usize = charset.min_len;
    let max: usize = charset.max_len;
    let ghost all = count(n as nat, min as nat, max as nat);
    if min > max {
        return Some(0);
    }
    if n == 0 {
        proof {
            lemma_count_of_zero(min as nat, max as nat);
        }
        return Some(if min == 0 { 1 } else { 0 });
    }
    if n == 1 {
        proof {
            lemma_count_of_one(min as nat, max as nat);
        }
        return (max - min).checked_add(1);
    }
    let mut power: usize = 1;
    let mut e: usize = 0;
    proof {
        reveal(pow);
    }
    while e < min
        invariant
            n >= 1,
            e <= min <= max,
            power == pow(n as int, e as nat),
            n == charset.charset@.len(),
            min == charset.min_len,
            max == charset.max_len,
            all == count(n as nat, min as nat, max as nat),
        decreases min - e,
    {
        proof {
            reveal(pow);
            assert(pow(n as int, (e + 1) as nat) == n * pow(n as int, e as nat));
            assert(n * power == power * n) by (nonlinear_arith);
            assert(power * n == pow(n as int, (e + 1) as nat));
            lemma_pow_increases(n as nat, (e + 1) as nat, min as nat);
            assert(pow(n as int, (e + 1) as nat) <= pow(n as int, min as nat));
            lemma_count_holds_power(n as nat, min as nat, max as nat, min as nat);
            assert(pow(n as int, min as nat) <= all);
        }
        match power.checked_mul(n) {
            Some(next) => {
                power = next;
            },
            None => {
                return None;
            },
        }
        e += 1;
    }
    let mut total: usize = power;
    let mut i: usize = min;
    proof {
        lemma_count_single(n as nat, min as nat);
    }
    while i < max
        invariant
            n >= 1,
            min <= i <= max,
            power == pow(n as int, i as nat),
            total == count(n as nat, min as nat, i as nat),
            n == charset.charset@.len(),
            min == charset.min_len,
            max == charset.max_len,
            all == count(n as nat, min as nat, max as nat),
        decreases max - i,
    {
        proof {
            reveal(pow);
            assert(pow(n as int, (i + 1) as nat) == n * pow(n as int, i as nat));
            assert(n * power == power * n) by (nonlinear_arith);
            assert(power * n == pow(n as int, (i + 1) as nat));
            lemma_count_holds_power(n as nat, min as nat, max as nat, (i + 1) as nat);
            assert(pow(n as int, (i + 1) as nat) <= all);
            lemma_count_extend(n as nat, min as nat, i as nat);
            lemma_pow_nat(n as nat, (i + 1) as nat);
            lemma_count_increases(
                n as nat,
                min as nat,
                (i + 1) as nat,
                max as nat,
            );
            assert(count(n as nat, min as nat, (i + 1) as nat) == total + pow(
                n as int,
                (i + 1) as nat,
            ));
        }
        match power.checked_mul(n) {
            Some(next) => {
                power = next;
            },
            None => {
                return None;
            },
        }
        match total.checked_add(power) {
            Some(sum) => {
                total = sum;
            },
            None => {
                return None;
            },
        }
        i += 1;
    }
    Some(total)
}

/// The number of words over the charset with `min_len..=max_len` symbols.
pub fn count_combinations(charset: &Charset) -> (total: usize)
    requires
        count(charset.charset@.len(), charset.min_len as nat, charset.max_len as nat)
            <= usize::MAX,
    ensures
        total == count(charset.charset@.len(), charset.min_len as nat, charset.max_len as nat),
{
    checked_count_combinations(charset).unwrap()
}

} // verus!
