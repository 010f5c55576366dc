//! The candidate generator: an odometer over an alphabet that hands out every
//! word of each length from the shortest to the longest, one per call.

use crate::odometer::{
    all_top, all_zero, count, enumeration, in_radix, lemma_digits_of_rank,
    lemma_enumeration_distinct, lemma_enumeration_len, lemma_enumeration_words, lemma_pow_nat,
    lemma_rank_all_top, lemma_rank_all_zero, lemma_rank_bound, lemma_rank_turned, rank, turned,
    unique, word, words_of_len,
};
use vstd::prelude::*;

verus! {

/// `String::push` appends one character at the end of the string.
pub assume_specification[ String::push ](s: &mut String, c: char)
    ensures
        final(s)@ == old(s)@.push(c),
;

/// Why a generator cannot be made.
#[derive(Debug, Clone, Copy, PartialEq, Eq, Structural)]
pub enum GeneratorError {
    /// The shortest word would have no symbol.
    ZeroMinSize,
    /// The shortest word would be longer than the longest.
    MinAboveMax,
    /// There is no symbol to write a word with.
    EmptyCharset,
}

impl GeneratorError {
    /// The message that names the fault.
    pub fn to_string(&self) -> (message: String)
        ensures
            message@ == match *self {
                GeneratorError::ZeroMinSize => "Min size needs to be bigger than 0."@,
                GeneratorError::MinAboveMax => "Min size cannot be bigger than Max size."@,
                GeneratorError::EmptyCharset => "Charset cannot be empty."@,
            },
    {
        match self {
            GeneratorError::ZeroMinSize => String::from_str("Min size needs to be bigger than 0."),
            GeneratorError::MinAboveMax => String::from_str(
                "Min size cannot be bigger than Max size.",
            ),
            GeneratorError::EmptyCharset => String::from_str("Charset cannot be empty."),
        }
    }
}

/// Hands out the words over `chars` of every length from its first to
/// `max_size`: one digit per position, the last position turning fastest.
#[derive(Debug)]
pub struct PasswordGenerator<'a> {
    chars: &'a [char],
    max_size: usize,
    indices: Vec<usize>,
    exhausted: bool,
}

impl<'a> View for PasswordGenerator<'a> {
    type V = Seq<Seq<char>>;

    /// The words still to come, in the order in which they will come.
    closed spec fn view(&self) -> Seq<Seq<char>> {
        if self.exhausted {
            Seq::empty()
        } else {
            words_of_len(self.chars@, self.indices@.len()).skip(
                rank(self.indices@, self.chars@.len()) as int,
            ) + enumeration(self.chars@, self.indices@.len() + 1, self.max_size as nat)
        }
    }
}

/// A generator made over an alphabet without repeats, for the lengths
/// `min_size..=max_size`, hands out `n^min_size + ... + n^max_size` words,
/// `n` being the size of the alphabet; each has between `min_size` and
/// `max_size` symbols, all of the alphabet, and no word comes twice.
pub proof fn lemma_generator_words(
    fresh: PasswordGenerator<'_>,
    chars: Seq<char>,
    min_size: nat,
    max_size: nat,
)
    requires
        chars.len() >= 1,
        unique(chars),
        1 <= min_size <= max_size,
        fresh@ == enumeration(chars, min_size, max_size),
    ensures
        fresh@.len() == count(chars.len(), min_size, max_size),
        forall|i: int|
            0 <= i < fresh@.len() ==> min_size <= (#[trigger] fresh@[i]).len() <= max_size,
        forall|i: int, t: int|
            0 <= i < fresh@.len() && 0 <= t < fresh@[i].len() ==> chars.contains(
                #[trigger] fresh@[i][t],
            ),
        forall|i: int, j: int| 0 <= i < j < fresh@.len() ==> fresh@[i] != fresh@[j],
{
    lemma_enumeration_len(chars, min_size, max_size);
    assert forall|i: int| 0 <= i < fresh@.len() implies min_size <= (#[trigger] fresh@[i]).len()
        <= max_size by {
        lemma_enumeration_words(chars, min_size, max_size, i);
    }
    assert forall|i: int, t: int|
        0 <= i < fresh@.len() && 0 <= t < fresh@[i].len() implies chars.contains(
        #[trigger] fresh@[i][t],
    ) by {
        lemma_enumeration_words(chars, min_size, max_size, i);
    }
    assert forall|i: int, j: int| 0 <= i < j < fresh@.len() implies fresh@[i] != fresh@[j] by {
        lemma_enumeration_distinct(chars, min_size, max_size, i, j);
    }
}

/// One call: the first of the words still to come is handed out and the
/// others stay, or there is none left and nothing changes.
pub open spec fn handed_out(
    before: Seq<Seq<char>>,
    pass: Option<Seq<char>>,
    after: Seq<Seq<char>>,
) -> bool {
    if before.len() == 0 {
        pass is None && after == before
    } else {
        pass == Some(before[0]) && after == before.skip(1)
    }
}

/// What a call hands out, and what it leaves to come, depends on nothing but
/// the words that were still to come.
pub proof fn lemma_call_is_determined(
    before: Seq<Seq<char>>,
    pass: Option<Seq<char>>,
    after: Seq<Seq<char>>,
    other_pass: Option<Seq<char>>,
    other_after: Seq<Seq<char>>,
)
    requires
        handed_out(before, pass, after),
        handed_out(before, other_pass, other_after),
    ensures
        pass == other_pass,
        after == other_after,
{
}

/// Two generators made over alphabets that agree symbol by symbol, with the
/// same lengths, hand out the same words in the same order: the word of
/// each call, and the call after which there is none.
pub proof fn lemma_same_parameters_same_words(
    first: PasswordGenerator<'_>,
    second: PasswordGenerator<'_>,
    first_chars: Seq<char>,
    second_chars: Seq<char>,
    min_size: nat,
    max_size: nat,
)
    requires
        first_chars.len() == second_chars.len(),
        forall|i: int| 0 <= i < first_chars.len() ==> first_chars[i] == second_chars[i],
        first@ == enumeration(first_chars, min_size, max_size),
        second@ == enumeration(second_chars, min_size, max_size),
    ensures
        first@.len() == second@.len(),
        forall|call: int| 0 <= call < first@.len() ==> first@[call] == second@[call],
{
    assert(first_chars =~= second_chars);
}

impl<'a> PasswordGenerator<'a> {
    /// The alphabet is not empty, the current length lies between one and the
    /// largest, and every digit names a symbol.
    pub closed spec fn wf(&self) -> bool {
        &&& self.chars@.len() >= 1
        &&& 1 <= self.indices@.len() <= self.max_size
        &&& in_radix(self.indices@, self.chars@.len())
    }

    /// The alphabet that the words are written in.
    pub closed spec fn alphabet(&self) -> Seq<char> {
        self.chars@
    }

    /// The length of the longest word.
    pub closed spec fn longest(&self) -> nat {
        self.max_size as nat
    }

    /// A generator of all words over `chars` with `min_size..=max_size`
    /// symbols, or the first fault among: no length, lengths out of order, no
    /// alphabet.
    pub fn new(chars: &'a [char], min_size: usize, max_size: usize) -> (made: Result<
        Self,
        GeneratorError,
    >)
        ensures
            match made {
                Ok(generator) => {
                    &&& 1 <= min_size <= max_size
                    &&& chars@.len() >= 1
                    &&& generator.wf()
                    &&& generator.alphabet() == chars@
                    &&& generator.longest() == max_size
                    &&& generator@ == enumeration(chars@, min_size as nat, max_size as nat)
                },
                Err(fault) => {
                    &&& min_size == 0 || min_size > max_size || chars@.len() == 0
                    &&& fault == if min_size == 0 {
                        GeneratorError::ZeroMinSize
                    } else if min_size > max_size {
                        GeneratorError::MinAboveMax
                    } else {
                        GeneratorError::EmptyCharset
                    }
                },
            },
    {
        if min_size == 0 {
            return Err(GeneratorError::ZeroMinSize);
        }
        if min_size > max_size {
            return Err(GeneratorError::MinAboveMax);
        }
        if chars.len() == 0 {
            return Err(GeneratorError::EmptyCharset);
        }
        let zero: usize = 0;
        let indices = vec![zero; min_size];
        let generator = PasswordGenerator { chars, max_size, indices, exhausted: false };
        proof {
            let n = chars@.len();
            assert(all_zero(generator.indices@));
            lemma_rank_all_zero(generator.indices@, n);
            let all = words_of_len(chars@, min_size as nat);
            assert(all.skip(0) =~= all);
        }
        Ok(generator)
    }

    /// Whether the current word is the last of its length: every digit at
    /// the top of the alphabet.
    fn password_length_iterated(&self) -> (last: bool)
        requires
            self.wf(),
        ensures
            last == all_top(self.indices@, self.chars@.len()),
    {
        let mut i: usize = self.indices.len() - 1;
        let top: usize = self.chars.len() - 1;
        while self.indices[i] == top
            invariant
                self.wf(),
                top == self.chars@.len() - 1,
                i < self.indices@.len(),
                forall|j: int| i < j < self.indices@.len() ==> self.indices@[j] == top,
            decreases i,
        {
            if i == 0 {
                return true;
            }
            i -= 1;
        }
        false
    }

    /// Turns the odometer once: the rightmost digit below the top goes up by
    /// one, and the digits to its right fall back to zero.
    fn increment_indices(&mut self)
        requires
            old(self).wf(),
            !all_top(old(self).indices@, old(self).chars@.len()),
        ensures
            final(self).wf(),
            final(self).chars == old(self).chars,
            final(self).max_size == old(self).max_size,
            final(self).exhausted == old(self).exhausted,
            final(self).indices@.len() == old(self).indices@.len(),
            rank(final(self).indices@, old(self).chars@.len()) == rank(
                old(self).indices@,
                old(self).chars@.len(),
            ) + 1,
    {
        let ghost before = self.indices@;
        let ghost n = self.chars@.len();
        let ghost low: int = choose|p: int| 0 <= p < before.len() && before[p] as nat != n - 1;
        let top: usize = self.chars.len() - 1;
        let mut i: usize = self.indices.len() - 1;
        while self.indices[i] == top
            invariant
                self.chars == old(self).chars,
                self.max_size == old(self).max_size,
                self.exhausted == old(self).exhausted,
                self.indices@.len() == before.len(),
                top == n - 1,
                0 <= low <= i < before.len(),
                before[low] as nat != n - 1,
                forall|j: int| 0 <= j <= i ==> self.indices@[j] == before[j],
                forall|j: int| i < j < before.len() ==> before[j] == top && self.indices@[j] == 0,
            decreases i,
        {
            self.indices.set(i, 0);
            i -= 1;
        }
        let digit: usize = self.indices[i];
        assert((before[i as int] as nat) < n) by {
            assert(in_radix(before, n));
        }
        self.indices.set(i, digit + 1);
        proof {
            assert(turned(before, self.indices@, i as int, n));
            lemma_rank_turned(before, self.indices@, i as int, n);
            assert forall|j: int| 0 <= j < self.indices@.len() implies (
            #[trigger] self.indices@[j] as nat) < n by {
                assert(in_radix(before, n));
                assert((before[j] as nat) < n);
            }
        }
    }

    /// The current word, written out.
    fn current(&self) -> (pass: String)
        requires
            self.wf(),
        ensures
            pass@ == word(
                self.chars@,
                self.indices@.len(),
                rank(self.indices@, self.chars@.len()),
            ),
    {
        let ghost n = self.chars@.len();
        let ghost target = word(self.chars@, self.indices@.len(), rank(self.indices@, n));
        proof {
            lemma_digits_of_rank(self.indices@, n);
        }
        let mut pass = String::new();
        let mut i: usize = 0;
        while i < self.indices.len()
            invariant
                self.wf(),
                n == self.chars@.len(),
                i <= self.indices@.len(),
                target == word(self.chars@, self.indices@.len(), rank(self.indices@, n)),
                forall|j: int|
                    0 <= j < self.indices@.len() ==> #[trigger] target[j]
                        == self.chars@[self.indices@[j] as int],
                pass@ == target.take(i as int),
            decreases self.indices@.len() - i,
        {
            let digit: usize = self.indices[i];
            assert((self.indices@[i as int] as nat) < n);
            pass.push(self.chars[digit]);
            assert(target.take(i + 1) =~= target.take(i as int).push(target[i as int]));
            i += 1;
        }
        assert(target.take(i as int) =~= target);
        pass
    }

    /// The next word, or `None` once every word has been handed out.
    pub fn next(&mut self) -> (pass: Option<String>)
        requires
            old(self).wf(),
        ensures
            final(self).wf(),
            final(self).alphabet() == old(self).alphabet(),
            final(self).longest() == old(self).longest(),
            handed_out(
                old(self)@,
                match pass {
                    Some(word) => Some(word@),
                    None => None,
                },
                final(self)@,
            ),
    {
        if self.exhausted {
            return None;
        }
        let ghost n = self.chars@.len();
        let ghost len = self.indices@.len();
        let ghost r = rank(self.indices@, n);
        let ghost here = words_of_len(self.chars@, len);
        let ghost later = enumeration(self.chars@, len + 1, self.max_size as nat);
        proof {
            lemma_rank_bound(self.indices@, n);
            lemma_pow_nat(n, len);
            assert(old(self)@ == here.skip(r as int) + later);
            assert(old(self)@[0] == word(self.chars@, len, r));
        }
        let pass = self.current();
        if self.password_length_iterated() {
            proof {
                lemma_rank_all_top(self.indices@, n);
                assert(here.skip(r as int) + later =~= seq![here[r as int]] + later);
                assert((seq![here[r as int]] + later).skip(1) =~= later);
            }
            if self.indices.len() == self.max_size {
                self.exhausted = true;
                proof {
                    assert(later =~= Seq::<Seq<char>>::empty());
                }
            } else {
                let mut j: usize = 0;
                while j < self.indices.len()
                    invariant
                        self.chars == old(self).chars,
                        self.max_size == old(self).max_size,
                        self.exhausted == old(self).exhausted,
                        self.indices@.len() == len,
                        j <= len,
                        forall|k: int| 0 <= k < j ==> self.indices@[k] == 0,
                    decreases len - j,
                {
                    self.indices.set(j, 0);
                    j += 1;
                }
                self.indices.push(0);
                proof {
                    assert(all_zero(self.indices@));
                    lemma_rank_all_zero(self.indices@, n);
                    let next_len = words_of_len(self.chars@, len + 1);
                    assert(next_len.skip(0) =~= next_len);
                    assert(in_radix(self.indices@, n));
                }
            }
        } else {
            self.increment_indices();
            proof {
                lemma_rank_bound(self.indices@, n);
                assert((here.skip(r as int) + later).skip(1) =~= here.skip(r as int + 1) + later);
            }
        }
        Some(pass)
    }
}

} // verus!
