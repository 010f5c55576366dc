//! The mathematical model of the enumeration: words over an alphabet, read as
//! numbers in the radix of the alphabet's size, most significant digit first.

use vstd::arithmetic::div_mod::*;
use vstd::arithmetic::mul::*;
use vstd::arithmetic::power::*;
use vstd::prelude::*;

verus! {

/// The `len` low digits of `k` in radix `n`, most significant first.
pub open spec fn digits_of(k: nat, len: nat, n: nat) -> Seq<nat>
    decreases len,
{
    if len == 0 {
        Seq::empty()
    } else {
        digits_of(k / n, (len - 1) as nat, n).push(k % n)
    }
}

/// The number that a digit vector writes in radix `n`.
pub open spec fn rank(digits: Seq<usize>, n: nat) -> nat
    decreases digits.len(),
{
    if digits.len() == 0 {
        0
    } else {
        rank(digits.drop_last(), n) * n + digits.last() as nat
    }
}

/// The `k`-th word of length `len` over `chars`.
pub open spec fn word(chars: Seq<char>, len: nat, k: nat) -> Seq<char> {
    Seq::new(len, |i: int| chars[digits_of(k, len, chars.len())[i] as int])
}

/// All words of length `len` over `chars`, in counting order.
pub open spec fn words_of_len(chars: Seq<char>, len: nat) -> Seq<Seq<char>> {
    Seq::new(pow(chars.len() as int, len) as nat, |k: int| word(chars, len, k as nat))
}

/// Every word whose length lies in `min..=max`, shorter words first.
pub open spec fn enumeration(chars: Seq<char>, min: nat, max: nat) -> Seq<Seq<char>>
    decreases max + 1 - min,
{
    if min > max {
        Seq::empty()
    } else {
        words_of_len(chars, min) + enumeration(chars, min + 1, max)
    }
}

/// `n^min + n^(min+1) + ... + n^max`.
pub open spec fn count(n: nat, min: nat, max: nat) -> nat
    decreases max + 1 - min,
{
    if min > max {
        0
    } else {
        pow(n as int, min) as nat + count(n, min + 1, max)
    }
}

/// No symbol stands twice in the alphabet.
pub open spec fn unique(chars: Seq<char>) -> bool {
    forall|i: int, j: int| 0 <= i < j < chars.len() ==> chars[i] != chars[j]
}

/// Every digit is below the radix.
pub open spec fn in_radix(digits: Seq<usize>, n: nat) -> bool {
    forall|i: int| 0 <= i < digits.len() ==> (#[trigger] digits[i] as nat) < n
}

/// Every digit is the largest one of the radix.
pub open spec fn all_top(digits: Seq<usize>, n: nat) -> bool {
    forall|i: int| 0 <= i < digits.len() ==> #[trigger] digits[i] as nat == n - 1
}

/// Every digit is zero.
pub open spec fn all_zero(digits: Seq<usize>) -> bool {
    forall|i: int| 0 <= i < digits.len() ==> #[trigger] digits[i] == 0
}

/// A power of a natural number is not negative, and at least one where the
/// number is.
pub proof fn lemma_pow_nat(n: nat, e: nat)
    ensures
        pow(n as int, e) >= 0,
        n >= 1 ==> pow(n as int, e) >= 1,
    decreases e,
{
    reveal(pow);
    if e > 0 {
        lemma_pow_nat(n, (e - 1) as nat);
        lemma_mul_nonnegative(n as int, pow(n as int, (e - 1) as nat));
        if n >= 1 {
            lemma_mul_strictly_positive(n as int, pow(n as int, (e - 1) as nat));
        }
    }
}

/// A digit vector in radix `n` writes a number below `n^len`.
pub proof fn lemma_rank_bound(digits: Seq<usize>, n: nat)
    requires
        in_radix(digits, n),
    ensures
        rank(digits, n) < pow(n as int, digits.len()),
    decreases digits.len(),
{
    reveal(pow);
    if digits.len() > 0 {
        let head = digits.drop_last();
        lemma_rank_bound(head, n);
        let r = rank(head, n) as int;
        let p = pow(n as int, head.len());
        assert(digits.last() as nat == digits[digits.len() - 1] as nat);
        assert(r * n + n <= p * n) by (nonlinear_arith)
            requires
                r + 1 <= p,
                n >= 0,
        ;
        assert(pow(n as int, digits.len()) == n * p);
        assert(n * p == p * n) by (nonlinear_arith);
    }
}

/// Reading the digits back from the number gives the digit vector.
pub proof fn lemma_digits_of_rank(digits: Seq<usize>, n: nat)
    requires
        in_radix(digits, n),
    ensures
        digits_of(rank(digits, n), digits.len(), n).len() == digits.len(),
        forall|i: int|
            0 <= i < digits.len() ==> #[trigger] digits_of(rank(digits, n), digits.len(), n)[i]
                == digits[i] as nat,
    decreases digits.len(),
{
    if digits.len() > 0 {
        let head = digits.drop_last();
        let d = digits.last() as int;
        assert(d == digits[digits.len() - 1] as int);
        lemma_digits_of_rank(head, n);
        let r = rank(head, n) as int;
        lemma_fundamental_div_mod_converse(r * n + d, n as int, r, d);
        assert(rank(digits, n) / n == rank(head, n));
        assert(rank(digits, n) % n == d);
        assert forall|i: int| 0 <= i < digits.len() implies #[trigger] digits_of(
            rank(digits, n),
            digits.len(),
            n,
        )[i] == digits[i] as nat by {
            if i < head.len() {
                assert(head[i] == digits[i]);
            }
        }
    }
}

/// The length of `digits_of`, and the range of its digits.
pub proof fn lemma_digits_of_shape(k: nat, len: nat, n: nat)
    requires
        n >= 1,
    ensures
        digits_of(k, len, n).len() == len,
        forall|i: int| 0 <= i < len ==> #[trigger] digits_of(k, len, n)[i] < n,
    decreases len,
{
    if len > 0 {
        lemma_digits_of_shape(k / n, (len - 1) as nat, n);
        lemma_mod_bound(k as int, n as int);
    }
}

/// Two numbers below `n^len` with the same digits are the same number.
pub proof fn lemma_digits_of_injective(a: nat, b: nat, len: nat, n: nat)
    requires
        n >= 1,
        a < pow(n as int, len),
        b < pow(n as int, len),
        digits_of(a, len, n) == digits_of(b, len, n),
    ensures
        a == b,
    decreases len,
{
    reveal(pow);
    if len > 0 {
        let rest = (len - 1) as nat;
        let p = pow(n as int, rest);
        lemma_digits_of_shape(a / n, rest, n);
        lemma_digits_of_shape(b / n, rest, n);
        let da = digits_of(a / n, rest, n);
        let db = digits_of(b / n, rest, n);
        assert(da.push(a % n).drop_last() == da);
        assert(db.push(b % n).drop_last() == db);
        assert(da.push(a % n).last() == a % n);
        assert(db.push(b % n).last() == b % n);
        assert(da == db);
        assert(a % n == b % n);
        lemma_fundamental_div_mod(a as int, n as int);
        lemma_fundamental_div_mod(b as int, n as int);
        assert(pow(n as int, len) == n * p);
        lemma_div_bound(a, n, p);
        lemma_div_bound(b, n, p);
        lemma_digits_of_injective(a / n, b / n, rest, n);
    }
}

proof fn lemma_div_bound(a: nat, n: nat, p: int)
    requires
        n >= 1,
        a < n * p,
    ensures
        a / n < p,
{
    lemma_fundamental_div_mod(a as int, n as int);
    lemma_mod_bound(a as int, n as int);
    let q = (a / n) as int;
    assert(q < p) by (nonlinear_arith)
        requires
            n * q <= a,
            a < n * p,
            n >= 1,
    ;
}

/// A vector of top digits writes the largest number of its length.
pub proof fn lemma_rank_all_top(digits: Seq<usize>, n: nat)
    requires
        n >= 1,
        all_top(digits, n),
    ensures
        rank(digits, n) == pow(n as int, digits.len()) - 1,
    decreases digits.len(),
{
    reveal(pow);
    if digits.len() > 0 {
        let head = digits.drop_last();
        assert forall|i: int| 0 <= i < head.len() implies #[trigger] head[i] as nat == n - 1 by {
            assert(head[i] == digits[i]);
        }
        lemma_rank_all_top(head, n);
        let p = pow(n as int, head.len());
        assert(digits.last() == digits[digits.len() - 1]);
        assert(pow(n as int, digits.len()) == n * p);
        assert((p - 1) * n + (n - 1) == n * p - 1) by (nonlinear_arith);
    }
}

/// A vector of zeros writes zero.
pub proof fn lemma_rank_all_zero(digits: Seq<usize>, n: nat)
    requires
        all_zero(digits),
    ensures
        rank(digits, n) == 0,
    decreases digits.len(),
{
    if digits.len() > 0 {
        let head = digits.drop_last();
        assert forall|i: int| 0 <= i < head.len() implies #[trigger] head[i] == 0 by {
            assert(head[i] == digits[i]);
        }
        lemma_rank_all_zero(head, n);
        assert(digits.last() == digits[digits.len() - 1]);
        assert(0 * n == 0) by (nonlinear_arith);
    }
}

/// One turn of the odometer: the digit at `at` goes up by one and the top
/// digits to its right fall back to zero. The number written goes up by one.
pub open spec fn turned(before: Seq<usize>, after: Seq<usize>, at: int, n: nat) -> bool {
    &&& 0 <= at < before.len()
    &&& after.len() == before.len()
    &&& (before[at] as nat) < n - 1
    &&& after[at] == before[at] + 1
    &&& forall|j: int| 0 <= j < at ==> after[j] == before[j]
    &&& forall|j: int| at < j < before.len() ==> before[j] as nat == n - 1 && after[j] == 0
}

pub proof fn lemma_rank_turned(before: Seq<usize>, after: Seq<usize>, at: int, n: nat)
    requires
        turned(before, after, at, n),
    ensures
        rank(after, n) == rank(before, n) + 1,
    decreases before.len(),
{
    let b_head = before.drop_last();
    let a_head = after.drop_last();
    let last = before.len() - 1;
    assert(before.last() == before[last]);
    assert(after.last() == after[last]);
    if at == last {
        assert(a_head =~= b_head);
    } else {
        assert(turned(b_head, a_head, at, n));
        lemma_rank_turned(b_head, a_head, at, n);
        let r = rank(b_head, n) as int;
        assert((r + 1) * n + 0 == r * n + (n - 1) + 1) by (nonlinear_arith);
    }
}

/// Two numbers below `n^len` that write the same word over an alphabet
/// without repeats are the same number.
pub proof fn lemma_word_injective(chars: Seq<char>, len: nat, a: nat, b: nat)
    requires
        chars.len() >= 1,
        unique(chars),
        a < pow(chars.len() as int, len),
        b < pow(chars.len() as int, len),
        word(chars, len, a) == word(chars, len, b),
    ensures
        a == b,
{
    let n = chars.len();
    let da = digits_of(a, len, n);
    let db = digits_of(b, len, n);
    lemma_digits_of_shape(a, len, n);
    lemma_digits_of_shape(b, len, n);
    assert forall|i: int| 0 <= i < len implies da[i] == db[i] by {
        assert(word(chars, len, a)[i] == chars[da[i] as int]);
        assert(word(chars, len, b)[i] == chars[db[i] as int]);
        if da[i] < db[i] {
            assert(chars[da[i] as int] != chars[db[i] as int]);
        } else if db[i] < da[i] {
            assert(chars[db[i] as int] != chars[da[i] as int]);
        }
    }
    assert(da =~= db);
    lemma_digits_of_injective(a, b, len, n);
}

/// The enumeration holds `n^min + ... + n^max` words.
pub proof fn lemma_enumeration_len(chars: Seq<char>, min: nat, max: nat)
    ensures
        enumeration(chars, min, max).len() == count(chars.len(), min, max),
    decreases max + 1 - min,
{
    if min <= max {
        lemma_pow_nat(chars.len(), min);
        lemma_enumeration_len(chars, min + 1, max);
    }
}

/// Every word of the enumeration has between `min` and `max` symbols, each
/// of them taken from the alphabet.
pub proof fn lemma_enumeration_words(chars: Seq<char>, min: nat, max: nat, i: int)
    requires
        chars.len() >= 1,
        0 <= i < enumeration(chars, min, max).len(),
    ensures
        min <= enumeration(chars, min, max)[i].len() <= max,
        forall|t: int|
            0 <= t < enumeration(chars, min, max)[i].len() ==> chars.contains(
                #[trigger] enumeration(chars, min, max)[i][t],
            ),
    decreases max + 1 - min,
{
    if min <= max {
        let here = words_of_len(chars, min);
        lemma_pow_nat(chars.len(), min);
        if i < here.len() {
            lemma_digits_of_shape(i as nat, min, chars.len());
            assert(enumeration(chars, min, max)[i] == word(chars, min, i as nat));
        } else {
            lemma_enumeration_words(chars, min + 1, max, i - here.len());
            assert(enumeration(chars, min, max)[i] == enumeration(chars, min + 1, max)[i
                - here.len()]);
        }
    }
}

/// Over an alphabet without repeats no word comes twice in the enumeration.
pub proof fn lemma_enumeration_distinct(chars: Seq<char>, min: nat, max: nat, i: int, j: int)
    requires
        chars.len() >= 1,
        unique(chars),
        0 <= i < j < enumeration(chars, min, max).len(),
    ensures
        enumeration(chars, min, max)[i] != enumeration(chars, min, max)[j],
    decreases max + 1 - min,
{
    if min <= max {
        let here = words_of_len(chars, min);
        let later = enumeration(chars, min + 1, max);
        lemma_pow_nat(chars.len(), min);
        if j < here.len() {
            if word(chars, min, i as nat) == word(chars, min, j as nat) {
                lemma_word_injective(chars, min, i as nat, j as nat);
            }
        } else if i < here.len() {
            lemma_enumeration_words(chars, min + 1, max, j - here.len());
            assert(enumeration(chars, min, max)[i].len() == min);
            assert(enumeration(chars, min, max)[j] == later[j - here.len()]);
        } else {
            lemma_enumeration_distinct(chars, min + 1, max, i - here.len(), j - here.len());
            assert(enumeration(chars, min, max)[i] == later[i - here.len()]);
            assert(enumeration(chars, min, max)[j] == later[j - here.len()]);
        }
    }
}

/// Shorter words come before longer ones.
pub proof fn lemma_enumeration_lengths_ascend(
    chars: Seq<char>,
    min: nat,
    max: nat,
    i: int,
    j: int,
)
    requires
        chars.len() >= 1,
        0 <= i <= j < enumeration(chars, min, max).len(),
    ensures
        enumeration(chars, min, max)[i].len() <= enumeration(chars, min, max)[j].len(),
    decreases max + 1 - min,
{
    if min <= max {
        let here = words_of_len(chars, min);
        let later = enumeration(chars, min + 1, max);
        lemma_pow_nat(chars.len(), min);
        if j < here.len() {
        } else if i < here.len() {
            lemma_enumeration_words(chars, min + 1, max, j - here.len());
            assert(enumeration(chars, min, max)[j] == later[j - here.len()]);
        } else {
            lemma_enumeration_lengths_ascend(chars, min + 1, max, i - here.len(), j - here.len());
            assert(enumeration(chars, min, max)[i] == later[i - here.len()]);
            assert(enumeration(chars, min, max)[j] == later[j - here.len()]);
        }
    }
}

/// The first of two digit vectors of one length comes first in the
/// dictionary: they agree up to some position, where the first has the
/// smaller digit.
pub open spec fn comes_before(first: Seq<nat>, second: Seq<nat>) -> bool {
    exists|at: int|
        0 <= at < first.len() && first[at] < second[at] && forall|k: int|
            0 <= k < at ==> first[k] == second[k]
}

/// Among the words of one length the leftmost symbol turns slowest: the
/// digits of a smaller number come before those of a larger one.
pub proof fn lemma_digits_in_order(a: nat, b: nat, len: nat, n: nat)
    requires
        n >= 1,
        a < b < pow(n as int, len),
    ensures
        comes_before(digits_of(a, len, n), digits_of(b, len, n)),
    decreases len,
{
    reveal(pow);
    if len == 0 {
        assert(pow(n as int, 0) == 1);
    } else {
        let rest = (len - 1) as nat;
        let p = pow(n as int, rest);
        let da = digits_of(a / n, rest, n);
        let db = digits_of(b / n, rest, n);
        lemma_digits_of_shape(a / n, rest, n);
        lemma_digits_of_shape(b / n, rest, n);
        lemma_fundamental_div_mod(a as int, n as int);
        lemma_fundamental_div_mod(b as int, n as int);
        lemma_mod_bound(a as int, n as int);
        lemma_mod_bound(b as int, n as int);
        assert(pow(n as int, len) == n * p);
        lemma_div_bound(b, n, p);
        let qa = (a / n) as int;
        let qb = (b / n) as int;
        assert(qa <= qb) by (nonlinear_arith)
            requires
                n * qa + a % n == a,
                n * qb + b % n == b,
                0 <= a % n < n,
                0 <= b % n < n,
                a < b,
                n >= 1,
        ;
        let first = digits_of(a, len, n);
        let second = digits_of(b, len, n);
        if qa < qb {
            lemma_digits_in_order(a / n, b / n, rest, n);
            let at = choose|at: int|
                0 <= at < da.len() && da[at] < db[at] && forall|k: int|
                    0 <= k < at ==> da[k] == db[k];
            assert(first[at] == da[at] && second[at] == db[at]);
            assert forall|k: int| 0 <= k < at implies first[k] == second[k] by {
                assert(first[k] == da[k] && second[k] == db[k]);
            }
        } else {
            assert(a / n == b / n);
            let at = rest as int;
            assert(first[at] == a % n && second[at] == b % n);
            assert forall|k: int| 0 <= k < at implies first[k] == second[k] by {
                assert(first[k] == da[k] && second[k] == db[k]);
            }
        }
    }
}

/// A range of one length counts the words of that length.
pub proof fn lemma_count_single(n: nat, len: nat)
    ensures
        count(n, len, len) == pow(n as int, len),
{
    lemma_pow_nat(n, len);
    assert(count(n, len + 1, len) == 0);
}

/// One more length at the upper end adds the words of that length.
pub proof fn lemma_count_extend(n: nat, min: nat, max: nat)
    requires
        min <= max + 1,
    ensures
        count(n, min, max + 1) == count(n, min, max) + pow(n as int, max + 1),
    decreases max + 1 - min,
{
    lemma_pow_nat(n, max + 1);
    if min <= max {
        lemma_count_extend(n, min + 1, max);
    } else {
        assert(count(n, min + 1, max + 1) == 0);
    }
}

/// A longer range counts at least as many words.
pub proof fn lemma_count_increases(n: nat, min: nat, mid: nat, max: nat)
    requires
        mid <= max,
    ensures
        count(n, min, mid) <= count(n, min, max),
    decreases max - mid,
{
    if mid < max {
        if min <= mid + 1 {
            lemma_count_extend(n, min, mid);
            lemma_pow_nat(n, mid + 1);
        }
        lemma_count_increases(n, min, mid + 1, max);
    }
}

/// The count is at least the number of words of any one length in the range.
pub proof fn lemma_count_holds_power(n: nat, min: nat, max: nat, len: nat)
    requires
        min <= len <= max,
    ensures
        pow(n as int, len) <= count(n, min, max),
    decreases max + 1 - min,
{
    lemma_pow_nat(n, min);
    if min < len {
        lemma_count_holds_power(n, min + 1, max, len);
    }
}

/// Over the empty alphabet there is the empty word and no other.
pub proof fn lemma_count_of_zero(min: nat, max: nat)
    requires
        min <= max,
    ensures
        count(0, min, max) == if min == 0 {
            1nat
        } else {
            0nat
        },
    decreases max + 1 - min,
{
    if min < max {
        lemma_count_of_zero(min + 1, max);
    } else {
        assert(count(0, min + 1, max) == 0);
    }
    if min == 0 {
        lemma_pow0(0);
    } else {
        lemma0_pow(min);
    }
}

/// Over an alphabet of one symbol there is one word of each length.
pub proof fn lemma_count_of_one(min: nat, max: nat)
    requires
        min <= max,
    ensures
        count(1, min, max) == max - min + 1,
    decreases max + 1 - min,
{
    lemma1_pow(min);
    if min < max {
        lemma_count_of_one(min + 1, max);
    } else {
        assert(count(1, min + 1, max) == 0);
    }
}

} // verus!
