//! Texts as sequences of characters: reading a number and writing one.

use vstd::prelude::*;

verus! {

/// A `Result` of texts, by their characters.
pub open spec fn shows(told: Result<String, String>) -> Result<Seq<char>, Seq<char>> {
    match told {
        Ok(text) => Ok(text@),
        Err(why) => Err(why@),
    }
}

/// A `Result` with a text for its error, by the characters of that text.
pub open spec fn tells<T>(told: Result<T, String>) -> Result<T, Seq<char>> {
    match told {
        Ok(value) => Ok(value),
        Err(why) => Err(why@),
    }
}

/// The characters of a text, one by one.
pub fn chars_of(text: &str) -> (chars: Vec<char>)
    ensures
        chars@ == text@,
{
    let mut chars: Vec<char> = Vec::new();
    for c in it: text.chars()
        invariant
            it.seq() == text@,
            chars@ == it.seq().take(it.index() as int),
    {
        chars.push(c);
        assert(it.seq().take(it.index() + 1) =~= it.seq().take(it.index() as int).push(c));
    }
    assert(text@.take(text@.len() as int) =~= text@);
    chars
}

/// One of the ten decimal digits.
pub open spec fn is_digit(c: char) -> bool {
    '0' <= c <= '9'
}

/// The number that a decimal digit stands for.
pub open spec fn digit_value(c: char) -> nat {
    if is_digit(c) {
        (c as u32 - '0' as u32) as nat
    } else {
        0
    }
}

/// The number that a row of decimal digits writes.
pub open spec fn value(digits: Seq<char>) -> nat
    decreases digits.len(),
{
    if digits.len() == 0 {
        0
    } else {
        value(digits.drop_last()) * 10 + digit_value(digits.last())
    }
}

/// Every character is a decimal digit.
pub open spec fn all_digits(digits: Seq<char>) -> bool {
    forall|i: int| 0 <= i < digits.len() ==> is_digit(#[trigger] digits[i])
}

/// The text without one leading `+`.
pub open spec fn unsigned(text: Seq<char>) -> Seq<char> {
    if text.len() > 0 && text[0] == '+' {
        text.skip(1)
    } else {
        text
    }
}

/// The number that a text writes: one `+` may lead, then at least one
/// decimal digit and nothing else, and the number is within `usize`.
pub open spec fn number(text: Seq<char>) -> Option<usize> {
    let body = unsigned(text);
    if body.len() > 0 && all_digits(body) && value(body) <= usize::MAX {
        Some(value(body) as usize)
    } else {
        None
    }
}

/// A longer row of digits writes no smaller number than its beginning.
pub proof fn lemma_value_grows(digits: Seq<char>, k: int)
    requires
        0 <= k <= digits.len(),
    ensures
        value(digits.take(k)) <= value(digits),
    decreases digits.len(),
{
    if k < digits.len() {
        let head = digits.drop_last();
        lemma_value_grows(head, k);
        assert(head.take(k) =~= digits.take(k));
        assert(value(head) <= value(head) * 10) by (nonlinear_arith);
    } else {
        assert(digits.take(k) =~= digits);
    }
}

/// Reads the number that `chars[from..to]` writes.
pub fn parse_number(chars: &Vec<char>, from: usize, to: usize) -> (read: Option<usize>)
    requires
        from <= to <= chars@.len(),
    ensures
        read == number(chars@.subrange(from as int, to as int)),
{
    let ghost text = chars@.subrange(from as int, to as int);
    let start: usize = if from < to && chars[from] == '+' {
        from + 1
    } else {
        from
    };
    let ghost body = unsigned(text);
    assert(body =~= chars@.subrange(start as int, to as int));
    if start == to {
        return None;
    }
    let mut total: usize = 0;
    let mut i: usize = start;
    while i < to
        invariant
            from <= start <= i <= to <= chars@.len(),
            body == chars@.subrange(start as int, to as int),
            body == unsigned(chars@.subrange(from as int, to as int)),
            all_digits(body.take(i - start)),
            total == value(body.take(i - start)),
        decreases to - i,
    {
        let c: char = chars[i];
        assert(body[i - start] == c);
        if !(c >= '0' && c <= '9') {
            return None;
        }
        let digit: usize = (c as u32 - '0' as u32) as usize;
        proof {
            let next = body.take(i - start + 1);
            assert(next.drop_last() =~= body.take(i - start));
            assert(next.last() == c);
            lemma_value_grows(body, i - start + 1);
            assert forall|j: int| 0 <= j < next.len() implies is_digit(#[trigger] next[j]) by {
                if j < i - start {
                    assert(body.take(i - start)[j] == next[j]);
                }
            }
        }
        let tens = match total.checked_mul(10) {
            Some(tens) => tens,
            None => {
                return None;
            },
        };
        total = match tens.checked_add(digit) {
            Some(sum) => sum,
            None => {
                return None;
            },
        };
        i += 1;
    }
    assert(body.take(i - start) =~= body);
    Some(total)
}

/// The character that writes a digit.
pub open spec fn digit_char(d: nat) -> char {
    if d == 0 {
        '0'
    } else if d == 1 {
        '1'
    } else if d == 2 {
        '2'
    } else if d == 3 {
        '3'
    } else if d == 4 {
        '4'
    } else if d == 5 {
        '5'
    } else if d == 6 {
        '6'
    } else if d == 7 {
        '7'
    } else if d == 8 {
        '8'
    } else {
        '9'
    }
}

/// A number in decimal digits, without leading zeros.
pub open spec fn decimal(n: nat) -> Seq<char>
    decreases n,
{
    if n < 10 {
        seq![digit_char(n)]
    } else {
        decimal(n / 10).push(digit_char(n % 10))
    }
}

fn digit_of(d: usize) -> (c: char)
    requires
        d < 10,
    ensures
        c == digit_char(d as nat),
{
    if d == 0 {
        '0'
    } else if d == 1 {
        '1'
    } else if d == 2 {
        '2'
    } else if d == 3 {
        '3'
    } else if d == 4 {
        '4'
    } else if d == 5 {
        '5'
    } else if d == 6 {
        '6'
    } else if d == 7 {
        '7'
    } else if d == 8 {
        '8'
    } else {
        '9'
    }
}

/// Writes `n` in decimal digits at the end of `text`.
pub fn push_decimal(text: &mut String, n: usize)
    ensures
        final(text)@ == old(text)@ + decimal(n as nat),
{
    let mut low: Vec<char> = Vec::new();
    let mut rest: usize = n;
    while rest >= 10
        invariant
            decimal(n as nat) == decimal(rest as nat) + low@.reverse(),
        decreases rest,
    {
        let c = digit_of(rest % 10);
        proof {
            let before = low@;
            assert(before.push(c).reverse() =~= seq![c] + before.reverse());
            assert(decimal(rest as nat) == decimal((rest / 10) as nat).push(c));
            assert(decimal((rest / 10) as nat).push(c) + before.reverse() =~= decimal(
                (rest / 10) as nat,
            ) + (seq![c] + before.reverse()));
        }
        low.push(c);
        rest = rest / 10;
    }
    text.push(digit_of(rest));
    let ghost first = text@;
    let mut i: usize = low.len();
    while i > 0
        invariant
            i <= low@.len(),
            text@ == first + low@.reverse().take(low@.len() - i),
        decreases i,
    {
        i -= 1;
        text.push(low[i]);
        proof {
            let turned = low@.reverse();
            let k = low@.len() - i - 1;
            assert(turned[k] == low@[i as int]);
            assert(turned.take(k + 1) =~= turned.take(k).push(turned[k]));
            assert(first + turned.take(k).push(turned[k]) =~= (first + turned.take(k)).push(
                turned[k],
            ));
        }
    }
    proof {
        assert(low@.reverse().take(low@.len() as int) =~= low@.reverse());
        assert(first =~= old(text)@ + seq![digit_char(rest as nat)]);
        assert(old(text)@ + seq![digit_char(rest as nat)] + low@.reverse() =~= old(text)@ + (
        seq![digit_char(rest as nat)] + low@.reverse()));
    }
}

} // verus!
