//! Base-10 numerals: reading an unsigned number out of text and writing one
//! back, with the facts that make the two directions inverse to each other.

use vstd::prelude::*;

verus! {

/// Whether `c` is one of the ASCII digits `0` to `9`.
pub open spec fn is_digit(c: char) -> bool {
    48 <= c as int && c as int <= 57
}

/// The number a digit stands for; 0 for any other character.
pub open spec fn digit_value(c: char) -> nat {
    if is_digit(c) {
        (c as int - 48) as nat
    } else {
        0
    }
}

/// The digit that stands for `d`, for `d` below ten.
pub open spec fn digit_char(d: nat) -> char {
    (d + 48) as char
}

/// Whether every character of `text` is a digit.
pub open spec fn all_digits(text: Seq<char>) -> bool {
    forall|i: int| 0 <= i < text.len() ==> is_digit(#[trigger] text[i])
}

/// The number that a run of digits denotes, most significant digit first.
pub open spec fn digits_value(text: Seq<char>) -> nat
    decreases text.len(),
{
    if text.len() == 0 {
        0
    } else {
        10 * digits_value(text.drop_last()) + digit_value(text.last())
    }
}

/// `text` without one leading plus sign, if it has one.
pub open spec fn unsigned_part(text: Seq<char>) -> Seq<char> {
    if text.len() > 0 && text[0] == '+' {
        text.subrange(1, text.len() as int)
    } else {
        text
    }
}

/// What `text` denotes as a 32-bit unsigned number: an optional plus sign,
/// then at least one digit and nothing else, the whole no larger than
/// `u32::MAX`. `None` for every other text.
#[verifier::opaque]
pub open spec fn parse_number(text: Seq<char>) -> Option<u32> {
    let digits = unsigned_part(text);
    if digits.len() > 0 && all_digits(digits) && digits_value(digits) <= u32::MAX {
        Some(digits_value(digits) as u32)
    } else {
        None
    }
}

/// The shortest numeral for `n`: no sign, no leading zero but for `0` itself.
pub open spec fn decimal(n: nat) -> Seq<char>
    decreases n,
{
    if n < 10 {
        seq![digit_char(n)]
    } else {
        decimal(n / 10).push(digit_char(n % 10))
    }
}

/// A run of `count` zeros.
pub open spec fn zeros(count: nat) -> Seq<char> {
    Seq::new(count, |i: int| '0')
}

/// The numeral for `n`, filled up with zeros on the left to at least `width`
/// characters. A numeral that is already as long stays as it is.
pub open spec fn padded(n: nat, width: nat) -> Seq<char> {
    let numeral = decimal(n);
    if numeral.len() >= width {
        numeral
    } else {
        zeros((width - numeral.len()) as nat) + numeral
    }
}

/// One more digit on the right: ten times the value so far, plus the digit.
pub proof fn lemma_digits_value_push(text: Seq<char>, c: char)
    ensures
        digits_value(text.push(c)) == 10 * digits_value(text) + digit_value(c),
{
    assert(text.push(c).drop_last() =~= text);
}

/// Zeros on the left change nothing.
pub proof fn lemma_digits_value_zeros(count: nat, text: Seq<char>)
    ensures
        digits_value(zeros(count) + text) == digits_value(text),
    decreases text.len(),
{
    if text.len() == 0 {
        assert(zeros(count) + text =~= zeros(count));
        lemma_zeros_value(count);
    } else {
        lemma_digits_value_zeros(count, text.drop_last());
        assert((zeros(count) + text).drop_last() =~= zeros(count) + text.drop_last());
    }
}

/// A run of zeros denotes zero.
pub proof fn lemma_zeros_value(count: nat)
    ensures
        digits_value(zeros(count)) == 0,
    decreases count,
{
    if count > 0 {
        lemma_zeros_value((count - 1) as nat);
        assert(zeros(count).drop_last() =~= zeros((count - 1) as nat));
    }
}

/// A numeral is made of digits, is not empty, and denotes the number it was
/// written for.
pub proof fn lemma_decimal(n: nat)
    ensures
        decimal(n).len() >= 1,
        all_digits(decimal(n)),
        digits_value(decimal(n)) == n,
    decreases n,
{
    if n < 10 {
        assert(decimal(n).drop_last() =~= Seq::<char>::empty());
        assert(digits_value(Seq::<char>::empty()) == 0);
    } else {
        lemma_decimal(n / 10);
        lemma_digits_value_push(decimal(n / 10), digit_char(n % 10));
    }
}

/// The same holds of a numeral filled up with zeros, which is at least as
/// long as asked for.
pub proof fn lemma_padded(n: nat, width: nat)
    ensures
        padded(n, width).len() >= 1,
        padded(n, width).len() >= width,
        all_digits(padded(n, width)),
        digits_value(padded(n, width)) == n,
{
    lemma_decimal(n);
    if decimal(n).len() < width {
        lemma_digits_value_zeros((width - decimal(n).len()) as nat, decimal(n));
    }
}

/// Reading a numeral gives the number back, as long as it fits in 32 bits.
pub proof fn lemma_parse_padded(n: nat, width: nat)
    requires
        n <= u32::MAX,
    ensures
        parse_number(padded(n, width)) == Some(n as u32),
        parse_number(decimal(n)) == Some(n as u32),
{
    reveal(parse_number);
    lemma_padded(n, width);
    lemma_decimal(n);
    assert(is_digit(padded(n, width)[0]));
    assert(is_digit(decimal(n)[0]));
}

/// Reads a 32-bit unsigned number: an optional plus sign, then digits only.
pub fn read_number(text: &[char]) -> (value: Option<u32>)
    ensures
        value == parse_number(text@),
{
    let n: usize = text.len();
    let start: usize = if n > 0 && text[0] == '+' {
        1
    } else {
        0
    };
    let ghost digits: Seq<char> = unsigned_part(text@);
    assert(digits =~= text@.subrange(start as int, n as int));
    match read_digits(text, start) {
        Some(total) => {
            proof {
                reveal(parse_number);
            }
            if start < n && total <= 0xffff_ffff {
                Some(total as u32)
            } else {
                None
            }
        },
        None => {
            proof {
                reveal(parse_number);
            }
            None
        },
    }
}

/// Reads the digits of `text` from `start` on. The result is the number they
/// denote, or one larger than `u32::MAX` if they denote more than that;
/// `None` if a character is no digit.
fn read_digits(text: &[char], start: usize) -> (value: Option<u64>)
    requires
        start <= text@.len(),
    ensures
        value is Some <==> all_digits(text@.subrange(start as int, text@.len() as int)),
        value matches Some(total) ==> {
            let denoted = digits_value(text@.subrange(start as int, text@.len() as int));
            if denoted <= u32::MAX {
                total == denoted
            } else {
                total == u32::MAX + 1
            }
        },
{
    let n: usize = text.len();
    let ghost digits: Seq<char> = text@.subrange(start as int, n as int);
    let mut total: u64 = 0;
    let mut i: usize = start;
    assert(digits.take(0) =~= Seq::<char>::empty());
    while i < n
        invariant
            start <= i <= n,
            n == text@.len(),
            digits == text@.subrange(start as int, n as int),
            all_digits(digits.take(i - start)),
            total <= u32::MAX + 1,
            total == if digits_value(digits.take(i - start)) <= u32::MAX {
                digits_value(digits.take(i - start))
            } else {
                (u32::MAX + 1) as nat
            },
        decreases n - i,
    {
        let c: char = text[i];
        assert(c == digits[i - start]);
        if c < '0' || c > '9' {
            assert(!is_digit(digits[i - start]));
            return None;
        }
        proof {
            lemma_digits_value_push(digits.take(i - start), c);
            assert(digits.take(i - start + 1) =~= digits.take(i - start).push(c));
        }
        let digit: u64 = (c as u64) - 48;
        total = total * 10 + digit;
        if total > 0xffff_ffff {
            total = 0x1_0000_0000;
        }
        i = i + 1;
    }
    assert(digits.take(n - start) =~= digits);
    Some(total)
}

/// The digits of `n`, least significant first.
fn digits_reversed(n: u64) -> (reversed: Vec<char>)
    ensures
        reversed@.reverse() == decimal(n as nat),
{
    let mut reversed: Vec<char> = Vec::new();
    reversed.push(digit_of(n % 10));
    let mut rest: u64 = n / 10;
    assert(reversed@.reverse() =~= seq![digit_char((n % 10) as nat)]);
    assert(decimal(n as nat) =~= leading(rest as nat) + reversed@.reverse());
    while rest > 0
        invariant
            decimal(n as nat) == leading(rest as nat) + reversed@.reverse(),
        decreases rest,
    {
        let ghost before: Seq<char> = reversed@;
        let ghost c: char = digit_char((rest % 10) as nat);
        reversed.push(digit_of(rest % 10));
        proof {
            lemma_reverse_push(before, c);
            assert(leading(rest as nat) =~= leading((rest / 10) as nat) + seq![c]);
            assert(leading((rest / 10) as nat) + seq![c] + before.reverse() =~= leading(
                (rest / 10) as nat,
            ) + (seq![c] + before.reverse()));
        }
        rest = rest / 10;
    }
    assert(leading(0) + reversed@.reverse() =~= reversed@.reverse());
    reversed
}

/// The digits that stand before the last digit of a numeral: the numeral
/// for `n`, or nothing for 0.
pub open spec fn leading(n: nat) -> Seq<char> {
    if n == 0 {
        Seq::empty()
    } else {
        decimal(n)
    }
}

/// What is pushed last comes first when the order is turned round.
pub proof fn lemma_reverse_push(text: Seq<char>, c: char)
    ensures
        text.push(c).reverse() == seq![c] + text.reverse(),
{
    assert(text.push(c).reverse() =~= seq![c] + text.reverse());
}

/// Appends the numeral for `n` to `out`, filled up with zeros to `width`.
pub fn write_padded(out: &mut Vec<char>, n: u64, width: usize)
    ensures
        final(out)@ == old(out)@ + padded(n as nat, width as nat),
{
    // Digits come out least significant first; zeros are put behind them and
    // the whole is appended back to front.
    let mut reversed: Vec<char> = digits_reversed(n);
    let ghost numeral: Seq<char> = decimal(n as nat);
    assert(reversed@.len() == numeral.len());
    assert(zeros(0) + numeral =~= numeral);
    while reversed.len() < width
        invariant
            reversed@.len() >= numeral.len(),
            reversed@.reverse() == zeros((reversed@.len() - numeral.len()) as nat) + numeral,
            numeral.len() >= width ==> reversed@.len() == numeral.len(),
            numeral.len() < width ==> reversed@.len() <= width,
        decreases width - reversed.len(),
    {
        let ghost before: Seq<char> = reversed@;
        let ghost count: nat = (before.len() - numeral.len()) as nat;
        reversed.push('0');
        proof {
            lemma_reverse_push(before, '0');
            assert(seq!['0'] + zeros(count) =~= zeros(count + 1));
            assert(seq!['0'] + (zeros(count) + numeral) =~= (seq!['0'] + zeros(count)) + numeral);
        }
    }
    assert(reversed@.reverse() == padded(n as nat, width as nat));
    push_reversed(out, &reversed);
}

/// Appends the characters of `reversed` to `out`, the last one first.
fn push_reversed(out: &mut Vec<char>, reversed: &Vec<char>)
    ensures
        final(out)@ == old(out)@ + reversed@.reverse(),
{
    let ghost start: Seq<char> = out@;
    let ghost text: Seq<char> = reversed@.reverse();
    let mut i: usize = reversed.len();
    assert(start + text.take(0) =~= start);
    while i > 0
        invariant
            i <= reversed@.len(),
            text == reversed@.reverse(),
            out@ == start + text.take(reversed@.len() - i),
        decreases i,
    {
        i = i - 1;
        let c: char = reversed[i];
        out.push(c);
        proof {
            let k: int = reversed@.len() - i;
            assert(text.take(k) =~= text.take(k - 1).push(c));
            assert(start + text.take(k - 1).push(c) =~= (start + text.take(k - 1)).push(c));
        }
    }
    assert(text.take(reversed@.len() as int) =~= text);
}

/// The digit for a number below ten.
fn digit_of(d: u64) -> (c: char)
    requires
        d < 10,
    ensures
        c == digit_char(d as nat),
{
    let code: u8 = 48 + d as u8;
    code as char
}

} // verus!
