//! Decimal numbers, written and read.
use crate::text::chars_of;
use crate::text::code_point;
use vstd::prelude::*;
use vstd::string::StringExecFns;

verus! {

// ---------------------------------------------------------------------------
// Digits
// ---------------------------------------------------------------------------

/// The digit that stands for `d`.
pub open spec fn digit_char(d: nat) -> char {
    if d == 0 {
        '0'
    } else if d == 1 {
        '1'
    } else if d == 2 {
        '2'
    } else if d == 3 {
        '3'
    } else if d == 4 {
        '4'
    } else if d == 5 {
        '5'
    } else if d == 6 {
        '6'
    } else if d == 7 {
        '7'
    } else if d == 8 {
        '8'
    } else {
        '9'
    }
}

/// An ASCII digit.
pub open spec fn is_digit(c: char) -> bool {
    '0' as int <= c as int <= '9' as int
}

/// What the digit `c` stands for.
pub open spec fn digit_value(c: char) -> nat {
    (c as int - '0' as int) as nat
}

/// Only ASCII digits, or nothing at all.
pub open spec fn all_digits(text: Seq<char>) -> bool {
    forall|i: int| 0 <= i < text.len() ==> is_digit(#[trigger] text[i])
}

/// The number that a row of digits stands for.
pub open spec fn digits_value(text: Seq<char>) -> nat
    decreases text.len(),
{
    if text.len() == 0 {
        0
    } else {
        10 * digits_value(text.drop_last()) + digit_value(text.last())
    }
}

/// The digit that stands for `d`.
fn digit_text(d: u64) -> (digit: &'static str)
    requires
        d < 10,
    ensures
        digit@ == seq![digit_char(d as nat)],
{
    proof {
        reveal_strlit("0");
        reveal_strlit("1");
        reveal_strlit("2");
        reveal_strlit("3");
        reveal_strlit("4");
        reveal_strlit("5");
        reveal_strlit("6");
        reveal_strlit("7");
        reveal_strlit("8");
        reveal_strlit("9");
    }
    match d {
        0 => "0",
        1 => "1",
        2 => "2",
        3 => "3",
        4 => "4",
        5 => "5",
        6 => "6",
        7 => "7",
        8 => "8",
        _ => "9",
    }
}

// ---------------------------------------------------------------------------
// Writing
// ---------------------------------------------------------------------------

/// `n` in decimal, without leading zeros.
pub open spec fn decimal(n: nat) -> Seq<char>
    decreases n,
{
    if n < 10 {
        seq![digit_char(n)]
    } else {
        decimal(n / 10).push(digit_char(n % 10))
    }
}

/// `n` in decimal, with zeros in front up to `width` digits.
pub open spec fn padded(n: nat, width: nat) -> Seq<char> {
    zeros((width - decimal(n).len()) as int) + decimal(n)
}

/// `count` zeros; none if `count` is negative.
pub open spec fn zeros(count: int) -> Seq<char>
    decreases count,
{
    if count <= 0 {
        Seq::empty()
    } else {
        zeros(count - 1).push('0')
    }
}

/// A number in decimal is a row of digits that stands for it.
pub proof fn lemma_decimal_digits(n: nat)
    ensures
        decimal(n).len() > 0,
        all_digits(decimal(n)),
        digits_value(decimal(n)) == n,
    decreases n,
{
    if n < 10 {
        assert(decimal(n).drop_last() =~= Seq::<char>::empty());
        assert(digits_value(Seq::<char>::empty()) == 0);
        assert(decimal(n).last() == digit_char(n));
        assert(digit_value(digit_char(n)) == n);
    } else {
        lemma_decimal_digits(n / 10);
        assert(digit_value(digit_char(n % 10)) == n % 10);
        assert(decimal(n).drop_last() =~= decimal(n / 10));
    }
}

/// Different numbers look different.
pub proof fn lemma_decimal_injective(a: nat, b: nat)
    requires
        decimal(a) == decimal(b),
    ensures
        a == b,
{
    lemma_decimal_digits(a);
    lemma_decimal_digits(b);
}

/// `n` in decimal.
pub fn decimal_text(n: u64) -> (text: String)
    ensures
        text@ == decimal(n as nat),
    decreases n,
{
    if n < 10 {
        digit_text(n).to_owned()
    } else {
        let front = decimal_text(n / 10);
        let digit = digit_text(n % 10);
        assert(decimal((n / 10) as nat) + digit@ =~= decimal(n as nat));
        front.concat(digit)
    }
}

/// `n` in decimal, with zeros in front up to `width` digits.
pub fn padded_text(n: u64, width: usize) -> (text: String)
    ensures
        text@ == padded(n as nat, width as nat),
{
    let digits = decimal_text(n);
    let length: usize = chars_of(digits.as_str()).len();
    let mut text = String::new();
    let mut i: usize = length;
    while i < width
        invariant
            length == digits@.len(),
            length <= i,
            i <= width || i == length,
            text@ == zeros(i - length),
        decreases width - i,
    {
        proof {
            reveal_strlit("0");
        }
        let ghost before = text@;
        text.append("0");
        assert(text@ =~= before.push('0'));
        i = i + 1;
    }
    let ghost front = text@;
    assert(front == zeros((width - digits@.len()) as int));
    text.append(digits.as_str());
    text
}

// ---------------------------------------------------------------------------
// Reading
// ---------------------------------------------------------------------------

/// The unsigned number that `text` is: digits, with a `+` in front or not, up to `u64::MAX`.
pub open spec fn read_u64(text: Seq<char>) -> Option<u64> {
    let digits = if text.len() > 0 && text[0] == '+' {
        text.skip(1)
    } else {
        text
    };
    if digits.len() > 0 && all_digits(digits) && digits_value(digits) <= u64::MAX {
        Some(digits_value(digits) as u64)
    } else {
        None
    }
}

/// The signed number that `text` is: digits, with a `+` or a `-` in front or not, from
/// `i64::MIN` up to `i64::MAX`.
pub open spec fn read_i64(text: Seq<char>) -> Option<i64> {
    let signed = text.len() > 0 && (text[0] == '+' || text[0] == '-');
    let negative = text.len() > 0 && text[0] == '-';
    let digits = if signed {
        text.skip(1)
    } else {
        text
    };
    let value = if negative {
        -(digits_value(digits) as int)
    } else {
        digits_value(digits) as int
    };
    if digits.len() > 0 && all_digits(digits) && i64::MIN <= value <= i64::MAX {
        Some(value as i64)
    } else {
        None
    }
}

/// A longer row of digits stands for no smaller number.
proof fn lemma_digits_value_grows(text: Seq<char>, upto: int)
    requires
        0 <= upto <= text.len(),
    ensures
        digits_value(text.take(upto)) <= digits_value(text),
    decreases text.len(),
{
    if upto < text.len() {
        lemma_digits_value_grows(text.drop_last(), upto);
        assert(text.drop_last().take(upto) =~= text.take(upto));
    } else {
        assert(text.take(upto) =~= text);
    }
}

/// The number that the characters from `from` on stand for, if they are digits and the number
/// is at most `most`.
fn read_digits(chars: &Vec<char>, from: usize, most: u64) -> (number: Option<u64>)
    requires
        from <= chars@.len(),
    ensures
        ({
            let digits = chars@.skip(from as int);
            number == (if digits.len() > 0 && all_digits(digits) && digits_value(digits) <= most {
                Some(digits_value(digits) as u64)
            } else {
                None
            })
        }),
{
    let ghost digits = chars@.skip(from as int);
    if from == chars.len() {
        return None;
    }
    let mut value: u64 = 0;
    let mut i: usize = from;
    assert(digits.take(0) =~= Seq::<char>::empty());
    while i < chars.len()
        invariant
            from <= i <= chars@.len(),
            digits == chars@.skip(from as int),
            all_digits(digits.take(i - from)),
            value == digits_value(digits.take(i - from)),
            value <= most,
        decreases chars@.len() - i,
    {
        let ghost k = i - from;
        let n: u32 = code_point(chars[i]);
        assert(digits[k] == chars@[i as int]);
        if n < 48 || 57 < n {
            assert(!is_digit(digits[k]));
            return None;
        }
        let digit: u64 = (n - 48) as u64;
        proof {
            assert(digits.take(k + 1).drop_last() =~= digits.take(k));
            assert(digits.take(k + 1).last() == digits[k]);
            assert(digits_value(digits.take(k + 1)) == 10 * value + digit);
            lemma_digits_value_grows(digits, k + 1);
        }
        if value > most / 10 {
            return None;
        }
        if digit > most - value * 10 {
            return None;
        }
        value = value * 10 + digit;
        assert(all_digits(digits.take(k + 1))) by {
            assert forall|j: int| 0 <= j < k + 1 implies is_digit(
                #[trigger] digits.take(k + 1)[j],
            ) by {
                if j < k {
                    assert(digits.take(k)[j] == digits.take(k + 1)[j]);
                }
            }
        }
        i = i + 1;
    }
    assert(digits.take(digits.len() as int) =~= digits);
    Some(value)
}

/// The unsigned number that `text` is.
pub fn parse_u64(text: &str) -> (number: Option<u64>)
    ensures
        number == read_u64(text@),
{
    let chars = chars_of(text);
    let from: usize = if chars.len() > 0 && chars[0] == '+' {
        1
    } else {
        0
    };
    assert(text@.skip(0) =~= text@);
    read_digits(&chars, from, u64::MAX)
}

/// The signed number that `text` is.
pub fn parse_i64(text: &str) -> (number: Option<i64>)
    ensures
        number == read_i64(text@),
{
    let chars = chars_of(text);
    assert(text@.skip(0) =~= text@);
    if chars.len() > 0 && chars[0] == '-' {
        match read_digits(&chars, 1, 0x8000_0000_0000_0000) {
            Some(number) => if number == 0x8000_0000_0000_0000 {
                Some(i64::MIN)
            } else {
                Some(-(number as i64))
            },
            None => None,
        }
    } else {
        let from: usize = if chars.len() > 0 && chars[0] == '+' {
            1
        } else {
            0
        };
        match read_digits(&chars, from, 0x7fff_ffff_ffff_ffff) {
            Some(number) => Some(number as i64),
            None => None,
        }
    }
}

/// A number that was written in decimal is read back as it was.
pub proof fn law_decimal_reads_back(n: u64)
    ensures
        read_u64(decimal(n as nat)) == Some(n),
        n <= i64::MAX ==> read_i64(decimal(n as nat)) == Some(n as i64),
{
    lemma_decimal_digits(n as nat);
    assert(is_digit(decimal(n as nat)[0]));
}

/// A row of ASCII digits, with a `+` in front or not, is read as the number that its digits stand
/// for, by their code points, if that number fits; nothing else is read.
pub proof fn law_reading_unsigned(digits: Seq<char>)
    requires
        digits.len() > 0,
        forall|i: int| 0 <= i < digits.len() ==> 48 <= #[trigger] digits[i] as int <= 57,
    ensures
        ({
            let value = digits.fold_left(0int, |sum: int, c: char| 10 * sum + (c as int - 48));
            &&& read_u64(digits) == (if value <= u64::MAX {
                Some(value as u64)
            } else {
                None
            })
            &&& read_u64(seq!['+'] + digits) == read_u64(digits)
        }),
{
    lemma_digits_fold(digits);
    assert(all_digits(digits));
    assert(digits[0] as int >= 48);
    assert((seq!['+'] + digits).skip(1) =~= digits);
    assert((seq!['+'] + digits)[0] == '+');
}

/// A row of ASCII digits is read as a signed number like an unsigned one, with a `-` in front as
/// the opposite, as far as that fits.
pub proof fn law_reading_signed(digits: Seq<char>)
    requires
        digits.len() > 0,
        forall|i: int| 0 <= i < digits.len() ==> 48 <= #[trigger] digits[i] as int <= 57,
    ensures
        ({
            let value = digits.fold_left(0int, |sum: int, c: char| 10 * sum + (c as int - 48));
            &&& read_i64(digits) == (if value <= i64::MAX {
                Some(value as i64)
            } else {
                None
            })
            &&& read_i64(seq!['+'] + digits) == read_i64(digits)
            &&& read_i64(seq!['-'] + digits) == (if -value >= i64::MIN {
                Some((-value) as i64)
            } else {
                None
            })
        }),
{
    lemma_digits_fold(digits);
    assert(all_digits(digits));
    assert(digits[0] as int >= 48);
    assert((seq!['+'] + digits).skip(1) =~= digits);
    assert((seq!['-'] + digits).skip(1) =~= digits);
    assert((seq!['+'] + digits)[0] == '+');
    assert((seq!['-'] + digits)[0] == '-');
}

/// What is read as a number is made of ASCII digits behind its sign, if it has one.
pub proof fn law_only_digits_are_read(text: Seq<char>, i: int)
    requires
        0 <= i < text.len(),
        !(48 <= text[i] as int <= 57),
    ensures
        i > 0 || text[0] != '+' ==> read_u64(text) is None,
        i > 0 || (text[0] != '+' && text[0] != '-') ==> read_i64(text) is None,
        text.len() == 1 ==> read_u64(text) is None && read_i64(text) is None,
{
    if text[0] == '+' || text[0] == '-' {
        if i > 0 {
            assert(!is_digit(text.skip(1)[i - 1]));
        }
        if i == 0 {
            assert(!is_digit(text[0]));
        }
    }
    assert(!is_digit(text[i]));
}

/// Nothing is no number.
pub proof fn law_nothing_is_no_number()
    ensures
        read_u64(Seq::empty()) is None,
        read_i64(Seq::empty()) is None,
{
}

proof fn lemma_digits_fold(digits: Seq<char>)
    requires
        forall|i: int| 0 <= i < digits.len() ==> 48 <= #[trigger] digits[i] as int <= 57,
    ensures
        digits_value(digits) == digits.fold_left(
            0int,
            |sum: int, c: char| 10 * sum + (c as int - 48),
        ),
    decreases digits.len(),
{
    if digits.len() > 0 {
        let front = digits.drop_last();
        assert forall|i: int| 0 <= i < front.len() implies 48 <= #[trigger] front[i] as int
            <= 57 by {
            assert(front[i] == digits[i]);
        }
        lemma_digits_fold(front);
        assert(48 <= digits[digits.len() - 1] as int <= 57);
    }
}

/// A number is written as ASCII digits without leading zeros that stand for it, by their code
/// points.
pub proof fn law_writing(n: nat)
    ensures
        decimal(n).len() > 0,
        forall|i: int| 0 <= i < decimal(n).len() ==> 48 <= #[trigger] decimal(n)[i] as int <= 57,
        decimal(n).fold_left(0int, |sum: int, c: char| 10 * sum + (c as int - 48)) == n,
        decimal(n).len() > 1 ==> decimal(n)[0] != '0',
{
    lemma_decimal_digits(n);
    assert forall|i: int| 0 <= i < decimal(n).len() implies 48 <= #[trigger] decimal(n)[i] as int
        <= 57 by {
        assert(is_digit(decimal(n)[i]));
    }
    lemma_digits_fold(decimal(n));
    lemma_no_leading_zero(n);
}

proof fn lemma_no_leading_zero(n: nat)
    ensures
        n > 0 ==> decimal(n)[0] != '0',
        n == 0 ==> decimal(n).len() == 1,
    decreases n,
{
    if n >= 10 {
        lemma_no_leading_zero(n / 10);
        lemma_decimal_digits(n / 10);
        assert(decimal(n)[0] == decimal(n / 10)[0]);
    }
}

/// A number that is padded is the number behind as many zeros as are missing.
pub proof fn law_padding(n: nat, width: nat)
    ensures
        padded(n, width).len() == (if decimal(n).len() < width {
            width
        } else {
            decimal(n).len()
        }),
        ({
            let missing = padded(n, width).len() - decimal(n).len();
            &&& padded(n, width).skip(missing) == decimal(n)
            &&& forall|i: int| 0 <= i < missing ==> #[trigger] padded(n, width)[i] == '0'
        }),
{
    lemma_zeros((width - decimal(n).len()) as int);
    let missing = padded(n, width).len() - decimal(n).len();
    assert(padded(n, width).skip(missing) =~= decimal(n));
}

proof fn lemma_zeros(count: int)
    ensures
        zeros(count).len() == (if count <= 0 {
            0
        } else {
            count
        }),
        forall|i: int| 0 <= i < zeros(count).len() ==> #[trigger] zeros(count)[i] == '0',
    decreases count,
{
    if count > 0 {
        lemma_zeros(count - 1);
    }
}

} // verus!
