//! Text that the library reads and writes: octal modes, decimal numbers, and
//! paths shown to people.
use vstd::prelude::*;
use vstd::string::StringExecFns;
use vstd::utf8::{decode_utf8, encode_utf8, is_ascii_chars, is_ascii_chars_encode_utf8, valid_utf8};

use crate::path::PathBuf;

verus! {

/// The byte `+`.
pub const PLUS: u8 = 43;

/// The byte `0`.
pub const ZERO: u8 = 48;

/// The byte `7`.
pub const SEVEN: u8 = 55;

/// A mode that is not an octal number of 32 bits.
#[derive(Debug, Clone, Copy, PartialEq, Eq, Structural)]
pub struct OctalError;

/// The number that a row of octal digits stands for.
pub open spec fn octal_number(digits: Seq<u8>) -> nat
    decreases digits.len(),
{
    if digits.len() == 0 {
        0
    } else {
        (8 * octal_number(digits.drop_last()) + (digits.last() - ZERO)) as nat
    }
}

/// The digits of a number, behind the sign that it may have.
pub open spec fn unsigned(text: Seq<u8>) -> Seq<u8> {
    if text.len() > 0 && text[0] == PLUS {
        text.skip(1)
    } else {
        text
    }
}

pub open spec fn all_octal(digits: Seq<u8>) -> bool {
    forall|i: int| 0 <= i < digits.len() ==> ZERO <= #[trigger] digits[i] <= SEVEN
}

/// The value of `text` as an octal number of 32 bits: one or more digits from
/// 0 to 7, behind an optional `+`.
pub open spec fn octal_value(text: Seq<u8>) -> Option<u32> {
    let digits = unsigned(text);
    if digits.len() > 0 && all_octal(digits) && octal_number(digits) <= u32::MAX {
        Some(octal_number(digits) as u32)
    } else {
        None
    }
}

proof fn lemma_octal_grows(digits: Seq<u8>, n: int)
    requires
        all_octal(digits),
        0 <= n <= digits.len(),
    ensures
        octal_number(digits.take(n)) <= octal_number(digits),
    decreases digits.len() - n,
{
    if n < digits.len() {
        let longer = digits.take(n + 1);
        assert(longer.drop_last() =~= digits.take(n));
        assert(longer.last() == digits[n]);
        lemma_octal_grows(digits, n + 1);
    } else {
        assert(digits.take(n) =~= digits);
    }
}

/// Reads an octal number of 32 bits.
pub fn parse_octal(text: &str) -> (value: Result<u32, OctalError>)
    ensures
        match value {
            Ok(number) => octal_value(encode_utf8(text@)) == Some(number),
            Err(_) => octal_value(encode_utf8(text@)) is None,
        },
{
    let bytes = text.as_bytes();
    let start: usize = if bytes.len() > 0 && bytes[0] == PLUS {
        1
    } else {
        0
    };
    let ghost digits = unsigned(bytes@);
    proof {
        assert(digits =~= bytes@.skip(start as int));
    }
    if bytes.len() == start {
        return Err(OctalError);
    }
    let mut number: u32 = 0;
    let mut i: usize = start;
    proof {
        assert(digits.take(0) =~= Seq::<u8>::empty());
    }
    while i < bytes.len()
        invariant
            start <= i <= bytes.len(),
            bytes@ == encode_utf8(text@),
            digits == unsigned(bytes@),
            digits == bytes@.skip(start as int),
            digits.len() == bytes.len() - start,
            forall|j: int| 0 <= j < i - start ==> ZERO <= #[trigger] digits[j] <= SEVEN,
            number == octal_number(digits.take(i - start)),
        decreases bytes.len() - i,
    {
        let digit = bytes[i];
        proof {
            assert(digits[i - start] == digit);
        }
        if digit < ZERO || digit > SEVEN {
            return Err(OctalError);
        }
        let wide: u64 = (number as u64) * 8 + ((digit - ZERO) as u64);
        proof {
            let longer = digits.take(i - start + 1);
            assert(longer.drop_last() =~= digits.take(i - start));
            assert(longer.last() == digit);
            assert(wide == octal_number(longer));
        }
        if wide > 0xffff_ffff {
            proof {
                if all_octal(digits) {
                    lemma_octal_grows(digits, i - start + 1);
                }
            }
            return Err(OctalError);
        }
        number = wide as u32;
        i = i + 1;
    }
    proof {
        assert(digits.take(bytes.len() - start) =~= digits);
    }
    Ok(number)
}

/// The mode of an entry: absent stays absent, a text is read as octal.
pub fn deserialize_octal(value: Option<&str>) -> (mode: Result<Option<u32>, OctalError>)
    ensures
        match value {
            None => mode == Ok::<Option<u32>, OctalError>(None),
            Some(text) => match octal_value(encode_utf8(text@)) {
                Some(number) => mode == Ok::<Option<u32>, OctalError>(Some(number)),
                None => mode is Err,
            },
        },
{
    match value {
        None => Ok(None),
        Some(text) => match parse_octal(text) {
            Ok(number) => Ok(Some(number)),
            Err(error) => Err(error),
        },
    }
}

pub open spec fn digit_char(digit: nat) -> char {
    if digit == 0 {
        '0'
    } else if digit == 1 {
        '1'
    } else if digit == 2 {
        '2'
    } else if digit == 3 {
        '3'
    } else if digit == 4 {
        '4'
    } else if digit == 5 {
        '5'
    } else if digit == 6 {
        '6'
    } else if digit == 7 {
        '7'
    } else if digit == 8 {
        '8'
    } else {
        '9'
    }
}

/// `number` in decimal, without leading zeros.
pub open spec fn decimal(number: nat) -> Seq<char>
    decreases number,
{
    if number < 10 {
        seq![digit_char(number)]
    } else {
        decimal(number / 10).push(digit_char(number % 10))
    }
}

fn digit_text(digit: u64) -> (text: &'static str)
    requires
        digit < 10,
    ensures
        text@ == seq![digit_char(digit as nat)],
{
    proof {
        reveal_strlit("0");
        reveal_strlit("1");
        reveal_strlit("2");
        reveal_strlit("3");
        reveal_strlit("4");
        reveal_strlit("5");
        reveal_strlit("6");
        reveal_strlit("7");
        reveal_strlit("8");
        reveal_strlit("9");
    }
    let text = match digit {
        0 => "0",
        1 => "1",
        2 => "2",
        3 => "3",
        4 => "4",
        5 => "5",
        6 => "6",
        7 => "7",
        8 => "8",
        _ => "9",
    };
    proof {
        assert(text@ =~= seq![digit_char(digit as nat)]);
    }
    text
}

/// Writes a number in decimal.
pub fn decimal_text(number: u64) -> (text: String)
    ensures
        text@ == decimal(number as nat),
    decreases number,
{
    if number < 10 {
        let mut text = String::new();
        text.append(digit_text(number));
        proof {
            assert(text@ =~= decimal(number as nat));
        }
        text
    } else {
        let mut text = decimal_text(number / 10);
        text.append(digit_text(number % 10));
        proof {
            assert(text@ =~= decimal(number as nat));
        }
        text
    }
}

/// `number` in octal, without leading zeros.
pub open spec fn octal(number: nat) -> Seq<char>
    decreases number,
{
    if number < 8 {
        seq![digit_char(number)]
    } else {
        octal(number / 8).push(digit_char(number % 8))
    }
}

/// Writes a mode in octal.
pub fn octal_text(number: u32) -> (text: String)
    ensures
        text@ == octal(number as nat),
    decreases number,
{
    if number < 8 {
        let mut text = String::new();
        text.append(digit_text(number as u64));
        proof {
            assert(text@ =~= octal(number as nat));
        }
        text
    } else {
        let mut text = octal_text(number / 8);
        text.append(digit_text((number % 8) as u64));
        proof {
            assert(text@ =~= octal(number as nat));
        }
        text
    }
}

/// The bytes of digits.
spec fn digit_bytes(text: Seq<char>) -> Seq<u8> {
    text.map_values(|c: char| c as u8)
}

proof fn lemma_octal(number: nat)
    ensures
        octal(number).len() > 0,
        is_ascii_chars(octal(number)),
        all_octal(digit_bytes(octal(number))),
        octal_number(digit_bytes(octal(number))) == number,
    decreases number,
{
    let text = octal(number);
    let bytes = digit_bytes(text);
    let last = digit_char(number % 8);
    assert(ZERO <= last as u8 <= SEVEN && (last as u8) - ZERO == number % 8);
    if number < 8 {
        assert(bytes.drop_last() =~= Seq::<u8>::empty());
        assert(bytes.last() == last as u8);
        assert(octal_number(bytes.drop_last()) == 0);
    } else {
        let front = octal(number / 8);
        lemma_octal(number / 8);
        assert(bytes.drop_last() =~= digit_bytes(front));
        assert(bytes.last() == last as u8);
        assert forall|i: int| 0 <= i < bytes.len() implies ZERO <= #[trigger] bytes[i]
            <= SEVEN by {
            if i < front.len() {
                assert(bytes[i] == digit_bytes(front)[i]);
            }
        }
    }
}

/// A mode that was written is read back.
pub proof fn law_octal_round_trip(number: u32)
    ensures
        octal_value(encode_utf8(octal(number as nat))) == Some(number),
{
    let text = octal(number as nat);
    lemma_octal(number as nat);
    is_ascii_chars_encode_utf8(text);
    assert(encode_utf8(text) =~= digit_bytes(text));
    assert(digit_bytes(text)[0] != PLUS);
}

/// What `String::from_utf8_lossy` makes of `bytes`.
pub uninterp spec fn lossy_text(bytes: Seq<u8>) -> Seq<char>;

/// Calls `String::from_utf8_lossy`. The result depends on the bytes alone, and
/// valid UTF-8 is decoded as it stands; how invalid bytes are replaced is not
/// spelled out.
#[verifier::external_body]
fn from_utf8_lossy(bytes: &[u8]) -> (text: String)
    ensures
        text@ == lossy_text(bytes@),
        valid_utf8(bytes@) ==> text@ == decode_utf8(bytes@),
{
    String::from_utf8_lossy(bytes).into_owned()
}

/// A path as people read it.
pub fn display(path: &PathBuf) -> (text: String)
    ensures
        text@ == lossy_text(path@),
        valid_utf8(path@) ==> text@ == decode_utf8(path@),
{
    from_utf8_lossy(path.bytes.as_slice())
}

/// How octal numbers are read: a single digit stands for itself, a digit behind a
/// number adds itself to eight times the number, a `+` in front does not count, and
/// what holds anything else is no number.
pub proof fn law_octal_reading(text: Seq<u8>, digit: u8)
    ensures
        octal_value(Seq::<u8>::empty()) is None,
        octal_value(seq![PLUS]) is None,
        ZERO <= digit <= SEVEN ==> octal_value(seq![digit]) == Some((digit - ZERO) as u32),
        octal_value(text) is Some && ZERO <= digit <= SEVEN && 8 * octal_value(text)->0 + (digit
            - ZERO) <= u32::MAX ==> octal_value(text.push(digit)) == Some(
            (8 * octal_value(text)->0 + (digit - ZERO)) as u32,
        ),
        text.len() > 0 && (digit < ZERO || digit > SEVEN) ==> octal_value(text.push(digit)) is None,
        octal_value(text) is Some && 8 * octal_value(text)->0 + 7 > u32::MAX && ZERO <= digit
            <= SEVEN && 8 * octal_value(text)->0 + (digit - ZERO) > u32::MAX ==> octal_value(
            text.push(digit),
        ) is None,
        octal_value(text) is Some && text[0] != PLUS ==> octal_value(seq![PLUS] + text)
            == octal_value(text),
{
    let one = seq![digit];
    assert(one.drop_last() =~= Seq::<u8>::empty());
    assert(octal_number(Seq::<u8>::empty()) == 0);
    assert(octal_number(one) == (8 * octal_number(one.drop_last()) + (digit - ZERO)) as nat);
    assert(seq![PLUS].skip(1) =~= Seq::<u8>::empty());
    let longer = text.push(digit);
    if text.len() > 0 {
        let digits = unsigned(text);
        assert(unsigned(longer) =~= digits.push(digit));
        assert(digits.push(digit).drop_last() =~= digits);
        if ZERO <= digit <= SEVEN && all_octal(digits) {
            assert forall|i: int| 0 <= i < digits.push(digit).len() implies ZERO
                <= #[trigger] digits.push(digit)[i] <= SEVEN by {
                if i < digits.len() {
                    assert(digits.push(digit)[i] == digits[i]);
                }
            }
            assert(octal_number(digits.push(digit)) == (8 * octal_number(digits) + (digit
                - ZERO)) as nat);
        }
        if digit < ZERO || digit > SEVEN {
            assert(digits.push(digit)[digits.len() as int] == digit);
        }
        assert((seq![PLUS] + text).skip(1) =~= text);
    }
}

/// How numbers are written: one digit for each power of ten, the highest first, and
/// no zeros in front.
pub proof fn law_decimal_writing(number: nat, digit: nat)
    requires
        digit < 10,
    ensures
        decimal(digit).len() == 1,
        decimal(digit)[0] as u32 == '0' as u32 + digit,
        number > 0 ==> decimal((10 * number + digit) as nat) == decimal(number) + decimal(digit),
        decimal(number).len() > 0,
        decimal(number)[0] == '0' ==> number == 0,
    decreases number,
{
    if number >= 10 {
        law_decimal_writing(number / 10, number % 10);
    }
    if number > 0 {
        let whole = (10 * number + digit) as nat;
        assert(whole / 10 == number && whole % 10 == digit);
        assert(decimal(whole) =~= decimal(number) + decimal(digit));
    }
}

/// How modes are written: one digit for each power of eight, the highest first, and
/// no zeros in front.
pub proof fn law_octal_writing(number: nat, digit: nat)
    requires
        digit < 8,
    ensures
        octal(digit).len() == 1,
        octal(digit)[0] as u32 == '0' as u32 + digit,
        number > 0 ==> octal((8 * number + digit) as nat) == octal(number) + octal(digit),
        octal(number).len() > 0,
        octal(number)[0] == '0' ==> number == 0,
    decreases number,
{
    if number >= 8 {
        law_octal_writing(number / 8, number % 8);
    }
    if number > 0 {
        let whole = (8 * number + digit) as nat;
        assert(whole / 8 == number && whole % 8 == digit);
        assert(octal(whole) =~= octal(number) + octal(digit));
    }
}

} // verus!
