use vstd::prelude::*;

use crate::enums::bencode::Datum;
use crate::enums::dict::dict_insert;

verus! {

/// `:`, which ends the length of a byte string.
pub const COLON: u8 = 58;

/// `-`, the sign of a negative integer.
pub const MINUS: u8 = 45;

/// `0`, the first decimal digit.
pub const DIGIT_ZERO: u8 = 48;

/// `9`, the last decimal digit.
pub const DIGIT_NINE: u8 = 57;

/// `i`, which opens an integer.
pub const INT_START: u8 = 105;

/// `l`, which opens a list.
pub const LIST_START: u8 = 108;

/// `d`, which opens a dictionary.
pub const DICT_START: u8 = 100;

/// `e`, which closes an integer, a list or a dictionary.
pub const END: u8 = 101;

/// The reasons for which decoding fails.
#[derive(Debug, PartialEq, Eq, Clone, Copy)]
pub enum DecodeError {
    EmptyInput,
    StringLengthOverflow,
    InvalidStringLengthChar,
    MissingColon,
    TruncatedString,
    LeadingZeros,
    IntegerOverflow,
    InvalidIntegerChar,
    MissingIntegerTerminator,
    EmptyInteger,
    NegativeZero,
    UnknownTypePrefix,
    UnexpectedEnd,
    UnmatchedTerminator,
    NoContainer,
    NonStringKey,
    UnpairedKey,
    UnknownToken,
}

impl DecodeError {
    /// The message under which the decoder reports this failure.
    pub open spec fn message(self) -> &'static str {
        match self {
            DecodeError::EmptyInput => "Empty input",
            DecodeError::StringLengthOverflow => "String length overflow",
            DecodeError::InvalidStringLengthChar => "Invalid character in string length",
            DecodeError::MissingColon => "Missing colon in string length prefix",
            DecodeError::TruncatedString => "Truncated string content",
            DecodeError::LeadingZeros => "Leading zeros in integer",
            DecodeError::IntegerOverflow => "Integer overflow",
            DecodeError::InvalidIntegerChar => "Invalid character in integer",
            DecodeError::MissingIntegerTerminator => "Missing integer terminator",
            DecodeError::EmptyInteger => "Empty integer",
            DecodeError::NegativeZero => "Negative zero",
            DecodeError::UnknownTypePrefix => "Unknown type prefix",
            DecodeError::UnexpectedEnd => "Unexpected end of input",
            DecodeError::UnmatchedTerminator => "Unmatched terminator",
            DecodeError::NoContainer => "No container to append to",
            DecodeError::NonStringKey => "Dictionary key must be a string",
            DecodeError::UnpairedKey => "Dictionary has unpaired key at end",
            DecodeError::UnknownToken => "Unknown token in input",
        }
    }
}

/// An ASCII decimal digit.
pub open spec fn is_digit(b: u8) -> bool {
    DIGIT_ZERO <= b <= DIGIT_NINE
}

/// Whether `b` is an ASCII decimal digit.
pub fn is_ascii_digit(b: u8) -> (r: bool)
    ensures
        r == is_digit(b),
{
    DIGIT_ZERO <= b && b <= DIGIT_NINE
}

/// The first index at or after `i` that does not hold a digit (`s.len()` if there is none).
pub open spec fn digits_end(s: Seq<u8>, i: int) -> int
    decreases s.len() - i,
{
    if 0 <= i < s.len() && is_digit(s[i]) {
        digits_end(s, i + 1)
    } else {
        i
    }
}

/// The number that a sequence of decimal digits spells.
pub open spec fn decimal_value(d: Seq<u8>) -> nat
    decreases d.len(),
{
    if d.len() == 0 {
        0
    } else {
        decimal_value(d.drop_last()) * 10 + (d.last() - DIGIT_ZERO) as nat
    }
}

/// `p` is the first digit at which the digits from `from` on spell a number above `limit`.
pub open spec fn exceeds_at(s: Seq<u8>, from: int, p: int, limit: int) -> bool {
    &&& from <= p < digits_end(s, from)
    &&& decimal_value(s.subrange(from, p)) <= limit
    &&& decimal_value(s.subrange(from, p + 1)) > limit
}

/// The run of digits from `i` ends at the first non-digit.
pub proof fn lemma_digits_end(s: Seq<u8>, i: int, p: int)
    requires
        0 <= i <= p <= s.len(),
        forall|k: int| i <= k < p ==> is_digit(#[trigger] s[k]),
        p == s.len() || !is_digit(s[p]),
    ensures
        digits_end(s, i) == p,
    decreases p - i,
{
    if i < p {
        lemma_digits_end(s, i + 1, p);
    }
}

/// Reading one more digit.
pub proof fn lemma_decimal_step(s: Seq<u8>, a: int, b: int)
    requires
        0 <= a <= b < s.len(),
    ensures
        decimal_value(s.subrange(a, b + 1)) == decimal_value(s.subrange(a, b)) * 10 + (s[b]
            - DIGIT_ZERO) as nat,
{
    assert(s.subrange(a, b + 1).drop_last() =~= s.subrange(a, b));
}

/// Reading more digits never lowers the number.
pub proof fn lemma_decimal_monotone(s: Seq<u8>, a: int, b: int, c: int)
    requires
        0 <= a <= b <= c <= s.len(),
        forall|k: int| a <= k < c ==> is_digit(#[trigger] s[k]),
    ensures
        decimal_value(s.subrange(a, b)) <= decimal_value(s.subrange(a, c)),
    decreases c - b,
{
    if b < c {
        lemma_decimal_monotone(s, a, b, c - 1);
        lemma_decimal_step(s, a, c - 1);
        assert(is_digit(s[c - 1]));
    }
}

/// The length prefix of a byte string that starts at `pos`: its value and the index just
/// past its colon.
pub open spec fn length_prefix(s: Seq<u8>, pos: int) -> Result<(nat, int), DecodeError> {
    if pos < 0 || pos >= s.len() {
        Err(DecodeError::MissingColon)
    } else {
        let j: int = digits_end(s, pos);
        let n: nat = decimal_value(s.subrange(pos, j));
        if n > usize::MAX {
            Err(DecodeError::StringLengthOverflow)
        } else if j == s.len() {
            Err(DecodeError::MissingColon)
        } else if s[j] == COLON {
            Ok((n, j + 1))
        } else {
            Err(DecodeError::InvalidStringLengthChar)
        }
    }
}

/// Where the magnitude of an integer whose `i` is at `pos` starts (past an optional `-`).
pub open spec fn integer_digits_start(s: Seq<u8>, pos: int) -> int {
    if pos + 1 < s.len() && s[pos + 1] == MINUS {
        pos + 2
    } else {
        pos + 1
    }
}

/// The integer whose `i` is at `pos`: its value and the index just past its `e`.
pub open spec fn integer_body(s: Seq<u8>, pos: int) -> Result<(int, int), DecodeError> {
    let negative = pos + 1 < s.len() && s[pos + 1] == MINUS;
    let q: int = integer_digits_start(s, pos);
    if q + 1 < s.len() && s[q] == DIGIT_ZERO && is_digit(s[q + 1]) {
        Err(DecodeError::LeadingZeros)
    } else {
        let j: int = digits_end(s, q);
        let n: nat = if q < s.len() {
            decimal_value(s.subrange(q, j))
        } else {
            0
        };
        if n > i128::MAX {
            Err(DecodeError::IntegerOverflow)
        } else if j >= s.len() {
            Err(DecodeError::MissingIntegerTerminator)
        } else if s[j] != END {
            Err(DecodeError::InvalidIntegerChar)
        } else if j == q {
            Err(DecodeError::EmptyInteger)
        } else if negative && n == 0 {
            Err(DecodeError::NegativeZero)
        } else {
            Ok((if negative { -n } else { n as int }, j + 1))
        }
    }
}

/// The byte string that starts at `pos` and the index just past it.
pub open spec fn string_token(s: Seq<u8>, pos: int) -> Result<(Datum, int), DecodeError> {
    match length_prefix(s, pos) {
        Err(e) => Err(e),
        Ok((n, q)) => if q + n > s.len() {
            Err(DecodeError::TruncatedString)
        } else {
            Ok((Datum::Bytes(s.subrange(q, q + n)), q + n))
        },
    }
}

/// The integer that starts at `pos` and the index just past it.
pub open spec fn integer_token(s: Seq<u8>, pos: int) -> Result<(Datum, int), DecodeError> {
    match integer_body(s, pos) {
        Err(e) => Err(e),
        Ok((v, q)) => Ok((Datum::Int(v), q)),
    }
}

/// The value that starts at `pos` inside a list or a dictionary, and the index just past it.
pub open spec fn parse_value(s: Seq<u8>, pos: int) -> Result<(Datum, int), DecodeError>
    decreases s.len() - pos, 0int,
{
    if pos < 0 || pos >= s.len() {
        Err(DecodeError::UnexpectedEnd)
    } else if is_digit(s[pos]) {
        string_token(s, pos)
    } else if s[pos] == INT_START {
        integer_token(s, pos)
    } else if s[pos] == LIST_START {
        parse_list(s, pos + 1, Seq::empty())
    } else if s[pos] == DICT_START {
        parse_dict(s, pos + 1, Seq::empty())
    } else {
        Err(DecodeError::UnknownToken)
    }
}

/// The rest of a list from `pos` on, `items` having been read already.
///
/// A value always takes at least one byte (`lemma_parse_value_progress`); the test on `next`
/// only serves to show that the definition terminates.
pub open spec fn parse_list(s: Seq<u8>, pos: int, items: Seq<Datum>) -> Result<
    (Datum, int),
    DecodeError,
>
    decreases s.len() - pos, 1int,
{
    if pos < 0 || pos >= s.len() {
        Err(DecodeError::UnexpectedEnd)
    } else if s[pos] == END {
        Ok((Datum::List(items), pos + 1))
    } else {
        match parse_value(s, pos) {
            Err(e) => Err(e),
            Ok((v, next)) => if pos < next <= s.len() {
                parse_list(s, next, items.push(v))
            } else {
                Err(DecodeError::UnexpectedEnd)
            },
        }
    }
}

/// The rest of a dictionary from `pos` on, where a key or the final `e` is due.
pub open spec fn parse_dict(s: Seq<u8>, pos: int, entries: Seq<(Seq<u8>, Datum)>) -> Result<
    (Datum, int),
    DecodeError,
>
    decreases s.len() - pos, 1int,
{
    if pos < 0 || pos >= s.len() {
        Err(DecodeError::UnexpectedEnd)
    } else if s[pos] == END {
        Ok((Datum::Dict(entries), pos + 1))
    } else {
        match parse_value(s, pos) {
            Err(e) => Err(e),
            Ok((k, next)) => if pos < next <= s.len() {
                match k {
                    Datum::Bytes(key) => parse_dict_value(s, next, entries, key),
                    _ => Err(DecodeError::NonStringKey),
                }
            } else {
                Err(DecodeError::UnexpectedEnd)
            },
        }
    }
}

/// The rest of a dictionary from `pos` on, where the value of `key` is due.
pub open spec fn parse_dict_value(
    s: Seq<u8>,
    pos: int,
    entries: Seq<(Seq<u8>, Datum)>,
    key: Seq<u8>,
) -> Result<(Datum, int), DecodeError>
    decreases s.len() - pos, 1int,
{
    if pos < 0 || pos >= s.len() {
        Err(DecodeError::UnexpectedEnd)
    } else if s[pos] == END {
        Err(DecodeError::UnpairedKey)
    } else {
        match parse_value(s, pos) {
            Err(e) => Err(e),
            Ok((v, next)) => if pos < next <= s.len() {
                parse_dict(s, next, dict_insert(entries, key, v))
            } else {
                Err(DecodeError::UnexpectedEnd)
            },
        }
    }
}

/// Decoding a whole input: the first value and the number of bytes it takes.
pub open spec fn decode(s: Seq<u8>) -> Result<(Datum, int), DecodeError> {
    if s.len() == 0 {
        Err(DecodeError::EmptyInput)
    } else if is_digit(s[0]) || s[0] == INT_START || s[0] == LIST_START || s[0] == DICT_START {
        parse_value(s, 0)
    } else {
        Err(DecodeError::UnknownTypePrefix)
    }
}

} // verus!
