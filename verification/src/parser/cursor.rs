use vstd::prelude::*;

use crate::parser::grammar::{
    COLON, DIGIT_NINE, DIGIT_ZERO, DecodeError, END, MINUS, decimal_value, digits_end, exceeds_at,
    integer_body, integer_digits_start, is_digit, length_prefix, lemma_decimal_monotone,
    lemma_decimal_step, lemma_digits_end,
};

verus! {

/// A zero-copy cursor over the input byte slice.
/// Advances through input without cloning, only adjusting an offset.
#[derive(Debug, Clone, Copy)]
pub struct Cursor<'a> {
    input: &'a [u8],
    position: usize,
}

impl<'a> Cursor<'a> {
    /// The bytes the cursor runs over.
    pub closed spec fn data(&self) -> Seq<u8> {
        self.input@
    }

    /// The offset of the next byte to read (it may lie past the end).
    pub closed spec fn pos(&self) -> int {
        self.position as int
    }

    /// The position is a `usize` and the input is a slice, so both fit in a `usize`.
    pub proof fn lemma_bounds(&self)
        ensures
            0 <= self.pos() <= usize::MAX,
            self.data().len() <= usize::MAX,
    {
        assert(self.input@.len() == self.input.len());
    }

    /// A cursor at the start of `input`.
    pub fn new(input: &'a [u8]) -> (r: Self)
        ensures
            r.data() == input@,
            r.data().len() <= usize::MAX,
            r.pos() == 0,
    {
        assert(input@.len() == input.len());
        Self { input, position: 0 }
    }

    /// The bytes from the current position to the end.
    pub fn remaining(&self) -> (r: &'a [u8])
        requires
            self.pos() <= self.data().len(),
        ensures
            r@ == self.data().subrange(self.pos(), self.data().len() as int),
    {
        &self.input[self.position..self.input.len()]
    }

    /// Whether no byte is left to read.
    pub fn at_end(&self) -> (r: bool)
        ensures
            r <==> self.pos() >= self.data().len(),
    {
        self.position >= self.input.len()
    }

    /// The byte at the current position, if any.
    pub fn peek(&self) -> (r: Option<u8>)
        ensures
            r == if self.pos() < self.data().len() {
                Some(self.data()[self.pos()])
            } else {
                None::<u8>
            },
    {
        if self.position < self.input.len() {
            Some(self.input[self.position])
        } else {
            None
        }
    }

    /// Moves `n` bytes on, stopping at the largest offset a `usize` holds.
    pub fn advance(&mut self, n: usize)
        ensures
            final(self).data() == old(self).data(),
            final(self).pos() == if old(self).pos() + n <= usize::MAX {
                old(self).pos() + n
            } else {
                usize::MAX as int
            },
    {
        self.position = self.position.saturating_add(n);
    }

    /// The next `n` bytes, moving past them; nothing, and no move, if fewer are left.
    pub fn read_bytes(&mut self, n: usize) -> (r: Option<&'a [u8]>)
        ensures
            final(self).data() == old(self).data(),
            old(self).pos() + n <= old(self).data().len() ==> {
                &&& r matches Some(b)
                &&& b@ == old(self).data().subrange(old(self).pos(), old(self).pos() + n)
                &&& final(self).pos() == old(self).pos() + n
            },
            old(self).pos() + n > old(self).data().len() ==> {
                &&& r is None
                &&& final(self).pos() == old(self).pos()
            },
    {
        let len: usize = self.input.len();
        let end: usize = match self.position.checked_add(n) {
            Some(end) => end,
            None => return None,
        };
        if end > len {
            return None;
        }
        let slice = &self.input[self.position..end];
        self.position = end;
        Some(slice)
    }

    /// Parse an ASCII decimal length prefix, e.g. the "5" in "5:hello".
    /// Returns (parsed_length, bytes_consumed_including_colon).
    pub fn parse_length_prefix(&mut self) -> (r: Result<(usize, usize), &'static str>)
        ensures
            final(self).data() == old(self).data(),
            match length_prefix(old(self).data(), old(self).pos()) {
                Ok((n, q)) => {
                    &&& r == Ok::<(usize, usize), &'static str>((n as usize, (q - old(self).pos()) as usize))
                    &&& final(self).pos() == q
                },
                Err(e) => {
                    &&& r == Err::<(usize, usize), &'static str>(e.message())
                    &&& e == DecodeError::MissingColon ==> final(self).pos() == if old(self).pos()
                        < old(self).data().len() {
                        old(self).data().len() as int
                    } else {
                        old(self).pos()
                    }
                    &&& e == DecodeError::InvalidStringLengthChar ==> final(self).pos()
                        == digits_end(old(self).data(), old(self).pos())
                    &&& e == DecodeError::StringLengthOverflow ==> exceeds_at(
                        old(self).data(),
                        old(self).pos(),
                        final(self).pos(),
                        usize::MAX as int,
                    )
                },
            },
    {
        let ghost s = self.input@;
        let start: usize = self.position;
        let mut len: usize = 0;
        if self.position >= self.input.len() {
            return Err("Missing colon in string length prefix");
        }
        loop
            invariant
                self.input == old(self).input,
                self.input@ == s,
                start == old(self).position,
                start < s.len(),
                start <= self.position <= s.len(),
                forall|k: int| start <= k < self.position ==> is_digit(#[trigger] s[k]),
                len == decimal_value(s.subrange(start as int, self.position as int)),
            decreases s.len() - self.position,
        {
            if self.position >= self.input.len() {
                proof {
                    lemma_digits_end(s, start as int, self.position as int);
                }
                return Err("Missing colon in string length prefix");
            }
            let b: u8 = self.input[self.position];
            if b == COLON {
                self.position = self.position + 1;
                proof {
                    lemma_digits_end(s, start as int, self.position - 1);
                }
                return Ok((len, self.position - start));
            }
            if DIGIT_ZERO <= b && b <= DIGIT_NINE {
                let digit: usize = (b - DIGIT_ZERO) as usize;
                proof {
                    lemma_decimal_step(s, start as int, self.position as int);
                }
                let scaled: usize = match len.checked_mul(10) {
                    Some(v) => v,
                    None => {
                        proof {
                            assert(len * 10 + digit > usize::MAX) by (nonlinear_arith)
                                requires
                                    len * 10 > usize::MAX,
                                    digit >= 0,
                            ;
                            lemma_exceeding_reaches_end(s, start as int, self.position as int, usize::MAX as int);
                        }
                        return Err("String length overflow");
                    },
                };
                len = match scaled.checked_add(digit) {
                    Some(v) => v,
                    None => {
                        proof {
                            lemma_exceeding_reaches_end(s, start as int, self.position as int, usize::MAX as int);
                        }
                        return Err("String length overflow");
                    },
                };
                self.position = self.position + 1;
            } else {
                proof {
                    lemma_digits_end(s, start as int, self.position as int);
                }
                return Err("Invalid character in string length");
            }
        }
    }
}

impl<'a> Cursor<'a> {
    /// Parse an integer value: skip 'i', accumulate digits to 'e', advance cursor.
    /// Single-pass: no full-slice scan, no UTF-8 conversion, no string allocation.
    pub fn parse_integer(&mut self) -> (r: Result<i128, &'static str>)
        requires
            old(self).pos() < usize::MAX,
        ensures
            final(self).data() == old(self).data(),
            ({
                let s = old(self).data();
                let q: int = integer_digits_start(s, old(self).pos());
                let j: int = digits_end(s, q);
                match integer_body(s, old(self).pos()) {
                    Ok((v, next)) => r == Ok::<i128, &'static str>(v as i128) && final(self).pos()
                        == next,
                    Err(e) => {
                        &&& r == Err::<i128, &'static str>(e.message())
                        &&& e == DecodeError::LeadingZeros ==> final(self).pos() == q
                        &&& e == DecodeError::IntegerOverflow ==> exceeds_at(
                            s,
                            q,
                            final(self).pos(),
                            i128::MAX as int,
                        )
                        &&& (e == DecodeError::MissingIntegerTerminator || e
                            == DecodeError::InvalidIntegerChar) ==> final(self).pos() == j
                        &&& (e == DecodeError::EmptyInteger || e == DecodeError::NegativeZero)
                            ==> final(self).pos() == j + 1
                    },
                }
            }),
    {
        let ghost s = self.input@;
        let ghost pos0: int = self.position as int;
        let len: usize = self.input.len();
        self.position = self.position + 1;  // skip 'i'

        let mut negative = false;
        let mut value: i128 = 0;
        let mut seen_digit = false;

        // Handle optional leading '-'
        if self.position < len && self.input[self.position] == MINUS {
            negative = true;
            self.position = self.position + 1;
        }
        let digits_start: usize = self.position;
        let ghost q: int = digits_start as int;
        assert(q == integer_digits_start(s, pos0));

        // Leading-zero check: if next byte is '0' and followed by another digit, reject
        if self.position < len && self.input[self.position] == DIGIT_ZERO {
            if self.position + 1 < len && DIGIT_ZERO <= self.input[self.position + 1]
                && self.input[self.position + 1] <= DIGIT_NINE {
                return Err("Leading zeros in integer");
            }
            // Bare '0' (possibly followed by 'e') — value stays 0
            self.position = self.position + 1;
            seen_digit = true;
            proof {
                lemma_decimal_step(s, q, q);
                assert(s.subrange(q, q) =~= Seq::<u8>::empty());
            }
        }
        if digits_start >= len {
            proof {
                lemma_digits_end_past(s, q);
            }
            return Err("Missing integer terminator");
        }
        proof {
            assert(s.subrange(q, q) =~= Seq::<u8>::empty());
        }

        // Accumulate remaining digits, require 'e' terminator
        loop
            invariant_except_break
                q <= self.position <= s.len(),
                forall|k: int| q <= k < self.position ==> is_digit(#[trigger] s[k]),
                value == decimal_value(s.subrange(q, self.position as int)),
                seen_digit == (self.position > q),
            invariant
                self.input == old(self).input,
                self.input@ == s,
                len == s.len(),
                pos0 == old(self).position,
                q == integer_digits_start(s, pos0),
                negative == (pos0 + 1 < s.len() && s[pos0 + 1] == MINUS),
                !(q + 1 < s.len() && s[q] == DIGIT_ZERO && is_digit(s[q + 1])),
                q < s.len(),
            ensures
                q < self.position <= s.len(),
                digits_end(s, q) == self.position - 1,
                s[self.position - 1] == END,
                value == decimal_value(s.subrange(q, self.position - 1)),
                seen_digit == (self.position - 1 > q),
            decreases s.len() - self.position,
        {
            if self.position >= len {
                proof {
                    lemma_digits_end(s, q, self.position as int);
                }
                return Err("Missing integer terminator");
            }
            let b: u8 = self.input[self.position];
            if b == END {
                self.position = self.position + 1;
                proof {
                    lemma_digits_end(s, q, self.position - 1);
                }
                break;
            }
            if DIGIT_ZERO <= b && b <= DIGIT_NINE {
                let digit: i128 = (b - DIGIT_ZERO) as i128;
                proof {
                    lemma_decimal_step(s, q, self.position as int);
                }
                let scaled: i128 = match value.checked_mul(10) {
                    Some(v) => v,
                    None => {
                        proof {
                            assert(value * 10 + digit > i128::MAX) by (nonlinear_arith)
                                requires
                                    value * 10 > i128::MAX,
                                    digit >= 0,
                            ;
                            lemma_exceeding_reaches_end(s, q, self.position as int, i128::MAX as int);
                        }
                        return Err("Integer overflow");
                    },
                };
                value = match scaled.checked_add(digit) {
                    Some(v) => v,
                    None => {
                        proof {
                            lemma_exceeding_reaches_end(s, q, self.position as int, i128::MAX as int);
                        }
                        return Err("Integer overflow");
                    },
                };
                seen_digit = true;
                self.position = self.position + 1;
            } else {
                proof {
                    lemma_digits_end(s, q, self.position as int);
                }
                return Err("Invalid character in integer");
            }
        }
        if !seen_digit {
            return Err("Empty integer");
        }
        if negative && value == 0 {
            return Err("Negative zero");
        }
        Ok(
            if negative {
                -value
            } else {
                value
            },
        )
    }
}

/// From a position at or past the end, the run of digits is empty.
proof fn lemma_digits_end_past(s: Seq<u8>, i: int)
    requires
        i >= s.len(),
    ensures
        digits_end(s, i) == i,
{
}

/// When the digits from `from` first exceed `limit` at `p`, so do all the digits.
proof fn lemma_exceeding_reaches_end(s: Seq<u8>, from: int, p: int, limit: int)
    requires
        0 <= from <= p < s.len(),
        forall|k: int| from <= k <= p ==> is_digit(#[trigger] s[k]),
        decimal_value(s.subrange(from, p + 1)) > limit,
    ensures
        digits_end(s, from) > p,
        decimal_value(s.subrange(from, digits_end(s, from))) > limit,
{
    let j: int = digits_end_from(s, from, p + 1);
    lemma_digits_end(s, from, j);
    lemma_decimal_monotone(s, from, p + 1, j);
}

/// The end of the run of digits that has no non-digit before `i`.
proof fn digits_end_from(s: Seq<u8>, from: int, i: int) -> (j: int)
    requires
        0 <= from <= i <= s.len(),
        forall|k: int| from <= k < i ==> is_digit(#[trigger] s[k]),
    ensures
        i <= j <= s.len(),
        forall|k: int| from <= k < j ==> is_digit(#[trigger] s[k]),
        j == s.len() || !is_digit(s[j]),
    decreases s.len() - i,
{
    if i < s.len() && is_digit(s[i]) {
        digits_end_from(s, from, i + 1)
    } else {
        i
    }
}

} // verus!
