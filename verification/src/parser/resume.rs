use vstd::prelude::*;

use crate::enums::bencode::Datum;
use crate::enums::dict::dict_insert;
use crate::parser::grammar::{
    DICT_START, DecodeError, END, INT_START, LIST_START, digits_end, integer_digits_start,
    integer_token, is_digit, parse_dict, parse_dict_value, parse_list, parse_value, string_token,
};
use crate::parser::stack::Partial;

verus! {

/// The rest of the innermost open container `f`, read from `pos` on.
pub open spec fn continue_frame(s: Seq<u8>, pos: int, f: Partial) -> Result<(Datum, int), DecodeError> {
    match f {
        Partial::List(items) => parse_list(s, pos, items),
        Partial::Dict(entries, None) => parse_dict(s, pos, entries),
        Partial::Dict(entries, Some(key)) => parse_dict_value(s, pos, entries, key),
    }
}

/// Hands a finished value `v` to the open container `f`.
pub open spec fn deliver(f: Partial, v: Datum) -> Result<Partial, DecodeError> {
    match f {
        Partial::List(items) => Ok(Partial::List(items.push(v))),
        Partial::Dict(entries, Some(key)) => Ok(Partial::Dict(dict_insert(entries, key, v), None)),
        Partial::Dict(entries, None) => match v {
            Datum::Bytes(key) => Ok(Partial::Dict(entries, Some(key))),
            _ => Err(DecodeError::NonStringKey),
        },
    }
}

/// The value an open container stands for once its `e` is read.
pub open spec fn complete(f: Partial) -> Result<Datum, DecodeError> {
    match f {
        Partial::List(items) => Ok(Datum::List(items)),
        Partial::Dict(entries, None) => Ok(Datum::Dict(entries)),
        Partial::Dict(_, Some(_)) => Err(DecodeError::UnpairedKey),
    }
}

/// The outcome of decoding from `pos` on, with the containers `frames` open (outermost
/// first): the innermost one is finished, handed to the one around it, and so on out.
pub open spec fn resume(s: Seq<u8>, pos: int, frames: Seq<Partial>) -> Result<(Datum, int), DecodeError>
    decreases frames.len(),
{
    if frames.len() == 0 {
        Err(DecodeError::UnmatchedTerminator)
    } else {
        match continue_frame(s, pos, frames.last()) {
            Err(e) => Err(e),
            Ok((v, next)) => if frames.len() == 1 {
                Ok((v, next))
            } else {
                let below = frames.drop_last();
                match deliver(below.last(), v) {
                    Err(e) => Err(e),
                    Ok(g) => resume(s, next, below.drop_last().push(g)),
                }
            },
        }
    }
}

/// The run of digits from `i` lies between `i` and the end of the input.
pub proof fn lemma_digits_end_bounds(s: Seq<u8>, i: int)
    requires
        0 <= i <= s.len(),
    ensures
        i <= digits_end(s, i) <= s.len(),
        forall|k: int| i <= k < digits_end(s, i) ==> is_digit(#[trigger] s[k]),
        digits_end(s, i) == s.len() || !is_digit(s[digits_end(s, i)]),
    decreases s.len() - i,
{
    if i < s.len() && is_digit(s[i]) {
        lemma_digits_end_bounds(s, i + 1);
    }
}

/// A byte string or an integer takes at least one byte and ends inside the input.
pub proof fn lemma_token_progress(s: Seq<u8>, pos: int)
    requires
        0 <= pos < s.len(),
    ensures
        string_token(s, pos) matches Ok((_, next)) ==> pos < next <= s.len(),
        integer_token(s, pos) matches Ok((_, next)) ==> pos < next <= s.len(),
{
    lemma_digits_end_bounds(s, pos);
    let q: int = integer_digits_start(s, pos);
    if q <= s.len() {
        lemma_digits_end_bounds(s, q);
    }
}

/// Every value read takes at least one byte and ends inside the input.
pub proof fn lemma_parse_value_progress(s: Seq<u8>, pos: int)
    ensures
        parse_value(s, pos) matches Ok((_, next)) ==> pos < next <= s.len(),
    decreases s.len() - pos, 0int,
{
    if 0 <= pos < s.len() {
        lemma_token_progress(s, pos);
        if s[pos] == LIST_START {
            lemma_parse_list_progress(s, pos + 1, Seq::empty());
        } else if s[pos] == DICT_START {
            lemma_parse_dict_progress(s, pos + 1, Seq::empty());
        }
    }
}

/// The rest of a list ends inside the input, past where it is read from.
pub proof fn lemma_parse_list_progress(s: Seq<u8>, pos: int, items: Seq<Datum>)
    ensures
        parse_list(s, pos, items) matches Ok((_, next)) ==> pos < next <= s.len(),
    decreases s.len() - pos, 1int,
{
    if 0 <= pos < s.len() && s[pos] != END {
        lemma_parse_value_progress(s, pos);
        if let Ok((v, next)) = parse_value(s, pos) {
            lemma_parse_list_progress(s, next, items.push(v));
        }
    }
}

/// The rest of a dictionary (a key due) ends inside the input, past where it is read from.
pub proof fn lemma_parse_dict_progress(s: Seq<u8>, pos: int, entries: Seq<(Seq<u8>, Datum)>)
    ensures
        parse_dict(s, pos, entries) matches Ok((_, next)) ==> pos < next <= s.len(),
    decreases s.len() - pos, 1int,
{
    if 0 <= pos < s.len() && s[pos] != END {
        lemma_parse_value_progress(s, pos);
        if let Ok((k, next)) = parse_value(s, pos) {
            if let Datum::Bytes(key) = k {
                lemma_parse_dict_value_progress(s, next, entries, key);
            }
        }
    }
}

/// The rest of a dictionary (a value due) ends inside the input, past where it is read from.
pub proof fn lemma_parse_dict_value_progress(
    s: Seq<u8>,
    pos: int,
    entries: Seq<(Seq<u8>, Datum)>,
    key: Seq<u8>,
)
    ensures
        parse_dict_value(s, pos, entries, key) matches Ok((_, next)) ==> pos < next <= s.len(),
    decreases s.len() - pos, 1int,
{
    if 0 <= pos < s.len() && s[pos] != END {
        lemma_parse_value_progress(s, pos);
        if let Ok((v, next)) = parse_value(s, pos) {
            lemma_parse_dict_progress(s, next, dict_insert(entries, key, v));
        }
    }
}

/// Inside a container, a byte other than `e` starts a value, which is read and handed to
/// the container before the container goes on.
pub proof fn lemma_continue_step(s: Seq<u8>, pos: int, f: Partial)
    requires
        0 <= pos < s.len(),
        s[pos] != END,
    ensures
        continue_frame(s, pos, f) == match parse_value(s, pos) {
            Err(e) => Err(e),
            Ok((v, next)) => match deliver(f, v) {
                Err(e) => Err(e),
                Ok(g) => continue_frame(s, next, g),
            },
        },
{
    lemma_parse_value_progress(s, pos);
}

/// Inside a container, the end of the input is an error.
pub proof fn lemma_continue_at_end(s: Seq<u8>, pos: int, f: Partial)
    requires
        pos >= s.len(),
    ensures
        continue_frame(s, pos, f) == Err::<(Datum, int), DecodeError>(DecodeError::UnexpectedEnd),
{
}

/// Inside a container, `e` finishes it.
pub proof fn lemma_continue_close(s: Seq<u8>, pos: int, f: Partial)
    requires
        0 <= pos < s.len(),
        s[pos] == END,
    ensures
        continue_frame(s, pos, f) == match complete(f) {
            Err(e) => Err(e),
            Ok(v) => Ok((v, pos + 1)),
        },
{
}

/// Reading a value inside the innermost container and handing it over.
pub proof fn lemma_resume_value(s: Seq<u8>, pos: int, frames: Seq<Partial>, v: Datum, next: int)
    requires
        frames.len() >= 1,
        0 <= pos < s.len(),
        s[pos] != END,
        parse_value(s, pos) == Ok::<(Datum, int), DecodeError>((v, next)),
    ensures
        resume(s, pos, frames) == match deliver(frames.last(), v) {
            Err(e) => Err(e),
            Ok(g) => resume(s, next, frames.drop_last().push(g)),
        },
{
    lemma_continue_step(s, pos, frames.last());
    if let Ok(g) = deliver(frames.last(), v) {
        let after = frames.drop_last().push(g);
        assert(after.last() == g);
        assert(after.drop_last() =~= frames.drop_last());
    }
}

/// Opening a container inside the innermost one pushes a new frame.
pub proof fn lemma_resume_open(s: Seq<u8>, pos: int, frames: Seq<Partial>, opened: Partial)
    requires
        frames.len() >= 1,
        0 <= pos < s.len(),
        s[pos] == LIST_START && opened == Partial::List(Seq::empty()) || s[pos] == DICT_START
            && opened == Partial::Dict(Seq::empty(), None),
    ensures
        resume(s, pos, frames) == resume(s, pos + 1, frames.push(opened)),
{
    reveal_with_fuel(resume, 2);
    lemma_continue_step(s, pos, frames.last());
    let pushed = frames.push(opened);
    assert(pushed.last() == opened);
    assert(pushed.drop_last() =~= frames);
    assert(parse_value(s, pos) == continue_frame(s, pos + 1, opened));
    if let Ok((v, next)) = parse_value(s, pos) {
        if let Ok(g) = deliver(frames.last(), v) {
            let after = frames.drop_last().push(g);
            assert(after.last() == g);
            assert(after.drop_last() =~= frames.drop_last());
        }
    }
}

/// Reading `e` finishes the innermost container and hands it to the one around it.
pub proof fn lemma_resume_close(s: Seq<u8>, pos: int, frames: Seq<Partial>)
    requires
        frames.len() >= 1,
        0 <= pos < s.len(),
        s[pos] == END,
    ensures
        resume(s, pos, frames) == match complete(frames.last()) {
            Err(e) => Err(e),
            Ok(v) => if frames.len() == 1 {
                Ok((v, pos + 1))
            } else {
                match deliver(frames.drop_last().last(), v) {
                    Err(e) => Err(e),
                    Ok(g) => resume(s, pos + 1, frames.drop_last().drop_last().push(g)),
                }
            },
        },
{
    lemma_continue_close(s, pos, frames.last());
}

/// Inside a container, a byte that starts nothing is an error.
pub proof fn lemma_resume_unknown(s: Seq<u8>, pos: int, frames: Seq<Partial>)
    requires
        frames.len() >= 1,
        0 <= pos < s.len(),
        s[pos] != END,
        !is_digit(s[pos]),
        s[pos] != INT_START,
        s[pos] != LIST_START,
        s[pos] != DICT_START,
    ensures
        resume(s, pos, frames) == Err::<(Datum, int), DecodeError>(DecodeError::UnknownToken),
{
    lemma_continue_step(s, pos, frames.last());
}

/// At the end of the input with a container open, decoding fails.
pub proof fn lemma_resume_at_end(s: Seq<u8>, pos: int, frames: Seq<Partial>)
    requires
        frames.len() >= 1,
        pos >= s.len(),
    ensures
        resume(s, pos, frames) == Err::<(Datum, int), DecodeError>(DecodeError::UnexpectedEnd),
{
    lemma_continue_at_end(s, pos, frames.last());
}

} // verus!
