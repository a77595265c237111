pub mod cursor;
pub mod grammar;
pub mod resume;
pub mod stack;

pub use cursor::Cursor;
pub use stack::{ParseFrame, ParseStack};

use vstd::prelude::*;

use crate::enums::bencode::{BencodeDict, BencodeValue, Datum};
use crate::parser::grammar::{
    DICT_START, DecodeError, END, INT_START, LIST_START, decode, integer_token,
    is_ascii_digit, is_digit, parse_value, string_token,
};
use crate::parser::resume::{
    complete, deliver, lemma_resume_at_end, lemma_resume_close, lemma_resume_open,
    lemma_resume_unknown, lemma_resume_value, lemma_token_progress, resume,
};
use crate::parser::stack::{Partial, frames_model, values_model};

verus! {

/// Parse a complete bencode value from `input`.
/// Returns the root `BencodeValue` and any trailing unconsumed bytes.
///
/// Iterative cursor-based parser with explicit heap-allocated stack.
/// No recursion — arbitrarily deep nesting will not overflow the call stack.
/// All containers (frames, lists, dicts, strings) are heap-allocated.
pub fn parse_bencode(input: &[u8]) -> (r: Result<(BencodeValue, &[u8]), &'static str>)
    ensures
        match decode(input@) {
            Ok((v, n)) => r matches Ok((value, rest)) && value@ == v && rest@ == input@.subrange(
                n,
                input@.len() as int,
            ),
            Err(e) => r == Err::<(BencodeValue, &[u8]), &'static str>(e.message()),
        },
{
    if input.is_empty() {
        return Err("Empty input");
    }
    let ghost s = input@;
    assert(s.len() == input.len());

    // Pre-allocate stack capacity: at most input.len()/2 nested containers.
    let initial_capacity: usize = if input.len() / 8 > 4 {
        input.len() / 8
    } else {
        4
    };
    let mut cursor = Cursor::new(input);
    let mut stack: ParseStack = Vec::with_capacity(initial_capacity);

    // Dispatch the first token before entering the main loop.
    let first_byte: u8 = match cursor.peek() {
        Some(b) => b,
        None => return Err("Empty input"),
    };
    if is_ascii_digit(first_byte) {
        let (value, _) = match read_string_token(&mut cursor) {
            Ok(t) => t,
            Err(e) => return Err(e),
        };
        return Ok((value, cursor.remaining()));
    } else if first_byte == INT_START {
        let value = match read_integer_token(&mut cursor) {
            Ok(v) => v,
            Err(e) => return Err(e),
        };
        return Ok((value, cursor.remaining()));
    } else if first_byte == LIST_START {
        cursor.advance(1);
        stack.push(ParseFrame::List { items: Vec::new() });
    } else if first_byte == DICT_START {
        cursor.advance(1);
        stack.push(ParseFrame::Dict { entries: BencodeDict::new(), pending_key: None });
    } else {
        return Err("Unknown type prefix");
    }
    proof {
        assert(frames_model(stack@) =~= seq![stack@[0].model()]);
        assert(values_model(Seq::<BencodeValue>::empty()) =~= Seq::<Datum>::empty());
        reveal_with_fuel(resume, 2);
    }

    // Main iterative parse loop.
    loop
        invariant
            cursor.data() == s,
            input@ == s,
            s.len() <= usize::MAX,
            0 < cursor.pos() <= s.len(),
            stack@.len() >= 1,
            decode(s) == resume(s, cursor.pos(), frames_model(stack@)),
        decreases s.len() - cursor.pos(),
    {
        let ghost pos: int = cursor.pos();
        let ghost frames = frames_model(stack@);
        if cursor.at_end() {
            proof {
                lemma_resume_at_end(s, pos, frames);
            }
            return Err("Unexpected end of input");
        }
        let byte: u8 = cursor.peek().unwrap();

        if is_ascii_digit(byte) {
            // --- String token ---
            let (value, _) = match read_string_token(&mut cursor) {
                Ok(t) => t,
                Err(e) => {
                    proof {
                        lemma_resume_value_error(s, pos, frames);
                    }
                    return Err(e);
                },
            };
            proof {
                lemma_token_progress(s, pos);
                lemma_resume_value(s, pos, frames, value@, cursor.pos());
            }
            match push_value(&mut stack, value) {
                Ok(()) => {},
                Err(e) => return Err(e),
            }
        } else if byte == INT_START {
            // --- Integer token ---
            let value = match read_integer_token(&mut cursor) {
                Ok(v) => v,
                Err(e) => {
                    proof {
                        lemma_resume_value_error(s, pos, frames);
                    }
                    return Err(e);
                },
            };
            proof {
                lemma_token_progress(s, pos);
                lemma_resume_value(s, pos, frames, value@, cursor.pos());
            }
            match push_value(&mut stack, value) {
                Ok(()) => {},
                Err(e) => return Err(e),
            }
        } else if byte == LIST_START {
            // --- Open list ---
            cursor.advance(1);
            let frame = ParseFrame::List { items: Vec::new() };
            proof {
                assert(values_model(Seq::<BencodeValue>::empty()) =~= Seq::<Datum>::empty());
                lemma_resume_open(s, pos, frames, frame.model());
            }
            stack.push(frame);
            proof {
                assert(frames_model(stack@) =~= frames.push(frame.model()));
            }
        } else if byte == DICT_START {
            // --- Open dict ---
            cursor.advance(1);
            let frame = ParseFrame::Dict { entries: BencodeDict::new(), pending_key: None };
            proof {
                lemma_resume_open(s, pos, frames, frame.model());
            }
            stack.push(frame);
            proof {
                assert(frames_model(stack@) =~= frames.push(frame.model()));
            }
        } else if byte == END {
            // --- Close container ---
            cursor.advance(1);
            proof {
                lemma_resume_close(s, pos, frames);
            }
            let frame = match stack.pop() {
                Some(f) => f,
                None => return Err("Unmatched terminator"),
            };
            proof {
                assert(frames_model(stack@) =~= frames.drop_last());
                assert(frames.last() == frame.model());
            }
            let completed = match complete_frame(frame) {
                Ok(v) => v,
                Err(e) => return Err(e),
            };

            if stack.is_empty() {
                return Ok((completed, cursor.remaining()));
            }
            match push_value(&mut stack, completed) {
                Ok(()) => {},
                Err(e) => return Err(e),
            }
        } else {
            proof {
                lemma_resume_unknown(s, pos, frames);
            }
            return Err("Unknown token in input");
        }
    }
}

/// When the value at `pos` fails to read, so does decoding from there.
proof fn lemma_resume_value_error(s: Seq<u8>, pos: int, frames: Seq<Partial>)
    requires
        frames.len() >= 1,
        0 <= pos < s.len(),
        s[pos] != END,
        parse_value(s, pos) is Err,
    ensures
        resume(s, pos, frames) == Err::<(Datum, int), DecodeError>(parse_value(s, pos)->Err_0),
{
    crate::parser::resume::lemma_continue_step(s, pos, frames.last());
}

/// Reads the byte string that starts at the cursor.
fn read_string_token(cursor: &mut Cursor) -> (r: Result<(BencodeValue, usize), &'static str>)
    requires
        0 <= old(cursor).pos() < old(cursor).data().len(),
        is_digit(old(cursor).data()[old(cursor).pos()]),
    ensures
        final(cursor).data() == old(cursor).data(),
        match string_token(old(cursor).data(), old(cursor).pos()) {
            Ok((v, next)) => r matches Ok((value, _)) && value@ == v && final(cursor).pos() == next,
            Err(e) => r == Err::<(BencodeValue, usize), &'static str>(e.message()),
        },
        parse_value(old(cursor).data(), old(cursor).pos()) == string_token(
            old(cursor).data(),
            old(cursor).pos(),
        ),
{
    proof {
        lemma_token_progress(old(cursor).data(), old(cursor).pos());
    }
    let (len, consumed) = match cursor.parse_length_prefix() {
        Ok(t) => t,
        Err(e) => return Err(e),
    };
    let bytes = match cursor.read_bytes(len) {
        Some(b) => b,
        None => return Err("Truncated string content"),
    };
    Ok((BencodeValue::Str(vstd::slice::slice_to_vec(bytes)), consumed))
}

/// Reads the integer that starts at the cursor.
fn read_integer_token(cursor: &mut Cursor) -> (r: Result<BencodeValue, &'static str>)
    requires
        0 <= old(cursor).pos() < old(cursor).data().len(),
        old(cursor).data()[old(cursor).pos()] == INT_START,
        old(cursor).data().len() <= usize::MAX,
    ensures
        final(cursor).data() == old(cursor).data(),
        match integer_token(old(cursor).data(), old(cursor).pos()) {
            Ok((v, next)) => r matches Ok(value) && value@ == v && final(cursor).pos() == next,
            Err(e) => r == Err::<BencodeValue, &'static str>(e.message()),
        },
        parse_value(old(cursor).data(), old(cursor).pos()) == integer_token(
            old(cursor).data(),
            old(cursor).pos(),
        ),
{
    let num: i128 = match cursor.parse_integer() {
        Ok(n) => n,
        Err(e) => return Err(e),
    };
    Ok(BencodeValue::Int(num))
}

/// Push a completed value onto the top frame of the stack.
fn push_value(stack: &mut ParseStack, value: BencodeValue) -> (r: Result<(), &'static str>)
    ensures
        old(stack)@.len() == 0 ==> r == Err::<(), &'static str>(DecodeError::NoContainer.message())
            && final(stack)@ == old(stack)@,
        old(stack)@.len() > 0 ==> match deliver(frames_model(old(stack)@).last(), value@) {
            Ok(g) => r is Ok && frames_model(final(stack)@) == frames_model(old(stack)@).drop_last().push(g),
            Err(e) => r == Err::<(), &'static str>(e.message()) && frames_model(final(stack)@)
                == frames_model(old(stack)@),
        },
{
    let ghost frames = frames_model(stack@);
    let top = match stack.pop() {
        Some(f) => f,
        None => return Err("No container to append to"),
    };
    proof {
        assert(frames_model(stack@) =~= frames.drop_last());
    }
    match top {
        ParseFrame::List { mut items } => {
            let ghost before = items@;
            items.push(value);
            proof {
                assert(values_model(items@) =~= values_model(before).push(value@));
            }
            let frame = ParseFrame::List { items };
            stack.push(frame);
            proof {
                assert(frames_model(stack@) =~= frames.drop_last().push(frame.model()));
            }
            Ok(())
        },
        ParseFrame::Dict { mut entries, pending_key } => {
            match pending_key {
                Some(key) => {
                    entries.insert(key, value);
                    let frame = ParseFrame::Dict { entries, pending_key: None };
                    stack.push(frame);
                    proof {
                        assert(frames_model(stack@) =~= frames.drop_last().push(frame.model()));
                    }
                    Ok(())
                },
                None => {
                    match value {
                        BencodeValue::Str(bytes) => {
                            let frame = ParseFrame::Dict { entries, pending_key: Some(bytes) };
                            stack.push(frame);
                            proof {
                                assert(frames_model(stack@) =~= frames.drop_last().push(
                                    frame.model(),
                                ));
                            }
                            Ok(())
                        },
                        _ => {
                            let frame = ParseFrame::Dict { entries, pending_key: None };
                            stack.push(frame);
                            proof {
                                assert(frames_model(stack@) =~= frames);
                            }
                            Err("Dictionary key must be a string")
                        },
                    }
                },
            }
        },
    }
}

/// Finalize a popped frame into a `BencodeValue`.
fn complete_frame(frame: ParseFrame) -> (r: Result<BencodeValue, &'static str>)
    ensures
        match complete(frame.model()) {
            Ok(v) => r matches Ok(value) && value@ == v,
            Err(e) => r == Err::<BencodeValue, &'static str>(e.message()),
        },
{
    match frame {
        ParseFrame::List { items } => {
            let value = BencodeValue::List(items);
            proof {
                assert(value@->List_0 =~= values_model(items@));
            }
            Ok(value)
        },
        ParseFrame::Dict { entries, pending_key } => {
            if pending_key.is_some() {
                return Err("Dictionary has unpaired key at end");
            }
            Ok(BencodeValue::Dict(entries))
        },
    }
}

} // verus!
