use vstd::prelude::*;

use crate::encoders::encode::{
    decimal_digits, encode, encode_bytes, encode_entries, encode_int, encode_list,
};
use crate::enums::bencode::{Datum, well_formed};
use crate::enums::dict::{dict_insert, insert_all, keys_sorted, lemma_dict_insert_at};
use crate::parser::grammar::{
    COLON, DICT_START, DIGIT_ZERO, END, INT_START, LIST_START, MINUS, decimal_value, digits_end,
    integer_body, integer_digits_start, is_digit, length_prefix, lemma_digits_end, parse_dict,
    parse_dict_value, parse_list, parse_value,
};

verus! {

/// The decimal digits of `n` are digits, spell `n`, and start with `0` only for `0` itself.
pub proof fn lemma_decimal_digits(n: nat)
    ensures
        decimal_digits(n).len() >= 1,
        forall|k: int| 0 <= k < decimal_digits(n).len() ==> is_digit(#[trigger] decimal_digits(n)[k]),
        decimal_value(decimal_digits(n)) == n,
        decimal_digits(n)[0] == DIGIT_ZERO ==> n == 0 && decimal_digits(n).len() == 1,
    decreases n,
{
    let d = decimal_digits(n);
    if n < 10 {
        assert(d.drop_last() =~= Seq::<u8>::empty());
        assert(decimal_value(Seq::<u8>::empty()) == 0);
        assert(d.last() == (DIGIT_ZERO + n) as u8);
    } else {
        lemma_decimal_digits(n / 10);
        assert(d.drop_last() =~= decimal_digits(n / 10));
        assert(d.last() == (DIGIT_ZERO + n % 10) as u8);
        assert(n == (n / 10) * 10 + n % 10);
        assert(d[0] == decimal_digits(n / 10)[0]);
        if d[0] == DIGIT_ZERO {
            assert(decimal_digits(n / 10).drop_last() =~= Seq::<u8>::empty());
        }
    }
}

/// A piece of a piece of the input is a piece of the input.
proof fn lemma_piece(s: Seq<u8>, p: int, whole: Seq<u8>, off: int, piece: Seq<u8>)
    requires
        0 <= p,
        p + whole.len() <= s.len(),
        s.subrange(p, p + whole.len()) == whole,
        0 <= off,
        off + piece.len() <= whole.len(),
        whole.subrange(off, off + piece.len()) == piece,
    ensures
        s.subrange(p + off, p + off + piece.len()) == piece,
        forall|k: int| 0 <= k < piece.len() ==> s[p + off + k] == #[trigger] piece[k],
{
    assert forall|k: int| 0 <= k < piece.len() implies s[p + off + k] == #[trigger] piece[k] by {
        assert(piece[k] == whole.subrange(off, off + piece.len())[k]);
        assert(whole[off + k] == s.subrange(p, p + whole.len())[off + k]);
    }
    assert(s.subrange(p + off, p + off + piece.len()) =~= piece);
}

/// A run of digits read from the input is the number those digits spell.
pub proof fn lemma_read_digits(s: Seq<u8>, q: int, digits: Seq<u8>)
    requires
        0 <= q,
        q + digits.len() < s.len(),
        s.subrange(q, q + digits.len()) == digits,
        forall|k: int| 0 <= k < digits.len() ==> is_digit(#[trigger] digits[k]),
        !is_digit(s[q + digits.len()]),
    ensures
        digits_end(s, q) == q + digits.len(),
        s.subrange(q, digits_end(s, q)) == digits,
{
    assert forall|k: int| q <= k < q + digits.len() implies is_digit(#[trigger] s[k]) by {
        assert(s[k] == s.subrange(q, q + digits.len())[k - q]);
    }
    lemma_digits_end(s, q, q + digits.len());
}

/// The first byte of an encoding exists and is not `e`.
pub proof fn lemma_encode_first(d: Datum)
    ensures
        encode(d).len() >= 1,
        encode(d)[0] != END,
        encode(d)[0] == INT_START || encode(d)[0] == LIST_START || encode(d)[0] == DICT_START
            || is_digit(encode(d)[0]),
{
    match d {
        Datum::Bytes(b) => {
            lemma_decimal_digits(b.len());
        },
        _ => {},
    }
}

/// An encoded byte string reads back as itself.
pub proof fn lemma_parse_encoded_bytes(b: Seq<u8>, s: Seq<u8>, p: int)
    requires
        b.len() <= usize::MAX,
        0 <= p,
        p + encode_bytes(b).len() <= s.len(),
        s.subrange(p, p + encode_bytes(b).len()) == encode_bytes(b),
    ensures
        parse_value(s, p) == Ok::<(Datum, int), crate::parser::grammar::DecodeError>(
            (Datum::Bytes(b), p + encode_bytes(b).len()),
        ),
{
    let e = encode_bytes(b);
    let digits = decimal_digits(b.len());
    lemma_decimal_digits(b.len());
    assert(e.subrange(0, digits.len() as int) =~= digits);
    lemma_piece(s, p, e, 0, digits);
    assert(e[digits.len() as int] == COLON);
    assert(s[p + digits.len()] == e[digits.len() as int]);
    lemma_read_digits(s, p, digits);
    assert(s[p] == digits[0]);
    assert(e.subrange(digits.len() as int + 1, e.len() as int) =~= b);
    lemma_piece(s, p, e, digits.len() as int + 1, b);
    assert(length_prefix(s, p) == Ok::<(nat, int), crate::parser::grammar::DecodeError>(
        (b.len(), p + digits.len() + 1),
    ));
}

/// An encoded integer whose magnitude fits in an `i128` reads back as itself.
pub proof fn lemma_parse_encoded_int(i: int, s: Seq<u8>, p: int)
    requires
        -i128::MAX <= i <= i128::MAX,
        0 <= p,
        p + encode_int(i).len() <= s.len(),
        s.subrange(p, p + encode_int(i).len()) == encode_int(i),
    ensures
        parse_value(s, p) == Ok::<(Datum, int), crate::parser::grammar::DecodeError>(
            (Datum::Int(i), p + encode_int(i).len()),
        ),
{
    let e = encode_int(i);
    let n: nat = if i < 0 {
        (-i) as nat
    } else {
        i as nat
    };
    let digits = decimal_digits(n);
    lemma_decimal_digits(n);
    let off: int = if i < 0 {
        2
    } else {
        1
    };
    assert(e.len() == off + digits.len() + 1);
    assert(e.subrange(off, off + digits.len()) =~= digits);
    lemma_piece(s, p, e, off, digits);
    assert(s[p] == e[0]);
    assert(s[p + 1] == e[1]);
    assert(s[p + off + digits.len()] == e[off + digits.len()]);
    assert(e[off + digits.len()] == END);
    if i < 0 {
        assert(e[1] == MINUS);
    } else {
        assert(e[1] == digits[0]);
    }
    assert(integer_digits_start(s, p) == p + off);
    lemma_read_digits(s, p + off, digits);
    if digits[0] == DIGIT_ZERO {
        assert(s[p + off + 1] == END);
    }
    assert(integer_body(s, p) == Ok::<(int, int), crate::parser::grammar::DecodeError>(
        (i, p + e.len()),
    ));
}

/// An encoded well-formed value reads back as itself, whatever follows it.
pub proof fn lemma_parse_encoded(d: Datum, s: Seq<u8>, p: int)
    requires
        well_formed(d),
        0 <= p,
        p + encode(d).len() <= s.len(),
        s.subrange(p, p + encode(d).len()) == encode(d),
    ensures
        parse_value(s, p) == Ok::<(Datum, int), crate::parser::grammar::DecodeError>(
            (d, p + encode(d).len()),
        ),
    decreases d,
{
    match d {
        Datum::Int(i) => {
            lemma_parse_encoded_int(i, s, p);
        },
        Datum::Bytes(b) => {
            lemma_parse_encoded_bytes(b, s, p);
        },
        Datum::List(items) => {
            let e = encode(d);
            let body = encode_list(items);
            assert(e =~= seq![LIST_START] + body + seq![END]);
            assert(e.subrange(1, 1 + body.len() as int) =~= body);
            lemma_piece(s, p, e, 1, body);
            assert(s[p] == e[0]);
            assert(s[p + 1 + body.len()] == e[1 + body.len() as int]);
            lemma_parse_encoded_list(items, Seq::empty(), s, p + 1);
            assert(Seq::<Datum>::empty() + items =~= items);
        },
        Datum::Dict(entries) => {
            let e = encode(d);
            let body = encode_entries(entries);
            assert(e =~= seq![DICT_START] + body + seq![END]);
            assert(e.subrange(1, 1 + body.len() as int) =~= body);
            lemma_piece(s, p, e, 1, body);
            assert(s[p] == e[0]);
            assert(s[p + 1 + body.len()] == e[1 + body.len() as int]);
            assert(Seq::<(Seq<u8>, Datum)>::empty() + entries =~= entries);
            lemma_parse_encoded_entries(entries, Seq::empty(), s, p + 1);
        },
    }
}

/// Encoded list items followed by `e` read back as the rest of the list.
proof fn lemma_parse_encoded_list(items: Seq<Datum>, acc: Seq<Datum>, s: Seq<u8>, q: int)
    requires
        forall|k: int| 0 <= k < items.len() ==> well_formed(#[trigger] items[k]),
        0 <= q,
        q + encode_list(items).len() < s.len(),
        s.subrange(q, q + encode_list(items).len()) == encode_list(items),
        s[q + encode_list(items).len()] == END,
    ensures
        parse_list(s, q, acc) == Ok::<(Datum, int), crate::parser::grammar::DecodeError>(
            (Datum::List(acc + items), q + encode_list(items).len() + 1),
        ),
    decreases items,
{
    if items.len() == 0 {
        assert(acc + items =~= acc);
    } else {
        let first = encode(items[0]);
        let rest = items.drop_first();
        let body = encode_list(items);
        assert(body =~= first + encode_list(rest));
        assert(body.subrange(0, first.len() as int) =~= first);
        lemma_piece(s, q, body, 0, first);
        assert(body.subrange(first.len() as int, body.len() as int) =~= encode_list(rest));
        lemma_piece(s, q, body, first.len() as int, encode_list(rest));
        lemma_encode_first(items[0]);
        assert(s[q] == first[0]);
        lemma_parse_encoded(items[0], s, q);
        assert forall|k: int| 0 <= k < rest.len() implies well_formed(#[trigger] rest[k]) by {
            assert(rest[k] == items[k + 1]);
        }
        lemma_parse_encoded_list(rest, acc.push(items[0]), s, q + first.len());
        assert(acc.push(items[0]) + rest =~= acc + items);
    }
}

/// Encoded dictionary pairs, in any key order, followed by `e` read back as the pairs
/// stored one after the other into the dictionary read so far.
pub proof fn lemma_parse_encoded_pairs(
    pairs: Seq<(Seq<u8>, Datum)>,
    acc: Seq<(Seq<u8>, Datum)>,
    s: Seq<u8>,
    q: int,
)
    requires
        forall|k: int|
            0 <= k < pairs.len() ==> (#[trigger] pairs[k]).0.len() <= usize::MAX && well_formed(
                pairs[k].1,
            ),
        0 <= q,
        q + encode_entries(pairs).len() < s.len(),
        s.subrange(q, q + encode_entries(pairs).len()) == encode_entries(pairs),
        s[q + encode_entries(pairs).len()] == END,
    ensures
        parse_dict(s, q, acc) == Ok::<(Datum, int), crate::parser::grammar::DecodeError>(
            (Datum::Dict(insert_all(acc, pairs)), q + encode_entries(pairs).len() + 1),
        ),
    decreases pairs.len(),
{
    if pairs.len() > 0 {
        let (key, value) = pairs[0];
        let ek = encode_bytes(key);
        let ev = encode(value);
        let rest = pairs.drop_first();
        let body = encode_entries(pairs);
        assert(body =~= ek + ev + encode_entries(rest));
        assert(body.subrange(0, ek.len() as int) =~= ek);
        lemma_piece(s, q, body, 0, ek);
        assert(body.subrange(ek.len() as int, ek.len() as int + ev.len()) =~= ev);
        lemma_piece(s, q, body, ek.len() as int, ev);
        assert(body.subrange(ek.len() as int + ev.len(), body.len() as int) =~= encode_entries(rest));
        lemma_piece(s, q, body, ek.len() as int + ev.len(), encode_entries(rest));
        lemma_decimal_digits(key.len());
        assert(s[q] == ek[0]);
        lemma_parse_encoded_bytes(key, s, q);
        let q1: int = q + ek.len();
        lemma_encode_first(value);
        assert(s[q1] == ev[0]);
        lemma_parse_encoded(value, s, q1);
        let q2: int = q1 + ev.len();
        assert forall|k: int| 0 <= k < rest.len() implies (#[trigger] rest[k]).0.len()
            <= usize::MAX && well_formed(rest[k].1) by {
            assert(rest[k] == pairs[k + 1]);
        }
        lemma_parse_encoded_pairs(rest, dict_insert(acc, key, value), s, q2);
        assert(parse_dict_value(s, q1, acc, key) == parse_dict(
            s,
            q2,
            dict_insert(acc, key, value),
        ));
    }
}

/// Encoded dictionary pairs followed by `e` read back as the rest of the dictionary.
proof fn lemma_parse_encoded_entries(
    entries: Seq<(Seq<u8>, Datum)>,
    acc: Seq<(Seq<u8>, Datum)>,
    s: Seq<u8>,
    q: int,
)
    requires
        keys_sorted(acc + entries),
        forall|k: int|
            0 <= k < entries.len() ==> (#[trigger] entries[k]).0.len() <= usize::MAX && well_formed(
                entries[k].1,
            ),
        0 <= q,
        q + encode_entries(entries).len() < s.len(),
        s.subrange(q, q + encode_entries(entries).len()) == encode_entries(entries),
        s[q + encode_entries(entries).len()] == END,
    ensures
        parse_dict(s, q, acc) == Ok::<(Datum, int), crate::parser::grammar::DecodeError>(
            (Datum::Dict(acc + entries), q + encode_entries(entries).len() + 1),
        ),
    decreases entries,
{
    if entries.len() == 0 {
        assert(acc + entries =~= acc);
    } else {
        let (key, value) = entries[0];
        let ek = encode_bytes(key);
        let ev = encode(value);
        let rest = entries.drop_first();
        let body = encode_entries(entries);
        assert(body =~= ek + ev + encode_entries(rest));
        assert(body.subrange(0, ek.len() as int) =~= ek);
        lemma_piece(s, q, body, 0, ek);
        assert(body.subrange(ek.len() as int, ek.len() as int + ev.len()) =~= ev);
        lemma_piece(s, q, body, ek.len() as int, ev);
        assert(body.subrange(ek.len() as int + ev.len(), body.len() as int) =~= encode_entries(rest));
        lemma_piece(s, q, body, ek.len() as int + ev.len(), encode_entries(rest));
        lemma_decimal_digits(key.len());
        assert(s[q] == ek[0]);
        lemma_parse_encoded_bytes(key, s, q);
        let q1: int = q + ek.len();
        lemma_encode_first(value);
        assert(s[q1] == ev[0]);
        lemma_parse_encoded(value, s, q1);
        let q2: int = q1 + ev.len();
        assert forall|j: int| 0 <= j < acc.len() implies crate::enums::order::bytes_lt(
            #[trigger] acc[j].0,
            key,
        ) by {
            assert((acc + entries)[j] == acc[j]);
            assert((acc + entries)[acc.len() as int] == entries[0]);
        }
        lemma_dict_insert_at(acc, key, value, acc.len() as int);
        assert(acc.insert(acc.len() as int, (key, value)) =~= acc.push((key, value)));
        assert(dict_insert(acc, key, value) == acc.push((key, value)));
        assert(acc.push((key, value)) + rest =~= acc + entries);
        assert forall|k: int| 0 <= k < rest.len() implies (#[trigger] rest[k]).0.len()
            <= usize::MAX && well_formed(rest[k].1) by {
            assert(rest[k] == entries[k + 1]);
        }
        lemma_parse_encoded_entries(rest, acc.push((key, value)), s, q2);
        assert(parse_dict_value(s, q1, acc, key) == parse_dict(
            s,
            q2,
            dict_insert(acc, key, value),
        ));
    }
}

} // verus!
