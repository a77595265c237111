use vstd::prelude::*;

use crate::encoders::encode::{encode, encode_bytes, encode_entries, lemma_encode_entries_push};
use crate::encoders::roundtrip::{
    lemma_decimal_digits, lemma_encode_first, lemma_parse_encoded, lemma_parse_encoded_pairs,
    lemma_read_digits,
};
use crate::enums::bencode::{Datum, well_formed};
use crate::enums::dict::{
    dict_insert, dict_lookup, insert_all, keys_sorted, lemma_dict_insert_sorted,
};
use crate::enums::order::{bytes_lt, lemma_bytes_lt_irreflexive, lemma_bytes_lt_skip, lemma_common_prefix};
use crate::parser::grammar::{
    COLON, DIGIT_ZERO, INT_START, MINUS, decimal_value,
    DICT_START, DecodeError, END, LIST_START, decode, digits_end, integer_body,
    integer_digits_start, integer_token, is_digit, length_prefix, lemma_digits_end, parse_dict,
    parse_dict_value, parse_list, parse_value, string_token,
};
use crate::parser::resume::lemma_digits_end_bounds;

verus! {

/// Dictionary keys are ordered as unsigned byte strings, compared lexicographically: `a`
/// sorts before `b` exactly when, after their longest common prefix, either `a` has ended
/// and `b` has not, or the next byte of `a` is the smaller one as a number from 0 to 255.
pub proof fn law_key_order_is_unsigned_lexicographic(a: Seq<u8>, b: Seq<u8>)
    ensures
        bytes_lt(a, b) <==> exists|i: int|
            #![trigger a.take(i), b.take(i)]
            0 <= i <= a.len() && i <= b.len() && a.take(i) == b.take(i) && ((i == a.len() && i
                < b.len()) || (i < a.len() && i < b.len() && (a[i] as int) < (b[i] as int))),
{
    let i = lemma_common_prefix(a, b);
    lemma_bytes_lt_skip(a, b, i);
    let (x, y) = (a.skip(i), b.skip(i));
    if i < a.len() {
        assert(x[0] == a[i]);
    }
    if i < b.len() {
        assert(y[0] == b[i]);
    }
    if exists|j: int|
        #![trigger a.take(j), b.take(j)]
        0 <= j <= a.len() && j <= b.len() && a.take(j) == b.take(j) && ((j == a.len() && j
            < b.len()) || (j < a.len() && j < b.len() && (a[j] as int) < (b[j] as int))) {
        let j = choose|j: int|
            #![trigger a.take(j), b.take(j)]
            0 <= j <= a.len() && j <= b.len() && a.take(j) == b.take(j) && ((j == a.len() && j
                < b.len()) || (j < a.len() && j < b.len() && (a[j] as int) < (b[j] as int)));
        lemma_bytes_lt_skip(a, b, j);
        if j < a.len() {
            assert(a.skip(j)[0] == a[j]);
            assert(b.skip(j)[0] == b[j]);
        }
    }
}

/// A byte string is written as its length in plain base ten, a colon, and its bytes: the
/// digits before the colon spell the length, and none of them is a leading zero (a `0`
/// comes first only for the empty string, as `0:`).
pub proof fn law_string_length_is_canonical(b: Seq<u8>)
    ensures
        ({
            let e = encode(Datum::Bytes(b));
            let k: int = e.len() - b.len() - 1;
            &&& k >= 1
            &&& e.skip(k + 1) == b
            &&& e[k] == COLON
            &&& forall|m: int| 0 <= m < k ==> is_digit(#[trigger] e[m])
            &&& decimal_value(e.take(k)) == b.len()
            &&& e[0] == DIGIT_ZERO ==> b.len() == 0 && k == 1
        }),
{
    let e = encode(Datum::Bytes(b));
    let d = crate::encoders::encode::decimal_digits(b.len());
    lemma_decimal_digits(b.len());
    let k: int = e.len() - b.len() - 1;
    assert(k == d.len());
    assert(e.take(k) =~= d);
    assert(e.skip(k + 1) =~= b);
    assert forall|m: int| 0 <= m < k implies is_digit(#[trigger] e[m]) by {
        assert(e[m] == d[m]);
    }
    assert(e[0] == d[0]);
}

/// An integer is written as `i`, a `-` exactly when it is negative, its magnitude in plain
/// base ten with no leading zero, and `e`.
pub proof fn law_integer_is_canonical(i: int)
    ensures
        ({
            let e = encode(Datum::Int(i));
            let q: int = if i < 0 { 2 } else { 1 };
            let n: int = if i < 0 { -i } else { i };
            &&& e.len() >= q + 2
            &&& e[0] == INT_START
            &&& (i < 0 ==> e[1] == MINUS)
            &&& e.last() == END
            &&& forall|m: int| q <= m < e.len() - 1 ==> is_digit(#[trigger] e[m])
            &&& decimal_value(e.subrange(q, e.len() - 1)) == n
            &&& e[q] == DIGIT_ZERO ==> i == 0 && e.len() == 3
        }),
{
    let e = encode(Datum::Int(i));
    let q: int = if i < 0 { 2 } else { 1 };
    let n: nat = if i < 0 { (-i) as nat } else { i as nat };
    let d = crate::encoders::encode::decimal_digits(n);
    lemma_decimal_digits(n);
    assert(e.len() == q + d.len() + 1);
    assert(e.subrange(q, e.len() - 1) =~= d);
    assert forall|m: int| q <= m < e.len() - 1 implies is_digit(#[trigger] e[m]) by {
        assert(e[m] == d[m - q]);
    }
    assert(e[q] == d[0]);
}

/// No pair after the `j`-th has the same key: the `j`-th pair is the last one written for
/// its key.
pub open spec fn last_of_its_key(pairs: Seq<(Seq<u8>, Datum)>, j: int) -> bool {
    forall|m: int| j < m < pairs.len() ==> (#[trigger] pairs[m]).0 != pairs[j].0
}

/// Decoding a dictionary pairs every key with the value written right after it, whatever
/// order the keys come in: each key looks up the value of the last pair written for it
/// (so with distinct keys, every key its own value), and no other key is present.
pub proof fn law_decoded_dict_pairs_keys_with_their_values(
    pairs: Seq<(Seq<u8>, Datum)>,
    rest: Seq<u8>,
)
    requires
        forall|k: int|
            0 <= k < pairs.len() ==> (#[trigger] pairs[k]).0.len() <= usize::MAX && well_formed(
                pairs[k].1,
            ),
    ensures
        ({
            let body = encode_entries(pairs);
            let s = seq![DICT_START] + body + seq![END] + rest;
            &&& decode(s) matches Ok((Datum::Dict(entries), n))
            &&& n == body.len() + 2
            &&& forall|j: int|
                0 <= j < pairs.len() && last_of_its_key(pairs, j) ==> dict_lookup(
                    entries,
                    (#[trigger] pairs[j]).0,
                ) == Some(pairs[j].1)
            &&& forall|key: Seq<u8>|
                (forall|j: int| 0 <= j < pairs.len() ==> (#[trigger] pairs[j]).0 != key)
                    ==> dict_lookup(entries, key) is None
        }),
{
    let body = encode_entries(pairs);
    let s = seq![DICT_START] + body + seq![END] + rest;
    assert(s.subrange(1, 1 + body.len() as int) =~= body);
    assert(s[1 + body.len() as int] == END);
    lemma_parse_encoded_pairs(pairs, Seq::empty(), s, 1);
    let entries = insert_all(Seq::empty(), pairs);
    assert(decode(s) == parse_value(s, 0));
    assert forall|j: int|
        0 <= j < pairs.len() && last_of_its_key(pairs, j) implies dict_lookup(
        entries,
        (#[trigger] pairs[j]).0,
    ) == Some(pairs[j].1) by {
        lemma_insert_all_lookup_last(Seq::empty(), pairs, j);
    }
    assert forall|key: Seq<u8>|
        (forall|j: int| 0 <= j < pairs.len() ==> (#[trigger] pairs[j]).0 != key) implies dict_lookup(
        entries,
        key,
    ) is None by {
        lemma_insert_all_lookup_other(Seq::empty(), pairs, key);
    }
}

/// Storing pairs none of which has `key` leaves what `key` looks up unchanged.
proof fn lemma_insert_all_lookup_other(
    entries: Seq<(Seq<u8>, Datum)>,
    pairs: Seq<(Seq<u8>, Datum)>,
    key: Seq<u8>,
)
    requires
        forall|j: int| 0 <= j < pairs.len() ==> (#[trigger] pairs[j]).0 != key,
    ensures
        dict_lookup(insert_all(entries, pairs), key) == dict_lookup(entries, key),
    decreases pairs.len(),
{
    if pairs.len() > 0 {
        let rest = pairs.drop_first();
        assert(pairs[0].0 != key);
        law_lookup_other_after_insert(entries, pairs[0].0, pairs[0].1, key);
        assert forall|j: int| 0 <= j < rest.len() implies (#[trigger] rest[j]).0 != key by {
            assert(rest[j] == pairs[j + 1]);
        }
        lemma_insert_all_lookup_other(dict_insert(entries, pairs[0].0, pairs[0].1), rest, key);
    }
}

/// After storing pairs in turn, the key of the last pair written for it looks up that
/// pair's value.
proof fn lemma_insert_all_lookup_last(
    entries: Seq<(Seq<u8>, Datum)>,
    pairs: Seq<(Seq<u8>, Datum)>,
    j: int,
)
    requires
        0 <= j < pairs.len(),
        last_of_its_key(pairs, j),
    ensures
        dict_lookup(insert_all(entries, pairs), pairs[j].0) == Some(pairs[j].1),
    decreases pairs.len(),
{
    let rest = pairs.drop_first();
    let next = dict_insert(entries, pairs[0].0, pairs[0].1);
    if j == 0 {
        law_lookup_after_insert(entries, pairs[0].0, pairs[0].1);
        assert forall|m: int| 0 <= m < rest.len() implies (#[trigger] rest[m]).0 != pairs[0].0 by {
            assert(rest[m] == pairs[m + 1]);
        }
        lemma_insert_all_lookup_other(next, rest, pairs[0].0);
    } else {
        assert(rest[j - 1] == pairs[j]);
        assert forall|m: int| j - 1 < m < rest.len() implies (#[trigger] rest[m]).0 != rest[j
            - 1].0 by {
            assert(rest[m] == pairs[m + 1]);
        }
        lemma_insert_all_lookup_last(next, rest, j - 1);
    }
}

/// Where each pair of a dictionary's encoding starts: the `j`-th pair (in key order) takes
/// the bytes from `pair_offsets(entries)[j]` to `pair_offsets(entries)[j + 1]`.
pub open spec fn pair_offsets(entries: Seq<(Seq<u8>, Datum)>) -> Seq<int> {
    Seq::new((entries.len() + 1) as nat, |j: int| 1 + encode_entries(entries.take(j)).len() as int)
}

/// A dictionary is written as `d`, then its pairs one after the other, each key followed by
/// its value, in strictly increasing unsigned byte order of the keys, then `e`.
pub proof fn law_dict_written_in_key_order(entries: Seq<(Seq<u8>, Datum)>)
    requires
        well_formed(Datum::Dict(entries)),
    ensures
        ({
            let e = encode(Datum::Dict(entries));
            let p = pair_offsets(entries);
            &&& e[0] == DICT_START
            &&& e.last() == END
            &&& forall|i: int, j: int|
                0 <= i < j < entries.len() ==> bytes_lt(#[trigger] entries[i].0, #[trigger] entries[j].0)
            &&& p.len() == entries.len() + 1
            &&& p[0] == 1
            &&& p[entries.len() as int] == e.len() - 1
            &&& forall|j: int| 0 <= j < entries.len() ==> p[j] <= #[trigger] p[j + 1]
            &&& forall|j: int|
                0 <= j < entries.len() ==> e.subrange(p[j], p[j + 1]) == encode_bytes(
                    (#[trigger] entries[j]).0,
                ) + encode(entries[j].1)
        }),
{
    let e = encode(Datum::Dict(entries));
    let n = entries.len() as int;
    let p = pair_offsets(entries);
    assert(entries.take(0) =~= Seq::<(Seq<u8>, Datum)>::empty());
    assert(encode_entries(Seq::<(Seq<u8>, Datum)>::empty()) == Seq::<u8>::empty());
    assert(entries.take(n) =~= entries);
    assert(e =~= seq![DICT_START] + encode_entries(entries) + seq![END]);
    assert forall|j: int| 0 <= j < entries.len() implies p[j] <= #[trigger] p[j + 1] by {
        lemma_pair_in_encoding(entries, j);
    }
    assert forall|j: int| 0 <= j < entries.len() implies e.subrange(p[j], p[j + 1])
        == encode_bytes((#[trigger] entries[j]).0) + encode(entries[j].1) by {
        lemma_pair_in_encoding(entries, j);
    }
    assert(e[0] == DICT_START);
    assert(e.last() == END);
    assert(p.len() == n + 1);
    assert(p[0] == 1);
    assert(p[n] == e.len() - 1);
    assert(keys_sorted(entries));
}

/// The `j`-th pair of a dictionary is written between its offsets.
proof fn lemma_pair_in_encoding(entries: Seq<(Seq<u8>, Datum)>, j: int)
    requires
        0 <= j < entries.len(),
    ensures
        pair_offsets(entries)[j] <= pair_offsets(entries)[j + 1],
        encode(Datum::Dict(entries)).subrange(pair_offsets(entries)[j], pair_offsets(entries)[j + 1])
            == encode_bytes(entries[j].0) + encode(entries[j].1),
{
    let e = encode(Datum::Dict(entries));
    let p = pair_offsets(entries);
    assert(e =~= seq![DICT_START] + encode_entries(entries) + seq![END]);
    lemma_encode_entries_prefix(entries, j);
    assert(entries.take(j + 1) =~= entries.take(j).push(entries[j]));
    lemma_encode_entries_push(entries.take(j), entries[j]);
    lemma_encode_entries_prefix(entries, j + 1);
    let pre = encode_entries(entries.take(j));
    let pair = encode_bytes(entries[j].0) + encode(entries[j].1);
    let whole = encode_entries(entries);
    assert(p[j] == 1 + pre.len());
    assert(p[j + 1] == 1 + pre.len() + pair.len());
    let m: int = (pre.len() + pair.len()) as int;
    assert(encode_entries(entries.take(j + 1)) == pre + pair);
    assert(m <= whole.len());
    assert(whole.subrange(0, m) == pre + pair);
    assert forall|k: int| 0 <= k < pair.len() implies e.subrange(p[j], p[j + 1])[k] == pair[k] by {
        assert(e[1 + pre.len() + k] == whole[pre.len() + k]);
        assert(whole[pre.len() + k] == whole.subrange(0, m)[pre.len() + k]);
        assert((pre + pair)[pre.len() + k] == pair[k]);
    }
    assert(e.subrange(p[j], p[j + 1]) =~= pair);
}

/// The encoding of the first `j` pairs is the start of the encoding of all of them.
proof fn lemma_encode_entries_prefix(entries: Seq<(Seq<u8>, Datum)>, j: int)
    requires
        0 <= j <= entries.len(),
    ensures
        encode_entries(entries.take(j)).len() <= encode_entries(entries).len(),
        encode_entries(entries).subrange(0, encode_entries(entries.take(j)).len() as int)
            == encode_entries(entries.take(j)),
    decreases entries.len() - j,
{
    if j == entries.len() {
        assert(entries.take(j) =~= entries);
        assert(encode_entries(entries).subrange(0, encode_entries(entries).len() as int)
            =~= encode_entries(entries));
    } else {
        lemma_encode_entries_prefix(entries, j + 1);
        assert(entries.take(j + 1) =~= entries.take(j).push(entries[j]));
        lemma_encode_entries_push(entries.take(j), entries[j]);
        let a = encode_entries(entries.take(j));
        let b = encode_entries(entries.take(j + 1));
        let w = encode_entries(entries);
        assert(w.subrange(0, a.len() as int) =~= b.subrange(0, a.len() as int));
        assert(b.subrange(0, a.len() as int) =~= a);
    }
}

/// A byte string is read by its length prefix, whatever decimal digits spell that length,
/// leading zeros included: the digits, a colon, then exactly that many bytes.
pub proof fn law_string_read_by_its_length(digits: Seq<u8>, b: Seq<u8>, rest: Seq<u8>)
    requires
        digits.len() >= 1,
        forall|k: int| 0 <= k < digits.len() ==> is_digit(#[trigger] digits[k]),
        decimal_value(digits) == b.len(),
        b.len() <= usize::MAX,
    ensures
        decode(digits + seq![COLON] + b + rest) == Ok::<(Datum, int), DecodeError>(
            (Datum::Bytes(b), (digits.len() + 1 + b.len()) as int),
        ),
{
    let s = digits + seq![COLON] + b + rest;
    let q: int = digits.len() as int;
    assert(s.subrange(0, q) =~= digits);
    assert(s[q] == COLON);
    lemma_read_digits(s, 0, digits);
    assert(s[0] == digits[0]);
    assert(s.subrange(q + 1, q + 1 + b.len()) =~= b);
    assert(length_prefix(s, 0) == Ok::<(nat, int), DecodeError>((b.len(), q + 1)));
}

/// Decoding gives back what encoding wrote, for every value the decoder can produce,
/// whatever bytes follow the encoding; the rest of the input is left unread.
pub proof fn law_decode_inverts_encode(d: Datum, rest: Seq<u8>)
    requires
        well_formed(d),
    ensures
        decode(encode(d) + rest) == Ok::<(Datum, int), DecodeError>((d, encode(d).len() as int)),
{
    let s = encode(d) + rest;
    assert(s.subrange(0, encode(d).len() as int) =~= encode(d));
    lemma_encode_first(d);
    assert(s[0] == encode(d)[0]);
    lemma_parse_encoded(d, s, 0);
}

/// Every decoded value is well formed (in particular, every decoded dictionary has strictly
/// increasing keys), and it takes a non-empty prefix of the input.
pub proof fn law_decoded_values_well_formed(s: Seq<u8>)
    ensures
        decode(s) matches Ok((v, n)) ==> well_formed(v) && 0 < n <= s.len(),
{
    if s.len() > 0 {
        lemma_value_well_formed(s, 0);
    }
}

/// After a key is stored, looking it up gives the stored value.
pub proof fn law_lookup_after_insert(
    entries: Seq<(Seq<u8>, Datum)>,
    key: Seq<u8>,
    value: Datum,
)
    ensures
        dict_lookup(dict_insert(entries, key, value), key) == Some(value),
    decreases entries.len(),
{
    if entries.len() > 0 && bytes_lt(entries[0].0, key) {
        law_lookup_after_insert(entries.drop_first(), key, value);
        lemma_bytes_lt_irreflexive(key);
        let r = dict_insert(entries, key, value);
        assert(r.drop_first() =~= dict_insert(entries.drop_first(), key, value));
    }
}

/// Storing a key leaves what every other key looks up unchanged.
pub proof fn law_lookup_other_after_insert(
    entries: Seq<(Seq<u8>, Datum)>,
    key: Seq<u8>,
    value: Datum,
    other: Seq<u8>,
)
    requires
        other != key,
    ensures
        dict_lookup(dict_insert(entries, key, value), other) == dict_lookup(entries, other),
    decreases entries.len(),
{
    let r = dict_insert(entries, key, value);
    if entries.len() == 0 {
        assert(r.drop_first() =~= Seq::<(Seq<u8>, Datum)>::empty());
        assert(dict_lookup(Seq::<(Seq<u8>, Datum)>::empty(), other) is None);
    } else if bytes_lt(entries[0].0, key) {
        law_lookup_other_after_insert(entries.drop_first(), key, value, other);
        assert(r.drop_first() =~= dict_insert(entries.drop_first(), key, value));
    } else if entries[0].0 == key {
        assert(r.drop_first() =~= entries.drop_first());
    } else {
        assert(r.drop_first() =~= entries);
    }
}

/// Storing a key keeps the keys of a dictionary strictly increasing.
pub proof fn law_insert_keeps_keys_sorted(
    entries: Seq<(Seq<u8>, Datum)>,
    key: Seq<u8>,
    value: Datum,
)
    requires
        keys_sorted(entries),
    ensures
        keys_sorted(dict_insert(entries, key, value)),
{
    lemma_dict_insert_sorted(entries, key, value);
}

/// Decoding reads nothing past the value it returns: whatever bytes follow those it took,
/// the same value comes back from the same number of bytes.
pub proof fn law_decode_ignores_trailing_bytes(s: Seq<u8>, t: Seq<u8>)
    ensures
        decode(s) matches Ok((v, n)) ==> decode(s.take(n) + t) == Ok::<(Datum, int), DecodeError>(
            (v, n),
        ),
{
    if let Ok((v, n)) = decode(s) {
        law_decoded_values_well_formed(s);
        let s2 = s.take(n) + t;
        assert(s2[0] == s[0]);
        lemma_value_local(s, s2, 0);
    }
}

/// Decoding never fails for want of an open container: "Unmatched terminator" and "No
/// container to append to" never come back from it.
pub proof fn law_decode_keeps_its_container(s: Seq<u8>)
    ensures
        decode(s) matches Err(e) ==> e != DecodeError::UnmatchedTerminator && e
            != DecodeError::NoContainer,
{
    if s.len() > 0 {
        lemma_value_no_stack_error(s, 0);
    }
}

/// The failure, if any, is not one of the two that concern the stack of containers.
spec fn no_stack_error(r: Result<(Datum, int), DecodeError>) -> bool {
    r matches Err(e) ==> e != DecodeError::UnmatchedTerminator && e != DecodeError::NoContainer
}

proof fn lemma_value_no_stack_error(s: Seq<u8>, pos: int)
    ensures
        no_stack_error(parse_value(s, pos)),
    decreases s.len() - pos, 0int,
{
    if 0 <= pos < s.len() {
        if s[pos] == LIST_START {
            lemma_list_no_stack_error(s, pos + 1, Seq::empty());
        } else if s[pos] == DICT_START {
            lemma_dict_no_stack_error(s, pos + 1, Seq::empty());
        }
    }
}

proof fn lemma_list_no_stack_error(s: Seq<u8>, pos: int, items: Seq<Datum>)
    ensures
        no_stack_error(parse_list(s, pos, items)),
    decreases s.len() - pos, 1int,
{
    if 0 <= pos < s.len() && s[pos] != END {
        crate::parser::resume::lemma_parse_value_progress(s, pos);
        lemma_value_no_stack_error(s, pos);
        if let Ok((v, next)) = parse_value(s, pos) {
            lemma_list_no_stack_error(s, next, items.push(v));
        }
    }
}

proof fn lemma_dict_no_stack_error(s: Seq<u8>, pos: int, entries: Seq<(Seq<u8>, Datum)>)
    ensures
        no_stack_error(parse_dict(s, pos, entries)),
    decreases s.len() - pos, 1int,
{
    if 0 <= pos < s.len() && s[pos] != END {
        crate::parser::resume::lemma_parse_value_progress(s, pos);
        lemma_value_no_stack_error(s, pos);
        if let Ok((k, next)) = parse_value(s, pos) {
            if let Datum::Bytes(key) = k {
                lemma_dict_value_no_stack_error(s, next, entries, key);
            }
        }
    }
}

proof fn lemma_dict_value_no_stack_error(
    s: Seq<u8>,
    pos: int,
    entries: Seq<(Seq<u8>, Datum)>,
    key: Seq<u8>,
)
    ensures
        no_stack_error(parse_dict_value(s, pos, entries, key)),
    decreases s.len() - pos, 1int,
{
    if 0 <= pos < s.len() && s[pos] != END {
        crate::parser::resume::lemma_parse_value_progress(s, pos);
        lemma_value_no_stack_error(s, pos);
        if let Ok((v, next)) = parse_value(s, pos) {
            lemma_dict_no_stack_error(s, next, dict_insert(entries, key, v));
        }
    }
}

/// Two inputs hold the same bytes below `n`.
spec fn agree(s: Seq<u8>, s2: Seq<u8>, n: int) -> bool {
    &&& n <= s.len()
    &&& n <= s2.len()
    &&& forall|k: int| 0 <= k < n ==> #[trigger] s[k] == s2[k]
}

/// A run of digits ended inside the agreeing bytes ends at the same place in both inputs.
proof fn lemma_digits_end_local(s: Seq<u8>, s2: Seq<u8>, i: int)
    requires
        0 <= i <= s.len(),
        digits_end(s, i) < s.len(),
        agree(s, s2, digits_end(s, i) + 1),
    ensures
        digits_end(s2, i) == digits_end(s, i),
        s2.subrange(i, digits_end(s, i)) == s.subrange(i, digits_end(s, i)),
{
    let j: int = digits_end(s, i);
    lemma_digits_end_bounds(s, i);
    assert forall|k: int| i <= k < j implies is_digit(#[trigger] s2[k]) by {
        assert(s[k] == s2[k]);
    }
    assert(s[j] == s2[j]);
    lemma_digits_end(s2, i, j);
    assert(s2.subrange(i, j) =~= s.subrange(i, j));
}

/// A token read from one input reads the same from another that agrees up to its end.
proof fn lemma_token_local(s: Seq<u8>, s2: Seq<u8>, pos: int)
    requires
        0 <= pos < s.len(),
    ensures
        string_token(s, pos) matches Ok((v, q)) ==> agree(s, s2, q) ==> string_token(s2, pos) == Ok::<
            (Datum, int),
            DecodeError,
        >((v, q)),
        integer_token(s, pos) matches Ok((v, q)) ==> agree(s, s2, q) ==> integer_token(s2, pos) == Ok::<(Datum, int), DecodeError>(
            (v, q),
        ),
{
    lemma_digits_end_bounds(s, pos);
    if let Ok((v, q)) = string_token(s, pos) {
        if agree(s, s2, q) {
            let j: int = digits_end(s, pos);
            lemma_digits_end_local(s, s2, pos);
            assert(s[j] == s2[j]);
            let (n, start) = length_prefix(s, pos)->Ok_0;
            assert(s2.subrange(start, start + n) =~= s.subrange(start, start + n));
        }
    }
    if let Ok((v, q)) = integer_token(s, pos) {
        if agree(s, s2, q) {
            let d: int = integer_digits_start(s, pos);
            lemma_digits_end_bounds(s, d);
            let j: int = digits_end(s, d);
            assert(s[pos + 1] == s2[pos + 1]);
            assert(integer_digits_start(s2, pos) == d);
            lemma_digits_end_local(s, s2, d);
            assert(s[d] == s2[d]);
            assert(s[j] == s2[j]);
            if d + 1 < s.len() {
                assert(s[d + 1] == s2[d + 1]);
            }
            assert(integer_body(s2, pos) == integer_body(s, pos));
        }
    }
}

proof fn lemma_value_local(s: Seq<u8>, s2: Seq<u8>, pos: int)
    ensures
        parse_value(s, pos) matches Ok((v, q)) ==> agree(s, s2, q) ==> parse_value(s2, pos) == Ok::<
            (Datum, int),
            DecodeError,
        >((v, q)),
    decreases s.len() - pos, 0int,
{
    crate::parser::resume::lemma_parse_value_progress(s, pos);
    if 0 <= pos < s.len() {
        if let Ok((v, q)) = parse_value(s, pos) {
            if agree(s, s2, q) {
                assert(s[pos] == s2[pos]);
                lemma_token_local(s, s2, pos);
                if s[pos] == LIST_START {
                    lemma_list_local(s, s2, pos + 1, Seq::empty());
                } else if s[pos] == DICT_START {
                    lemma_dict_local(s, s2, pos + 1, Seq::empty());
                }
            }
        }
    }
}

proof fn lemma_list_local(s: Seq<u8>, s2: Seq<u8>, pos: int, items: Seq<Datum>)
    ensures
        parse_list(s, pos, items) matches Ok((v, q)) ==> agree(s, s2, q) ==> parse_list(
            s2,
            pos,
            items,
        ) == Ok::<(Datum, int), DecodeError>((v, q)),
    decreases s.len() - pos, 1int,
{
    crate::parser::resume::lemma_parse_list_progress(s, pos, items);
    if 0 <= pos < s.len() {
        if let Ok((v, q)) = parse_list(s, pos, items) {
            if agree(s, s2, q) {
                assert(s[pos] == s2[pos]);
                if s[pos] != END {
                    lemma_value_local(s, s2, pos);
                    let (w, next) = parse_value(s, pos)->Ok_0;
                    crate::parser::resume::lemma_parse_list_progress(s, next, items.push(w));
                    lemma_list_local(s, s2, next, items.push(w));
                }
            }
        }
    }
}

proof fn lemma_dict_local(s: Seq<u8>, s2: Seq<u8>, pos: int, entries: Seq<(Seq<u8>, Datum)>)
    ensures
        parse_dict(s, pos, entries) matches Ok((v, q)) ==> agree(s, s2, q) ==> parse_dict(
            s2,
            pos,
            entries,
        ) == Ok::<(Datum, int), DecodeError>((v, q)),
    decreases s.len() - pos, 1int,
{
    crate::parser::resume::lemma_parse_dict_progress(s, pos, entries);
    if 0 <= pos < s.len() {
        if let Ok((v, q)) = parse_dict(s, pos, entries) {
            if agree(s, s2, q) {
                assert(s[pos] == s2[pos]);
                if s[pos] != END {
                    lemma_value_local(s, s2, pos);
                    let (k, next) = parse_value(s, pos)->Ok_0;
                    let key = k->Bytes_0;
                    crate::parser::resume::lemma_parse_dict_value_progress(s, next, entries, key);
                    lemma_dict_value_local(s, s2, next, entries, key);
                }
            }
        }
    }
}

proof fn lemma_dict_value_local(
    s: Seq<u8>,
    s2: Seq<u8>,
    pos: int,
    entries: Seq<(Seq<u8>, Datum)>,
    key: Seq<u8>,
)
    ensures
        parse_dict_value(s, pos, entries, key) matches Ok((v, q)) ==> agree(s, s2, q) ==> parse_dict_value(s2, pos, entries, key) == Ok::<(Datum, int), DecodeError>((v, q)),
    decreases s.len() - pos, 1int,
{
    crate::parser::resume::lemma_parse_dict_value_progress(s, pos, entries, key);
    if 0 <= pos < s.len() {
        if let Ok((v, q)) = parse_dict_value(s, pos, entries, key) {
            if agree(s, s2, q) {
                assert(s[pos] == s2[pos]);
                lemma_value_local(s, s2, pos);
                let (w, next) = parse_value(s, pos)->Ok_0;
                crate::parser::resume::lemma_parse_dict_progress(
                    s,
                    next,
                    dict_insert(entries, key, w),
                );
                lemma_dict_local(s, s2, next, dict_insert(entries, key, w));
            }
        }
    }
}

/// The pairs of a dictionary under construction are well formed.
spec fn entries_ok(entries: Seq<(Seq<u8>, Datum)>) -> bool {
    &&& keys_sorted(entries)
    &&& forall|k: int|
        0 <= k < entries.len() ==> (#[trigger] entries[k]).0.len() <= usize::MAX && well_formed(
            entries[k].1,
        )
}

proof fn lemma_value_well_formed(s: Seq<u8>, pos: int)
    ensures
        parse_value(s, pos) matches Ok((v, next)) ==> well_formed(v) && pos < next <= s.len(),
    decreases s.len() - pos, 0int,
{
    crate::parser::resume::lemma_parse_value_progress(s, pos);
    if 0 <= pos < s.len() {
        lemma_digits_end_bounds(s, pos);
        if let Ok((n, q)) = length_prefix(s, pos) {
            if q + n <= s.len() {
                assert(s.subrange(q, q + n).len() == n);
            }
        }
        if s[pos] == LIST_START {
            lemma_list_well_formed(s, pos + 1, Seq::empty());
        } else if s[pos] == DICT_START {
            lemma_dict_well_formed(s, pos + 1, Seq::empty());
        }
    }
}

proof fn lemma_list_well_formed(s: Seq<u8>, pos: int, items: Seq<Datum>)
    requires
        forall|k: int| 0 <= k < items.len() ==> well_formed(#[trigger] items[k]),
    ensures
        parse_list(s, pos, items) matches Ok((v, _)) ==> well_formed(v),
    decreases s.len() - pos, 1int,
{
    if 0 <= pos < s.len() && s[pos] != END {
        lemma_value_well_formed(s, pos);
        if let Ok((v, next)) = parse_value(s, pos) {
            let more = items.push(v);
            assert forall|k: int| 0 <= k < more.len() implies well_formed(#[trigger] more[k]) by {
                if k < items.len() {
                    assert(more[k] == items[k]);
                }
            }
            lemma_list_well_formed(s, next, more);
        }
    }
}

proof fn lemma_dict_well_formed(s: Seq<u8>, pos: int, entries: Seq<(Seq<u8>, Datum)>)
    requires
        entries_ok(entries),
    ensures
        parse_dict(s, pos, entries) matches Ok((v, _)) ==> well_formed(v),
    decreases s.len() - pos, 1int,
{
    if 0 <= pos < s.len() && s[pos] != END {
        lemma_value_well_formed(s, pos);
        if let Ok((k, next)) = parse_value(s, pos) {
            if let Datum::Bytes(key) = k {
                lemma_dict_value_well_formed(s, next, entries, key);
            }
        }
    }
}

proof fn lemma_dict_value_well_formed(
    s: Seq<u8>,
    pos: int,
    entries: Seq<(Seq<u8>, Datum)>,
    key: Seq<u8>,
)
    requires
        entries_ok(entries),
        key.len() <= usize::MAX,
    ensures
        parse_dict_value(s, pos, entries, key) matches Ok((v, _)) ==> well_formed(v),
    decreases s.len() - pos, 1int,
{
    if 0 <= pos < s.len() && s[pos] != END {
        lemma_value_well_formed(s, pos);
        if let Ok((v, next)) = parse_value(s, pos) {
            let more = dict_insert(entries, key, v);
            lemma_dict_insert_sorted(entries, key, v);
            assert forall|k: int| 0 <= k < more.len() implies (#[trigger] more[k]).0.len()
                <= usize::MAX && well_formed(more[k].1) by {
                if more[k] != (key, v) {
                    let m: int = choose|m: int| 0 <= m < entries.len() && entries[m] == more[k];
                    assert(entries[m] == more[k]);
                }
            }
            lemma_dict_well_formed(s, next, more);
        }
    }
}

} // verus!
