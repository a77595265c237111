use vstd::prelude::*;

use crate::enums::bencode::{BencodeValue, Datum, no_int_min, well_formed};
use crate::parser::grammar::{COLON, DICT_START, DIGIT_ZERO, END, INT_START, LIST_START, MINUS};

verus! {

/// The decimal digits of `n`, most significant first, with no leading zero.
pub open spec fn decimal_digits(n: nat) -> Seq<u8>
    decreases n,
{
    if n < 10 {
        seq![(DIGIT_ZERO + n) as u8]
    } else {
        decimal_digits(n / 10).push((DIGIT_ZERO + n % 10) as u8)
    }
}

/// `i<decimal>e`, with a `-` before the digits of a negative number.
pub open spec fn encode_int(i: int) -> Seq<u8> {
    if i < 0 {
        seq![INT_START, MINUS] + decimal_digits((-i) as nat) + seq![END]
    } else {
        seq![INT_START] + decimal_digits(i as nat) + seq![END]
    }
}

/// `<length>:<bytes>`.
pub open spec fn encode_bytes(b: Seq<u8>) -> Seq<u8> {
    decimal_digits(b.len()) + seq![COLON] + b
}

/// The bencode text of a value.
pub open spec fn encode(d: Datum) -> Seq<u8>
    decreases d,
{
    match d {
        Datum::Int(i) => encode_int(i),
        Datum::Bytes(b) => encode_bytes(b),
        Datum::List(items) => seq![LIST_START] + encode_list(items) + seq![END],
        Datum::Dict(entries) => seq![DICT_START] + encode_entries(entries) + seq![END],
    }
}

/// The items of a list, one after the other.
pub open spec fn encode_list(items: Seq<Datum>) -> Seq<u8>
    decreases items,
{
    if items.len() == 0 {
        Seq::empty()
    } else {
        encode(items[0]) + encode_list(items.drop_first())
    }
}

/// The pairs of a dictionary, each key followed by its value.
pub open spec fn encode_entries(entries: Seq<(Seq<u8>, Datum)>) -> Seq<u8>
    decreases entries,
{
    if entries.len() == 0 {
        Seq::empty()
    } else {
        encode_bytes(entries[0].0) + encode(entries[0].1) + encode_entries(entries.drop_first())
    }
}

/// Encoding one more item at the end of a list.
pub proof fn lemma_encode_list_push(items: Seq<Datum>, d: Datum)
    ensures
        encode_list(items.push(d)) == encode_list(items) + encode(d),
    decreases items.len(),
{
    if items.len() == 0 {
        assert(items.push(d).drop_first() =~= Seq::<Datum>::empty());
        assert(encode_list(Seq::<Datum>::empty()) == Seq::<u8>::empty());
        assert(items.push(d)[0] == d);
        assert(encode_list(items.push(d)) =~= encode(d));
    } else {
        assert(items.push(d).drop_first() =~= items.drop_first().push(d));
        lemma_encode_list_push(items.drop_first(), d);
        assert(encode_list(items.push(d)) =~= encode_list(items) + encode(d));
    }
}

/// Encoding one more pair at the end of a dictionary.
pub proof fn lemma_encode_entries_push(entries: Seq<(Seq<u8>, Datum)>, kv: (Seq<u8>, Datum))
    ensures
        encode_entries(entries.push(kv)) == encode_entries(entries) + encode_bytes(kv.0) + encode(
            kv.1,
        ),
    decreases entries.len(),
{
    if entries.len() == 0 {
        assert(entries.push(kv).drop_first() =~= Seq::<(Seq<u8>, Datum)>::empty());
        assert(encode_entries(Seq::<(Seq<u8>, Datum)>::empty()) == Seq::<u8>::empty());
        assert(entries.push(kv)[0] == kv);
        assert(encode_entries(entries.push(kv)) =~= encode_bytes(kv.0) + encode(kv.1));
    } else {
        assert(entries.push(kv).drop_first() =~= entries.drop_first().push(kv));
        lemma_encode_entries_push(entries.drop_first(), kv);
        assert(encode_entries(entries.push(kv)) =~= encode_entries(entries) + encode_bytes(kv.0)
            + encode(kv.1));
    }
}

/// Appends the decimal digits of `n`.
pub fn push_decimal(out: &mut Vec<u8>, n: u128)
    ensures
        final(out)@ == old(out)@ + decimal_digits(n as nat),
    decreases n,
{
    if n >= 10 {
        push_decimal(out, n / 10);
    }
    let digit: u8 = (n % 10) as u8;
    out.push(DIGIT_ZERO + digit);
    assert(final(out)@ =~= old(out)@ + decimal_digits(n as nat));
}

/// Appends `<length>:<bytes>`.
pub fn push_bytes(out: &mut Vec<u8>, b: &Vec<u8>)
    ensures
        final(out)@ == old(out)@ + encode_bytes(b@),
{
    push_decimal(out, b.len() as u128);
    out.push(COLON);
    let ghost start = out@;
    let mut k: usize = 0;
    while k < b.len()
        invariant
            k <= b.len(),
            out@ == start + b@.take(k as int),
        decreases b.len() - k,
    {
        out.push(b[k]);
        k = k + 1;
        assert(out@ =~= start + b@.take(k as int));
    }
    assert(b@.take(b.len() as int) =~= b@);
    assert(final(out)@ =~= old(out)@ + encode_bytes(b@));
}

/// Appends the bencode text of `value`. A value with no `i128::MIN` inside is one the
/// decoder can give back.
pub fn push_encoded(out: &mut Vec<u8>, value: &BencodeValue)
    ensures
        final(out)@ == old(out)@ + encode(value@),
        no_int_min(value@) ==> well_formed(value@),
    decreases value,
{
    match value {
        BencodeValue::Int(i) => {
            out.push(INT_START);
            let magnitude: u128 = if *i < 0 {
                out.push(MINUS);
                ((-(*i + 1)) as u128) + 1
            } else {
                *i as u128
            };
            push_decimal(out, magnitude);
            out.push(END);
            assert(final(out)@ =~= old(out)@ + encode(value@));
        },
        BencodeValue::Str(b) => {
            push_bytes(out, b);
            assert(b@.len() == b.len());
        },
        BencodeValue::List(items) => {
            out.push(LIST_START);
            let ghost start = out@;
            let ghost models = value@->List_0;
            let mut k: usize = 0;
            while k < items.len()
                invariant
                    *value == BencodeValue::List(*items),
                    models == value@->List_0,
                    models.len() == items.len(),
                    forall|m: int| 0 <= m < items.len() ==> #[trigger] models[m] == items[m]@,
                    k <= items.len(),
                    out@ == start + encode_list(models.take(k as int)),
                    forall|m: int|
                        0 <= m < k ==> no_int_min(#[trigger] models[m]) ==> well_formed(models[m]),
                decreases items.len() - k,
            {
                proof {
                    assert(value->List_0 == *items);
                    assert(decreases_to!(value => value->List_0));
                    assert(decreases_to!(*items => items[k as int]));
                    lemma_encode_list_push(models.take(k as int), models[k as int]);
                    assert(models.take(k + 1) =~= models.take(k as int).push(models[k as int]));
                }
                push_encoded(out, &items[k]);
                k = k + 1;
            }
            assert(models.take(k as int) =~= models);
            out.push(END);
            assert(final(out)@ =~= old(out)@ + encode(value@));
            assert(no_int_min(value@) ==> well_formed(value@)) by {
                if no_int_min(value@) {
                    assert forall|m: int| 0 <= m < models.len() implies well_formed(
                        #[trigger] models[m],
                    ) by {
                        assert(no_int_min(models[m]));
                    }
                }
            }
        },
        BencodeValue::Dict(d) => {
            out.push(DICT_START);
            let ghost start = out@;
            let ghost models = d@;
            proof {
                d.lemma_model();
                use_type_invariant(d);
                d.lemma_keys_sorted();
            }
            let mut k: usize = 0;
            while k < d.entries.len()
                invariant
                    *value == BencodeValue::Dict(*d),
                    models == d@,
                    models.len() == d.entries.len(),
                    forall|m: int|
                        0 <= m < d.entries.len() ==> #[trigger] models[m] == (
                            d.entries[m].0@,
                            d.entries[m].1@,
                        ),
                    k <= d.entries.len(),
                    out@ == start + encode_entries(models.take(k as int)),
                    forall|m: int|
                        0 <= m < k ==> no_int_min((#[trigger] models[m]).1) ==> well_formed(
                            models[m].1,
                        ),
                decreases d.entries.len() - k,
            {
                proof {
                    assert(value->Dict_0 == *d);
                    assert(decreases_to!(value => value->Dict_0));
                    assert(decreases_to!(*d => d.entries));
                    assert(decreases_to!(d.entries => d.entries[k as int]));
                    lemma_encode_entries_push(models.take(k as int), models[k as int]);
                    assert(models.take(k + 1) =~= models.take(k as int).push(models[k as int]));
                }
                push_bytes(out, &d.entries[k].0);
                push_encoded(out, &d.entries[k].1);
                k = k + 1;
            }
            assert(models.take(k as int) =~= models);
            out.push(END);
            assert(final(out)@ =~= old(out)@ + encode(value@));
            assert(no_int_min(value@) ==> well_formed(value@)) by {
                if no_int_min(value@) {
                    assert forall|m: int| 0 <= m < models.len() implies (#[trigger] models[m]).0.len()
                        <= usize::MAX && well_formed(models[m].1) by {
                        assert(no_int_min(models[m].1));
                        assert(models[m].0.len() == d.entries[m].0.len());
                    }
                }
            }
        },
    }
}

} // verus!
