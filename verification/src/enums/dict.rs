use vstd::prelude::*;

use crate::enums::bencode::Datum;
use crate::enums::order::{bytes_lt, lemma_bytes_lt_total, lemma_bytes_lt_transitive};

verus! {

/// Dictionary pairs are in strictly increasing key order (so no key occurs twice).
pub open spec fn keys_sorted(entries: Seq<(Seq<u8>, Datum)>) -> bool {
    forall|i: int, j: int|
        0 <= i < j < entries.len() ==> bytes_lt(#[trigger] entries[i].0, #[trigger] entries[j].0)
}

/// The pairs after storing `value` under `key` in a key-sorted pair sequence: the pair
/// with an equal key is replaced, otherwise the new pair goes before the first greater key.
pub open spec fn dict_insert(entries: Seq<(Seq<u8>, Datum)>, key: Seq<u8>, value: Datum) -> Seq<
    (Seq<u8>, Datum),
>
    decreases entries.len(),
{
    if entries.len() == 0 {
        seq![(key, value)]
    } else if bytes_lt(entries[0].0, key) {
        seq![entries[0]] + dict_insert(entries.drop_first(), key, value)
    } else if entries[0].0 == key {
        entries.update(0, (key, value))
    } else {
        seq![(key, value)] + entries
    }
}

/// The value stored under `key`, if any (the first pair with that key).
pub open spec fn dict_lookup(entries: Seq<(Seq<u8>, Datum)>, key: Seq<u8>) -> Option<Datum>
    decreases entries.len(),
{
    if entries.len() == 0 {
        None
    } else if entries[0].0 == key {
        Some(entries[0].1)
    } else {
        dict_lookup(entries.drop_first(), key)
    }
}

/// The pairs after storing each of `pairs` in turn, first to last, into `entries`.
pub open spec fn insert_all(entries: Seq<(Seq<u8>, Datum)>, pairs: Seq<(Seq<u8>, Datum)>) -> Seq<
    (Seq<u8>, Datum),
>
    decreases pairs.len(),
{
    if pairs.len() == 0 {
        entries
    } else {
        insert_all(dict_insert(entries, pairs[0].0, pairs[0].1), pairs.drop_first())
    }
}

/// Where the scan of a key-sorted sequence stops (the first pair whose key does not sort
/// before `key`), `dict_insert` replaces or inserts there.
pub proof fn lemma_dict_insert_at(
    entries: Seq<(Seq<u8>, Datum)>,
    key: Seq<u8>,
    value: Datum,
    i: int,
)
    requires
        0 <= i <= entries.len(),
        forall|j: int| 0 <= j < i ==> bytes_lt(#[trigger] entries[j].0, key),
        i < entries.len() ==> !bytes_lt(entries[i].0, key),
    ensures
        dict_insert(entries, key, value) == if i < entries.len() && entries[i].0 == key {
            entries.update(i, (key, value))
        } else {
            entries.insert(i, (key, value))
        },
    decreases i,
{
    if i == 0 {
        if entries.len() == 0 {
            assert(entries.insert(0, (key, value)) =~= seq![(key, value)]);
        } else if entries[0].0 != key {
            assert(entries.insert(0, (key, value)) =~= seq![(key, value)] + entries);
        }
    } else {
        let rest = entries.drop_first();
        assert forall|j: int| 0 <= j < i - 1 implies bytes_lt(#[trigger] rest[j].0, key) by {
            assert(rest[j] == entries[j + 1]);
        }
        lemma_dict_insert_at(rest, key, value, i - 1);
        if i < entries.len() && entries[i].0 == key {
            assert(seq![entries[0]] + rest.update(i - 1, (key, value)) =~= entries.update(
                i,
                (key, value),
            ));
        } else {
            assert(seq![entries[0]] + rest.insert(i - 1, (key, value)) =~= entries.insert(
                i,
                (key, value),
            ));
        }
    }
}

/// The lookup finds the first pair with the key.
pub proof fn lemma_dict_lookup_at(entries: Seq<(Seq<u8>, Datum)>, key: Seq<u8>, i: int)
    requires
        0 <= i < entries.len(),
        forall|j: int| 0 <= j < i ==> (#[trigger] entries[j].0) != key,
        entries[i].0 == key,
    ensures
        dict_lookup(entries, key) == Some(entries[i].1),
    decreases i,
{
    if i > 0 {
        let rest = entries.drop_first();
        assert forall|j: int| 0 <= j < i - 1 implies (#[trigger] rest[j].0) != key by {
            assert(rest[j] == entries[j + 1]);
        }
        lemma_dict_lookup_at(rest, key, i - 1);
    }
}

/// The lookup finds nothing when no pair has the key.
pub proof fn lemma_dict_lookup_none(entries: Seq<(Seq<u8>, Datum)>, key: Seq<u8>)
    requires
        forall|j: int| 0 <= j < entries.len() ==> (#[trigger] entries[j].0) != key,
    ensures
        dict_lookup(entries, key) is None,
    decreases entries.len(),
{
    if entries.len() > 0 {
        let rest = entries.drop_first();
        assert forall|j: int| 0 <= j < rest.len() implies (#[trigger] rest[j].0) != key by {
            assert(rest[j] == entries[j + 1]);
        }
        lemma_dict_lookup_none(rest, key);
    }
}

/// A key that sorts before `key` and before every key of `entries` sorts before every key
/// after the insertion.
pub proof fn lemma_dict_insert_lower_bound(
    entries: Seq<(Seq<u8>, Datum)>,
    key: Seq<u8>,
    value: Datum,
    lower: Seq<u8>,
)
    requires
        bytes_lt(lower, key),
        forall|m: int| 0 <= m < entries.len() ==> bytes_lt(lower, (#[trigger] entries[m]).0),
    ensures
        forall|j: int|
            0 <= j < dict_insert(entries, key, value).len() ==> bytes_lt(
                lower,
                (#[trigger] dict_insert(entries, key, value)[j]).0,
            ),
    decreases entries.len(),
{
    let r = dict_insert(entries, key, value);
    if entries.len() > 0 {
        let rest = entries.drop_first();
        assert forall|m: int| 0 <= m < rest.len() implies bytes_lt(lower, (#[trigger] rest[m]).0) by {
            assert(rest[m] == entries[m + 1]);
        }
        lemma_dict_insert_lower_bound(rest, key, value, lower);
        if bytes_lt(entries[0].0, key) {
            assert forall|j: int| 0 <= j < r.len() implies bytes_lt(lower, (#[trigger] r[j]).0) by {
                if j > 0 {
                    assert(r[j] == dict_insert(rest, key, value)[j - 1]);
                }
            }
        } else if entries[0].0 != key {
            assert forall|j: int| 0 <= j < r.len() implies bytes_lt(lower, (#[trigger] r[j]).0) by {
                if j > 0 {
                    assert(r[j] == entries[j - 1]);
                }
            }
        }
    }
}

/// Storing a pair keeps the keys strictly increasing, and every pair afterwards is the new
/// one or an old one.
pub proof fn lemma_dict_insert_sorted(entries: Seq<(Seq<u8>, Datum)>, key: Seq<u8>, value: Datum)
    requires
        keys_sorted(entries),
    ensures
        keys_sorted(dict_insert(entries, key, value)),
        forall|j: int|
            0 <= j < dict_insert(entries, key, value).len() ==> #[trigger] dict_insert(
                entries,
                key,
                value,
            )[j] == (key, value) || entries.contains(dict_insert(entries, key, value)[j]),
    decreases entries.len(),
{
    let r = dict_insert(entries, key, value);
    if entries.len() > 0 {
        let rest = entries.drop_first();
        assert(keys_sorted(rest)) by {
            assert forall|i: int, j: int| 0 <= i < j < rest.len() implies bytes_lt(
                #[trigger] rest[i].0,
                #[trigger] rest[j].0,
            ) by {
                assert(rest[i] == entries[i + 1] && rest[j] == entries[j + 1]);
            }
        }
        if bytes_lt(entries[0].0, key) {
            lemma_dict_insert_sorted(rest, key, value);
            let tail = dict_insert(rest, key, value);
            assert forall|m: int| 0 <= m < rest.len() implies bytes_lt(
                entries[0].0,
                (#[trigger] rest[m]).0,
            ) by {
                assert(rest[m] == entries[m + 1]);
            }
            lemma_dict_insert_lower_bound(rest, key, value, entries[0].0);
            assert forall|i: int, j: int| 0 <= i < j < r.len() implies bytes_lt(
                #[trigger] r[i].0,
                #[trigger] r[j].0,
            ) by {
                assert(r[j] == tail[j - 1]);
                if i > 0 {
                    assert(r[i] == tail[i - 1]);
                }
            }
            assert forall|j: int| 0 <= j < r.len() implies #[trigger] r[j] == (key, value)
                || entries.contains(r[j]) by {
                if j == 0 {
                    assert(entries[0] == r[0]);
                } else {
                    assert(r[j] == tail[j - 1]);
                    if tail[j - 1] != (key, value) {
                        let m: int = choose|m: int| 0 <= m < rest.len() && rest[m] == tail[j - 1];
                        assert(entries[m + 1] == rest[m]);
                    }
                }
            }
        } else if entries[0].0 == key {
            assert forall|j: int| 0 <= j < r.len() implies #[trigger] r[j] == (key, value)
                || entries.contains(r[j]) by {
                if j > 0 {
                    assert(r[j] == entries[j]);
                }
            }
        } else {
            lemma_bytes_lt_total(entries[0].0, key);
            assert forall|i: int, j: int| 0 <= i < j < r.len() implies bytes_lt(
                #[trigger] r[i].0,
                #[trigger] r[j].0,
            ) by {
                assert(r[j] == entries[j - 1]);
                if i > 0 {
                    assert(r[i] == entries[i - 1]);
                } else if j > 1 {
                    lemma_bytes_lt_transitive(key, entries[0].0, entries[j - 1].0);
                }
            }
            assert forall|j: int| 0 <= j < r.len() implies #[trigger] r[j] == (key, value)
                || entries.contains(r[j]) by {
                if j > 0 {
                    assert(r[j] == entries[j - 1]);
                }
            }
        }
    }
}

} // verus!
