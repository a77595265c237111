use vstd::prelude::*;

use crate::enums::dict::{
    dict_insert, dict_lookup, keys_sorted, lemma_dict_insert_at, lemma_dict_lookup_at,
    lemma_dict_lookup_none,
};
use crate::enums::order::{
    bytes_lt, compare_bytes, lemma_bytes_lt_irreflexive, lemma_bytes_lt_total,
    lemma_bytes_lt_transitive,
};

verus! {

/// The mathematical meaning of a bencode value.
pub enum Datum {
    Int(int),
    Bytes(Seq<u8>),
    List(Seq<Datum>),
    /// Key/value pairs in the order in which the dictionary holds them.
    Dict(Seq<(Seq<u8>, Datum)>),
}

/// No integer inside the value is `i128::MIN`, the one `i128` whose magnitude does not
/// fit in an `i128`.
pub open spec fn no_int_min(d: Datum) -> bool
    decreases d,
{
    match d {
        Datum::Int(i) => i != i128::MIN,
        Datum::Bytes(_) => true,
        Datum::List(items) => forall|k: int| 0 <= k < items.len() ==> no_int_min(#[trigger] items[k]),
        Datum::Dict(entries) => forall|k: int|
            0 <= k < entries.len() ==> no_int_min((#[trigger] entries[k]).1),
    }
}

/// What the decoder can give back: integers whose magnitude fits in an `i128`, byte
/// strings whose length fits in a `usize`, and dictionaries whose keys strictly increase.
pub open spec fn well_formed(d: Datum) -> bool
    decreases d,
{
    match d {
        Datum::Int(i) => -i128::MAX <= i <= i128::MAX,
        Datum::Bytes(b) => b.len() <= usize::MAX,
        Datum::List(items) => forall|k: int| 0 <= k < items.len() ==> well_formed(#[trigger] items[k]),
        Datum::Dict(entries) => {
            &&& keys_sorted(entries)
            &&& forall|k: int|
                0 <= k < entries.len() ==> (#[trigger] entries[k]).0.len() <= usize::MAX
                    && well_formed(entries[k].1)
        },
    }
}

/// A decoded value: an integer, a byte string, a list or a dictionary.
#[derive(Debug, PartialEq, Eq)]
pub enum BencodeValue {
    Int(i128),
    Str(Vec<u8>),
    List(Vec<BencodeValue>),
    Dict(BencodeDict),
}

/// A dictionary of byte-string keys, kept sorted by key with no key twice.
#[derive(Debug, PartialEq, Eq)]
pub struct BencodeDict {
    pub(crate) entries: Vec<(Vec<u8>, BencodeValue)>,
}

impl BencodeValue {
    /// The mathematical meaning of this value.
    pub open spec fn model(self) -> Datum
        decreases self,
    {
        match self {
            BencodeValue::Int(i) => Datum::Int(i as int),
            BencodeValue::Str(b) => Datum::Bytes(b@),
            BencodeValue::List(items) => Datum::List(
                Seq::new(
                    items.len() as nat,
                    |k: int|
                        if 0 <= k < items.len() {
                            items[k].model()
                        } else {
                            Datum::Int(0)
                        },
                ),
            ),
            BencodeValue::Dict(d) => Datum::Dict(d.model_entries()),
        }
    }
}

impl BencodeDict {
    /// The pairs of this dictionary, in key order.
    pub closed spec fn model_entries(self) -> Seq<(Seq<u8>, Datum)>
        decreases self,
    {
        Seq::new(
            self.entries.len() as nat,
            |k: int|
                if 0 <= k < self.entries.len() {
                    (self.entries[k].0@, self.entries[k].1.model())
                } else {
                    (Seq::empty(), Datum::Int(0))
                },
        )
    }

    #[verifier::type_invariant]
    pub(crate) closed spec fn keys_increasing(self) -> bool {
        forall|i: int, j: int|
            0 <= i < j < self.entries.len() ==> bytes_lt(
                self.entries[i].0@,
                self.entries[j].0@,
            )
    }
}

impl BencodeValue {
    /// A copy of this value, element by element.
    pub fn deep_copy(&self) -> (r: BencodeValue)
        ensures
            r@ == self@,
        decreases self,
    {
        match self {
            BencodeValue::Int(i) => {
                BencodeValue::Int(*i)
            },
            BencodeValue::Str(b) => BencodeValue::Str(copy_bytes(b)),
            BencodeValue::List(items) => {
                let mut out: Vec<BencodeValue> = Vec::new();
                let mut k: usize = 0;
                while k < items.len()
                    invariant
                        *self == BencodeValue::List(*items),
                        k <= items.len(),
                        out.len() == k,
                        forall|m: int| 0 <= m < k ==> #[trigger] out[m].model() == items[m].model(),
                    decreases items.len() - k,
                {
                    proof {
                        assert(self->List_0 == *items);
                        assert(decreases_to!(self => self->List_0));
                        assert(decreases_to!(*self => *items));
                        assert(decreases_to!(*items => items[k as int]));
                    }
                    out.push(items[k].deep_copy());
                    k = k + 1;
                }
                let r = BencodeValue::List(out);
                assert(r.model()->List_0.len() == out.len());
                assert(self.model()->List_0.len() == items.len());
                assert(forall|m: int| 0 <= m < out.len() ==> r.model()->List_0[m] == out[m].model());
                assert(forall|m: int| 0 <= m < out.len() ==> self.model()->List_0[m] == items[m].model());
                assert(r.model()->List_0 =~= self.model()->List_0);
                r
            },
            BencodeValue::Dict(d) => BencodeValue::Dict(d.deep_copy()),
        }
    }
}

impl BencodeDict {
    /// A copy of this dictionary, entry by entry.
    pub fn deep_copy(&self) -> (r: BencodeDict)
        ensures
            r@ == self@,
        decreases self,
    {
        proof {
            use_type_invariant(self);
        }
        let mut out: Vec<(Vec<u8>, BencodeValue)> = Vec::new();
        let mut k: usize = 0;
        while k < self.entries.len()
            invariant
                k <= self.entries.len(),
                out.len() == k,
                forall|m: int|
                    0 <= m < k ==> #[trigger] out[m].0@ == self.entries[m].0@ && out[m].1@
                        == self.entries[m].1@,
            decreases self.entries.len() - k,
        {
            proof {
                assert(decreases_to!(*self => self.entries[k as int].1));
            }
            let key = copy_bytes(&self.entries[k].0);
            let value = self.entries[k].1.deep_copy();
            out.push((key, value));
            k = k + 1;
        }
        let r = BencodeDict { entries: out };
        assert(r@ =~= self@);
        r
    }
}

/// A fresh vector holding the same bytes.
pub fn copy_bytes(b: &Vec<u8>) -> (r: Vec<u8>)
    ensures
        r@ == b@,
{
    let mut out: Vec<u8> = Vec::new();
    let mut k: usize = 0;
    while k < b.len()
        invariant
            k <= b.len(),
            out@ == b@.take(k as int),
        decreases b.len() - k,
    {
        out.push(b[k]);
        k = k + 1;
        assert(out@ =~= b@.take(k as int));
    }
    assert(b@.take(b.len() as int) =~= b@);
    out
}

impl BencodeDict {
    /// An empty dictionary.
    pub fn new() -> (r: BencodeDict)
        ensures
            r@ == Seq::<(Seq<u8>, Datum)>::empty(),
    {
        let r = BencodeDict { entries: Vec::new() };
        assert(r@ =~= Seq::<(Seq<u8>, Datum)>::empty());
        r
    }

    /// The number of keys.
    pub fn len(&self) -> (r: usize)
        ensures
            r == self@.len(),
    {
        self.entries.len()
    }

    /// Whether the dictionary holds no key.
    pub fn is_empty(&self) -> (r: bool)
        ensures
            r <==> self@.len() == 0,
    {
        self.entries.len() == 0
    }

    /// The pairs of the dictionary, in key order.
    pub fn entries(&self) -> (r: &Vec<(Vec<u8>, BencodeValue)>)
        ensures
            keys_sorted(self@),
            r.len() == self@.len(),
            forall|i: int|
                0 <= i < r.len() ==> (#[trigger] r[i]).0@ == self@[i].0 && r[i].1@ == self@[i].1,
    {
        proof {
            use_type_invariant(self);
            self.lemma_keys_sorted();
        }
        &self.entries
    }

    /// The pairs of the dictionary, in key order, given up by the dictionary.
    pub fn into_entries(self) -> (r: Vec<(Vec<u8>, BencodeValue)>)
        ensures
            keys_sorted(self@),
            r.len() == self@.len(),
            forall|i: int|
                0 <= i < r.len() ==> (#[trigger] r[i]).0@ == self@[i].0 && r[i].1@ == self@[i].1,
    {
        proof {
            use_type_invariant(&self);
            self.lemma_keys_sorted();
        }
        self.entries
    }

    /// The value stored under `key`, if any.
    pub fn get(&self, key: &[u8]) -> (r: Option<&BencodeValue>)
        ensures
            match r {
                Some(v) => dict_lookup(self@, key@) == Some(v@),
                None => dict_lookup(self@, key@) is None,
            },
    {
        let mut i: usize = 0;
        while i < self.entries.len()
            invariant
                i <= self.entries.len(),
                forall|j: int| 0 <= j < i ==> (#[trigger] self.entries[j]).0@ != key@,
            decreases self.entries.len() - i,
        {
            if compare_bytes(self.entries[i].0.as_slice(), key) == 0 {
                proof {
                    assert forall|j: int| 0 <= j < i implies (#[trigger] self@[j].0) != key@ by {
                        assert(self@[j].0 == self.entries[j].0@);
                    }
                    lemma_dict_lookup_at(self@, key@, i as int);
                }
                return Some(&self.entries[i].1);
            }
            i = i + 1;
        }
        proof {
            assert forall|j: int| 0 <= j < self@.len() implies (#[trigger] self@[j].0) != key@ by {
                assert(self@[j].0 == self.entries[j].0@);
            }
            lemma_dict_lookup_none(self@, key@);
        }
        None
    }

    /// Stores `value` under `key`, giving back the value that was stored under it before.
    pub fn insert(&mut self, key: Vec<u8>, value: BencodeValue) -> (r: Option<BencodeValue>)
        ensures
            final(self)@ == dict_insert(old(self)@, key@, value@),
            match r {
                Some(v) => dict_lookup(old(self)@, key@) == Some(v@),
                None => dict_lookup(old(self)@, key@) is None,
            },
    {
        proof {
            use_type_invariant(&*self);
        }
        let ghost before = self@;
        let mut entries: Vec<(Vec<u8>, BencodeValue)> = Vec::new();
        std::mem::swap(&mut entries, &mut self.entries);
        let ghost old_entries = entries@;
        assert(forall|a: int, b: int|
            0 <= a < b < old_entries.len() ==> bytes_lt(
                #[trigger] old_entries[a].0@,
                #[trigger] old_entries[b].0@,
            ));
        assert(before =~= (BencodeDict { entries }).model_entries());
        let mut i: usize = 0;
        let mut found = false;
        while i < entries.len()
            invariant
                i <= entries.len(),
                forall|j: int| 0 <= j < i ==> bytes_lt(#[trigger] entries[j].0@, key@),
                found ==> i < entries.len() && entries[i as int].0@ == key@,
            ensures
                i <= entries.len(),
                forall|j: int| 0 <= j < i ==> bytes_lt(#[trigger] entries[j].0@, key@),
                found ==> i < entries.len() && entries[i as int].0@ == key@,
                !found ==> i < entries.len() ==> bytes_lt(key@, entries[i as int].0@),
            decreases entries.len() - i,
        {
            let c: i8 = compare_bytes(entries[i].0.as_slice(), key.as_slice());
            if c == 0 {
                found = true;
                break;
            } else if c > 0 {
                break;
            }
            i = i + 1;
        }
        proof {
            assert(before.len() == entries.len());
            assert forall|j: int| 0 <= j < i implies bytes_lt(#[trigger] before[j].0, key@) by {
                assert(before[j].0 == entries[j].0@);
            }
            if i < entries.len() {
                assert(before[i as int].0 == entries[i as int].0@);
                if !found {
                    lemma_bytes_lt_total(key@, entries[i as int].0@);
                } else {
                    lemma_bytes_lt_irreflexive(key@);
                }
            }
            lemma_dict_insert_at(before, key@, value@, i as int);
        }
        if found {
            let old_pair = entries.remove(i);
            entries.insert(i, (key, value));
            proof {
                assert forall|j: int| 0 <= j < i implies (#[trigger] before[j].0) != key@ by {
                    assert(before[j].0 == entries[j].0@);
                    lemma_bytes_lt_irreflexive(key@);
                }
                lemma_dict_lookup_at(before, key@, i as int);
                assert((BencodeDict { entries }).model_entries() =~= before.update(
                    i as int,
                    (key@, value@),
                ));
            }
            self.entries = entries;
            Some(old_pair.1)
        } else {
            proof {
                assert forall|j: int| 0 <= j < before.len() implies (#[trigger] before[j].0)
                    != key@ by {
                    assert(before[j].0 == entries[j].0@);
                    lemma_bytes_lt_irreflexive(key@);
                    if j >= i {
                        if j > i {
                            lemma_bytes_lt_transitive(key@, entries[i as int].0@, entries[j].0@);
                        }
                    }
                }
                lemma_dict_lookup_none(before, key@);
            }
            entries.insert(i, (key, value));
            proof {
                assert forall|a: int, b: int| 0 <= a < b < entries.len() implies bytes_lt(
                    #[trigger] entries[a].0@,
                    #[trigger] entries[b].0@,
                ) by {
                    if b < i {
                        assert(entries[a] == old_entries[a] && entries[b] == old_entries[b]);
                    } else if b == i {
                        assert(entries[a] == old_entries[a]);
                    } else if a == i {
                        assert(entries[b] == old_entries[b - 1]);
                        if b - 1 > i {
                            lemma_bytes_lt_transitive(
                                key@,
                                old_entries[i as int].0@,
                                old_entries[b - 1].0@,
                            );
                        }
                    } else if a < i {
                        assert(entries[a] == old_entries[a] && entries[b] == old_entries[b - 1]);
                    } else {
                        assert(entries[a] == old_entries[a - 1] && entries[b]
                            == old_entries[b - 1]);
                    }
                }
                assert((BencodeDict { entries }).model_entries() =~= before.insert(
                    i as int,
                    (key@, value@),
                ));
            }
            self.entries = entries;
            None
        }
    }
}

impl BencodeDict {
    /// The keys of a dictionary strictly increase.
    pub(crate) proof fn lemma_keys_sorted(&self)
        requires
            self.keys_increasing(),
        ensures
            keys_sorted(self@),
    {
        assert forall|i: int, j: int| 0 <= i < j < self@.len() implies bytes_lt(
            #[trigger] self@[i].0,
            #[trigger] self@[j].0,
        ) by {
            assert(self@[i].0 == self.entries[i].0@);
            assert(self@[j].0 == self.entries[j].0@);
        }
    }

    /// Inside the crate: the meaning of each stored pair.
    pub(crate) proof fn lemma_model(&self)
        ensures
            self@.len() == self.entries.len(),
            forall|i: int|
                0 <= i < self.entries.len() ==> #[trigger] self@[i] == (
                    self.entries[i].0@,
                    self.entries[i].1@,
                ),
    {
    }
}

impl Clone for BencodeValue {
    fn clone(&self) -> (r: BencodeValue)
        ensures
            r@ == self@,
    {
        self.deep_copy()
    }
}

impl Clone for BencodeDict {
    fn clone(&self) -> (r: BencodeDict)
        ensures
            r@ == self@,
    {
        self.deep_copy()
    }
}

impl View for BencodeValue {
    type V = Datum;

    open spec fn view(&self) -> Datum {
        self.model()
    }
}

impl View for BencodeDict {
    type V = Seq<(Seq<u8>, Datum)>;

    open spec fn view(&self) -> Seq<(Seq<u8>, Datum)> {
        self.model_entries()
    }
}

} // verus!
