use vstd::prelude::*;

use crate::encoders::encode::{encode, push_encoded};
use crate::enums::bencode::{BencodeValue, Datum, no_int_min, well_formed};
use crate::laws::law_decode_inverts_encode;
use crate::parser::grammar::{DecodeError, decode};

verus! {

/// Encode a value as bencode bytes.
///
/// Unless an integer inside the value is `i128::MIN`, decoding the bytes, whatever follows
/// them, gives the value back and leaves exactly what follows.
pub fn encode_bencode(value: BencodeValue) -> (r: Result<Vec<u8>, &'static str>)
    ensures
        r matches Ok(bytes) && bytes@ == encode(value@),
        no_int_min(value@) ==> well_formed(value@),
        no_int_min(value@) ==> forall|rest: Seq<u8>|
            decode(#[trigger] (encode(value@) + rest)) == Ok::<(Datum, int), DecodeError>(
                (value@, encode(value@).len() as int),
            ),
{
    let mut out: Vec<u8> = Vec::new();
    push_encoded(&mut out, &value);
    assert(out@ =~= encode(value@));
    proof {
        if no_int_min(value@) {
            assert forall|rest: Seq<u8>|
                decode(#[trigger] (encode(value@) + rest)) == Ok::<(Datum, int), DecodeError>(
                    (value@, encode(value@).len() as int),
                ) by {
                law_decode_inverts_encode(value@, rest);
            }
        }
    }
    Ok(out)
}

} // verus!
