use vstd::prelude::*;

use crate::enums::bencode::BencodeValue;
use crate::parser::grammar::decode;
use crate::parser::parse_bencode;

verus! {

/// Decode bencode data using the cursor-based iterative parser.
pub fn decode_bencode(data: &[u8]) -> (r: Result<(BencodeValue, &[u8]), &'static str>)
    ensures
        match decode(data@) {
            Ok((v, n)) => r matches Ok((value, rest)) && value@ == v && rest@ == data@.subrange(
                n,
                data@.len() as int,
            ),
            Err(e) => r == Err::<(BencodeValue, &[u8]), &'static str>(e.message()),
        },
{
    parse_bencode(data)
}

} // verus!
