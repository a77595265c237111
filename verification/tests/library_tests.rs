use bencode::dispatcher::host::{within_js_safe_range, JS_MAX_SAFE_INTEGER};
use bencode::dispatcher::bdecode::decode_bencode;
use bencode::dispatcher::bencode::encode_bencode;
use bencode::encoders::encode::{push_bytes, push_decimal, push_encoded};
use bencode::enums::bencode::{copy_bytes, BencodeDict, BencodeValue};
use bencode::enums::order::compare_bytes;
use bencode::parser::grammar::is_ascii_digit;
use bencode::parser::{parse_bencode, Cursor, ParseFrame, ParseStack};

fn err_of(input: &[u8]) -> &'static str {
    match parse_bencode(input) {
        Ok(_) => panic!("expected an error"),
        Err(e) => e,
    }
}

// --- Every error message, with an input that gives it ---

#[test]
fn error_empty_input() {
    assert_eq!(err_of(b""), "Empty input");
}

#[test]
fn error_unknown_type_prefix() {
    assert_eq!(err_of(b"x42e"), "Unknown type prefix");
    assert_eq!(err_of(b"e"), "Unknown type prefix");
}

#[test]
fn error_unexpected_end() {
    assert_eq!(err_of(b"li42e"), "Unexpected end of input");
    assert_eq!(err_of(b"l"), "Unexpected end of input");
    assert_eq!(err_of(b"d3:key"), "Unexpected end of input");
}

#[test]
fn error_unknown_token() {
    assert_eq!(err_of(b"lxe"), "Unknown token in input");
    assert_eq!(err_of(b"d1:axe"), "Unknown token in input");
}

#[test]
fn error_unpaired_key() {
    assert_eq!(err_of(b"d1:ae"), "Dictionary has unpaired key at end");
}

#[test]
fn error_non_string_key() {
    assert_eq!(err_of(b"di42ei99ee"), "Dictionary key must be a string");
    // A list used as a key is only refused once it is complete.
    assert_eq!(err_of(b"dli1ee1:ae"), "Dictionary key must be a string");
    // An error inside that list comes first.
    assert_eq!(err_of(b"dlxe1:ae"), "Unknown token in input");
}

#[test]
fn error_truncated_string() {
    assert_eq!(err_of(b"10:short"), "Truncated string content");
    assert_eq!(err_of(b"l3:ab"), "Truncated string content");
    assert_eq!(err_of(b"l3:abe"), "Unexpected end of input");
}

#[test]
fn error_invalid_length_character() {
    assert_eq!(err_of(b"3ab"), "Invalid character in string length");
    assert_eq!(err_of(b"1-:a"), "Invalid character in string length");
}

#[test]
fn error_missing_colon() {
    assert_eq!(err_of(b"12"), "Missing colon in string length prefix");
}

#[test]
fn error_string_length_overflow() {
    assert_eq!(
        err_of(b"999999999999999999999999999999:x"),
        "String length overflow"
    );
}

#[test]
fn error_leading_zeros() {
    assert_eq!(err_of(b"i042e"), "Leading zeros in integer");
    assert_eq!(err_of(b"i-05e"), "Leading zeros in integer");
    assert_eq!(err_of(b"i00e"), "Leading zeros in integer");
}

#[test]
fn error_integer_overflow() {
    assert_eq!(
        err_of(b"i170141183460469231731687303715884105728e"),
        "Integer overflow"
    );
    // i128::MIN has no representation the decoder accepts.
    assert_eq!(
        err_of(b"i-170141183460469231731687303715884105728e"),
        "Integer overflow"
    );
    // The overflow is reported before the missing terminator.
    assert_eq!(
        err_of(b"i999999999999999999999999999999999999999999"),
        "Integer overflow"
    );
}

#[test]
fn error_invalid_integer_character() {
    assert_eq!(err_of(b"i12x"), "Invalid character in integer");
    assert_eq!(err_of(b"i--1e"), "Invalid character in integer");
    assert_eq!(err_of(b"i0x"), "Invalid character in integer");
}

#[test]
fn error_missing_integer_terminator() {
    assert_eq!(err_of(b"i12"), "Missing integer terminator");
    assert_eq!(err_of(b"i"), "Missing integer terminator");
    assert_eq!(err_of(b"i-"), "Missing integer terminator");
}

#[test]
fn error_empty_integer() {
    assert_eq!(err_of(b"ie"), "Empty integer");
    assert_eq!(err_of(b"i-e"), "Empty integer");
}

#[test]
fn error_negative_zero() {
    assert_eq!(err_of(b"i-0e"), "Negative zero");
}

// --- Edge cases that succeed ---

#[test]
fn integer_extremes() {
    let (v, _) = parse_bencode(b"i170141183460469231731687303715884105727e").unwrap();
    assert_eq!(v, BencodeValue::Int(i128::MAX));
    let (v, _) = parse_bencode(b"i-170141183460469231731687303715884105727e").unwrap();
    assert_eq!(v, BencodeValue::Int(-i128::MAX));
}

#[test]
fn length_with_leading_zeros_is_accepted() {
    let (v, rest) = parse_bencode(b"05:hellox").unwrap();
    assert_eq!(v, BencodeValue::Str(b"hello".to_vec()));
    assert_eq!(rest, b"x".as_slice());
}

#[test]
fn duplicate_key_keeps_last_value() {
    let (v, _) = parse_bencode(b"d1:ai1e1:ai2ee").unwrap();
    match v {
        BencodeValue::Dict(map) => {
            assert_eq!(map.len(), 1);
            assert_eq!(*map.get(b"a".as_slice()).unwrap(), BencodeValue::Int(2));
        }
        _ => panic!("Expected dict"),
    }
}

#[test]
fn dictionary_keys_come_out_sorted() {
    let (v, _) = parse_bencode(b"d1:bi1e2:aai2e1:ai3ee").unwrap();
    match v {
        BencodeValue::Dict(map) => {
            let keys: Vec<Vec<u8>> = map.entries().iter().map(|(k, _)| k.clone()).collect();
            assert_eq!(keys, vec![b"a".to_vec(), b"aa".to_vec(), b"b".to_vec()]);
            assert!(map.get(b"c".as_slice()).is_none());
        }
        _ => panic!("Expected dict"),
    }
}

#[test]
fn trailing_bytes_after_container() {
    let (v, rest) = parse_bencode(b"li1eexyz").unwrap();
    assert_eq!(v, BencodeValue::List(vec![BencodeValue::Int(1)]));
    assert_eq!(rest, b"xyz".as_slice());
}

#[test]
fn decode_bencode_matches_parse_bencode() {
    let input = b"d3:cow3:moo4:spam4:eggse";
    assert_eq!(decode_bencode(input), parse_bencode(input));
    assert_eq!(decode_bencode(b"i-e"), Err("Empty integer"));
}

// --- Laws on concrete values ---

#[test]
fn law_decode_inverts_encode_example() {
    let mut dict = BencodeDict::new();
    dict.insert(b"zeta".to_vec(), BencodeValue::Int(-i128::MAX));
    dict.insert(b"alpha".to_vec(), BencodeValue::Str(vec![0, 255, b'e']));
    dict.insert(b"mid".to_vec(), BencodeValue::List(vec![BencodeValue::Int(0)]));
    let value = BencodeValue::List(vec![
        BencodeValue::Dict(dict),
        BencodeValue::Int(i128::MAX),
        BencodeValue::Str(Vec::new()),
        BencodeValue::List(Vec::new()),
    ]);
    let mut encoded = encode_bencode(value.clone()).unwrap();
    let n = encoded.len();
    encoded.extend_from_slice(b"trailing");
    let (decoded, rest) = parse_bencode(&encoded).unwrap();
    assert_eq!(decoded, value);
    assert_eq!(rest, b"trailing".as_slice());
    assert_eq!(encoded.len() - rest.len(), n);
}

#[test]
fn law_roundtrip_fails_only_for_i128_min() {
    let encoded = encode_bencode(BencodeValue::Int(i128::MIN)).unwrap();
    assert_eq!(encoded, b"i-170141183460469231731687303715884105728e".to_vec());
    assert_eq!(parse_bencode(&encoded), Err("Integer overflow"));
}

#[test]
fn law_trailing_bytes_do_not_matter() {
    let input = b"d1:ai1ee";
    let (v1, rest1) = parse_bencode(input).unwrap();
    assert!(rest1.is_empty());
    let mut longer = input.to_vec();
    longer.extend_from_slice(b"ie");
    let (v2, rest2) = parse_bencode(&longer).unwrap();
    assert_eq!(v1, v2);
    assert_eq!(rest2, b"ie".as_slice());
}

#[test]
fn law_decoded_dictionaries_are_sorted() {
    let (v, _) = parse_bencode(b"d1:ci3e1:bi2e1:ai1ee").unwrap();
    match v {
        BencodeValue::Dict(map) => {
            let entries = map.into_entries();
            assert_eq!(entries.len(), 3);
            assert!(entries.windows(2).all(|w| w[0].0 < w[1].0));
        }
        _ => panic!("Expected dict"),
    }
}

#[test]
fn law_lookup_after_insert_examples() {
    let mut dict = BencodeDict::new();
    assert!(dict.is_empty());
    assert_eq!(dict.insert(b"b".to_vec(), BencodeValue::Int(1)), None);
    assert_eq!(dict.insert(b"a".to_vec(), BencodeValue::Int(2)), None);
    assert_eq!(dict.insert(b"b".to_vec(), BencodeValue::Int(3)), Some(BencodeValue::Int(1)));
    assert_eq!(dict.len(), 2);
    assert_eq!(dict.get(b"b"), Some(&BencodeValue::Int(3)));
    assert_eq!(dict.get(b"a"), Some(&BencodeValue::Int(2)));
    assert_eq!(dict.get(b"c"), None);
    let keys: Vec<Vec<u8>> = dict.entries().iter().map(|(k, _)| k.clone()).collect();
    assert_eq!(keys, vec![b"a".to_vec(), b"b".to_vec()]);
}

// --- Encoding, exact bytes ---

#[test]
fn encode_exact_bytes() {
    assert_eq!(encode_bencode(BencodeValue::Int(0)).unwrap(), b"i0e".to_vec());
    assert_eq!(encode_bencode(BencodeValue::Int(-42)).unwrap(), b"i-42e".to_vec());
    assert_eq!(encode_bencode(BencodeValue::Int(1234567890)).unwrap(), b"i1234567890e".to_vec());
    assert_eq!(encode_bencode(BencodeValue::Str(Vec::new())).unwrap(), b"0:".to_vec());
    assert_eq!(encode_bencode(BencodeValue::Str(b"spam".to_vec())).unwrap(), b"4:spam".to_vec());
    let mut dict = BencodeDict::new();
    dict.insert(b"spam".to_vec(), BencodeValue::List(vec![BencodeValue::Str(b"a".to_vec())]));
    dict.insert(b"cow".to_vec(), BencodeValue::Str(b"moo".to_vec()));
    assert_eq!(
        encode_bencode(BencodeValue::Dict(dict)).unwrap(),
        b"d3:cow3:moo4:spaml1:aee".to_vec()
    );
}

#[test]
fn encode_helpers() {
    let mut out = Vec::new();
    push_decimal(&mut out, 0);
    push_decimal(&mut out, 907);
    assert_eq!(out, b"0907".to_vec());
    let mut out = Vec::new();
    push_bytes(&mut out, &b"xy".to_vec());
    assert_eq!(out, b"2:xy".to_vec());
    let mut out = b"pre".to_vec();
    push_encoded(&mut out, &BencodeValue::List(vec![BencodeValue::Int(7)]));
    assert_eq!(out, b"preli7ee".to_vec());
}

// --- Cursor ---

#[test]
fn cursor_advance_saturates() {
    let mut c = Cursor::new(b"ab");
    assert!(!c.at_end());
    c.advance(usize::MAX);
    assert!(c.at_end());
    assert_eq!(c.peek(), None);
    c.advance(5);
    assert_eq!(c.read_bytes(0), None);
}

#[test]
fn cursor_read_bytes_past_end_leaves_position() {
    let mut c = Cursor::new(b"abc");
    assert_eq!(c.read_bytes(4), None);
    assert_eq!(c.read_bytes(usize::MAX), None);
    assert_eq!(c.remaining(), b"abc".as_slice());
    assert_eq!(c.read_bytes(3), Some(b"abc".as_slice()));
    assert!(c.at_end());
    assert_eq!(c.remaining(), b"".as_slice());
}

#[test]
fn cursor_length_prefix() {
    let mut c = Cursor::new(b"12:rest");
    assert_eq!(c.parse_length_prefix(), Ok((12, 3)));
    assert_eq!(c.remaining(), b"rest".as_slice());
    let mut c = Cursor::new(b":x");
    assert_eq!(c.parse_length_prefix(), Ok((0, 1)));
    let mut c = Cursor::new(b"12a");
    assert_eq!(c.parse_length_prefix(), Err("Invalid character in string length"));
    assert_eq!(c.peek(), Some(b'a'));
    let mut c = Cursor::new(b"123");
    assert_eq!(c.parse_length_prefix(), Err("Missing colon in string length prefix"));
    assert!(c.at_end());
}

#[test]
fn cursor_parse_integer() {
    let mut c = Cursor::new(b"i-17etail");
    assert_eq!(c.parse_integer(), Ok(-17));
    assert_eq!(c.remaining(), b"tail".as_slice());
    let mut c = Cursor::new(b"i05e");
    assert_eq!(c.parse_integer(), Err("Leading zeros in integer"));
    assert_eq!(c.peek(), Some(b'0'));
    let mut c = Cursor::new(b"ie");
    assert_eq!(c.parse_integer(), Err("Empty integer"));
    assert!(c.at_end());
}

// --- Small pieces ---

#[test]
fn compare_bytes_orders_lexicographically() {
    assert!(compare_bytes(b"a", b"b") < 0);
    assert!(compare_bytes(b"b", b"a") > 0);
    assert_eq!(compare_bytes(b"ab", b"ab"), 0);
    assert!(compare_bytes(b"ab", b"abc") < 0);
    assert!(compare_bytes(b"", b"a") < 0);
    assert!(compare_bytes(b"b", b"abc") > 0);
}

#[test]
fn digits_and_copies() {
    assert!(is_ascii_digit(b'0'));
    assert!(is_ascii_digit(b'9'));
    assert!(!is_ascii_digit(b'/'));
    assert!(!is_ascii_digit(b':'));
    assert_eq!(copy_bytes(&b"xyz".to_vec()), b"xyz".to_vec());
    let v = BencodeValue::List(vec![BencodeValue::Int(1), BencodeValue::Str(b"s".to_vec())]);
    assert_eq!(v.deep_copy(), v);
}

#[test]
fn parse_frames_can_be_built() {
    let mut stack: ParseStack = Vec::new();
    stack.push(ParseFrame::List { items: vec![BencodeValue::Int(1)] });
    stack.push(ParseFrame::Dict { entries: BencodeDict::new(), pending_key: None });
    assert_eq!(stack.len(), 2);
}

#[test]
fn js_safe_range_bounds() {
    assert_eq!(JS_MAX_SAFE_INTEGER, (1_i128 << 53) - 1);
    assert!(within_js_safe_range(0));
    assert!(within_js_safe_range(9007199254740991));
    assert!(within_js_safe_range(-9007199254740991));
    assert!(!within_js_safe_range(9007199254740992));
    assert!(!within_js_safe_range(-9007199254740992));
    assert!(!within_js_safe_range(i128::MIN));
}
