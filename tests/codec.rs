use bittorrent::value::{
    decode_bencoded_value, decode_dict, decode_integer, decode_list, decode_string, DecodeError,
    Value,
};

fn s(x: &str) -> Value {
    Value::String(x.as_bytes().to_vec())
}

#[test]
fn decode_string_hello() {
    assert_eq!(Value::decode(b"5:hello"), Ok(s("hello")));
}

#[test]
fn decode_positive_integer() {
    assert_eq!(Value::decode(b"i42e"), Ok(Value::Integer(42)));
}

#[test]
fn decode_negative_integer() {
    assert_eq!(Value::decode(b"i-7e"), Ok(Value::Integer(-7)));
}

#[test]
fn decode_list_of_string_and_integer() {
    assert_eq!(
        Value::decode(b"l5:helloi42ee"),
        Ok(Value::Array(vec![s("hello"), Value::Integer(42)]))
    );
}

#[test]
fn decode_dictionary() {
    assert_eq!(
        Value::decode(b"d3:bar4:spam3:fooi42ee"),
        Ok(Value::Dict(vec![
            (b"bar".to_vec(), s("spam")),
            (b"foo".to_vec(), Value::Integer(42)),
        ]))
    );
}

#[test]
fn encode_dictionary() {
    let v = Value::Dict(vec![
        (b"bar".to_vec(), s("spam")),
        (b"foo".to_vec(), Value::Integer(42)),
    ]);
    assert_eq!(v.encode(), b"d3:bar4:spam3:fooi42ee".to_vec());
}

#[test]
fn canonical_inputs_round_trip() {
    let corpus: Vec<&[u8]> = vec![
        b"0:",
        b"i0e",
        b"i-1e",
        b"i9223372036854775807e",
        b"i-9223372036854775808e",
        b"le",
        b"de",
        b"l0:i0eli1eee",
        b"d1:ad1:bl1:cee1:b0:e",
        b"d8:announce3:url4:infod6:lengthi92063e4:name3:abc12:piece lengthi32768e6:pieces0:ee",
    ];
    for b in corpus {
        let v = Value::decode(b).expect("canonical input decodes");
        assert_eq!(v.encode(), b.to_vec());
    }
}

#[test]
fn encoded_values_decode_back() {
    let v = Value::Array(vec![
        Value::Integer(i64::MIN),
        Value::Integer(i64::MAX),
        Value::String(vec![0, 255, b':', b'e']),
        Value::Dict(vec![(b"k".to_vec(), Value::Array(vec![]))]),
    ]);
    let bytes = v.encode();
    assert_eq!(Value::decode(&bytes), Ok(v));
}

#[test]
fn non_canonical_inputs_are_rejected() {
    let bad: Vec<&[u8]> = vec![
        b"",
        b"i-0e",
        b"i03e",
        b"ie",
        b"i-e",
        b"03:abc",
        b"5:hel",
        b"i9223372036854775808e",
        b"i-9223372036854775809e",
        b"d3:fooi1e3:bari2ee",
        b"d3:fooi1e3:fooi2ee",
        b"di1ei2ee",
        b"l5:hello",
        b"x",
        b"i1ei2e",
    ];
    for b in bad {
        assert_eq!(Value::decode(b), Err(DecodeError), "input {:?}", b);
    }
}

#[test]
fn prefix_decoders_hand_back_the_rest() {
    let (v, rest) = decode_bencoded_value(b"i1eXYZ").unwrap();
    assert_eq!(v, Value::Integer(1));
    assert_eq!(rest, b"XYZ");
    let (v, rest) = decode_string(b"3:abcd").unwrap();
    assert_eq!(v, s("abc"));
    assert_eq!(rest, b"d");
    let (v, rest) = decode_integer(b"i-12e3:x").unwrap();
    assert_eq!(v, Value::Integer(-12));
    assert_eq!(rest, b"3:x");
    let (v, rest) = decode_list(b"li1eee").unwrap();
    assert_eq!(v, Value::Array(vec![Value::Integer(1)]));
    assert_eq!(rest, b"e");
    let (v, rest) = decode_dict(b"d1:ai1eei2e").unwrap();
    assert_eq!(v, Value::Dict(vec![(b"a".to_vec(), Value::Integer(1))]));
    assert_eq!(rest, b"i2e");
}

#[test]
fn prefix_decoders_check_the_kind() {
    assert!(decode_string(b"i1e").is_err());
    assert!(decode_integer(b"1:a").is_err());
    assert!(decode_list(b"de").is_err());
    assert!(decode_dict(b"le").is_err());
}

#[test]
fn byte_order_of_keys() {
    assert!(bittorrent::value::bytes_less(b"piece length", b"pieces"));
    assert!(!bittorrent::value::bytes_less(b"pieces", b"piece length"));
    assert!(bittorrent::value::bytes_less(b"", b"a"));
    assert!(!bittorrent::value::bytes_less(b"a", b"a"));
}

#[test]
fn dict_insert_keeps_keys_sorted_and_unique() {
    let mut entries: Vec<(Vec<u8>, Value)> = Vec::new();
    bittorrent::value::dict_insert(&mut entries, b"foo".to_vec(), Value::Integer(1));
    bittorrent::value::dict_insert(&mut entries, b"bar".to_vec(), s("spam"));
    bittorrent::value::dict_insert(&mut entries, b"foo".to_vec(), Value::Integer(42));
    bittorrent::value::dict_insert(&mut entries, b"baz".to_vec(), Value::Array(vec![]));
    let keys: Vec<Vec<u8>> = entries.iter().map(|e| e.0.clone()).collect();
    assert_eq!(keys, vec![b"bar".to_vec(), b"baz".to_vec(), b"foo".to_vec()]);
    assert_eq!(bittorrent::value::dict_get(&entries, b"foo"), Some(&Value::Integer(42)));
    assert_eq!(bittorrent::value::dict_get(&entries, b"qux"), None);
    assert_eq!(Value::Dict(entries).encode(), b"d3:bar4:spam3:bazle3:fooi42ee".to_vec());
}

#[test]
fn dictionary_keys_come_out_in_ascending_order() {
    let mut entries: Vec<(Vec<u8>, Value)> = Vec::new();
    for k in ["pieces", "piece length", "name", "length", "a", ""] {
        bittorrent::value::dict_insert(&mut entries, k.as_bytes().to_vec(), Value::Integer(0));
    }
    let bytes = Value::Dict(entries).encode();
    assert_eq!(
        bytes,
        b"d0:i0e1:ai0e6:lengthi0e4:namei0e12:piece lengthi0e6:piecesi0ee".to_vec()
    );
    let decoded = Value::decode(&bytes).unwrap();
    assert_eq!(decoded.encode(), bytes);
}
