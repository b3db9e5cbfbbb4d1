use std::collections::HashMap;

use torrent_client::codec::{
    decode, decode_bencoded_value, dict_find, dict_set, encode, parse_ben_dict, parse_ben_int,
    parse_ben_list, parse_ben_string, Value, MAX_DEPTH,
};
use torrent_client::error::TorrentError;

fn bytes(text: &str) -> Value {
    Value::Bytes(text.as_bytes().to_vec())
}

fn entry(key: &str, value: Value) -> (Vec<u8>, Value) {
    (key.as_bytes().to_vec(), value)
}

fn to_outside(value: &Value) -> serde_bencode::value::Value {
    match value {
        Value::Bytes(b) => serde_bencode::value::Value::Bytes(b.clone()),
        Value::Int(i) => serde_bencode::value::Value::Int(*i),
        Value::List(items) => serde_bencode::value::Value::List(items.iter().map(to_outside).collect()),
        Value::Dict(entries) => {
            let mut map = HashMap::new();
            for (k, v) in entries {
                map.insert(k.clone(), to_outside(v));
            }
            serde_bencode::value::Value::Dict(map)
        }
    }
}

#[test]
fn string_is_read_with_its_length() {
    assert_eq!(parse_ben_string(b"5:hello", 0), Ok((b"hello".to_vec(), 7)));
    assert_eq!(parse_ben_string(b"xx5:hello!", 2), Ok((b"hello".to_vec(), 9)));
    assert_eq!(parse_ben_string(b"0:", 0), Ok((Vec::new(), 2)));
    assert_eq!(parse_ben_string(b"05:hello", 0), Ok((b"hello".to_vec(), 8)));
}

#[test]
fn string_keeps_raw_bytes() {
    let input = [b'3', b':', 0xff, 0x00, 0x80];
    assert_eq!(parse_ben_string(&input, 0), Ok((vec![0xff, 0x00, 0x80], 5)));
}

#[test]
fn string_with_bad_length_is_malformed() {
    assert_eq!(parse_ben_string(b"5:hi", 0), Err(TorrentError::MalformedInput));
    assert_eq!(parse_ben_string(b":hi", 0), Err(TorrentError::MalformedInput));
    assert_eq!(parse_ben_string(b"5hello", 0), Err(TorrentError::MalformedInput));
    assert_eq!(parse_ben_string(b"5", 0), Err(TorrentError::MalformedInput));
    assert_eq!(parse_ben_string(b"", 0), Err(TorrentError::MalformedInput));
    assert_eq!(parse_ben_string(b"5:hello", 7), Err(TorrentError::MalformedInput));
    assert_eq!(parse_ben_string(b"-1:x", 0), Err(TorrentError::MalformedInput));
    assert_eq!(
        parse_ben_string(b"99999999999999999999999999999999:x", 0),
        Err(TorrentError::MalformedInput)
    );
}

#[test]
fn integer_is_read() {
    assert_eq!(parse_ben_int(b"i52e", 0), Ok((52, 4)));
    assert_eq!(parse_ben_int(b"i-52e", 0), Ok((-52, 5)));
    assert_eq!(parse_ben_int(b"i0e", 0), Ok((0, 3)));
    assert_eq!(parse_ben_int(b"li7ee", 1), Ok((7, 4)));
    assert_eq!(parse_ben_int(b"i9223372036854775807e", 0), Ok((i64::MAX, 21)));
    assert_eq!(parse_ben_int(b"i-9223372036854775808e", 0), Ok((i64::MIN, 22)));
}

#[test]
fn integer_with_bad_digits_is_malformed() {
    for input in [
        &b"ie"[..],
        b"i-e",
        b"i-0e",
        b"i03e",
        b"i00e",
        b"i-03e",
        b"i12",
        b"i1x2e",
        b"i+5e",
        b"i",
        b"",
        b"52e",
        b"i9223372036854775808e",
        b"i-9223372036854775809e",
        b"i99999999999999999999999999e",
    ] {
        assert_eq!(parse_ben_int(input, 0), Err(TorrentError::MalformedInput));
    }
}

#[test]
fn list_is_read_in_order() {
    let expected = Value::List(vec![bytes("hello"), Value::Int(52)]);
    assert_eq!(parse_ben_list(b"l5:helloi52ee", 0, MAX_DEPTH), Ok((expected, 13)));
    assert_eq!(parse_ben_list(b"le", 0, MAX_DEPTH), Ok((Value::List(vec![]), 2)));
    assert_eq!(
        parse_ben_list(b"lli1eee", 0, MAX_DEPTH),
        Ok((Value::List(vec![Value::List(vec![Value::Int(1)])]), 7))
    );
}

#[test]
fn list_without_end_is_malformed() {
    assert_eq!(parse_ben_list(b"l5:hello", 0, MAX_DEPTH), Err(TorrentError::MalformedInput));
    assert_eq!(parse_ben_list(b"l", 0, MAX_DEPTH), Err(TorrentError::MalformedInput));
    assert_eq!(parse_ben_list(b"i1e", 0, MAX_DEPTH), Err(TorrentError::MalformedInput));
    assert_eq!(parse_ben_list(b"le", 0, 0), Err(TorrentError::MalformedInput));
}

#[test]
fn dict_is_read_with_sorted_keys() {
    let expected = Value::Dict(vec![entry("foo", bytes("bar")), entry("hello", Value::Int(52))]);
    assert_eq!(parse_ben_dict(b"d3:foo3:bar5:helloi52ee", 0, MAX_DEPTH), Ok((expected, 23)));
    assert_eq!(parse_ben_dict(b"de", 0, MAX_DEPTH), Ok((Value::Dict(vec![]), 2)));
}

#[test]
fn dict_keys_in_any_order_are_sorted() {
    let expected = Value::Dict(vec![entry("a", Value::Int(2)), entry("b", Value::Int(1)), entry("c", Value::Int(3))]);
    assert_eq!(parse_ben_dict(b"d1:bi1e1:ai2e1:ci3ee", 0, MAX_DEPTH), Ok((expected, 20)));
}

#[test]
fn dict_keeps_the_later_of_two_equal_keys() {
    let expected = Value::Dict(vec![entry("a", Value::Int(2))]);
    assert_eq!(parse_ben_dict(b"d1:ai1e1:ai2ee", 0, MAX_DEPTH), Ok((expected, 14)));
}

#[test]
fn dict_that_is_broken_is_malformed() {
    assert_eq!(parse_ben_dict(b"d3:foo", 0, MAX_DEPTH), Err(TorrentError::MalformedInput));
    assert_eq!(parse_ben_dict(b"d3:foo3:bar", 0, MAX_DEPTH), Err(TorrentError::MalformedInput));
    assert_eq!(parse_ben_dict(b"di1ei2ee", 0, MAX_DEPTH), Err(TorrentError::MalformedInput));
    assert_eq!(parse_ben_dict(b"d", 0, MAX_DEPTH), Err(TorrentError::MalformedInput));
    assert_eq!(parse_ben_dict(b"le", 0, MAX_DEPTH), Err(TorrentError::MalformedInput));
}

#[test]
fn value_kind_is_told_by_first_byte() {
    assert_eq!(decode_bencoded_value(b"5:hello", 0, MAX_DEPTH), Ok((bytes("hello"), 7)));
    assert_eq!(decode_bencoded_value(b"i-7e", 0, MAX_DEPTH), Ok((Value::Int(-7), 4)));
    assert_eq!(decode_bencoded_value(b"le", 0, MAX_DEPTH), Ok((Value::List(vec![]), 2)));
    assert_eq!(decode_bencoded_value(b"de", 0, MAX_DEPTH), Ok((Value::Dict(vec![]), 2)));
    assert_eq!(decode_bencoded_value(b"x", 0, MAX_DEPTH), Err(TorrentError::MalformedInput));
    assert_eq!(decode_bencoded_value(b"e", 0, MAX_DEPTH), Err(TorrentError::MalformedInput));
    assert_eq!(decode_bencoded_value(b"", 0, MAX_DEPTH), Err(TorrentError::MalformedInput));
}

#[test]
fn decode_gives_the_rest() {
    let input = b"i1ei2e";
    let (first, used) = decode(input).unwrap();
    assert_eq!(first, Value::Int(1));
    assert_eq!(used, 3);
    let (second, used) = decode(&input[used..]).unwrap();
    assert_eq!(second, Value::Int(2));
    assert_eq!(used, 3);
}

#[test]
fn nesting_is_capped() {
    let mut deep = vec![b'l'; MAX_DEPTH];
    deep.extend(vec![b'e'; MAX_DEPTH]);
    assert!(decode(&deep).is_ok());
    let mut deeper = vec![b'l'; MAX_DEPTH + 1];
    deeper.extend(vec![b'e'; MAX_DEPTH + 1]);
    assert_eq!(decode(&deeper), Err(TorrentError::MalformedInput));
    let endless = vec![b'l'; 100_000];
    assert_eq!(decode(&endless), Err(TorrentError::MalformedInput));
}

#[test]
fn encode_writes_each_kind() {
    assert_eq!(encode(&bytes("hello")), b"5:hello".to_vec());
    assert_eq!(encode(&bytes("")), b"0:".to_vec());
    assert_eq!(encode(&Value::Bytes(vec![7; 12])), [b"12:".to_vec(), vec![7; 12]].concat());
    assert_eq!(encode(&Value::Int(0)), b"i0e".to_vec());
    assert_eq!(encode(&Value::Int(-52)), b"i-52e".to_vec());
    assert_eq!(encode(&Value::Int(i64::MAX)), b"i9223372036854775807e".to_vec());
    assert_eq!(encode(&Value::Int(i64::MIN)), b"i-9223372036854775808e".to_vec());
    assert_eq!(encode(&Value::List(vec![bytes("a"), Value::Int(1)])), b"l1:ai1ee".to_vec());
    assert_eq!(
        encode(&Value::Dict(vec![entry("a", Value::Int(1)), entry("b", Value::List(vec![]))])),
        b"d1:ai1e1:blee".to_vec()
    );
}

#[test]
fn dict_set_sorts_and_replaces() {
    let mut entries = Vec::new();
    dict_set(&mut entries, b"pear".to_vec(), Value::Int(1));
    dict_set(&mut entries, b"apple".to_vec(), Value::Int(2));
    dict_set(&mut entries, b"plum".to_vec(), Value::Int(3));
    dict_set(&mut entries, b"pea".to_vec(), Value::Int(4));
    dict_set(&mut entries, b"apple".to_vec(), Value::Int(5));
    assert_eq!(
        entries,
        vec![
            entry("apple", Value::Int(5)),
            entry("pea", Value::Int(4)),
            entry("pear", Value::Int(1)),
            entry("plum", Value::Int(3)),
        ]
    );
    assert_eq!(dict_find(&entries, b"pear"), Some(2));
    assert_eq!(dict_find(&entries, b"peach"), None);
    assert_eq!(encode(&Value::Dict(entries)), b"d5:applei5e3:peai4e4:peari1e4:plumi3ee".to_vec());
}

#[test]
fn keys_are_ordered_as_raw_bytes() {
    let mut entries = Vec::new();
    dict_set(&mut entries, vec![0xff], Value::Int(1));
    dict_set(&mut entries, vec![0x61, 0x00], Value::Int(2));
    dict_set(&mut entries, vec![0x61], Value::Int(3));
    dict_set(&mut entries, vec![], Value::Int(4));
    dict_set(&mut entries, vec![0x7f], Value::Int(5));
    let keys: Vec<Vec<u8>> = entries.iter().map(|e| e.0.clone()).collect();
    assert_eq!(keys, vec![vec![], vec![0x61], vec![0x61, 0x00], vec![0x7f], vec![0xff]]);
}

#[test]
fn decoding_an_encoding_gives_the_value_back() {
    let value = Value::Dict(vec![
        entry("", Value::Int(i64::MIN)),
        entry("list", Value::List(vec![Value::Int(0), bytes(""), Value::List(vec![]), Value::Dict(vec![])])),
        entry("name", Value::Bytes(vec![0, 255, b'e', b':'])),
        entry("nested", Value::Dict(vec![entry("a", Value::Int(-1)), entry("b", bytes("i1e"))])),
    ]);
    let encoded = encode(&value);
    assert_eq!(decode(&encoded), Ok((value, encoded.len())));
}

#[test]
fn encoding_a_decoded_canonical_input_gives_it_back() {
    let input = b"d1:ad1:bi1e1:cl1:xi-2eee1:d0:e".to_vec();
    let (value, used) = decode(&input).unwrap();
    assert_eq!(used, input.len());
    assert_eq!(encode(&value), input);
}

#[test]
fn encoding_normalizes_key_order() {
    let (value, _) = decode(b"d1:bi1e1:ai2ee").unwrap();
    assert_eq!(encode(&value), b"d1:ai2e1:bi1ee".to_vec());
}

#[test]
fn encode_agrees_with_serde_bencode() {
    let value = Value::Dict(vec![
        entry("announce", bytes("http://tracker.example/announce")),
        entry("info", Value::Dict(vec![entry("length", Value::Int(11)), entry("name", bytes("hello.txt"))])),
        entry("list", Value::List(vec![Value::Int(-3), bytes("x")])),
    ]);
    let ours = encode(&value);
    let theirs = serde_bencode::to_bytes(&to_outside(&value)).unwrap();
    assert_eq!(ours, theirs);
    let decoded: serde_bencode::value::Value = serde_bencode::from_bytes(&ours).unwrap();
    assert_eq!(decoded, to_outside(&decode(&ours).unwrap().0));
}

#[test]
fn encode_sorts_keys_in_whatever_order_they_are_held() {
    let value = Value::Dict(vec![
        entry("b", Value::Int(1)),
        entry("a", Value::Dict(vec![entry("z", Value::Int(0)), entry("y", Value::Int(9))])),
        entry("c", Value::List(vec![Value::Dict(vec![entry("k", bytes("v")), entry("", bytes(""))])])),
    ]);
    assert_eq!(encode(&value), b"d1:ad1:yi9e1:zi0ee1:bi1e1:cld0:0:1:k1:veee".to_vec());
    assert_eq!(encode(&value), serde_bencode::to_bytes(&to_outside(&value)).unwrap());
}

#[test]
fn encode_keeps_the_later_of_two_equal_keys() {
    let value = Value::Dict(vec![
        entry("a", Value::Int(1)),
        entry("b", Value::Int(2)),
        entry("a", Value::Int(3)),
    ]);
    assert_eq!(encode(&value), b"d1:ai3e1:bi2ee".to_vec());
    let value = Value::Dict(vec![
        entry("b", Value::Int(2)),
        entry("b", Value::Int(4)),
        entry("a", Value::Int(1)),
        entry("a", Value::Int(3)),
    ]);
    assert_eq!(encode(&value), b"d1:ai3e1:bi4ee".to_vec());
}
