use json_pack::bytes::common_prefix_len;
use json_pack::decoding::{decode, decompress_strings, inplace_number, json};
use json_pack::encoding::{collect_string_values, compress_json, encode, write_compressed_strings, write_json};
use json_pack::error::DecodeError;
use json_pack::sorted_collection::SortedCollection;
use json_pack::value::Value;
use json_pack::varint::{vbyte_number, write_number};

fn s(t: &str) -> Vec<u8> {
    t.as_bytes().to_vec()
}

fn strs(list: &[&str]) -> Vec<Vec<u8>> {
    list.iter().map(|t| s(t)).collect()
}

#[test]
fn test_collection() {
    let nums: [u64; 40] = [
        1, 12, 546, 7, 65, 45, 43, 234, 4, 53, 456, 67, 657, 765, 765, 654, 45, 345, 534, 34, 34,
        234, 324, 64, 6456, 546, 546, 456, 546, 456, 45654, 32132, 1, 1, 1, 1, 1, 1, 1, 11,
    ];
    let items: Vec<Vec<u8>> = nums.iter().map(|n| n.to_be_bytes().to_vec()).collect();
    let c = SortedCollection::new(items);
    assert!(nums.len() > c.len(), "removed duplicates");
    let values = c.values().clone();
    for elem in values {
        let Some(index) = c.find(&elem) else {
            panic!("element {elem:?} not found in SortedCollection")
        };
        let found = c.index(index);
        assert_eq!(elem.as_slice(), found, "expect to retrieve the right element at index");
    }
}

#[test]
fn collection_sorted_deduplicated_and_searchable() {
    let input = strs(&["pear", "apple", "fig", "apple", "", "fig", "banana", "pear"]);
    let c = SortedCollection::new(input.clone());
    assert!(c.len() <= input.len());
    assert_eq!(c.values().clone(), strs(&["", "apple", "banana", "fig", "pear"]));
    for (i, v) in c.values().clone().iter().enumerate() {
        assert_eq!(c.find(v), Some(i));
    }
    assert_eq!(c.find(b"apples"), None);
    assert_eq!(c.find(b"zzz"), None);
    assert_eq!(c.find(b"b"), None);
    assert_eq!(c.into_vec().len(), 5);
}

#[test]
fn collection_keeps_length_without_duplicates() {
    let distinct = strs(&["b", "a", "c"]);
    assert_eq!(SortedCollection::new(distinct).len(), 3);
    let dict = SortedCollection::new((0..100).map(|i| format!("s{:03}", i).into_bytes()).collect());
    assert_eq!(dict.len(), 100);
    assert_eq!(SortedCollection::new(strs(&["a", "a"])).len(), 1);
}

#[test]
fn collection_empty() {
    let c = SortedCollection::new(Vec::new());
    assert_eq!(c.len(), 0);
    assert_eq!(c.find(b"a"), None);
}

#[test]
fn common_prefix_lengths() {
    assert_eq!(common_prefix_len(b"apple", b"application"), 4);
    assert_eq!(common_prefix_len(b"apple", b"apple"), 5);
    assert_eq!(common_prefix_len(b"", b"abc"), 0);
    assert_eq!(common_prefix_len(b"abc", b"xbc"), 0);
}

#[test]
fn varint_round_trip_and_lengths() {
    let values = [0u64, 127, 128, 16383, 16384, u64::MAX];
    let mut prev_len = 0;
    for v in values {
        let mut w = Vec::new();
        write_number(v, &mut w);
        assert!(w.len() >= prev_len);
        prev_len = w.len();
        assert_eq!(vbyte_number(&w, 0), Ok((v, w.len())));
    }
}

#[test]
fn varint_exact_bytes() {
    let mut w = Vec::new();
    write_number(128, &mut w);
    assert_eq!(w, vec![0x80, 0x01]);
    let mut w = Vec::new();
    write_number(16383, &mut w);
    assert_eq!(w, vec![0xFF, 0x7F]);
    let mut w = Vec::new();
    write_number(u64::MAX, &mut w);
    let mut expected = vec![0xFF; 9];
    expected.push(0x01);
    assert_eq!(w, expected);
}

#[test]
fn varint_truncated_and_overlong() {
    assert_eq!(vbyte_number(&[0x80], 0), Err(DecodeError::TruncatedInput));
    assert_eq!(vbyte_number(&[], 0), Err(DecodeError::TruncatedInput));
    assert_eq!(vbyte_number(&[0xFF; 12], 0), Err(DecodeError::TruncatedInput));
    let mut long = vec![0xFF; 11];
    long.push(0x01);
    assert_eq!(vbyte_number(&long, 0), Err(DecodeError::NumberOutOfRange));
    let mut wide = vec![0xFF; 9];
    wide.push(0x02);
    assert_eq!(vbyte_number(&wide, 0), Err(DecodeError::NumberOutOfRange));
    let mut max = vec![0xFF; 9];
    max.push(0x01);
    max.push(0x33);
    assert_eq!(vbyte_number(&max, 0), Ok((u64::MAX, 10)));
}

#[test]
fn inplace_number_any_width() {
    assert_eq!(inplace_number(2, &[], 0), Err(DecodeError::TruncatedInput));
    assert_eq!(inplace_number(2, &[0x7F], 0), Err(DecodeError::TruncatedInput));
    assert_eq!(inplace_number(2, &[0x7F, 0x80], 0), Err(DecodeError::TruncatedInput));
    assert_eq!(inplace_number(2, &[0x45], 0), Ok((0x40, 5, 1)));
    assert_eq!(inplace_number(2, &[0x7F, 0x3F], 0), Ok((0x40, 63, 2)));
    assert_eq!(inplace_number(4, &[0xAF, 0x10], 0), Ok((0xA0, 16, 2)));
    assert_eq!(inplace_number(5, &[0x1B], 0), Ok((0x18, 3, 1)));
    assert_eq!(inplace_number(7, &[0x80], 0), Ok((0x80, 0, 1)));
    assert_eq!(inplace_number(7, &[0x81], 0), Err(DecodeError::TruncatedInput));
    assert_eq!(inplace_number(1, &[9, 0x7F, 0x7E], 1), Ok((0x00, 0x7E, 3)));
}

fn value_bytes(v: &Value) -> Vec<u8> {
    let dict = SortedCollection::new(Vec::new());
    let mut w = Vec::new();
    write_json(v, &dict, &mut w);
    w
}

#[test]
fn integer_round_trip_and_sizes() {
    let values = [-1i64, 0, 1, 6, -6, 7, -7, 8, -8, i64::MIN, i64::MAX];
    for v in values {
        let w = value_bytes(&Value::Int(v));
        let magnitude = if v >= 0 { v as u64 } else { (-(v + 1)) as u64 };
        if magnitude <= 6 {
            assert_eq!(w.len(), 1);
        } else {
            assert!(w.len() > 1);
        }
        assert_eq!(json(&w, 0, &Vec::new()), Ok((Value::Int(v), w.len())));
    }
}

#[test]
fn integer_exact_bytes() {
    assert_eq!(value_bytes(&Value::Int(1)), vec![0x11]);
    assert_eq!(value_bytes(&Value::Int(-1)), vec![0x18]);
    assert_eq!(value_bytes(&Value::Int(7)), vec![0x17, 0x07]);
    assert_eq!(value_bytes(&Value::Int(-8)), vec![0x1F, 0x07]);
}

#[test]
fn float_bytes_little_endian() {
    let w = value_bytes(&Value::Float(3.5f64.to_bits()));
    assert_eq!(w, vec![0x20, 0, 0, 0, 0, 0, 0, 0x0C, 0x40]);
    let (v, n) = json(&w, 0, &Vec::new()).unwrap();
    assert_eq!(n, 9);
    assert_eq!(v, Value::Float(3.5f64.to_bits()));
}

#[test]
fn front_coding_round_trip() {
    let c = SortedCollection::new(strs(&["apply", "banana", "apple", "application", "apple"]));
    let mut w = Vec::new();
    write_compressed_strings(&c, &mut w);
    let mut expected = vec![4, 5];
    expected.extend_from_slice(b"apple");
    expected.extend_from_slice(&[4, 7]);
    expected.extend_from_slice(b"ication");
    expected.extend_from_slice(&[4, 1]);
    expected.extend_from_slice(b"y");
    expected.extend_from_slice(&[0, 6]);
    expected.extend_from_slice(b"banana");
    assert_eq!(w, expected);
    let (read, p) = decompress_strings(&w, 0).unwrap();
    assert_eq!(p, w.len());
    assert_eq!(read, strs(&["apple", "application", "apply", "banana"]));
}

#[test]
fn index_stable_across_serialization() {
    let c = SortedCollection::new(strs(&["kiwi", "apple", "melon", "apple", "cherry"]));
    let mut w = Vec::new();
    write_compressed_strings(&c, &mut w);
    let (read, _) = decompress_strings(&w, 0).unwrap();
    for t in ["kiwi", "apple", "melon", "cherry"] {
        let i = c.find(t.as_bytes()).unwrap();
        assert_eq!(read[i], s(t));
    }
}

#[test]
fn empty_dictionary_is_one_byte() {
    let c = SortedCollection::new(Vec::new());
    let mut w = Vec::new();
    write_compressed_strings(&c, &mut w);
    assert_eq!(w, vec![0]);
    assert_eq!(decompress_strings(&w, 0), Ok((Vec::new(), 1)));
}

fn scenario_document() -> Value {
    Value::Object(vec![
        (s("a"), Value::Int(1)),
        (
            s("b"),
            Value::Array(vec![
                Value::Bool(true),
                Value::Null,
                Value::Int(-1),
                Value::Float(3.5f64.to_bits()),
                Value::Str(s("a")),
            ]),
        ),
    ])
}

#[test]
fn end_to_end_scenario() {
    let doc = scenario_document();
    let mut all = Vec::new();
    collect_string_values(&doc, &mut all);
    assert_eq!(all, strs(&["a", "b", "a"]));
    let c = SortedCollection::new(all);
    assert_eq!(c.values().clone(), strs(&["a", "b"]));
    let bytes = encode(&doc);
    let mut expected = vec![0, 2, 1, b'a', 0, 1, b'b', 0xC2, 0x40, 0x11, 0x41, 0x85, 0x02, 0x00, 0x18];
    expected.extend_from_slice(&[0x20, 0, 0, 0, 0, 0, 0, 0x0C, 0x40, 0x40]);
    assert_eq!(bytes, expected);
    let mut w = Vec::new();
    compress_json(&doc, &c, &mut w);
    assert_eq!(w, expected);
    assert_eq!(decode(&bytes), Ok(doc));
}

#[test]
fn empty_collections() {
    let arr = Value::Array(Vec::new());
    let obj = Value::Object(Vec::new());
    assert_eq!(encode(&arr), vec![0, 0, 0x80]);
    assert_eq!(encode(&obj), vec![0, 0, 0xC0]);
    assert_eq!(decode(&[0, 0, 0x80]), Ok(arr));
    assert_eq!(decode(&[0, 0, 0xC0]), Ok(obj));
}

#[test]
fn hundred_strings_use_index_overflow() {
    let items: Vec<Value> = (0..100).map(|i| Value::Str(format!("s{:03}", i).into_bytes())).collect();
    let doc = Value::Array(items);
    let bytes = encode(&doc);
    assert_eq!(decode(&bytes), Ok(doc));
    let dict = SortedCollection::new((0..100).map(|i| format!("s{:03}", i).into_bytes()).collect());
    let mut w = Vec::new();
    write_json(&Value::Str(s("s063")), &dict, &mut w);
    assert_eq!(w, vec![0x7F, 63]);
    let mut w = Vec::new();
    write_json(&Value::Str(s("s099")), &dict, &mut w);
    assert_eq!(w, vec![0x7F, 99]);
    let mut w = Vec::new();
    write_json(&Value::Str(s("s062")), &dict, &mut w);
    assert_eq!(w, vec![0x7E]);
}

#[test]
fn long_array_count_overflows() {
    let doc = Value::Array((0..70).map(|i| Value::Int(i)).collect());
    let bytes = encode(&doc);
    assert_eq!(&bytes[..4], &[0, 0, 0xBF, 70]);
    assert_eq!(decode(&bytes), Ok(doc));
}

#[test]
fn nested_round_trip() {
    let doc = Value::Array(vec![
        Value::Object(vec![(s("k"), Value::Array(vec![Value::Null, Value::Str(s("v"))]))]),
        Value::Int(i64::MIN),
        Value::Bool(false),
        Value::Object(Vec::new()),
    ]);
    assert_eq!(decode(&encode(&doc)), Ok(doc));
}

#[test]
fn decode_errors() {
    assert_eq!(decode(&[]), Err(DecodeError::TruncatedInput));
    assert_eq!(decode(&[0]), Err(DecodeError::TruncatedInput));
    assert_eq!(decode(&[0, 0]), Err(DecodeError::TruncatedInput));
    assert_eq!(decode(&[0, 0, 0x03]), Err(DecodeError::InvalidTag));
    assert_eq!(decode(&[0, 0, 0x21]), Err(DecodeError::InvalidTag));
    assert_eq!(decode(&[0, 0, 0x17, 0xFF, 0xFF]), Err(DecodeError::TruncatedInput));
    assert_eq!(decode(&[0, 0, 0x40]), Err(DecodeError::StringIndexOutOfRange));
    assert_eq!(decode(&[0, 0, 0x20, 1, 2, 3]), Err(DecodeError::TruncatedInput));
    assert_eq!(decode(&[0, 0, 0x82, 0x00]), Err(DecodeError::TruncatedInput));
    let mut big = vec![0, 0, 0x17];
    write_number(1u64 << 63, &mut big);
    assert_eq!(decode(&big), Err(DecodeError::NumberOutOfRange));
    let mut min = vec![0, 0, 0x1F];
    write_number((1u64 << 63) - 1, &mut min);
    assert_eq!(decode(&min), Ok(Value::Int(i64::MIN)));
    // object key that is not a string reference
    assert_eq!(decode(&[0, 0, 0xC1, 0x00, 0x00]), Err(DecodeError::InvalidTag));
    // front-coded prefix longer than the previous string
    assert_eq!(decode(&[0, 2, 1, b'a', 5, 0, 0x00]), Err(DecodeError::NumberOutOfRange));
}
