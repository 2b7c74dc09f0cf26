use bencode_minimal::value::dict_insert;
use bencode_minimal::{Dict, IntoStr, List, Value};

fn ping_query() -> Value {
    let mut inner = Vec::new();
    assert!(dict_insert(&mut inner, b"id".to_vec(), Value::Str(vec![5u8; 20])));
    let mut outer = Vec::new();
    assert!(dict_insert(&mut outer, b"t".to_vec(), Value::Str(b"1234".to_vec())));
    assert!(dict_insert(&mut outer, b"y".to_vec(), Value::Str(b"q".to_vec())));
    assert!(dict_insert(&mut outer, b"q".to_vec(), Value::Str(b"ping".to_vec())));
    assert!(dict_insert(&mut outer, b"a".to_vec(), Value::Dict(inner)));
    Value::Dict(outer)
}

#[test]
fn test_get_nested_fixed_array() {
    let v = ping_query();
    let a: &Value = v.get("a").unwrap();
    let id: [u8; 20] = a.get("id").unwrap();
    assert_eq!(id, [5u8; 20]);
    let wrong: Option<[u8; 19]> = a.get("id");
    assert!(wrong.is_none());
}

#[test]
fn test_get_scalar_shapes() {
    let v = ping_query();
    let t: &[u8] = v.get("t").unwrap();
    assert_eq!(t, b"1234");
    let y: &str = v.get("y").unwrap();
    assert_eq!(y, "q");
    let missing: Option<&[u8]> = v.get("zz");
    assert!(missing.is_none());
    let wrong_shape: Option<i64> = v.get("t");
    assert!(wrong_shape.is_none());
    let not_dict: Option<i64> = Value::Int(7).get("t");
    assert!(not_dict.is_none());
}

#[test]
fn test_try_into_shapes() {
    let n = Value::Int(-3);
    assert_eq!(Value::try_into::<i64>(&n), Some(-3));
    assert!(Value::try_into::<&[u8]>(&n).is_none());

    let s = Value::Str(b"ab".to_vec());
    assert_eq!(Value::try_into::<&[u8]>(&s).unwrap(), b"ab");
    assert_eq!(Value::try_into::<[u8; 2]>(&s).unwrap(), [97u8, 98]);
    assert!(Value::try_into::<[u8; 3]>(&s).is_none());

    let l = Value::List(vec![Value::Int(1), Value::Str(b"x".to_vec()), Value::Int(9)]);
    let pair: (i64, &[u8]) = Value::try_into(&l).unwrap();
    assert_eq!(pair.0, 1);
    assert_eq!(pair.1, b"x");
    let as_list: &List = Value::try_into(&l).unwrap();
    assert_eq!(as_list.len(), 3);
    let short = Value::List(vec![Value::Int(1)]);
    assert!(Value::try_into::<(i64, i64)>(&short).is_none());

    let d = Value::Dict(Vec::new());
    let as_dict: &Dict = Value::try_into(&d).unwrap();
    assert!(as_dict.is_empty());
    let identity: &Value = Value::try_into(&d).unwrap();
    assert_eq!(identity, &d);
}

#[test]
fn test_str_projection_requires_utf8() {
    let bad = Value::Str(vec![0xffu8, 0xfe]);
    assert!(Value::try_into::<&str>(&bad).is_none());
    let good = Value::Str("h\u{e9}llo".as_bytes().to_vec());
    assert_eq!(Value::try_into::<&str>(&good).unwrap(), "h\u{e9}llo");
}

#[test]
fn test_into_str_sources() {
    assert_eq!(IntoStr::into_str(b"ab".as_ref()), b"ab".to_vec());
    assert_eq!(IntoStr::into_str(b"ab"), b"ab".to_vec());
    assert_eq!(IntoStr::into_str([1u8, 2]), vec![1u8, 2]);
    assert_eq!(IntoStr::into_str("h\u{e9}"), "h\u{e9}".as_bytes().to_vec());
    assert_eq!(IntoStr::into_str(vec![9u8]), vec![9u8]);
    assert_eq!(IntoStr::into_str("h\u{e9}".to_string()), "h\u{e9}".as_bytes().to_vec());
}

#[test]
fn test_dict_reencode_canonical() {
    let decoded = Value::decode(b"d4:name4:John3:agei42ee", 10).unwrap();
    assert_eq!(&decoded.encode(), b"d3:agei42e4:name4:Johne");
}

#[test]
fn test_dict_insert_rejects_duplicate() {
    let mut dict = Vec::new();
    assert!(dict_insert(&mut dict, b"k".to_vec(), Value::Int(1)));
    assert!(!dict_insert(&mut dict, b"k".to_vec(), Value::Int(2)));
    assert_eq!(dict.len(), 1);
    assert_eq!(dict[0].1, Value::Int(1));
}

#[test]
fn test_malformed_inputs_fail() {
    assert!(Value::decode(b"", 10).is_none());
    assert!(Value::decode(b"x", 10).is_none());
    assert!(Value::decode(b"i42", 10).is_none());
    assert!(Value::decode(b"i-e", 10).is_none());
    assert!(Value::decode(b"5:hel", 10).is_none());
    assert!(Value::decode(b"li1e", 10).is_none());
    assert!(Value::decode(b"d3:kei1e", 10).is_none());
    assert!(Value::decode(b"i99999999999999999999999999e", 10).is_none());
    assert!(Value::decode(b"i9223372036854775808e", 10).is_none());
}

#[test]
fn test_permissive_digits_and_trailing_bytes() {
    assert_eq!(Value::decode(b"i05e", 10), Some(Value::Int(5)));
    assert_eq!(Value::decode(b"i-0e", 10), Some(Value::Int(0)));
    assert_eq!(Value::decode(b"i1etrailing", 10), Some(Value::Int(1)));
}

#[test]
fn test_extreme_integers_round_trip() {
    let min = Value::Int(i64::MIN);
    let encoded = min.encode();
    assert_eq!(&encoded, b"i-9223372036854775808e");
    assert_eq!(Value::decode(&encoded, 0), Some(min));

    let max = Value::Int(i64::MAX);
    let encoded = max.encode();
    assert_eq!(&encoded, b"i9223372036854775807e");
    assert_eq!(Value::decode(&encoded, 0), Some(max));
}

#[test]
fn test_encode_into_reuses_buffer() {
    let mut buf = vec![1u8, 2, 3];
    Value::Int(7).encode_into(&mut buf);
    assert_eq!(&buf, b"i7e");
    Value::Str(b"hi".to_vec()).encode_into(&mut buf);
    assert_eq!(&buf, b"2:hi");
}

#[test]
fn test_into_owned_keeps_content() {
    let v = Value::List(vec![Value::Str(b"abc".to_vec()), Value::Int(1)]);
    let w = Value::List(vec![Value::Str(b"abc".to_vec()), Value::Int(1)]).into_owned();
    assert_eq!(v, w);
}

#[test]
fn test_nested_round_trip() {
    let mut inner = Vec::new();
    assert!(dict_insert(&mut inner, b"data".to_vec(), Value::Str(vec![0u8, 1, 255])));
    let value = Value::List(vec![
        Value::Int(-42),
        Value::Dict(inner),
        Value::List(vec![Value::Str(b"".to_vec())]),
    ]);
    let encoded = value.encode();
    assert_eq!(Value::decode(&encoded, 5), Some(value));
    assert!(Value::decode(&encoded, 4).is_none());
}

#[test]
fn test_render_shapes() {
    assert_eq!(Value::Int(-42).render(), b"-42".to_vec());
    assert_eq!(Value::Int(0).render(), b"0".to_vec());
    assert_eq!(Value::Str(b"hi".to_vec()).render(), b"\"hi\"".to_vec());
    assert_eq!(Value::Str(vec![0xabu8, 0xff]).render(), b"abff".to_vec());
    let list = Value::List(vec![Value::Int(1), Value::Str(b"x".to_vec())]);
    assert_eq!(list.render(), b"[1, \"x\"]".to_vec());
    let mut dict = Vec::new();
    assert!(dict_insert(&mut dict, b"a".to_vec(), Value::Int(1)));
    assert!(dict_insert(&mut dict, b"b".to_vec(), Value::List(vec![])));
    assert_eq!(Value::Dict(dict).render(), b"{\"a\": 1, \"b\": []}".to_vec());
}
