use bencode_minimal::value::dict_insert;
use bencode_minimal::Value;

#[test]
fn test_int_01() {
    let value = Value::Int(0);
    let encoded = value.encode();
    assert_eq!(&encoded, b"i0e");
    let value_ = Value::decode(&encoded, 0);
    assert_eq!(value_, Some(value));
}

#[test]
fn test_int_02() {
    let value = Value::Int(1);
    let encoded = value.encode();
    assert_eq!(&encoded, b"i1e");
    let value_ = Value::decode(&encoded, 0);
    assert_eq!(value_, Some(value));
}

#[test]
fn test_int_03() {
    let value = Value::Int(-1);
    let encoded = value.encode();
    assert_eq!(&encoded, b"i-1e");
    let value_ = Value::decode(&encoded, 0);
    assert_eq!(value_, Some(value));
}

#[test]
fn test_int_04() {
    let value = Value::Int(10);
    let encoded = value.encode();
    assert_eq!(&encoded, b"i10e");
    let value_ = Value::decode(&encoded, 0);
    assert_eq!(value_, Some(value));
}

#[test]
fn test_int_05() {
    let value = Value::Int(-10);
    let encoded = value.encode();
    assert_eq!(&encoded, b"i-10e");
    let value_ = Value::decode(&encoded, 0);
    assert_eq!(value_, Some(value));
}

#[test]
fn test_int_06() {
    let value = Value::Int(42);
    let encoded = value.encode();
    assert_eq!(&encoded, b"i42e");
    let value_ = Value::decode(&encoded, 0);
    assert_eq!(value_, Some(value));
}

#[test]
fn test_int_07() {
    let value = Value::Int(-42);
    let encoded = value.encode();
    assert_eq!(&encoded, b"i-42e");
    let value_ = Value::decode(&encoded, 0);
    assert_eq!(value_, Some(value));
}

#[test]
fn test_str_01() {
    let value = Value::Str(b"".to_vec());
    let encoded = value.encode();
    assert_eq!(&encoded, b"0:");
    let value_ = Value::decode(&encoded, 0);
    assert_eq!(value_, Some(value));
}

#[test]
fn test_str_02() {
    let value = Value::Str(b":".to_vec());
    let encoded = value.encode();
    assert_eq!(&encoded, b"1::");
    let value_ = Value::decode(&encoded, 0);
    assert_eq!(value_, Some(value));
}

#[test]
fn test_str_03() {
    let value = Value::Str(b"hello".to_vec());
    let encoded = value.encode();
    assert_eq!(&encoded, b"5:hello");
    let value_ = Value::decode(&encoded, 0);
    assert_eq!(value_, Some(value));
}

#[test]
fn test_str_04() {
    let value = Value::Str(b"helloworld".to_vec());
    let encoded = value.encode();
    assert_eq!(&encoded, b"10:helloworld");
    let value_ = Value::decode(&encoded, 0);
    assert_eq!(value_, Some(value));
}

#[test]
fn test_list_01() {
    let value = Value::List(vec![]);
    let encoded = value.encode();
    assert_eq!(&encoded, b"le");
    let value_ = Value::decode(&encoded, 10);
    assert_eq!(value_, Some(value));
}

#[test]
fn test_list_02() {
    let value = Value::List(vec![Value::Int(42), Value::Str(b"hello".to_vec())]);
    let encoded = value.encode();
    assert_eq!(&encoded, b"li42e5:helloe");
    let value_ = Value::decode(&encoded, 10);
    assert_eq!(value_, Some(value));
}

#[test]
fn test_dict_01() {
    let value = Value::Dict(Vec::new());
    let encoded = value.encode();
    assert_eq!(&encoded, b"de");
    let value_ = Value::decode(&encoded, 10);
    assert_eq!(value_, Some(value));
}

#[test]
fn test_dict_02() {
    let mut dict = Vec::new();
    assert!(dict_insert(&mut dict, b"age".to_vec(), Value::Int(42)));
    assert!(dict_insert(&mut dict, b"name".to_vec(), Value::Str(b"John".to_vec())));
    let value = Value::Dict(dict);
    let encoded = value.encode();
    assert_eq!(&encoded, b"d3:agei42e4:name4:Johne");
    let value_ = Value::decode(&encoded, 10);
    assert_eq!(value_, Some(value));
}

#[test]
fn test_dict_03_reversed_order() {
    let mut dict = Vec::new();
    assert!(dict_insert(&mut dict, b"name".to_vec(), Value::Str(b"John".to_vec())));
    assert!(dict_insert(&mut dict, b"age".to_vec(), Value::Int(42)));
    let value = Value::Dict(dict);

    let encoded = b"d4:name4:John3:agei42ee";
    let value_ = Value::decode(encoded.as_ref(), 10);
    assert_eq!(value_, Some(value));
}

#[test]
fn test_dict_04_duplicate_keys() {
    let encoded = b"d3:agei30e3:agei40ee";
    let value = Value::decode(encoded.as_ref(), 10);
    assert!(value.is_none());
}

#[test]
fn test_max_alloc_int() {
    let encoded = b"i42e";
    let value = Value::decode(encoded.as_ref(), 0);
    assert!(value.is_some());
}

#[test]
fn test_max_alloc_str() {
    let encoded = b"5:hello";
    let value_ = Value::decode(encoded.as_ref(), 0);
    assert!(value_.is_some());
}

#[test]
fn test_max_alloc_list_empty() {
    let encoded = b"le";
    let value = Value::decode(encoded.as_ref(), 0);
    assert!(value.is_some());
}

#[test]
fn test_max_alloc_list_one() {
    let encoded = b"li42ee";

    let value = Value::decode(encoded.as_ref(), 0);
    assert!(value.is_none());

    let value = Value::decode(encoded.as_ref(), 1);
    assert!(value.is_some());
}

#[test]
fn test_max_alloc_list_two() {
    let encoded = b"li1ei2ee";

    let value = Value::decode(encoded.as_ref(), 1);
    assert!(value.is_none());

    let value = Value::decode(encoded.as_ref(), 2);
    assert!(value.is_some());
}

#[test]
fn test_max_alloc_dict_empty() {
    let encoded = b"de";
    let value = Value::decode(encoded.as_ref(), 0);
    assert!(value.is_some());
}

#[test]
fn test_max_alloc_dict_one() {
    let encoded = b"d3:agei42ee";

    let value = Value::decode(encoded.as_ref(), 0);
    assert!(value.is_none());

    let value = Value::decode(encoded.as_ref(), 1);
    assert!(value.is_some());
}

#[test]
fn test_max_alloc_dict_two() {
    let encoded = b"d3:agei42e4:name4:Johne";

    let value = Value::decode(encoded.as_ref(), 1);
    assert!(value.is_none());

    let value = Value::decode(encoded.as_ref(), 2);
    assert!(value.is_some());
}
