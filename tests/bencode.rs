use rip_lib::{decode, encode, BencodeError, ByteString, Decoder, Dictionary, Integer, List, Value, ValueParser};

fn bytes(v: &Value) -> Vec<u8> {
    encode(v)
}

fn bstr(s: &str) -> Value {
    Value::ByteString(ByteString(s.as_bytes().to_vec()))
}

#[test]
fn test_value_parser() {
    let data = [1, 2, 3, 4, 5, 6, 7, 8, 9, 10];
    let mut parser = Decoder::with(&data, 0);

    assert_eq!(parser.at().unwrap(), &1);
    assert_eq!(parser.take(0..4).unwrap(), &[1, 2, 3, 4]);
    assert_eq!(parser.find(5).unwrap(), 0);
    assert_eq!(parser.find(10).unwrap(), 5);
    assert_eq!(parser.take(1..2).unwrap(), &[6]);
}

#[test]
fn test_custom_struct() {
    let data = [1, 2, 3, 4, 5, 6, 7, 8, 9, 10];
    let mut parser = ValueParser::with(&data, 0);

    assert_eq!(parser.at().unwrap(), &1);
    assert_eq!(parser.take(0..4).unwrap(), &[1, 2, 3, 4]);
    assert_eq!(parser.find(5).unwrap(), 0);
    assert_eq!(parser.find(10).unwrap(), 5);
    assert_eq!(parser.take(1..2).unwrap(), &[6]);
}

#[test]
fn bcode_integer() {
    let integer = -32_isize;
    let encoded = encode(&Value::Integer(Integer(integer)));
    let decoded = decode(&encoded).unwrap();

    assert_eq!(Value::Integer(Integer(integer)), decoded);
}

#[test]
fn bcode_byte_string() {
    let byte_string = b"3:abc".to_vec();
    let encoded = encode(&Value::ByteString(ByteString(byte_string.clone())));
    let decoded = decode(&encoded).unwrap();

    assert_eq!(Value::ByteString(ByteString(byte_string)), decoded);
}

#[test]
fn bcode_list() {
    let v1 = Value::Integer(Integer(-32_isize));
    let v2 = Value::ByteString(ByteString(b"abc".to_vec()));
    let list: Vec<Value> = vec![v1.clone(), v2.clone()];

    let encoded = encode(&Value::List(List(list)));
    let decoded = decode(&encoded).unwrap();

    assert_eq!(Value::List(List(vec![v1, v2])), decoded);
}

#[test]
fn bcode_dictionary() {
    let mut d = Dictionary::new();
    d.insert(ByteString(b"foo".to_vec()), Value::Integer(Integer(42)));
    d.insert(ByteString(b"bar".to_vec()), bstr("spam"));
    let value = Value::Dictionary(d);
    let encoded = encode(&value);
    assert_eq!(encoded, b"d3:bar4:spam3:fooi42ee".to_vec());
    assert_eq!(decode(&encoded).unwrap(), value);
}

#[test]
fn decode_integer() {
    let v = Value::from_bytes("i32eX".as_bytes()).unwrap();
    println!("{:?}", v);
    assert_eq!(v, Value::Integer(Integer(32)));
}

#[test]
fn decode_byte_string() {
    let v = Value::from_bytes("3:abcX".as_bytes()).unwrap();
    println!("{:?}", v);
    assert_eq!(v, bstr("abc"));
}

#[test]
fn decode_list() {
    let v = Value::from_bytes("li32ei54e3:abc1:ee".as_bytes()).unwrap();
    println!("{:?}", v);
    assert_eq!(
        v,
        Value::List(List(vec![Value::Integer(Integer(32)), Value::Integer(Integer(54)), bstr("abc"), bstr("e")]))
    );
}

#[test]
fn decode_dictionary() {
    let v = Value::from_bytes("d3:bar4:spam3:fooi42ee".as_bytes()).unwrap();
    println!("{:?}", v);
    let d = v.as_dictionary().unwrap();
    assert_eq!(d.try_get("bar").unwrap(), &bstr("spam"));
    assert_eq!(d.try_get("foo").unwrap(), &Value::Integer(Integer(42)));
}

#[test]
fn decode_arbitrary() {
    let input = "l4:abcdi599494949494eld3:bar4:spam3:fooi42eei32eee";
    let v = Value::from_bytes(input.as_bytes()).unwrap();
    println!("{:?}", v);
    assert_eq!(bytes(&v), input.as_bytes().to_vec());
}

#[test]
fn integer_grammar() {
    assert_eq!(decode(b"i-0e"), Err(BencodeError::Malformed));
    assert_eq!(decode(b"i00e"), Err(BencodeError::Malformed));
    assert_eq!(decode(b"i01e"), Err(BencodeError::Malformed));
    assert_eq!(decode(b"i-01e"), Err(BencodeError::Malformed));
    assert_eq!(decode(b"ie"), Err(BencodeError::Malformed));
    assert_eq!(decode(b"i+5e"), Err(BencodeError::Malformed));
    assert_eq!(decode(b"i0e").unwrap(), Value::Integer(Integer(0)));
    assert_eq!(decode(b"i-42e").unwrap(), Value::Integer(Integer(-42)));
    assert_eq!(decode(b"i99999999999999999999e"), Err(BencodeError::Malformed));
}

#[test]
fn byte_string_bounds() {
    assert_eq!(decode(b"5:abc"), Err(BencodeError::Malformed));
    assert_eq!(decode(b"3:abc").unwrap(), bstr("abc"));
    assert_eq!(decode(b"0:").unwrap(), bstr(""));
    assert_eq!(decode(b"3abc"), Err(BencodeError::Malformed));
}

#[test]
fn malformed_inputs() {
    assert_eq!(decode(b""), Err(BencodeError::Malformed));
    assert_eq!(decode(b"x"), Err(BencodeError::Malformed));
    assert_eq!(decode(b"li1e"), Err(BencodeError::Malformed));
    assert_eq!(decode(b"d3:fooe"), Err(BencodeError::Malformed));
    assert_eq!(decode(b"di1ei2ee"), Err(BencodeError::Malformed));
}

#[test]
fn canonical_order_any_insertion_order() {
    let keys = ["zeta", "alpha", "mid", "alp", "b"];
    let mut forward = Dictionary::new();
    for (i, k) in keys.iter().enumerate() {
        forward.insert(ByteString(k.as_bytes().to_vec()), Value::Integer(Integer(i as isize)));
    }
    let mut backward = Dictionary::new();
    for (i, k) in keys.iter().enumerate().rev() {
        backward.insert(ByteString(k.as_bytes().to_vec()), Value::Integer(Integer(i as isize)));
    }
    let a = encode(&Value::Dictionary(forward));
    let b = encode(&Value::Dictionary(backward));
    assert_eq!(a, b);
    assert_eq!(a, b"d3:alpi3e5:alphai1e1:bi4e3:midi2e4:zetai0ee".to_vec());
}

#[test]
fn unsorted_input_is_sorted_and_last_duplicate_wins() {
    let v = decode(b"d1:bi1e1:ai2e1:bi3ee").unwrap();
    assert_eq!(encode(&v), b"d1:ai2e1:bi3ee".to_vec());
}

#[test]
fn round_trip_nested() {
    let mut inner = Dictionary::new();
    inner.insert(ByteString(b"k".to_vec()), Value::List(List(vec![Value::Integer(Integer(isize::MIN)), bstr("")])));
    let v = Value::List(List(vec![Value::Dictionary(inner), Value::Integer(Integer(isize::MAX)), bstr("\u{0}\u{1}")]));
    assert_eq!(decode(&encode(&v)).unwrap(), v);
}

#[test]
fn accessors_and_errors() {
    let mut d = Dictionary::new();
    d.insert(ByteString(b"n".to_vec()), Value::Integer(Integer(7)));
    d.insert(ByteString(b"l".to_vec()), Value::List(List(vec![bstr("a"), bstr("b")])));
    assert_eq!(d.len(), 2);
    assert!(d.has("n"));
    assert!(!d.has("missing"));
    assert_eq!(d.try_get("missing"), Err(BencodeError::MissingKey));
    assert_eq!(d.try_get_as::<Integer>("n").unwrap(), Integer(7));
    assert_eq!(d.try_get_as::<ByteString>("n"), Err(BencodeError::WrongType));
    let l = d.try_get("l").unwrap().clone();
    assert_eq!(l.clone().as_list_of_byte_strings().unwrap(), vec![b"a".to_vec(), b"b".to_vec()]);
    assert_eq!(l.clone().as_list_of::<ByteString>().unwrap().len(), 2);
    assert_eq!(l.clone().as_list_of::<Integer>(), Err(BencodeError::WrongType));
    assert_eq!(l.as_list_of_dictionaries(), Err(BencodeError::WrongType));
    assert_eq!(Value::Integer(Integer(3)).as_integer(), Ok(3));
    assert_eq!(Value::Integer(Integer(3)).as_byte_string(), Err(BencodeError::WrongType));
    assert_eq!(bstr("x").as_list(), Err(BencodeError::WrongType));
    assert_eq!(bstr("x").try_as::<ByteString>().unwrap(), ByteString(b"x".to_vec()));
}
