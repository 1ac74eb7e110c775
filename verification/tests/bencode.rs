use bittorrent::bencode::{Bencode, DictEntry, FormatError, Value};
use bittorrent::render::render;

fn decode_all(input: &str) -> Value {
    let mut bencode = Bencode::new(input.as_bytes());
    bencode.decode().unwrap()
}

fn bytes_value(s: &str) -> Value {
    Value::Bytes(s.as_bytes().to_vec())
}

#[test]
fn hello_string() {
    let mut bencode = Bencode::new("5:hello".as_bytes());
    let decoded_value = bencode.decode().unwrap();
    assert_eq!(decoded_value, bytes_value("hello"));
}

#[test]
fn long_string() {
    let mut bencode = Bencode::new("11:hello world".as_bytes());
    let decoded_value = bencode.decode().unwrap();
    assert_eq!(decoded_value, bytes_value("hello world"));
}

#[test]
fn positive_integer() {
    let mut bencode = Bencode::new("i123e".as_bytes());
    let decoded_value = bencode.decode().unwrap();
    assert_eq!(decoded_value, Value::Int(123));
}

#[test]
fn negative_integer() {
    let mut bencode = Bencode::new("i-123e".as_bytes());
    let decoded_value = bencode.decode().unwrap();
    assert_eq!(decoded_value, Value::Int(-123));
}

#[test]
fn simple_list() {
    let mut bencode = Bencode::new("l4:spam4:eggse".as_bytes());
    let decoded_value = bencode.decode().unwrap();
    assert_eq!(
        decoded_value,
        Value::List(vec![bytes_value("spam"), bytes_value("eggs")])
    );
}

#[test]
fn multi_type_list() {
    let mut bencode = Bencode::new("li123e5:helloe".as_bytes());
    let decoded_value = bencode.decode().unwrap();
    assert_eq!(
        decoded_value,
        Value::List(vec![Value::Int(123), bytes_value("hello")])
    );
}

#[test]
fn list_inside_a_list() {
    let mut bencode = Bencode::new("lli467e9:blueberryee".as_bytes());
    let decoded_value = bencode.decode().unwrap();
    assert_eq!(
        decoded_value,
        Value::List(vec![Value::List(vec![
            Value::Int(467),
            bytes_value("blueberry")
        ])])
    );
}

#[test]
fn dictionary() {
    let mut bencode = Bencode::new("d3:foo3:bar5:helloi52ee".as_bytes());
    let decoded_value = bencode.decode().unwrap();
    assert_eq!(
        decoded_value,
        Value::Dict(vec![
            DictEntry {
                key: "foo".as_bytes().to_vec(),
                value: bytes_value("bar"),
            },
            DictEntry {
                key: "hello".as_bytes().to_vec(),
                value: Value::Int(52),
            },
        ])
    );
}

#[test]
fn canonical_round_trip() {
    let inputs = [
        "5:hello",
        "i0e",
        "i-123e",
        "le",
        "de",
        "l4:spam4:eggse",
        "d3:foo3:bar5:helloi52ee",
        "d1:ad2:aai1e2:bb2:xye1:bl4:deepi-9eee",
        "0:",
    ];
    for input in inputs {
        let decoded = decode_all(input);
        let encoded = Bencode::encode(&decoded);
        assert_eq!(encoded, input.as_bytes().to_vec());
    }
}

#[test]
fn unsorted_dictionary_is_normalized() {
    let decoded = decode_all("d1:bi1e1:ai2ee");
    let encoded = Bencode::encode(&decoded);
    assert_eq!(encoded, "d1:ai2e1:bi1ee".as_bytes().to_vec());
}

#[test]
fn decode_rejects_bad_integers() {
    let mut b = Bencode::new("i-0e".as_bytes());
    assert_eq!(b.decode(), Err(FormatError::Unexpected));
    let mut b = Bencode::new("i03e".as_bytes());
    assert_eq!(b.decode(), Err(FormatError::Unexpected));
    let mut b = Bencode::new("i9223372036854775808e".as_bytes());
    assert_eq!(b.decode(), Err(FormatError::Overflow));
    let mut b = Bencode::new("i9223372036854775807e".as_bytes());
    assert_eq!(b.decode(), Ok(Value::Int(i64::MAX)));
    let mut b = Bencode::new("i-9223372036854775808e".as_bytes());
    assert_eq!(b.decode(), Ok(Value::Int(i64::MIN)));
}

#[test]
fn decode_rejects_truncated_input() {
    let mut b = Bencode::new("5:ab".as_bytes());
    assert_eq!(b.decode(), Err(FormatError::Truncated));
    let mut b = Bencode::new("l4:spam".as_bytes());
    assert_eq!(b.decode(), Err(FormatError::Truncated));
    let mut b = Bencode::new("i12".as_bytes());
    assert_eq!(b.decode(), Err(FormatError::Truncated));
    let mut b = Bencode::new("".as_bytes());
    assert_eq!(b.decode(), Err(FormatError::Truncated));
}

#[test]
fn decode_rejects_duplicate_keys() {
    let mut b = Bencode::new("d1:ai1e1:ai2ee".as_bytes());
    assert_eq!(b.decode(), Err(FormatError::DuplicateKey));
}

#[test]
fn decode_rejects_huge_length() {
    let mut b = Bencode::new("99999999999999999999999:x".as_bytes());
    assert_eq!(b.decode(), Err(FormatError::Overflow));
}

#[test]
fn render_string() {
    let v = decode_all("5:hello");
    assert_eq!(render(&v), "\"hello\"".as_bytes().to_vec());
}

#[test]
fn render_negative_integer() {
    let v = decode_all("i-123e");
    assert_eq!(render(&v), "-123".as_bytes().to_vec());
}

#[test]
fn render_list() {
    let v = decode_all("l4:spam4:eggse");
    assert_eq!(render(&v), "[\"spam\",\"eggs\"]".as_bytes().to_vec());
}

#[test]
fn render_dictionary_sorts_keys() {
    let v = decode_all("d3:foo3:bar5:helloi52ee");
    assert_eq!(
        render(&v),
        "{\"foo\":\"bar\",\"hello\":52}".as_bytes().to_vec()
    );
    let unsorted = decode_all("d5:helloi52e3:foo3:bare");
    assert_eq!(
        render(&unsorted),
        "{\"foo\":\"bar\",\"hello\":52}".as_bytes().to_vec()
    );
}

#[test]
fn render_nested_list() {
    let v = decode_all("lli467e9:blueberryee");
    assert_eq!(render(&v), "[[467,\"blueberry\"]]".as_bytes().to_vec());
}

#[test]
fn render_non_utf8_bytes_as_numbers() {
    let input: Vec<u8> = vec![b'2', b':', 0xff, 0xfe];
    let mut b = Bencode::new(&input);
    let v = b.decode().unwrap();
    assert_eq!(render(&v), "[255,254]".as_bytes().to_vec());
}

#[test]
fn render_escapes_quotes() {
    let input = "3:a\"b";
    let v = decode_all(input);
    assert_eq!(render(&v), "\"a\\\"b\"".as_bytes().to_vec());
}
