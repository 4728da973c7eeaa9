use sqllite::error::ResultCode;
use sqllite::record::{decode_record, encode_record, read_int, serial_type};
use sqllite::types::{Affinity, Value};

#[test]
fn record_roundtrip() {
    let values = vec![
        Value::Null,
        Value::Integer(42),
        Value::Real(3.14f64.to_bits()),
        Value::Text("hello".into()),
        Value::Blob(vec![1, 2, 3]),
    ];
    let encoded = encode_record(&values);
    let decoded = decode_record(&encoded).unwrap();
    assert_eq!(values, decoded);
}

#[test]
fn record_bytes_of_small_record() {
    let values = vec![Value::Integer(1), Value::Text("ab".into())];
    let encoded = encode_record(&values);
    // header: length 3, count 2, serial 1, serial 2*2+12 = 16; body: 01 'a' 'b'
    assert_eq!(encoded, vec![3, 2, 1, 16, 1, b'a', b'b']);
}

#[test]
fn serial_types_pick_narrowest_integer() {
    assert_eq!(serial_type(&Value::Null), 0);
    assert_eq!(serial_type(&Value::Integer(-128)), 1);
    assert_eq!(serial_type(&Value::Integer(128)), 2);
    assert_eq!(serial_type(&Value::Integer(-32769)), 3);
    assert_eq!(serial_type(&Value::Integer(1 << 23)), 4);
    assert_eq!(serial_type(&Value::Integer(1 << 40)), 5);
    assert_eq!(serial_type(&Value::Integer(i64::MIN)), 6);
    assert_eq!(serial_type(&Value::Real(0)), 7);
    assert_eq!(serial_type(&Value::Text("héllo".into())), 2 * 6 + 12);
    assert_eq!(serial_type(&Value::Blob(vec![0; 5])), 2 * 5 + 13);
}

#[test]
fn integers_of_every_width_roundtrip() {
    let values: Vec<Value> = [
        0i64,
        -1,
        127,
        -129,
        40000,
        -8388608,
        2147483647,
        -2147483649,
        140737488355327,
        -140737488355329,
        i64::MAX,
        i64::MIN,
    ]
    .iter()
    .map(|&i| Value::Integer(i))
    .collect();
    let decoded = decode_record(&encode_record(&values)).unwrap();
    assert_eq!(decoded, values);
}

#[test]
fn read_int_sign_extends() {
    assert_eq!(read_int(&[0xff], 0, 1).unwrap(), -1);
    assert_eq!(read_int(&[0x00, 0x80], 0, 2).unwrap(), -32768);
    assert_eq!(read_int(&[0x34, 0x12, 0x00], 0, 3).unwrap(), 0x1234);
    assert_eq!(read_int(&[0xff; 8], 0, 8).unwrap(), -1);
    let e = read_int(&[1, 2], 1, 2).unwrap_err();
    assert_eq!(e.code(), ResultCode::Corrupt);
    assert_eq!(e.message(), "truncated integer");
}

#[test]
fn decode_errors_name_what_is_short() {
    assert_eq!(decode_record(&[]).unwrap_err().message(), "truncated varint");
    assert_eq!(decode_record(&[5, 1]).unwrap_err().message(), "truncated record header");
    assert_eq!(decode_record(&[2, 1, 7]).unwrap_err().message(), "truncated float");
    assert_eq!(decode_record(&[2, 1, 4, 1]).unwrap_err().message(), "truncated integer");
    assert_eq!(decode_record(&[2, 1, 20]).unwrap_err().message(), "truncated text");
    assert_eq!(decode_record(&[2, 1, 21, 0]).unwrap_err().message(), "truncated blob");
    let e = decode_record(&[2, 1, 10]).unwrap_err();
    assert_eq!(e.code(), ResultCode::Corrupt);
    assert_eq!(e.message(), "invalid serial type 10");
    assert_eq!(decode_record(&[2, 2, 1]).unwrap_err().message(), "truncated varint");
}

#[test]
fn invalid_utf8_text_is_replaced() {
    let decoded = decode_record(&[2, 1, 14, 0xff]).unwrap();
    assert_eq!(decoded, vec![Value::Text("\u{fffd}".into())]);
}

#[test]
fn value_kind_helpers() {
    assert!(Value::Null.is_null());
    assert!(!Value::Integer(0).is_null());
    assert_eq!(Value::Text("x".into()).as_text(), Some("x"));
    assert_eq!(Value::Integer(3).as_text(), None);
    assert_eq!(Value::Real(0).affinity(), Affinity::Real);
    assert_eq!(Value::Null.affinity(), Affinity::Text);
    assert_eq!(Value::Blob(vec![]).affinity(), Affinity::Blob);
    assert_eq!(Value::default(), Value::Null);
}
