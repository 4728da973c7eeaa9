use sqllite::types::{double_bits_to_i64, parse_i64, Value};

#[test]
fn doubles_convert_to_integers_as_casts_do() {
    let samples = [
        0.0f64,
        -0.0,
        0.5,
        -0.5,
        1.0,
        2.9,
        -2.9,
        4503599627370495.5,
        9007199254740993.0,
        1e18,
        -1e18,
        9.223372036854776e18,
        -9.223372036854776e18,
        1e300,
        -1e300,
        f64::INFINITY,
        f64::NEG_INFINITY,
        f64::NAN,
        f64::MIN_POSITIVE,
        5e-324,
        123456789.987,
    ];
    for x in samples {
        assert_eq!(double_bits_to_i64(x.to_bits()), x as i64, "converting {x}");
    }
}

#[test]
fn texts_read_as_integers_as_parse_does() {
    for t in ["42", "+42", "-42", "007", "-9223372036854775808", "9223372036854775807"] {
        assert_eq!(parse_i64(t), t.parse::<i64>().ok(), "reading {t:?}");
    }
    for t in ["", "+", "-", "4 ", " 4", "4.0", "9223372036854775808", "-9223372036854775809", "x"] {
        assert_eq!(parse_i64(t), None, "reading {t:?}");
    }
}

#[test]
fn a_value_as_an_integer() {
    assert_eq!(Value::Integer(-7).as_integer(), Some(-7));
    assert_eq!(Value::Real(2.9f64.to_bits()).as_integer(), Some(2));
    assert_eq!(Value::Real((-1e300f64).to_bits()).as_integer(), Some(i64::MIN));
    assert_eq!(Value::Text("+12".into()).as_integer(), Some(12));
    assert_eq!(Value::Text("twelve".into()).as_integer(), None);
    assert_eq!(Value::Null.as_integer(), None);
    assert_eq!(Value::Blob(vec![1]).as_integer(), None);
}
