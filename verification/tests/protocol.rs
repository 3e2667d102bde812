use abomonation::{encode, decode, verify, value_eq, Ty, Value, NEUTRAL_ADDR};

fn u64v(x: u64) -> Value {
    Value::U64(x)
}

fn text(s: &str) -> Value {
    Value::Text(0, 0, s.as_bytes().to_vec())
}

fn pair(a: Value, b: Value) -> Value {
    Value::Pair(Box::new(a), Box::new(b))
}

fn arr(es: Vec<Value>) -> Value {
    let n = es.len() as u64;
    Value::Arr(0, n, es)
}

#[test]
fn round_trip_u64() {
    let t = Ty::U64;
    let v = u64v(0xdead_beef_0bad_f00d);
    let mut bytes: Vec<u8> = Vec::new();
    encode(&t, &v, &mut bytes);
    assert_eq!(bytes.len(), 8);
    let (w, p) = decode::<Value>(&t, &mut bytes, 0).unwrap();
    assert!(value_eq(&t, &w, &v));
    assert_eq!(p, bytes.len());
}

#[test]
fn round_trip_scalars() {
    let cases: Vec<(Ty, Value)> = vec![
        (Ty::U8, Value::U8(200)),
        (Ty::U16, Value::U16(40000)),
        (Ty::U32, Value::U32(3_000_000_000)),
        (Ty::U64, Value::U64(u64::MAX)),
        (Ty::I8, Value::I8(-100)),
        (Ty::I16, Value::I16(-30000)),
        (Ty::I32, Value::I32(-2_000_000_000)),
        (Ty::I64, Value::I64(i64::MIN)),
        (Ty::Bool, Value::Bool(true)),
        (Ty::Bool, Value::Bool(false)),
        (Ty::Unit, Value::Unit),
    ];
    for (t, v) in cases {
        let mut bytes: Vec<u8> = Vec::new();
        encode(&t, &v, &mut bytes);
        let (w, p) = decode::<Value>(&t, &mut bytes, 0).unwrap();
        assert!(value_eq(&t, &w, &v));
        assert_eq!(p, bytes.len());
    }
}

#[test]
fn u64_wire_format_is_little_endian() {
    let t = Ty::U64;
    let v = u64v(0x0102030405060708);
    let mut bytes: Vec<u8> = Vec::new();
    encode(&t, &v, &mut bytes);
    assert_eq!(bytes, vec![8, 7, 6, 5, 4, 3, 2, 1]);
}

#[test]
fn text_wire_format_has_sentinel_and_counted_words() {
    let t = Ty::Text;
    let v = text("hi");
    let mut bytes: Vec<u8> = Vec::new();
    encode(&t, &v, &mut bytes);
    let mut expect: Vec<u8> = Vec::new();
    expect.extend_from_slice(&NEUTRAL_ADDR.to_le_bytes());
    expect.extend_from_slice(&2u64.to_le_bytes());
    expect.extend_from_slice(&2u64.to_le_bytes());
    expect.extend_from_slice(b"hi");
    assert_eq!(bytes, expect);
}

#[test]
fn round_trip_text() {
    let t = Ty::Text;
    let v = text("grawwwwrr");
    let mut bytes: Vec<u8> = Vec::new();
    encode(&t, &v, &mut bytes);
    let (w, p) = decode::<Value>(&t, &mut bytes, 0).unwrap();
    assert!(value_eq(&t, &w, &v));
    assert_eq!(p, bytes.len());
    match w {
        Value::Text(ad, cp, d) => {
            assert_eq!(ad, 24);
            assert_eq!(cp, 9);
            assert_eq!(d, b"grawwwwrr".to_vec());
        },
        _ => panic!("decoded to the wrong shape"),
    }
}

#[test]
fn round_trip_empty_text() {
    let t = Ty::Text;
    let v = text("");
    let mut bytes: Vec<u8> = Vec::new();
    encode(&t, &v, &mut bytes);
    assert_eq!(bytes.len(), 24);
    let (w, p) = decode::<Value>(&t, &mut bytes, 0).unwrap();
    assert!(value_eq(&t, &w, &v));
    assert_eq!(p, 24);
}

#[test]
fn round_trip_pair_and_opt_and_boxed() {
    let t = Ty::Pair(
        Box::new(Ty::Opt(Box::new(Ty::Text))),
        Box::new(Ty::Boxed(Box::new(Ty::U32))),
    );
    let v = pair(
        Value::Opt(Some(Box::new(text("inner")))),
        Value::Boxed(0, Box::new(Value::U32(77))),
    );
    let mut bytes: Vec<u8> = Vec::new();
    encode(&t, &v, &mut bytes);
    let (w, p) = decode::<Value>(&t, &mut bytes, 0).unwrap();
    assert!(value_eq(&t, &w, &v));
    assert_eq!(p, bytes.len());
}

#[test]
fn round_trip_opt_none() {
    let t = Ty::Opt(Box::new(Ty::Text));
    let v = Value::Opt(None);
    let mut bytes: Vec<u8> = Vec::new();
    encode(&t, &v, &mut bytes);
    assert_eq!(bytes.len(), 25);
    assert_eq!(bytes[0], 0);
    let (w, p) = decode::<Value>(&t, &mut bytes, 0).unwrap();
    assert!(value_eq(&t, &w, &v));
    assert_eq!(p, 25);
}

#[test]
fn validate_after_decode_agrees() {
    let t = Ty::Arr(Box::new(Ty::Text));
    let v = arr(vec![text("a"), text("bc"), text("")]);
    let mut bytes: Vec<u8> = Vec::new();
    encode(&t, &v, &mut bytes);
    let (w, p) = decode::<Value>(&t, &mut bytes, 0).unwrap();
    let bytes = bytes;
    let (u, q) = verify::<Value>(&t, &bytes, 0).unwrap();
    assert!(value_eq(&t, &u, &w));
    assert_eq!(q, p);
}

#[test]
fn validate_without_decode_reports_address_mismatch() {
    let t = Ty::Text;
    let v = text("abc");
    let mut bytes: Vec<u8> = Vec::new();
    encode(&t, &v, &mut bytes);
    // The freshly encoded image still holds the sentinel address, so
    // validation must refuse it until a decode patches the buffer.
    assert!(verify::<Value>(&t, &bytes, 0).is_none());
    assert!(decode::<Value>(&t, &mut bytes, 0).is_some());
    assert!(verify::<Value>(&t, &bytes, 0).is_some());
}

#[test]
fn truncation_always_fails() {
    let t = Ty::Arr(Box::new(Ty::Pair(Box::new(Ty::U64), Box::new(Ty::Text))));
    let v = arr(vec![
        pair(u64v(1), text("one")),
        pair(u64v(2), text("two")),
    ]);
    let mut bytes: Vec<u8> = Vec::new();
    encode(&t, &v, &mut bytes);
    for k in 0..bytes.len() {
        let mut cut: Vec<u8> = bytes[..k].to_vec();
        assert!(decode::<Value>(&t, &mut cut, 0).is_none());
    }
    assert!(decode::<Value>(&t, &mut bytes, 0).is_some());
}

#[test]
fn sequencing_two_values() {
    let t1 = Ty::Text;
    let v1 = text("first");
    let t2 = Ty::Arr(Box::new(Ty::U16));
    let v2 = arr(vec![Value::U16(7), Value::U16(8)]);
    let mut bytes: Vec<u8> = Vec::new();
    encode(&t1, &v1, &mut bytes);
    encode(&t2, &v2, &mut bytes);
    let (w1, p1) = decode::<Value>(&t1, &mut bytes, 0).unwrap();
    assert!(value_eq(&t1, &w1, &v1));
    let (w2, p2) = decode::<Value>(&t2, &mut bytes, p1).unwrap();
    assert!(value_eq(&t2, &w2, &v2));
    assert_eq!(p2, bytes.len());
}

#[test]
fn array_of_indexed_decimal_text() {
    let t = Ty::Arr(Box::new(Ty::Pair(Box::new(Ty::U64), Box::new(Ty::Text))));
    let mut es: Vec<Value> = Vec::new();
    for i in 0..256u64 {
        es.push(pair(u64v(i), text(&format!("{}", i))));
    }
    let v = arr(es);
    let mut bytes: Vec<u8> = Vec::new();
    encode(&t, &v, &mut bytes);
    let (w, p) = decode::<Value>(&t, &mut bytes, 0).unwrap();
    assert!(value_eq(&t, &w, &v));
    assert_eq!(p, bytes.len());
    match w {
        Value::Arr(_, _, es2) => {
            assert_eq!(es2.len(), 256);
            match &es2[255] {
                Value::Pair(a, b) => {
                    assert!(matches!(**a, Value::U64(255)));
                    match &**b {
                        Value::Text(_, _, d) => assert_eq!(d, &b"255".to_vec()),
                        _ => panic!("element text has the wrong shape"),
                    }
                },
                _ => panic!("element has the wrong shape"),
            }
        },
        _ => panic!("decoded to the wrong shape"),
    }
}

#[test]
fn capacity_normalizes_to_length() {
    let t = Ty::Arr(Box::new(Ty::U8));
    // A live array may carry excess capacity; the decoded one never does.
    let v = Value::Arr(0, 100, vec![Value::U8(1), Value::U8(2)]);
    let mut bytes: Vec<u8> = Vec::new();
    encode(&t, &v, &mut bytes);
    let (w, _) = decode::<Value>(&t, &mut bytes, 0).unwrap();
    assert!(value_eq(&t, &w, &v));
    match w {
        Value::Arr(ad, cp, es) => {
            assert_eq!(es.len(), 2);
            assert_eq!(cp, 2);
            assert_eq!(ad, 24);
        },
        _ => panic!("decoded to the wrong shape"),
    }
}

#[test]
fn empty_array_round_trips() {
    let t = Ty::Arr(Box::new(Ty::Text));
    let v = arr(vec![]);
    let mut bytes: Vec<u8> = Vec::new();
    encode(&t, &v, &mut bytes);
    assert_eq!(bytes.len(), 24);
    let (w, p) = decode::<Value>(&t, &mut bytes, 0).unwrap();
    assert!(value_eq(&t, &w, &v));
    assert_eq!(p, 24);
}

#[test]
fn nested_arrays_round_trip() {
    let t = Ty::Arr(Box::new(Ty::Arr(Box::new(Ty::U8))));
    let v = arr(vec![
        arr(vec![Value::U8(1)]),
        arr(vec![]),
        arr(vec![Value::U8(2), Value::U8(3)]),
    ]);
    let mut bytes: Vec<u8> = Vec::new();
    encode(&t, &v, &mut bytes);
    let (w, p) = decode::<Value>(&t, &mut bytes, 0).unwrap();
    assert!(value_eq(&t, &w, &v));
    assert_eq!(p, bytes.len());
}

#[test]
fn decode_ignores_leading_bytes() {
    let t = Ty::Text;
    let v = text("tail");
    let mut bytes: Vec<u8> = vec![9, 9, 9];
    let start = bytes.len();
    encode(&t, &v, &mut bytes);
    let (w, p) = decode::<Value>(&t, &mut bytes, start).unwrap();
    assert!(value_eq(&t, &w, &v));
    assert_eq!(p, bytes.len());
    assert_eq!(&bytes[..3], &[9, 9, 9]);
}

#[test]
fn round_trip_slice() {
    let t = Ty::Slice(Box::new(Ty::Text));
    let v = Value::Slice(0, vec![text("left"), text("right")]);
    let mut bytes: Vec<u8> = Vec::new();
    encode(&t, &v, &mut bytes);
    let (w, p) = decode::<Value>(&t, &mut bytes, 0).unwrap();
    assert!(value_eq(&t, &w, &v));
    assert_eq!(p, bytes.len());
    match w {
        Value::Slice(ad, es) => {
            assert_eq!(ad, 16);
            assert_eq!(es.len(), 2);
        },
        _ => panic!("decoded to the wrong shape"),
    }
}

#[test]
fn slice_wire_format_has_two_header_words() {
    let t = Ty::Slice(Box::new(Ty::U8));
    let v = Value::Slice(0, vec![Value::U8(5)]);
    let mut bytes: Vec<u8> = Vec::new();
    encode(&t, &v, &mut bytes);
    let mut expect: Vec<u8> = Vec::new();
    expect.extend_from_slice(&NEUTRAL_ADDR.to_le_bytes());
    expect.extend_from_slice(&1u64.to_le_bytes());
    expect.push(5);
    assert_eq!(bytes, expect);
}
