use resp_codec::de::{deserialize, from_wire};
use resp_codec::error::Error as CodecError;
use resp_codec::parser::{parse, Error, ParseOutcome};
use resp_codec::ser::serialize;
use resp_codec::value::{IntWidth, Shape, Value};
use resp_codec::wire::Type;

fn complete(input: &[u8]) -> (Type, usize) {
    match parse(input) {
        ParseOutcome::Complete(t, n) => (t, n),
        other => panic!("expected a complete value, not {:?}", other),
    }
}

#[test]
fn grammar_simple_string() {
    let (t, n) = complete(b"+OK\r\n");
    assert_eq!(t, Type::Simple(b"OK".to_vec()));
    assert_eq!(n, 5);
}

#[test]
fn grammar_integer_negative() {
    let (t, n) = complete(b":-1\r\n");
    assert_eq!(t, Type::Integer(-1));
    assert_eq!(n, 5);
}

#[test]
fn grammar_bulk() {
    let (t, n) = complete(b"$5\r\nhello\r\n");
    assert_eq!(t, Type::Bulk { len: 5, data: b"hello".to_vec() });
    assert_eq!(n, 11);
}

#[test]
fn grammar_bulk_null() {
    let (t, n) = complete(b"$-1\r\n");
    assert_eq!(t, Type::Null);
    assert_eq!(n, 5);
}

#[test]
fn grammar_array() {
    let (t, n) = complete(b"*2\r\n+OK\r\n:12\r\n");
    assert_eq!(
        t,
        Type::Array(vec![Type::Simple(b"OK".to_vec()), Type::Integer(12)])
    );
    assert_eq!(n, 14);
}

#[test]
fn grammar_array_null() {
    let (t, n) = complete(b"*-1\r\n");
    assert_eq!(t, Type::Null);
    assert_eq!(n, 5);
}

#[test]
fn remainder_is_reported() {
    let (t, n) = complete(b"+OK\r\n:12\r\n");
    assert_eq!(t, Type::Simple(b"OK".to_vec()));
    assert_eq!(n, 5);
}

#[test]
fn empty_array_is_not_null() {
    let (t, n) = complete(b"*0\r\n");
    assert_eq!(t, Type::Array(vec![]));
    assert_eq!(n, 4);
}

#[test]
fn incomplete_never_malformed() {
    match parse(b"+OK") {
        ParseOutcome::Incomplete(h) => assert!(h >= 1),
        other => panic!("expected incomplete, not {:?}", other),
    }
}

#[test]
fn bad_prefix_never_incomplete() {
    match parse(b"\r\n") {
        ParseOutcome::Malformed(Error::Syntax) => {}
        other => panic!("expected malformed, not {:?}", other),
    }
}

#[test]
fn bulk_over_cap_is_rejected_before_payload() {
    match parse(b"$536870913\r\n") {
        ParseOutcome::Malformed(Error::BulkTooLarge { len, max }) => {
            assert_eq!(len, 536870913);
            assert_eq!(max, 536870912);
        }
        other => panic!("expected BulkTooLarge, not {:?}", other),
    }
}

#[test]
fn bulk_at_cap_is_not_rejected() {
    // The declared length equals the cap exactly: the parser asks for the
    // payload instead of refusing the length.
    match parse(b"$536870912\r\n") {
        ParseOutcome::Incomplete(_) => {}
        other => panic!("expected incomplete, not {:?}", other),
    }
}

#[test]
fn bulk_payload_is_binary_safe() {
    let (t, n) = complete(b"$4\r\nab\r\n\r\n");
    assert_eq!(t, Type::Bulk { len: 4, data: b"ab\r\n".to_vec() });
    assert_eq!(n, 10);
}

#[test]
fn truncated_array_element_is_incomplete() {
    match parse(b"*5\r\n+a\r\n+b\r\n+c") {
        ParseOutcome::Incomplete(_) => {}
        other => panic!("expected incomplete, not {:?}", other),
    }
}

#[test]
fn malformed_array_element_is_malformed() {
    match parse(b"*2\r\n+a\r\nx") {
        ParseOutcome::Malformed(Error::Syntax) => {}
        other => panic!("expected malformed, not {:?}", other),
    }
}

#[test]
fn deep_nesting_hits_the_depth_guard() {
    let mut input = Vec::new();
    for _ in 0..1000 {
        input.extend_from_slice(b"*1\r\n");
    }
    input.extend_from_slice(b":1\r\n");
    match parse(&input) {
        ParseOutcome::Malformed(Error::DepthExceeded) => {}
        other => panic!("expected the depth guard, not {:?}", other),
    }
}

#[test]
fn integer_extremes() {
    let (t, _) = complete(b":9223372036854775807\r\n");
    assert_eq!(t, Type::Integer(i64::MAX));
    let (t, _) = complete(b":-9223372036854775808\r\n");
    assert_eq!(t, Type::Integer(i64::MIN));
    match parse(b":9223372036854775808\r\n") {
        ParseOutcome::Malformed(Error::InvalidInteger) => {}
        other => panic!("expected InvalidInteger, not {:?}", other),
    }
}

#[test]
fn integer_sign_and_leading_zeros() {
    let (t, _) = complete(b":+5\r\n");
    assert_eq!(t, Type::Integer(5));
    let (t, _) = complete(b":007\r\n");
    assert_eq!(t, Type::Integer(7));
    match parse(b":\r\n") {
        ParseOutcome::Malformed(Error::InvalidInteger) => {}
        other => panic!("expected InvalidInteger, not {:?}", other),
    }
}

#[test]
fn error_text_is_really_decoded() {
    let (t, _) = complete(b"-caf\xc3\xa9\r\n");
    assert_eq!(t, Type::Error("café".to_string()));
    match parse(b"-\xff\r\n") {
        ParseOutcome::Malformed(Error::InvalidStr) => {}
        other => panic!("expected InvalidStr, not {:?}", other),
    }
}

#[test]
fn serializer_canonical_bytes() {
    assert_eq!(serialize(&Value::Unit).unwrap(), b"$-1\r\n".to_vec());
    assert_eq!(serialize(&Value::OptionNone).unwrap(), b"$-1\r\n".to_vec());
    assert_eq!(serialize(&Value::Bool(true)).unwrap(), b":1\r\n".to_vec());
    assert_eq!(serialize(&Value::Bool(false)).unwrap(), b":0\r\n".to_vec());
    assert_eq!(serialize(&Value::Int(-42)).unwrap(), b":-42\r\n".to_vec());
    assert_eq!(
        serialize(&Value::Text("hello".to_string())).unwrap(),
        b"$5\r\nhello\r\n".to_vec()
    );
    assert_eq!(
        serialize(&Value::Blob(vec![1, 2])).unwrap(),
        b"$2\r\n\x01\x02\r\n".to_vec()
    );
    assert_eq!(
        serialize(&Value::List(vec![Value::Int(1), Value::Int(2)])).unwrap(),
        b"*2\r\n:1\r\n:2\r\n".to_vec()
    );
}

#[test]
fn serializer_rejects_floats() {
    assert_eq!(serialize(&Value::Float), Err(CodecError::UnsupportedType));
}

#[test]
fn serializer_rejects_dictionaries() {
    assert_eq!(serialize(&Value::Dict), Err(CodecError::UnsupportedType));
}

#[test]
fn serializer_rejects_unknown_length() {
    assert_eq!(
        serialize(&Value::UnknownLenList(vec![Value::Int(1)])),
        Err(CodecError::UnknownLength)
    );
}

#[test]
fn serializer_rejects_large_unsigned() {
    assert_eq!(
        serialize(&Value::UInt(i64::MAX as u64 + 1)),
        Err(CodecError::InvalidInteger)
    );
    assert_eq!(
        serialize(&Value::UInt(i64::MAX as u64)).unwrap(),
        b":9223372036854775807\r\n".to_vec()
    );
}

#[test]
fn round_trip_scalars() {
    let bytes = serialize(&Value::Int(-7)).unwrap();
    assert_eq!(
        deserialize(&bytes, &Shape::Int(IntWidth::I64)),
        Ok(Value::Int(-7))
    );
    let bytes = serialize(&Value::UInt(7)).unwrap();
    assert_eq!(
        deserialize(&bytes, &Shape::Int(IntWidth::U64)),
        Ok(Value::UInt(7))
    );
    let bytes = serialize(&Value::Bool(true)).unwrap();
    assert_eq!(deserialize(&bytes, &Shape::Bool), Ok(Value::Bool(true)));
    let bytes = serialize(&Value::Text("café".to_string())).unwrap();
    assert_eq!(
        deserialize(&bytes, &Shape::Text),
        Ok(Value::Text("café".to_string()))
    );
    let bytes = serialize(&Value::Blob(vec![0, 13, 10])).unwrap();
    assert_eq!(
        deserialize(&bytes, &Shape::Blob),
        Ok(Value::Blob(vec![0, 13, 10]))
    );
    let bytes = serialize(&Value::Unit).unwrap();
    assert_eq!(deserialize(&bytes, &Shape::Unit), Ok(Value::Unit));
}

#[test]
fn round_trip_options() {
    let bytes = serialize(&Value::OptionNone).unwrap();
    assert_eq!(
        deserialize(&bytes, &Shape::Optional(Box::new(Shape::Int(IntWidth::I64)))),
        Ok(Value::OptionNone)
    );
    let v = Value::OptionSome(Box::new(Value::Int(3)));
    let bytes = serialize(&v).unwrap();
    assert_eq!(
        deserialize(&bytes, &Shape::Optional(Box::new(Shape::Int(IntWidth::I64)))),
        Ok(Value::OptionSome(Box::new(Value::Int(3))))
    );
}

#[test]
fn round_trip_record() {
    let v = Value::Record(vec![
        Value::Int(12),
        Value::Text("hi".to_string()),
        Value::Bool(true),
        Value::OptionNone,
    ]);
    let bytes = serialize(&v).unwrap();
    let shape = Shape::Record(vec![
        Shape::Int(IntWidth::I64),
        Shape::Text,
        Shape::Bool,
        Shape::Optional(Box::new(Shape::Unit)),
    ]);
    let back = deserialize(&bytes, &shape).unwrap();
    assert_eq!(back, v);
}

#[test]
fn round_trip_nested_list() {
    let v = Value::List(vec![
        Value::List(vec![Value::Int(1)]),
        Value::List(vec![Value::Int(2), Value::Int(3)]),
    ]);
    let bytes = serialize(&v).unwrap();
    assert_eq!(bytes, b"*2\r\n*1\r\n:1\r\n*2\r\n:2\r\n:3\r\n".to_vec());
    let shape = Shape::List(Box::new(Shape::List(Box::new(Shape::Int(IntWidth::I64)))));
    assert_eq!(deserialize(&bytes, &shape), Ok(v));
}

#[test]
fn deserializer_narrows_integers() {
    assert_eq!(
        deserialize(b":255\r\n", &Shape::Int(IntWidth::U8)),
        Ok(Value::UInt(255))
    );
    assert_eq!(
        deserialize(b":300\r\n", &Shape::Int(IntWidth::U8)),
        Err(CodecError::InvalidInteger)
    );
    assert_eq!(
        deserialize(b":-1\r\n", &Shape::Int(IntWidth::U64)),
        Err(CodecError::InvalidInteger)
    );
    assert_eq!(
        deserialize(b":-128\r\n", &Shape::Int(IntWidth::I8)),
        Ok(Value::Int(-128))
    );
}

#[test]
fn deserializer_reports_mismatch_and_parse_failures() {
    assert_eq!(
        deserialize(b":1\r\n", &Shape::Text),
        Err(CodecError::ShapeMismatch)
    );
    assert_eq!(
        deserialize(b"+OK", &Shape::Text),
        Err(CodecError::Incomplete)
    );
    assert_eq!(
        deserialize(b"\r\n", &Shape::Text),
        Err(CodecError::Parse(Error::Syntax))
    );
}

#[test]
fn deserializer_accepts_all_text_like_wire_shapes() {
    let (t, _) = match parse(b"+pong\r\n") {
        ParseOutcome::Complete(t, n) => (t, n),
        other => panic!("unexpected {:?}", other),
    };
    assert_eq!(
        from_wire(&t, &Shape::Text),
        Ok(Value::Text("pong".to_string()))
    );
    assert_eq!(
        from_wire(&t, &Shape::Blob),
        Ok(Value::Blob(b"pong".to_vec()))
    );
    let (e, _) = match parse(b"-bad\r\n") {
        ParseOutcome::Complete(t, n) => (t, n),
        other => panic!("unexpected {:?}", other),
    };
    assert_eq!(
        from_wire(&e, &Shape::Text),
        Ok(Value::Text("bad".to_string()))
    );
}

#[test]
fn bulk_incomplete_hint_counts_missing_bytes() {
    match parse(b"$5\r\nhel") {
        ParseOutcome::Incomplete(h) => assert_eq!(h, 4),
        other => panic!("expected incomplete, not {:?}", other),
    }
}

#[test]
fn record_serializes_as_positional_array() {
    let v = Value::Record(vec![Value::Int(7), Value::Bool(false)]);
    assert_eq!(serialize(&v).unwrap(), b"*2\r\n:7\r\n:0\r\n".to_vec());
}
