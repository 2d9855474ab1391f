use resp_codec::parser::{array, bulk, error, integer, parse, simple_str, ParseOutcome};
use resp_codec::wire::Type;

#[test]
fn parse_simple_str_ok() {
    match simple_str(b"+OK\r\n") {
        ParseOutcome::Complete(Type::Simple(b), _) => assert_eq!(b, b"OK".to_vec()),
        other => panic!("expected SimpleStr('OK'), not {:?}", other),
    }
}

#[test]
fn parse_error_ok() {
    match error(b"-Error oh no\r\n") {
        ParseOutcome::Complete(Type::Error(s), _) => assert_eq!(s, "Error oh no"),
        other => panic!("expected Error('Error oh no'), not {:?}", other),
    }
}

#[test]
fn parse_error_not_str() {
    match error(b"+Error oh no\r\n") {
        ParseOutcome::Complete(_, _) => panic!("expected an error"),
        ParseOutcome::Incomplete(_) => panic!("expected an error, not incomplete"),
        ParseOutcome::Malformed(_) => {}
    }
}

#[test]
fn parse_integer_ok() {
    match integer(b":-1\r\n") {
        ParseOutcome::Complete(Type::Integer(-1), _) => {}
        other => panic!("expected Integer(-1), not {:?}", other),
    }
}

#[test]
fn parse_integer_error_if_decimal() {
    match integer(b":1.1\r\n") {
        ParseOutcome::Malformed(_) => {}
        other => panic!("expected failure, not {:?}", other),
    }
}

#[test]
fn parse_bulk_ok() {
    match bulk(b"$5\r\nhello\r\n") {
        ParseOutcome::Complete(Type::Bulk { len: 5, data }, _) => {
            assert_eq!(data, b"hello".to_vec());
        }
        other => panic!("expected Bulk(5, hello), not {:?}", other),
    }
}

#[test]
fn parse_bulk_null() {
    match bulk(b"$-1\r\n") {
        ParseOutcome::Complete(Type::Null, _) => {}
        other => panic!("expected Null, not {:?}", other),
    }
}

#[test]
fn parse_array_ok() {
    match array(b"*2\r\n+OK\r\n:12\r\n") {
        ParseOutcome::Complete(Type::Array(data), _) => {
            let expected = vec![Type::Simple(b"OK".to_vec()), Type::Integer(12)];
            assert_eq!(data, expected);
        }
        other => panic!("expected Array(String(OK),Integer(12)), not {:?}", other),
    }
}

#[test]
fn parse_array_null() {
    match array(b"*-1\r\n") {
        ParseOutcome::Complete(Type::Null, _) => {}
        other => panic!("expected Null, not {:?}", other),
    }
}

#[test]
fn parse_parses_simple_strs() {
    match parse(b"+Simplest of strings\r\n") {
        ParseOutcome::Complete(Type::Simple(b), _) => {
            assert_eq!(b, b"Simplest of strings".to_vec());
        }
        other => panic!("expected SimpleStr('Simplest of strings'), not {:?}", other),
    }
}

#[test]
fn parse_parses_errors() {
    match parse(b"-Oops\r\n") {
        ParseOutcome::Complete(Type::Error(s), _) => assert_eq!(s, "Oops"),
        other => panic!("expected Error('Oops'), not {:?}", other),
    }
}

#[test]
fn parse_parses_integers() {
    match parse(b":1\r\n") {
        ParseOutcome::Complete(Type::Integer(1), _) => {}
        other => panic!("expected Integer(1), not {:?}", other),
    }
}

#[test]
fn parse_parses_bulk() {
    match parse(b"$-1\r\n") {
        ParseOutcome::Complete(Type::Null, _) => {}
        other => panic!("expected Null, not {:?}", other),
    }
}

#[test]
fn parse_incomplete() {
    match parse(b"+OK") {
        ParseOutcome::Incomplete(_) => {}
        other => panic!("unexpected {:?}", other),
    }
}
