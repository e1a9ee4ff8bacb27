use redis_oxide::order::value_eq;
use redis_oxide::parse::parse;
use redis_oxide::{MyFloat, ParseError, Value, VerbatimString};

fn perr(r: Result<(Value, usize), ParseError>) -> ParseError {
    match r {
        Err(e) => e,
        Ok(_) => panic!("expected a decode error"),
    }
}

fn rt(v: &Value) {
    let bytes = v.to_bytes();
    let (w, used) = parse(&bytes, 0).expect("a value's own encoding must decode");
    assert_eq!(used, bytes.len());
    assert!(value_eq(v, &w));
}

#[test]
fn round_trip_simple_kinds() {
    rt(&Value::String(b"hello".to_vec()));
    rt(&Value::String(Vec::new()));
    rt(&Value::Error(b"ERR boom".to_vec()));
    rt(&Value::Integer(0));
    rt(&Value::Integer(-1));
    rt(&Value::Integer(i64::MAX));
    rt(&Value::Integer(i64::MIN));
    rt(&Value::BulkString(b"abc".to_vec()));
    rt(&Value::BulkString(Vec::new()));
    rt(&Value::Null);
    rt(&Value::Bool(true));
    rt(&Value::Bool(false));
    rt(&Value::Double(MyFloat::Real(b"3.14".to_vec())));
    rt(&Value::Double(MyFloat::Real(b"-1e10".to_vec())));
    rt(&Value::BigNumber(b"123456789012345678901234567890".to_vec()));
    rt(&Value::BulkError(b"SYNTAX err".to_vec()));
}

#[test]
fn round_trip_aggregates() {
    rt(&Value::Array(vec![
        Value::Integer(1),
        Value::String(b"two".to_vec()),
        Value::Array(vec![Value::Bool(false), Value::Null]),
    ]));
    rt(&Value::Push(vec![Value::BulkString(b"message".to_vec())]));
    // entries below stand in the crate's sorted order (String ranks
    // before Integer by variant, and "a" < "b" within a variant)
    rt(&Value::Dict(vec![
        (Value::String(b"a".to_vec()), Value::Integer(1)),
        (Value::String(b"b".to_vec()), Value::Integer(2)),
    ]));
    rt(&Value::Uniq(vec![
        Value::String(b"x".to_vec()),
        Value::Integer(7),
    ]));
}

#[test]
fn exact_frames() {
    assert_eq!(Value::String(b"OK".to_vec()).to_bytes(), b"+OK\r\n");
    assert_eq!(Value::Error(b"e".to_vec()).to_bytes(), b"-e\r\n");
    assert_eq!(Value::Integer(-42).to_bytes(), b":-42\r\n");
    assert_eq!(Value::BulkString(b"abc".to_vec()).to_bytes(), b"$3\r\nabc\r\n");
    assert_eq!(Value::Null.to_bytes(), b"_\r\n");
    assert_eq!(Value::Bool(true).to_bytes(), b"#t\r\n");
    assert_eq!(Value::Bool(false).to_bytes(), b"#f\r\n");
    assert_eq!(Value::Double(MyFloat::NaN).to_bytes(), b",0.0\r\n");
    assert_eq!(Value::Double(MyFloat::Real(b"2.5".to_vec())).to_bytes(), b",2.5\r\n");
    assert_eq!(Value::BigNumber(b"99".to_vec()).to_bytes(), b"(99\r\n");
    assert_eq!(Value::BulkError(b"E".to_vec()).to_bytes(), b"!1\r\nE\r\n");
    let vs = Value::VerbatimString(VerbatimString { enc: b"txt".to_vec(), data: b"abc".to_vec() });
    assert_eq!(vs.to_bytes(), b"=7\r\ntxt:abc\r\n");
    assert_eq!(
        Value::Array(vec![Value::Integer(1)]).to_bytes(),
        b"*1\r\n:1\r\n"
    );
    assert_eq!(
        Value::Dict(vec![(Value::String(b"k".to_vec()), Value::Integer(5))]).to_bytes(),
        b"%1\r\n+k\r\n:5\r\n"
    );
    assert_eq!(
        Value::Uniq(vec![Value::Integer(3)]).to_bytes(),
        b"~1\r\n:3\r\n"
    );
    assert_eq!(
        Value::Push(vec![Value::Integer(3)]).to_bytes(),
        b">1\r\n:3\r\n"
    );
}

#[test]
fn null_forms_decode_alike() {
    let (a, _) = parse(b"_\r\n", 0).unwrap();
    let (b, _) = parse(b"$-1\r\n", 0).unwrap();
    let (c, _) = parse(b"*-1\r\n", 0).unwrap();
    assert!(value_eq(&a, &Value::Null));
    assert!(value_eq(&b, &Value::Null));
    assert!(value_eq(&c, &Value::Null));
    // the explicit null re-encodes as its own frame, not the bulk form
    assert_eq!(a.to_bytes(), b"_\r\n");
}

#[test]
fn map_set_are_deterministic() {
    // the same two entries, sent in both orders, encode identically
    let one = parse(b"%2\r\n+a\r\n:1\r\n+b\r\n:2\r\n", 0).unwrap().0;
    let two = parse(b"%2\r\n+b\r\n:2\r\n+a\r\n:1\r\n", 0).unwrap().0;
    assert!(value_eq(&one, &two));
    assert_eq!(one.to_bytes(), two.to_bytes());
    let s1 = parse(b"~3\r\n:2\r\n:1\r\n:2\r\n", 0).unwrap().0;
    let s2 = parse(b"~2\r\n:1\r\n:2\r\n", 0).unwrap().0;
    assert!(value_eq(&s1, &s2));
    assert_eq!(s1.to_bytes(), b"~2\r\n:1\r\n:2\r\n");
}

#[test]
fn map_duplicate_keys_overwrite() {
    let m = parse(b"%2\r\n+k\r\n:1\r\n+k\r\n:2\r\n", 0).unwrap().0;
    assert!(value_eq(
        &m,
        &Value::Dict(vec![(Value::String(b"k".to_vec()), Value::Integer(2))])
    ));
}

#[test]
fn double_nan_text_becomes_sentinel() {
    let d = parse(b",nan\r\n", 0).unwrap().0;
    assert!(value_eq(&d, &Value::Double(MyFloat::NaN)));
    assert_eq!(d.to_bytes(), b",0.0\r\n");
    let e = parse(b",-NaN\r\n", 0).unwrap().0;
    assert!(value_eq(&e, &Value::Double(MyFloat::NaN)));
    let inf = parse(b",inf\r\n", 0).unwrap().0;
    assert!(value_eq(&inf, &Value::Double(MyFloat::Real(b"inf".to_vec()))));
}

#[test]
fn verbatim_splits_on_first_colon() {
    let v = parse(b"=txt:a:b\r\n", 0).unwrap().0;
    assert!(value_eq(
        &v,
        &Value::VerbatimString(VerbatimString { enc: b"txt".to_vec(), data: b"a:b".to_vec() })
    ));
}

#[test]
fn verbatim_parts_are_never_empty() {
    // a decoded verbatim string's encoding tag and payload are never
    // empty: frames that would make one empty are refused
    assert_eq!(perr(parse(b"=:abc\r\n", 0)), ParseError::VerbatimStringParseError);
    assert_eq!(perr(parse(b"=txt:\r\n", 0)), ParseError::VerbatimStringParseError);
    assert_eq!(perr(parse(b"=:\r\n", 0)), ParseError::VerbatimStringParseError);
}

#[test]
fn element_errors_propagate_from_aggregates() {
    // a malformed element fails the whole aggregate with its own error
    assert_eq!(perr(parse(b"*1\r\n:x\r\n", 0)), ParseError::IntegerParseError);
    assert_eq!(perr(parse(b"%1\r\n+k\r\n,z\r\n", 0)), ParseError::DoubleParseError);
    assert_eq!(perr(parse(b"~1\r\n?\r\n", 0)), ParseError::UnknownDataType(b'?'));
    // an input ending inside the elements is incomplete
    assert_eq!(perr(parse(b"~2\r\n:1\r\n", 0)), ParseError::Incomplete);
    assert_eq!(perr(parse(b"%1\r\n+k\r\n", 0)), ParseError::Incomplete);
}

#[test]
fn decode_errors() {
    assert_eq!(perr(parse(b"", 0)), ParseError::Incomplete);
    assert_eq!(perr(parse(b"+abc", 0)), ParseError::Incomplete);
    assert_eq!(perr(parse(b"+abc\r", 0)), ParseError::Incomplete);
    assert_eq!(perr(parse(b"*2\r\n:1\r\n", 0)), ParseError::Incomplete);
    assert_eq!(perr(parse(b":12x\r\n", 0)), ParseError::IntegerParseError);
    assert_eq!(perr(parse(b":\r\n", 0)), ParseError::IntegerParseError);
    assert_eq!(perr(parse(b",abc\r\n", 0)), ParseError::DoubleParseError);
    assert_eq!(
        perr(parse(b"=nocolon\r\n", 0)),
        ParseError::VerbatimStringParseError
    );
    assert_eq!(perr(parse(b"?\r\n", 0)), ParseError::UnknownDataType(b'?'));
    assert_eq!(
        perr(parse(b"+\xff\xfe\r\n", 0)),
        ParseError::SimpleStringParseError
    );
}

#[test]
fn lenient_frames_are_kept() {
    // the bulk length is read yet not held against the body line
    let b = parse(b"$99\r\nabc\r\n", 0).unwrap().0;
    assert!(value_eq(&b, &Value::BulkString(b"abc".to_vec())));
    // a boolean byte other than t is false
    let f = parse(b"#x\r\n", 0).unwrap().0;
    assert!(value_eq(&f, &Value::Bool(false)));
    // a negative count other than -1 is an empty aggregate
    let a = parse(b"*-2\r\n", 0).unwrap().0;
    assert!(value_eq(&a, &Value::Array(vec![])));
    // a signed integer with a plus sign re-encodes canonically
    let i = parse(b":+5\r\n", 0).unwrap().0;
    assert_eq!(i.to_bytes(), b":5\r\n");
}

#[test]
fn cursor_advances_by_one_frame() {
    let bytes = b":1\r\n:2\r\n";
    let (v1, p1) = parse(bytes, 0).unwrap();
    let (v2, p2) = parse(bytes, p1).unwrap();
    assert!(value_eq(&v1, &Value::Integer(1)));
    assert!(value_eq(&v2, &Value::Integer(2)));
    assert_eq!(p2, bytes.len());
}
