use zbusctl::{
    build_body, parse_scalar, Body, DictEntry, EncodeError, Field, Scalar, ScalarKind, ValueCause,
};

fn entry(key: &str, value: Scalar) -> DictEntry {
    DictEntry { key: key.to_string(), value }
}

fn single(arg: &str) -> Result<Field, EncodeError> {
    build_body(vec![arg]).map(|b| {
        assert_eq!(b.fields.len(), 1);
        b.fields.into_iter().next().unwrap()
    })
}

fn invalid(kind: ScalarKind, raw: &str, cause: ValueCause) -> EncodeError {
    EncodeError::InvalidValue { kind, raw: raw.to_string(), cause }
}

#[test]
fn test_dictionary_string_int32() {
    let args = vec!["dict:string:int32:\"one\",1,\"two\",2,\"three\",3"];
    let result = build_body(args);
    assert!(result.is_ok(), "Dictionary parsing should succeed: {:?}", result);
}

#[test]
fn test_dictionary_string_string() {
    let args = vec!["dict:string:string:\"name\",\"John\",\"city\",\"NYC\""];
    let result = build_body(args);
    assert!(result.is_ok(), "String-string dictionary parsing should succeed: {:?}", result);
}

#[test]
fn test_dictionary_invalid_pairs() {
    let args = vec!["dict:string:int32:\"one\",1,\"two\""];
    let result = build_body(args);
    assert!(result.is_err(), "Dictionary with odd number of pairs should fail");
}

#[test]
fn test_dictionary_unsupported_types() {
    let args = vec!["dict:float:int32:1.0,1"];
    let result = build_body(args);
    assert!(result.is_err(), "Dictionary with unsupported key type should fail");
}

#[test]
fn scalar_kinds_read_their_values() {
    assert_eq!(single("int32:-42"), Ok(Field::Scalar(Scalar::Int32(-42))));
    assert_eq!(single("uint32:4294967295"), Ok(Field::Scalar(Scalar::Uint32(4294967295))));
    assert_eq!(single("int64:-9223372036854775808"), Ok(Field::Scalar(Scalar::Int64(i64::MIN))));
    assert_eq!(single("uint64:18446744073709551615"), Ok(Field::Scalar(Scalar::Uint64(u64::MAX))));
    assert_eq!(single("int16:+12"), Ok(Field::Scalar(Scalar::Int16(12))));
    assert_eq!(single("uint16:007"), Ok(Field::Scalar(Scalar::Uint16(7))));
    assert_eq!(single("byte:255"), Ok(Field::Scalar(Scalar::Byte(255))));
    assert_eq!(single("boolean:true"), Ok(Field::Scalar(Scalar::Boolean(true))));
    assert_eq!(single("bool:false"), Ok(Field::Scalar(Scalar::Boolean(false))));
    assert_eq!(single("string:a:b,c"), Ok(Field::Scalar(Scalar::Str("a:b,c".to_string()))));
    assert_eq!(single("string:"), Ok(Field::Scalar(Scalar::Str(String::new()))));
    assert_eq!(single("double:1.5"), Ok(Field::Scalar(Scalar::Double("1.5".to_string()))));
}

#[test]
fn scalar_values_that_do_not_read_fail() {
    assert_eq!(single("int32:abc"), Err(invalid(ScalarKind::Int32, "abc", ValueCause::NotANumber)));
    assert_eq!(single("int32:"), Err(invalid(ScalarKind::Int32, "", ValueCause::NotANumber)));
    assert_eq!(single("int32:-"), Err(invalid(ScalarKind::Int32, "-", ValueCause::NotANumber)));
    assert_eq!(single("int32: 1"), Err(invalid(ScalarKind::Int32, " 1", ValueCause::NotANumber)));
    assert_eq!(
        single("int32:2147483648"),
        Err(invalid(ScalarKind::Int32, "2147483648", ValueCause::OutOfRange))
    );
    assert_eq!(single("uint32:-1"), Err(invalid(ScalarKind::Uint32, "-1", ValueCause::NotANumber)));
    assert_eq!(single("byte:256"), Err(invalid(ScalarKind::Byte, "256", ValueCause::OutOfRange)));
    assert_eq!(
        single("uint64:99999999999999999999"),
        Err(invalid(ScalarKind::Uint64, "99999999999999999999", ValueCause::OutOfRange))
    );
    assert_eq!(single("bool:yes"), Err(invalid(ScalarKind::Boolean, "yes", ValueCause::NotABoolean)));
    assert_eq!(single("bool:True"), Err(invalid(ScalarKind::Boolean, "True", ValueCause::NotABoolean)));
}

#[test]
fn object_paths_are_checked() {
    assert_eq!(
        single("objpath:/org/example/Obj_1"),
        Ok(Field::Scalar(Scalar::ObjectPath("/org/example/Obj_1".to_string())))
    );
    assert_eq!(single("objpath:/"), Ok(Field::Scalar(Scalar::ObjectPath("/".to_string()))));
    for bad in ["", "org", "/org/", "/org//x", "/or-g"] {
        assert_eq!(
            parse_scalar(ScalarKind::ObjectPath, bad),
            Err(ValueCause::InvalidObjectPath),
            "{}",
            bad
        );
    }
}

#[test]
fn signatures_are_checked() {
    assert_eq!(
        single("signature:a{sv}"),
        Ok(Field::Scalar(Scalar::Signature("a{sv}".to_string())))
    );
    assert_eq!(
        single("signature:a{"),
        Err(invalid(ScalarKind::Signature, "a{", ValueCause::InvalidSignature))
    );
    assert_eq!(parse_scalar(ScalarKind::Signature, "(z"), Err(ValueCause::InvalidSignature));
}

#[test]
fn argument_without_separator_is_malformed() {
    assert_eq!(single("int32"), Err(EncodeError::MalformedToken("int32".to_string())));
}

#[test]
fn unknown_tag_is_unsupported() {
    assert_eq!(single("float:1.0"), Err(EncodeError::UnsupportedType("float".to_string())));
    assert_eq!(single("Int32:1"), Err(EncodeError::UnsupportedType("Int32".to_string())));
}

#[test]
fn arrays_keep_order() {
    assert_eq!(
        single("array:uint16:3,1,2"),
        Ok(Field::Array(ScalarKind::Uint16, vec![Scalar::Uint16(3), Scalar::Uint16(1), Scalar::Uint16(2)]))
    );
    assert_eq!(
        single("array:string:a, b ,c"),
        Ok(Field::Array(
            ScalarKind::Str,
            vec![Scalar::Str("a".to_string()), Scalar::Str("b".to_string()), Scalar::Str("c".to_string())]
        ))
    );
    assert_eq!(
        single("array:objpath:/a,/b/c"),
        Ok(Field::Array(
            ScalarKind::ObjectPath,
            vec![Scalar::ObjectPath("/a".to_string()), Scalar::ObjectPath("/b/c".to_string())]
        ))
    );
}

#[test]
fn array_items_are_trimmed() {
    assert_eq!(
        single("array:int32: 1 , 2"),
        Ok(Field::Array(ScalarKind::Int32, vec![Scalar::Int32(1), Scalar::Int32(2)]))
    );
    assert_eq!(
        single("array:bool:\ttrue ,false\n"),
        Ok(Field::Array(ScalarKind::Boolean, vec![Scalar::Boolean(true), Scalar::Boolean(false)]))
    );
}

#[test]
fn array_with_bad_item_fails_whole() {
    assert_eq!(single("array:int32:1,x,3"), Err(invalid(ScalarKind::Int32, "x", ValueCause::NotANumber)));
    assert_eq!(single("array:int32:"), Err(invalid(ScalarKind::Int32, "", ValueCause::NotANumber)));
    assert_eq!(single("array:byte:1,300"), Err(invalid(ScalarKind::Byte, "300", ValueCause::OutOfRange)));
}

#[test]
fn array_spec_errors() {
    assert_eq!(single("array:int32"), Err(EncodeError::InvalidArraySpec("int32".to_string())));
    assert_eq!(
        single("array:float:1.0"),
        Err(EncodeError::UnsupportedArrayElementType("float".to_string()))
    );
}

#[test]
fn dictionary_reads_pairs() {
    assert_eq!(
        single("dict:string:int32:\"a\",1,\"b\",2"),
        Ok(Field::Dict(
            ScalarKind::Int32,
            vec![entry("\"a\"", Scalar::Int32(1)), entry("\"b\"", Scalar::Int32(2))]
        ))
    );
    assert_eq!(
        single("dict:string:bool: k , true"),
        Ok(Field::Dict(ScalarKind::Boolean, vec![entry("k", Scalar::Boolean(true))]))
    );
}

#[test]
fn dictionary_last_duplicate_wins() {
    assert_eq!(
        single("dict:string:int32:\"a\",1,\"a\",2"),
        Ok(Field::Dict(ScalarKind::Int32, vec![entry("\"a\"", Scalar::Int32(2))]))
    );
}

#[test]
fn dictionary_odd_count_fails() {
    assert_eq!(
        single("dict:string:int32:\"a\",1,\"b\""),
        Err(EncodeError::OddPairCount("string:int32:\"a\",1,\"b\"".to_string()))
    );
}

#[test]
fn dictionary_unsupported_types_fail_before_values() {
    assert_eq!(
        single("dict:float:int32:1.0,1"),
        Err(EncodeError::UnsupportedDictTypes("float".to_string(), "int32".to_string()))
    );
    assert_eq!(
        single("dict:string:objpath:a,notapath"),
        Err(EncodeError::UnsupportedDictTypes("string".to_string(), "objpath".to_string()))
    );
    assert_eq!(
        single("dict:int32:int32:x,y"),
        Err(EncodeError::UnsupportedDictTypes("int32".to_string(), "int32".to_string()))
    );
}

#[test]
fn dictionary_spec_and_value_errors() {
    assert_eq!(single("dict:string:int32"), Err(EncodeError::InvalidDictSpec("string:int32".to_string())));
    assert_eq!(single("dict:string"), Err(EncodeError::InvalidDictSpec("string".to_string())));
    assert_eq!(
        single("dict:string:uint16:a,-1"),
        Err(invalid(ScalarKind::Uint16, "-1", ValueCause::NotANumber))
    );
}

#[test]
fn fields_follow_argument_order() {
    let body = build_body(vec!["int32:1", "string:hi"]).unwrap();
    assert_eq!(
        body,
        Body {
            fields: vec![
                Field::Scalar(Scalar::Int32(1)),
                Field::Scalar(Scalar::Str("hi".to_string()))
            ]
        }
    );
    assert_eq!(build_body(vec![]), Ok(Body { fields: vec![] }));
}

#[test]
fn first_error_stops_encoding() {
    assert_eq!(
        build_body(vec!["int32:1", "bool:maybe", "float:2"]),
        Err(invalid(ScalarKind::Boolean, "maybe", ValueCause::NotABoolean))
    );
}

#[test]
fn encoding_twice_gives_same_body() {
    let args = vec!["int32:1", "array:string:a,b", "dict:string:byte:x,1,y,2"];
    assert_eq!(build_body(args.clone()), build_body(args));
}

#[test]
fn doubles_are_checked_as_float_text() {
    for ok in ["1.5", "-2", "+.5", "5.", "1e5", "1E-3", "2.5e+10", "inf", "-Infinity", "NaN"] {
        assert_eq!(
            parse_scalar(ScalarKind::Double, ok),
            Ok(Scalar::Double(ok.to_string())),
            "{}",
            ok
        );
        assert!(ok.parse::<f64>().is_ok());
    }
    for bad in ["", ".", "abc", "1e", "e5", "1.2.3", "--1", " 1", "infin", "1x"] {
        assert_eq!(parse_scalar(ScalarKind::Double, bad), Err(ValueCause::NotANumber), "{}", bad);
        assert!(bad.parse::<f64>().is_err());
    }
    assert_eq!(single("double:x"), Err(invalid(ScalarKind::Double, "x", ValueCause::NotANumber)));
}
