use nordocs::ffi::{parse_vars, settle, settle_unit, FfiError, FfiErrorCode, FfiFormat};
use nordocs::Error;
use nordocs::error::IoKind;

#[test]
fn maps_every_core_variant_to_a_distinct_code() {
    let cases = [
        (Error::Authoring("a".into()), FfiErrorCode::Authoring),
        (Error::Validation("v".into()), FfiErrorCode::Validation),
        (Error::Schema("s".into()), FfiErrorCode::Schema),
        (Error::Markdown("m".into()), FfiErrorCode::Markdown),
        (Error::Compile("c".into()), FfiErrorCode::Compile),
        (Error::FatFile("f".into()), FfiErrorCode::FatFile),
    ];
    for (err, expected) in cases {
        assert_eq!(FfiErrorCode::from(&err), expected);
    }
    assert_eq!(FfiErrorCode::Panic.number(), 99);
    assert_eq!(FfiErrorCode::Json.number(), 8);
    assert_eq!(FfiFormat::Png.number(), 2);
}

#[test]
fn ok_sentinel_has_empty_message() {
    let ok = FfiError::ok();
    assert_eq!(ok.code, FfiErrorCode::Success);
    assert!(ok.message.is_empty());
}

#[test]
fn from_core_captures_code_and_message() {
    let err = FfiError::from_core(&Error::Compile("boom".into()));
    assert_eq!(err.code, FfiErrorCode::Compile);
    assert_eq!(err.message, "compile error: boom");
}

#[test]
fn success_passes_the_value_through() {
    let mut slot = FfiError::panic("stale".to_string());
    let v = settle(Ok(7u32), &mut slot, 0);
    assert_eq!(v, 7);
    assert_eq!(slot.code, FfiErrorCode::Success);
    let v = settle(Err(FfiError::from_core(&Error::Io(IoKind::Other, "x".into()))), &mut slot, 0u32);
    assert_eq!(v, 0);
    assert_eq!(slot.code, FfiErrorCode::Io);
    settle_unit(Ok(()), &mut slot);
    assert_eq!(slot.code, FfiErrorCode::Success);
}

#[test]
fn parse_vars_empty_is_no_inputs() {
    assert!(parse_vars("").expect("empty parses").is_empty());
    assert!(parse_vars("   ").expect("blank parses").is_empty());
}

#[test]
fn parse_vars_object_coerces_values_to_strings() {
    let pairs = parse_vars(r#"{"title":"Hi","count":3}"#).expect("object parses");
    assert!(pairs.contains(&("title".to_string(), "Hi".to_string())));
    assert!(pairs.contains(&("count".to_string(), "3".to_string())));
    assert_eq!(pairs[0].0, "count");
}

#[test]
fn parse_vars_malformed_is_json_error() {
    let err = parse_vars("not json").expect_err("malformed must error");
    assert!(matches!(err, Error::Json(_)));
}

#[test]
fn parse_vars_renders_non_strings_as_json_text() {
    let pairs = parse_vars(r#"{"b":true,"n":null,"list":[1,"x"],"obj":{"k":"v"},"s":"plain \"q\""}"#).expect("parses");
    assert_eq!(
        pairs,
        vec![
            ("b".to_string(), "true".to_string()),
            ("list".to_string(), "[1,\"x\"]".to_string()),
            ("n".to_string(), "null".to_string()),
            ("obj".to_string(), "{\"k\":\"v\"}".to_string()),
            ("s".to_string(), "plain \"q\"".to_string()),
        ]
    );
}
