//! Schemas.

use breezydb::data::schema::{
    fields_fit, schema_from_json, DataType, Field, Json, Schema, SchemaError, LEN_PREFIX_SIZE, NAME_LEN,
    NULL_FLAG_SIZE,
};
use serde_json::Value;

fn json(value: &Value) -> Json {
    match value {
        Value::Object(members) => {
            Json::Object(members.iter().map(|(key, val)| (key.clone(), json(val))).collect())
        }
        Value::String(text) => Json::String(text.clone()),
        _ => Json::Other,
    }
}

fn parsed(text: &str) -> Json {
    let value: Value = serde_json::from_str(text).unwrap();
    json(&value)
}

fn name_of(field: &Field) -> String {
    String::from_utf8_lossy(&field.name).trim_end_matches('\0').to_string()
}

fn by_name<'a>(schema: &'a Schema, name: &str) -> &'a Field {
    schema.fields.iter().find(|f| name_of(f) == name).unwrap()
}

#[test]
fn flattens_nested() {
    let v = parsed(r#"{ "name": { "first": "String 64", "last": "String 64" }, "id": "Int" }"#);

    let s = schema_from_json("user", &v).unwrap();

    let names: Vec<String> = s.fields.iter().map(name_of).collect();

    assert_eq!(names, ["id", "name.first", "name.last"]);
}

#[test]
fn sized_types() {
    let v = parsed(
        r#"{ "firstName": "String 50", "userId": "Int", "ok": "Bool", "ratio": "Float", "data": "Blob 12" }"#,
    );

    let s = schema_from_json("user", &v).unwrap();

    let first = by_name(&s, "firstName");
    assert_eq!(first.ty, DataType::String);
    assert_eq!(first.size, 50);
    assert_eq!(first.width(), NULL_FLAG_SIZE + LEN_PREFIX_SIZE + 50);

    assert_eq!(by_name(&s, "userId").size, 8);
    assert_eq!(by_name(&s, "ok").size, 1);
    assert_eq!(by_name(&s, "ratio").size, 8);
    assert_eq!(by_name(&s, "data").size, 12);
}

#[test]
fn nullable_types() {
    let v = parsed(r#"{ "a": "Int?", "b": "Bool?", "c": "String? 50", "d": "String 50" }"#);

    let s = schema_from_json("user", &v).unwrap();

    let a = by_name(&s, "a");
    assert!(a.nullable);
    assert_eq!(a.width(), 1 + 8);

    let b = by_name(&s, "b");
    assert!(b.nullable);
    assert_eq!(b.width(), 1 + 1);

    let c = by_name(&s, "c");
    assert!(c.nullable);
    assert_eq!(c.width(), NULL_FLAG_SIZE + LEN_PREFIX_SIZE + 50);

    let d = by_name(&s, "d");
    assert!(!d.nullable);
    assert_eq!(d.width(), NULL_FLAG_SIZE + LEN_PREFIX_SIZE + 50);
}

#[test]
fn string_requires_size() {
    let v = parsed(r#"{ "name": "String" }"#);
    assert!(matches!(schema_from_json("user", &v), Err(SchemaError::MissingSize(_))));
}

#[test]
fn nullable_string_requires_size() {
    let v = parsed(r#"{ "name": "String?" }"#);
    assert!(matches!(schema_from_json("user", &v), Err(SchemaError::MissingSize(_))));
}

#[test]
fn string_rejects_zero() {
    let v = parsed(r#"{ "name": "String 0" }"#);
    assert!(matches!(schema_from_json("user", &v), Err(SchemaError::InvalidSize(_))));
}

#[test]
fn fixed_types_reject_suffix() {
    for decl in ["Int 64", "Float 32", "Bool 1"] {
        let v = parsed(&format!(r#"{{ "f": "{decl}" }}"#));
        assert!(matches!(schema_from_json("user", &v), Err(SchemaError::UnexpectedSize(_))));
    }
}

#[test]
fn rejects_timestamp() {
    let v = parsed(r#"{ "t": "TimeStamp" }"#);
    assert!(matches!(schema_from_json("user", &v), Err(SchemaError::UnknownType(_))));
}

#[test]
fn offsets_account_for_prefix() {
    let v = parsed(r#"{ "id": "Int", "name": "String 50", "flag": "Bool" }"#);

    let s = schema_from_json("user", &v).unwrap();

    assert_eq!(by_name(&s, "flag").offset, 0);
    assert_eq!(by_name(&s, "id").offset, 1);
    assert_eq!(by_name(&s, "name").offset, 1 + 8);
    assert_eq!(by_name(&s, "name").width(), NULL_FLAG_SIZE + LEN_PREFIX_SIZE + 50);
}

// -- more of schemas ---------------------------------------------------------------------

#[test]
fn the_mark_for_nullable_fields_stands_behind_the_type_or_the_length() {
    for decl in ["String 64?", "String? 64", "string?  64", "\tSTRING\u{3000}+064? "] {
        let (ty, size, nullable) = DataType::parse(decl).unwrap();
        assert_eq!((ty, size, nullable), (DataType::String, 64, true), "{decl}");
    }
    assert_eq!(DataType::parse("blob 4294967295").unwrap(), (DataType::Blob, u32::MAX, false));
    assert_eq!(DataType::parse("iNt").unwrap(), (DataType::Int, 8, false));
    assert_eq!(DataType::parse("float?").unwrap(), (DataType::Float, 8, true));
    assert_eq!(DataType::parse("Bool").unwrap(), (DataType::Bool, 1, false));
}

#[test]
fn lengths_that_are_none_are_refused() {
    for decl in
        ["Blob 4294967296", "Blob -1", "Blob +", "Blob ?", "Blob 1x", "Blob 1 2", "Blob 00", "Blob 1.0",
        "String? 64?", "Blob 1??"]
    {
        let e = DataType::parse(decl).unwrap_err();
        assert!(matches!(&e, SchemaError::InvalidSize(t) if t == decl), "{decl}");
        assert_eq!(e.message(), format!("invalid field length: {decl}"));
    }
}

#[test]
fn fields_fit_up_to_the_first_fault() {
    for (text, fit) in [
        (r#"{ "a": "Int" }"#, true),
        (r#"{ "a": "Blob 4294967290" }"#, true),
        (r#"{ "a": "Blob 4294967291" }"#, false),
        (r#"{ "a": "Blob 4294967290", "b": "Bool" }"#, false),
        (r#"{ "a": "Blob 4294967290", "b": { "c": "Bool" } }"#, false),
        (r#"{ "a": "Nothing", "b": "Blob 4294967295" }"#, true),
        (r#"{ "a": 7, "b": "Blob 4294967295" }"#, true),
        (r#"{ "a": { "b": "Blob" }, "c": "Blob 4294967295" }"#, true),
        ("[]", true),
    ] {
        assert_eq!(fields_fit(&parsed(text)), fit, "{text}");
    }
    let v = parsed(r#"{ "a": "Nothing", "b": "Blob 4294967295" }"#);
    assert!(matches!(schema_from_json("t", &v), Err(SchemaError::UnknownType(_))));
}

#[test]
fn the_messages_of_schema_errors_are_exact() {
    let fail = |text: &str| schema_from_json("user", &parsed(text)).unwrap_err().message();
    assert_eq!(fail("[]"), "schema must be a JSON object");
    assert_eq!(fail(r#"{ "a": 7 }"#), "schema must be a JSON object");
    assert_eq!(fail(r#"{ "a": "" }"#), "unknown field type: ");
    assert_eq!(fail(r#"{ "a": "Int?? 5" }"#), "unknown field type: Int?? 5");
    assert_eq!(fail(r#"{ "a": "Blob" }"#), "String/Blob need a length: Blob");
    assert_eq!(fail(r#"{ "a": "Int 5" }"#), "fixed-size type takes no length: Int 5");
}

#[test]
fn names_fill_their_field_and_no_more() {
    let name = "n".repeat(NAME_LEN);
    let v = Json::Object(vec![(name.clone(), Json::String("Int".to_string()))]);
    let s = schema_from_json("u", &v).unwrap();
    assert_eq!(name_of(&s.fields[0]), name);
    assert_eq!(s.name[0..2], [b'u', 0]);
    assert_eq!(s.version, 0);

    // 64 characters, but 65 bytes.
    let long = format!("\u{e9}{}", "n".repeat(NAME_LEN - 1));
    let v = Json::Object(vec![(long.clone(), Json::String("Int".to_string()))]);
    let e = schema_from_json("u", &v).unwrap_err();
    assert_eq!(e.message(), format!("field name longer than 64 bytes: {long}"));

    let v = Json::Object(vec![]);
    assert!(matches!(schema_from_json(&long, &v), Err(SchemaError::NameTooLong(_))));
}

#[test]
fn nested_fields_follow_the_fields_around_them() {
    let v = parsed(r#"{ "a": "Int", "b": { "c": "Bool", "d": { "e": "Int?" } }, "f": "Blob 3" }"#);
    let s = schema_from_json("t", &v).unwrap();
    let laid: Vec<(String, u32)> = s.fields.iter().map(|f| (name_of(f), f.offset)).collect();
    let want = [("a", 0), ("b.c", 8), ("b.d.e", 9), ("f", 18)];
    assert_eq!(laid, want.map(|(name, at)| (name.to_string(), at)));
    assert!(s.fields.windows(2).all(|w| w[0].offset + w[0].width() == w[1].offset));
}
