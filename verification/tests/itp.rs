use aurora_tlk_explorer::itp::{ItpError, ItpFile, JsonNumber, JsonValue};

fn s(text: &str) -> JsonValue {
    JsonValue::String(text.to_string())
}

fn n(value: u64) -> JsonValue {
    JsonValue::Number(JsonNumber::PosInt(value))
}

fn obj(members: Vec<(&str, JsonValue)>) -> JsonValue {
    JsonValue::Object(members.into_iter().map(|(k, v)| (k.to_string(), v)).collect())
}

fn palette_with_field(kind: &str, value: JsonValue) -> ItpFile {
    ItpFile {
        root: obj(vec![
            ("__data_type", s("ITP ")),
            (
                "MAIN",
                obj(vec![
                    ("type", s("list")),
                    (
                        "value",
                        JsonValue::Array(vec![obj(vec![
                            ("__struct_id", n(1)),
                            ("ID", obj(vec![("type", s(kind)), ("value", value)])),
                        ])]),
                    ),
                ]),
            ),
        ]),
    }
}

#[test]
fn validates_required_structure_and_ranges() {
    let missing_main = ItpFile { root: obj(vec![("__data_type", s("ITP "))]) };
    assert!(missing_main.validate().is_err());
    let invalid_byte = palette_with_field("byte", n(256));
    assert!(invalid_byte.validate().is_err());
}

#[test]
fn missing_main_and_wrong_type_have_their_own_errors() {
    let missing_main = ItpFile { root: obj(vec![("__data_type", s("ITP "))]) };
    assert_eq!(missing_main.validate(), Err(ItpError::NoMainTree));
    let wrong_type = ItpFile { root: obj(vec![("__data_type", s("UTI "))]) };
    assert_eq!(wrong_type.validate(), Err(ItpError::NotItp));
    let not_object = ItpFile { root: JsonValue::Null };
    assert_eq!(not_object.validate(), Err(ItpError::NotItp));
}

#[test]
fn field_ranges_are_checked_at_their_limits() {
    assert_eq!(palette_with_field("byte", n(255)).validate(), Ok(()));
    assert_eq!(palette_with_field("byte", n(256)).validate(), Err(ItpError::ByteRange));
    assert_eq!(palette_with_field("word", n(65535)).validate(), Ok(()));
    assert_eq!(palette_with_field("word", n(65536)).validate(), Err(ItpError::WordRange));
    assert_eq!(palette_with_field("dword", n(4294967295)).validate(), Ok(()));
    assert_eq!(palette_with_field("dword", n(4294967296)).validate(), Err(ItpError::DwordRange));
    let minus = |v: i64| JsonValue::Number(JsonNumber::NegInt(v));
    assert_eq!(palette_with_field("char", minus(-128)).validate(), Ok(()));
    assert_eq!(palette_with_field("char", minus(-129)).validate(), Err(ItpError::CharRange));
    assert_eq!(palette_with_field("short", n(32768)).validate(), Err(ItpError::ShortRange));
    assert_eq!(palette_with_field("int", minus(-2147483649)).validate(), Err(ItpError::IntRange));
    assert_eq!(palette_with_field("list", n(1)).validate(), Err(ItpError::ListNotArray));
    assert_eq!(palette_with_field("resref", n(1)).validate(), Err(ItpError::TextNotString));
    assert_eq!(palette_with_field("cexostring", s("text")).validate(), Ok(()));
}

#[test]
fn deep_trees_are_rejected() {
    let mut value = JsonValue::Null;
    for _ in 0..200 {
        value = JsonValue::Array(vec![value]);
    }
    let palette = ItpFile {
        root: obj(vec![
            ("__data_type", s("ITP ")),
            ("MAIN", obj(vec![("type", s("list")), ("value", JsonValue::Array(vec![value]))])),
        ]),
    };
    assert_eq!(palette.validate(), Err(ItpError::TooDeep));
}

#[test]
fn duplicate_gives_an_equal_palette() {
    let palette = palette_with_field("byte", n(3));
    assert_eq!(palette.duplicate(), palette);
}
