use rami::codegen::{ctype, field_lines, generate_header, CodegenError};
use rami::fieldmap::{fm_from_entries, FieldMap};
use rami::merge::Signature;
use rami::schema::FieldSchema;

fn schema(attrs: &[(&str, &str)]) -> FieldSchema {
    let mut s = FieldSchema::new();
    for (n, v) in attrs {
        s.push_attr(n.to_string(), v.to_string());
    }
    s
}

fn fmap(fields: &[(&str, &[(&str, &str)])]) -> FieldMap {
    let mut entries: Vec<(String, FieldSchema)> = Vec::new();
    for (k, attrs) in fields {
        entries.push((k.to_string(), schema(attrs)));
    }
    fm_from_entries(entries)
}

#[test]
fn ctype_maps_the_three_supported_tags() {
    assert_eq!(ctype("number").unwrap(), "double");
    assert_eq!(ctype("integer").unwrap(), "long");
    assert_eq!(ctype("string").unwrap(), "const char*");
}

#[test]
fn ctype_rejects_any_other_tag() {
    match ctype("boolean") {
        Err(CodegenError::UnsupportedFieldType { type_tag }) => {
            assert_eq!(type_tag, "boolean");
        }
        other => panic!("expected an unsupported-type error, got {:?}", other.is_ok()),
    }
    assert!(ctype("").is_err());
    assert!(ctype("Number").is_err());
}

#[test]
fn config_struct_for_dotted_number_key() {
    let config = fmap(&[("sensor.range", &[("type", "number")])]);
    let header = generate_header(&config, &Vec::new()).unwrap();
    assert_eq!(
        header,
        "typedef struct Config_ {\n  double sensor_range;\n} __attribute__((__packed__)) Config;\n"
    );
}

#[test]
fn field_count_matches_key_count() {
    let config = fmap(&[
        ("a", &[("type", "number")]),
        ("b.c", &[("type", "integer")]),
        ("d", &[("type", "string")]),
    ]);
    let lines = field_lines(&config).unwrap();
    assert_eq!(lines.len(), 3);
    let empty = fmap(&[]);
    assert_eq!(field_lines(&empty).unwrap().len(), 0);
}

#[test]
fn full_header_for_one_signature() {
    let config = fmap(&[("verbose", &[("type", "integer")])]);
    let sig = Signature {
        args: Some(fmap(&[("range", &[("type", "integer")])])),
        returns: Some(fmap(&[("ok", &[("type", "integer")])])),
    };
    let merged = vec![("scan".to_string(), sig)];
    let header = generate_header(&config, &merged).unwrap();
    let expected = "typedef struct Config_ {\n  long verbose;\n} __attribute__((__packed__)) Config;\n\
        typedef struct scan_args_ {\n  long range;\n} __attribute__((__packed__)) scan_args;\n\
        typedef struct scan_returns_ {\n  long ok;\n} __attribute__((__packed__)) scan_returns;\n\
        scan_returns* scan(scan_args* args, Config* conf);\n";
    assert_eq!(header, expected);
}

#[test]
fn missing_type_tag_is_fatal() {
    let config = fmap(&[("x", &[("min", "0")])]);
    match generate_header(&config, &Vec::new()) {
        Err(CodegenError::MissingFieldType { key }) => assert_eq!(key, "x"),
        _ => panic!("expected a missing-type error"),
    }
}

#[test]
fn unsupported_tag_in_signature_is_fatal() {
    let config = fmap(&[]);
    let sig = Signature {
        args: Some(fmap(&[("flag", &[("type", "boolean")])])),
        returns: None,
    };
    let merged = vec![("scan".to_string(), sig)];
    match generate_header(&config, &merged) {
        Err(CodegenError::UnsupportedFieldType { type_tag }) => {
            assert_eq!(type_tag, "boolean");
        }
        _ => panic!("expected an unsupported-type error"),
    }
}

#[test]
fn absent_mappings_emit_empty_structs() {
    let config = fmap(&[]);
    let sig = Signature { args: None, returns: None };
    let merged = vec![("idle".to_string(), sig)];
    let header = generate_header(&config, &merged).unwrap();
    let expected = "typedef struct Config_ {\n} __attribute__((__packed__)) Config;\n\
        typedef struct idle_args_ {\n} __attribute__((__packed__)) idle_args;\n\
        typedef struct idle_returns_ {\n} __attribute__((__packed__)) idle_returns;\n\
        idle_returns* idle(idle_args* args, Config* conf);\n";
    assert_eq!(header, expected);
}
