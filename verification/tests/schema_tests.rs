use rami::schema::FieldSchema;

#[test]
fn get_attr_finds_the_first_match() {
    let mut s = FieldSchema::new();
    s.push_attr("type".to_string(), "integer".to_string());
    s.push_attr("min".to_string(), "0".to_string());
    assert_eq!(s.get_attr(&"type".to_string()), Some("integer".to_string()));
    assert_eq!(s.get_attr(&"min".to_string()), Some("0".to_string()));
    assert_eq!(s.get_attr(&"max".to_string()), None);
}

#[test]
fn a_new_schema_has_no_attributes() {
    let s = FieldSchema::new();
    assert!(s.attrs.is_empty());
    assert_eq!(s.get_attr(&"type".to_string()), None);
}
