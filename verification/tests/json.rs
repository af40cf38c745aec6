use socketing::json::{json_bool_object, json_values_equal, latin1_text, parse_json_array, parse_json_object};

#[test]
fn bool_object_is_written_compactly() {
    assert_eq!(json_bool_object("success", true), "{\"success\":true}");
    assert_eq!(json_bool_object("success", false), "{\"success\":false}");
}

#[test]
fn object_fields_come_in_key_order() {
    let o = parse_json_object("{ \"username\": \"bob\", \"age\": 7, \"tags\": [1, 2] }").unwrap();
    assert_eq!(o.text, "{\"age\":7,\"tags\":[1,2],\"username\":\"bob\"}");
    let keys: Vec<&str> = o.fields.iter().map(|f| f.key.as_str()).collect();
    assert_eq!(keys, vec!["age", "tags", "username"]);
    assert_eq!(o.fields[0].text, "7");
    assert_eq!(o.fields[0].str_value, None);
    assert_eq!(o.fields[2].text, "\"bob\"");
    assert_eq!(o.fields[2].str_value, Some("bob".to_string()));
}

#[test]
fn repeated_key_keeps_last_value() {
    let o = parse_json_object("{\"k\":1,\"k\":2}").unwrap();
    assert_eq!(o.fields.len(), 1);
    assert_eq!(o.fields[0].text, "2");
}

#[test]
fn non_objects_are_refused() {
    assert!(parse_json_object("[1,2]").is_none());
    assert!(parse_json_object("null").is_none());
    assert!(parse_json_object("").is_none());
    assert!(parse_json_object("{\"a\":").is_none());
}

#[test]
fn array_items_are_rewritten_compactly() {
    let items = parse_json_array("[ {\"a\" : 1}, \"x\", 2.5 ]").unwrap();
    assert_eq!(items, vec!["{\"a\":1}".to_string(), "\"x\"".to_string(), "2.5".to_string()]);
    assert!(parse_json_array("{}").is_none());
}

#[test]
fn bytes_read_as_latin1() {
    assert_eq!(latin1_text(&[0x41, 0xE9, 0x20, 0xFF]), "A\u{e9} \u{ff}");
    assert_eq!(latin1_text(&[]), "");
}

#[test]
fn values_compare_as_json() {
    assert!(json_values_equal("-0.0", "0.0"));
    assert!(json_values_equal("{\"a\":1,\"b\":2}", "{\"b\":2,\"a\":1}"));
    assert!(!json_values_equal("1", "1.0"));
    assert!(!json_values_equal("\"1\"", "1"));
    assert!(!json_values_equal("oops", "oops"));
}
