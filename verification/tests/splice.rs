use nizm::splice::{json_find_key_open_brace, json_find_matching_brace, json_find_object_close};

fn v(s: &str) -> Vec<char> {
    s.chars().collect()
}

fn path(keys: &[&str]) -> Vec<String> {
    keys.iter().map(|k| k.to_string()).collect()
}

#[test]
fn braces_in_strings_do_not_count() {
    assert_eq!(json_find_matching_brace(&v("{\"a\": \"}\\\"}\"}x"), 0), Ok(12));
    assert_eq!(json_find_matching_brace(&v("{{}{}}"), 0), Ok(5));
    assert_eq!(json_find_matching_brace(&v("{{}"), 0), Err("unmatched brace in JSON".to_string()));
}

#[test]
fn keys_are_found_by_their_objects() {
    let text = v("[\"k\", {\"k\" :\n {}}]");
    assert_eq!(json_find_key_open_brace(&text, 0, "k"), Ok(14));
    assert_eq!(
        json_find_key_open_brace(&text, 0, "l"),
        Err("key \"l\" not found in JSON".to_string())
    );
}

#[test]
fn objects_close_at_the_end_of_their_path() {
    let text = v("{\"a\": {\"b\": {}}, \"ä\": 1}");
    assert_eq!(json_find_object_close(&text, &path(&[])), Ok(23));
    assert_eq!(json_find_object_close(&text, &path(&["a"])), Ok(14));
    assert_eq!(json_find_object_close(&text, &path(&["a", "b"])), Ok(13));
    assert_eq!(json_find_object_close(&v("1"), &path(&[])), Err("no root JSON object".to_string()));
    assert_eq!(
        json_find_object_close(&v("1"), &path(&["a"])),
        Err("key \"a\" not found in JSON".to_string())
    );
}

#[test]
fn keys_inside_other_objects_do_not_count() {
    let text = v("{\"a\":{\"nizm\":{}},\"nizm\":{}}");
    assert_eq!(json_find_object_close(&text, &path(&["nizm"])), Ok(25));
    assert_eq!(json_find_key_open_brace(&text, 0, "nizm"), Ok(24));
    assert_eq!(json_find_object_close(&text, &path(&["a", "nizm"])), Ok(14));
    let text = v("{\"nizm\":{},\"x\":{\"hooks\":{}}}");
    assert_eq!(
        json_find_object_close(&text, &path(&["nizm", "hooks"])),
        Err("key \"hooks\" not found in JSON".to_string())
    );
    let text = v("{\"a\":\"\\\"nizm\\\":{}\",\"b\":\"nizm\",\"nizm\" : {}}");
    assert_eq!(json_find_object_close(&text, &path(&["nizm"])), Ok(40));
}
