use fuzzel_pass::fields::{entry_fields, parse_fields, Field, FieldError};

fn kv(fields: &[Field]) -> Vec<(String, String, bool)> {
    fields
        .iter()
        .map(|f| (f.key.clone(), f.value.clone(), f.multiline))
        .collect()
}

fn plain(k: &str, v: &str) -> (String, String, bool) {
    (k.to_string(), v.to_string(), false)
}

fn multi(k: &str, v: &str) -> (String, String, bool) {
    (k.to_string(), v.to_string(), true)
}

#[test]
fn scenario_single_line_fields() {
    let fields = entry_fields("secret123\nusername: alice\nurl: example.com\n", "site").unwrap();
    assert_eq!(
        kv(&fields),
        vec![plain("password", "secret123"), plain("username", "alice"), plain("url", "example.com")]
    );
}

#[test]
fn scenario_multiline_field() {
    let fields = entry_fields("secret123\nnotes:\n---\nline one\nline two\n---\n", "site").unwrap();
    assert_eq!(
        kv(&fields),
        vec![plain("password", "secret123"), multi("notes", "line one\nline two")]
    );
}

#[test]
fn first_line_is_not_scanned() {
    let fields = parse_fields("pass:word\nuser: bob\n", "id").unwrap();
    assert_eq!(kv(&fields), vec![plain("user", "bob")]);
    let all = entry_fields("pass:word\nuser: bob\n", "id").unwrap();
    assert_eq!(kv(&all), vec![plain("password", "pass:word"), plain("user", "bob")]);
}

#[test]
fn lines_without_colon_are_ignored() {
    let fields = parse_fields("pw\njust text\n\nkey: v\n", "id").unwrap();
    assert_eq!(kv(&fields), vec![plain("key", "v")]);
}

#[test]
fn key_is_kept_and_value_trimmed() {
    let fields = parse_fields("pw\n user :  a: b  \n", "id").unwrap();
    assert_eq!(kv(&fields), vec![plain(" user ", "a: b")]);
}

#[test]
fn duplicate_keys_coexist() {
    let fields = parse_fields("pw\na: 1\na: 2\n", "id").unwrap();
    assert_eq!(kv(&fields), vec![plain("a", "1"), plain("a", "2")]);
}

#[test]
fn block_round_trip() {
    let fields = parse_fields("pw\nnotes:\nEND\none\n  two\nthree\nEND\nafter: x\n", "id").unwrap();
    assert_eq!(kv(&fields), vec![multi("notes", "one\n  two\nthree"), plain("after", "x")]);
}

#[test]
fn block_with_no_content() {
    let fields = parse_fields("pw\nnotes:\n---\n---\n", "id").unwrap();
    assert_eq!(kv(&fields), vec![multi("notes", "")]);
}

#[test]
fn block_marker_waits_for_a_non_blank_line() {
    let fields = parse_fields("pw\nnotes:\n\n   \n  ==  \na\n\nb: c\n==\n", "id").unwrap();
    assert_eq!(kv(&fields), vec![multi("notes", "a\n\nb: c")]);
}

#[test]
fn block_lines_lose_trailing_whitespace_only() {
    let fields = parse_fields("pw\nk:\n#\n  x  \n#\n", "id").unwrap();
    assert_eq!(kv(&fields), vec![multi("k", "  x")]);
}

#[test]
fn block_keeps_a_final_blank_line() {
    let fields = parse_fields("pw\nk:\n#\na\n\n#\n", "id").unwrap();
    assert_eq!(kv(&fields), vec![multi("k", "a\n")]);
}

#[test]
fn unterminated_block_is_an_error() {
    match parse_fields("pw\nrecovery:\n--\ncode1\ncode2 \n", "bank") {
        Err(FieldError::MultilineUnterminated { password_id, partial_field }) => {
            assert_eq!(password_id, "bank");
            assert_eq!(partial_field.key, "recovery");
            assert_eq!(partial_field.value, "code1\ncode2\n");
            assert!(partial_field.multiline);
        }
        other => panic!("unexpected: {:?}", other),
    }
}

#[test]
fn block_without_marker_is_unterminated() {
    match parse_fields("pw\nnotes:\n", "e") {
        Err(FieldError::MultilineUnterminated { partial_field, .. }) => {
            assert_eq!(partial_field.key, "notes");
            assert_eq!(partial_field.value, "");
        }
        other => panic!("unexpected: {:?}", other),
    }
}

#[test]
fn entry_with_unterminated_block_is_an_error() {
    assert!(matches!(
        entry_fields("pw\nnotes:\nX\nabc\n", "e"),
        Err(FieldError::MultilineUnterminated { .. })
    ));
}

#[test]
fn empty_body_has_no_password() {
    match entry_fields("", "empty") {
        Err(FieldError::MissingPassword { password_id }) => assert_eq!(password_id, "empty"),
        other => panic!("unexpected: {:?}", other),
    }
    assert!(parse_fields("", "empty").unwrap().is_empty());
}

#[test]
fn password_only_body() {
    let fields = entry_fields("hunter2", "e").unwrap();
    assert_eq!(kv(&fields), vec![plain("password", "hunter2")]);
}
