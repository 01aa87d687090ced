use fuzzel_pass::fields::{entry_fields, Field};
use fuzzel_pass::select::{
    deliver, field_keys, find_field, parse_arguments, picker_choice, picker_input,
    resolve_selection, Arguments, ArgumentsOutcome, Delivery, SelectError,
};

fn field(k: &str, v: &str, multiline: bool) -> Field {
    Field { key: k.to_string(), value: v.to_string(), multiline }
}

fn args(a: &[&str]) -> Vec<String> {
    a.iter().map(|s| s.to_string()).collect()
}

#[test]
fn new_arguments_copy_to_clipboard() {
    let a = Arguments::new();
    assert!(!a.type_selection);
    assert!(a.password.is_none());
}

#[test]
fn arguments_without_flags() {
    match parse_arguments(&args(&[])) {
        ArgumentsOutcome::Run(a) => {
            assert!(!a.type_selection);
            assert!(a.password.is_none());
        }
        other => panic!("unexpected: {:?}", other),
    }
}

#[test]
fn type_flags() {
    for flag in ["-t", "--type"] {
        match parse_arguments(&args(&[flag])) {
            ArgumentsOutcome::Run(a) => assert!(a.type_selection),
            other => panic!("unexpected: {:?}", other),
        }
    }
}

#[test]
fn help_flags_stop() {
    assert!(matches!(parse_arguments(&args(&["-h"])), ArgumentsOutcome::Help));
    assert!(matches!(parse_arguments(&args(&["-t", "--help", "--bogus"])), ArgumentsOutcome::Help));
}

#[test]
fn unknown_flag_stops() {
    match parse_arguments(&args(&["-t", "--bogus", "-h"])) {
        ArgumentsOutcome::Unknown(a) => assert_eq!(a, "--bogus"),
        other => panic!("unexpected: {:?}", other),
    }
    assert!(matches!(parse_arguments(&args(&["-type"])), ArgumentsOutcome::Unknown(_)));
    assert!(matches!(parse_arguments(&args(&[""])), ArgumentsOutcome::Unknown(_)));
}

#[test]
fn entry_name_argument() {
    match parse_arguments(&args(&["web/mail", "-t"])) {
        ArgumentsOutcome::Run(a) => {
            assert!(a.type_selection);
            assert_eq!(a.password.as_deref(), Some("web/mail"));
        }
        other => panic!("unexpected: {:?}", other),
    }
    match parse_arguments(&args(&["a", "b"])) {
        ArgumentsOutcome::Unknown(a) => assert_eq!(a, "b"),
        other => panic!("unexpected: {:?}", other),
    }
}

#[test]
fn typing_a_multiline_value_is_refused() {
    match deliver(&field("notes", "a\nb", true), true) {
        Err(SelectError::MultilineNotTypeable { key }) => assert_eq!(key, "notes"),
        other => panic!("unexpected: {:?}", other),
    }
}

#[test]
fn multiline_value_goes_to_clipboard() {
    match deliver(&field("notes", "a\nb", true), false) {
        Ok(Delivery::Clipboard(v)) => assert_eq!(v, "a\nb"),
        other => panic!("unexpected: {:?}", other),
    }
}

#[test]
fn single_line_value_is_typed() {
    match deliver(&field("user", "alice", false), true) {
        Ok(Delivery::Type(v)) => assert_eq!(v, "alice"),
        other => panic!("unexpected: {:?}", other),
    }
}

#[test]
fn first_field_with_key_wins() {
    let fields = vec![field("a", "1", false), field("b", "2", false), field("a", "3", false)];
    assert_eq!(find_field(&fields, "a"), Some(0));
    assert_eq!(find_field(&fields, "b"), Some(1));
    assert_eq!(find_field(&fields, "c"), None);
    match resolve_selection(&fields, "a", false) {
        Ok(Delivery::Clipboard(v)) => assert_eq!(v, "1"),
        other => panic!("unexpected: {:?}", other),
    }
    assert!(matches!(resolve_selection(&fields, "zz", true), Err(SelectError::NoSuchField)));
}

#[test]
fn resolve_refuses_typing_block() {
    let fields = entry_fields("pw\nnotes:\n-\nx\n-\n", "e").unwrap();
    assert!(matches!(
        resolve_selection(&fields, "notes", true),
        Err(SelectError::MultilineNotTypeable { .. })
    ));
    match resolve_selection(&fields, "password", true) {
        Ok(Delivery::Type(v)) => assert_eq!(v, "pw"),
        other => panic!("unexpected: {:?}", other),
    }
}

#[test]
fn keys_in_order() {
    let fields = vec![field("password", "p", false), field("user", "u", false)];
    assert_eq!(field_keys(&fields), vec!["password", "user"]);
}

#[test]
fn picker_input_joins_by_newline() {
    assert_eq!(picker_input(&args(&["a", "b/c", "d"])), "a\nb/c\nd");
    assert_eq!(picker_input(&args(&["only"])), "only");
    assert_eq!(picker_input(&args(&[])), "");
}

#[test]
fn picker_choice_is_trimmed() {
    assert_eq!(picker_choice("  web/mail \n"), "web/mail");
    assert_eq!(picker_choice("\n"), "");
}
