use fuzzel_pass::listing::{
    get_line_indent, is_line_directory, parse_passwords, strip_ansi_line, strip_line,
};

const DIR: &str = "\u{1b}[01;34m";
const RESET: &str = "\u{1b}[0m";

fn dir(name: &str) -> String {
    format!("{}{}{}", DIR, name, RESET)
}

#[test]
fn scenario_directory_and_leaf() {
    let text = format!(
        "Password Store\n├── {}\n│   └── work.com\n└── Banking\n",
        dir("Email")
    );
    assert_eq!(parse_passwords(&text), vec!["Email/work.com", "Banking"]);
}

#[test]
fn scenario_both_directories() {
    let text = format!(
        "Password Store\n├── {}\n│   └── work.com\n└── {}\n",
        dir("Email"),
        dir("Banking")
    );
    assert_eq!(parse_passwords(&text), vec!["Email/work.com"]);
}

#[test]
fn uncolored_lines_are_all_leaves() {
    let text = "Password Store\n├── Email\n│   └── work.com\n└── Banking\n";
    assert_eq!(parse_passwords(text), vec!["Email", "Email/work.com", "Banking"]);
}

#[test]
fn one_path_per_non_directory_line() {
    let text = format!(
        "Password Store\n├── {}\n│   ├── a\n│   ├── {}\n│   │   ├── c\n│   │   └── d\n│   └── e\n└── f\n",
        dir("web"),
        dir("b")
    );
    let paths = parse_passwords(&text);
    assert_eq!(paths.len(), 5);
    assert_eq!(paths, vec!["web/a", "web/b/c", "web/b/d", "web/e", "f"]);
}

#[test]
fn path_parts_follow_depth() {
    let text = format!(
        "Password Store\n└── {}\n    └── {}\n        └── {}\n            └── leaf\n",
        dir("a"),
        dir("b"),
        dir("c")
    );
    let paths = parse_passwords(&text);
    assert_eq!(paths, vec!["a/b/c/leaf"]);
    assert_eq!(paths[0].split('/').count(), get_line_indent("            └── leaf") + 1);
}

#[test]
fn empty_and_header_only_listings() {
    assert!(parse_passwords("").is_empty());
    assert!(parse_passwords("Password Store\n").is_empty());
    assert!(parse_passwords("Password Store").is_empty());
}

#[test]
fn first_line_is_never_a_path() {
    assert_eq!(parse_passwords("only\nsecond"), vec!["second"]);
}

#[test]
fn shallower_line_cuts_the_stack() {
    let text = format!(
        "Header\n├── {}\n│   └── {}\n│       └── deep\n└── top\n",
        dir("x"),
        dir("y")
    );
    assert_eq!(parse_passwords(&text), vec!["x/y/deep", "top"]);
}

#[test]
fn empty_name_still_counts() {
    assert_eq!(parse_passwords("Header\n├── \n"), vec![""]);
}

#[test]
fn crlf_line_endings() {
    assert_eq!(parse_passwords("Header\r\n├── a\r\n└── b\r\n"), vec!["a", "b"]);
}

#[test]
fn indent_counts_spaces_and_bars() {
    assert_eq!(get_line_indent("├── a"), 0);
    assert_eq!(get_line_indent("│   └── a"), 1);
    assert_eq!(get_line_indent("│   │   ├── a"), 2);
    assert_eq!(get_line_indent("        └── a"), 2);
    assert_eq!(get_line_indent("a    b"), 0);
}

#[test]
fn indent_ignores_escape_sequences_and_nbsp() {
    assert_eq!(get_line_indent("│\u{a0}\u{a0} └── \u{1b}[01;34mx\u{1b}[0m"), 1);
    assert_eq!(get_line_indent("\u{1b}[0m│   └── x"), 1);
}

#[test]
fn directory_needs_both_sequences() {
    assert!(is_line_directory("├── \u{1b}[01;34mdir\u{1b}[0m"));
    assert!(!is_line_directory("├── \u{1b}[01;34mdir"));
    assert!(!is_line_directory("├── dir\u{1b}[0m"));
    assert!(!is_line_directory("├── \u{1b}[01;34mdir\u{1b}[00m"));
    assert!(!is_line_directory("├── dir"));
}

#[test]
fn strip_removes_all_three_sequences() {
    assert_eq!(strip_ansi_line("\u{1b}[01;34mdir\u{1b}[0m"), "dir");
    assert_eq!(strip_ansi_line("a\u{1b}[00mb"), "ab");
    assert_eq!(strip_ansi_line("x\u{a0}y"), "x y");
    assert_eq!(strip_ansi_line("plain"), "plain");
    assert_eq!(strip_ansi_line(""), "");
}

#[test]
fn strip_twice_is_strip_once() {
    for line in [
        "├── \u{1b}[01;34mdir\u{1b}[0m",
        "│\u{a0}\u{a0} └── a\u{1b}[00m",
        "plain text",
        "\u{1b}[31mred\u{1b}[0m",
    ] {
        let once = strip_ansi_line(line);
        assert_eq!(strip_ansi_line(&once), once);
    }
}

#[test]
fn strip_removes_a_sequence_formed_by_stripping() {
    let once = strip_ansi_line("\u{1b}[0\u{1b}[0mm");
    assert_eq!(once, "");
    assert_eq!(strip_ansi_line(&once), once);
    assert_eq!(strip_ansi_line("a\u{1b}[01;3\u{1b}[00m4mb"), "ab");
}

#[test]
fn depth_of_a_line_and_its_stripped_form_agree() {
    let line = "\u{1b}[0\u{1b}[0mm    x";
    assert_eq!(get_line_indent(line), 1);
    assert_eq!(get_line_indent(&strip_ansi_line(line)), 1);
}

#[test]
fn strip_line_twice_is_strip_line_once() {
    for line in ["\u{1b}[0\u{1b}[0mm", "│   └── \u{1b}[01;34mwork\u{1b}[0m", " ├─ \u{a0}x"] {
        let once = strip_line(line);
        assert_eq!(strip_line(&once), once);
    }
}

#[test]
fn strip_line_drops_tree_drawing() {
    assert_eq!(strip_line("│   └── \u{1b}[01;34mwork\u{1b}[0m"), "work");
    assert_eq!(strip_line("├──\u{a0}name with spaces "), "name with spaces ");
    assert_eq!(strip_line("\t└─ x│y"), "x│y");
}
