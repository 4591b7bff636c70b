use defaults_diff::command::{
    format_array_elements, format_dict_pairs, format_dict_value, generate_command,
    generate_write_command, has_nested_structure,
};
use defaults_diff::diff::Change;
use defaults_diff::text::escape_string;
use defaults_diff::value::{RealNum, Value};

fn real_value(x: f64) -> Value {
    Value::Real(RealNum { bits: x.to_bits(), text: format!("{}", x) })
}

fn text(s: &str) -> Value {
    Value::Text(s.to_string())
}

// --- escape_string ---

#[test]
fn test_escape_backslash() {
    assert_eq!(escape_string(r"a\b"), r"a\\b");
}

#[test]
fn test_escape_double_quote() {
    assert_eq!(escape_string(r#"say "hello""#), r#"say \"hello\""#);
}

#[test]
fn test_escape_dollar() {
    assert_eq!(escape_string("$HOME"), "\\$HOME");
}

#[test]
fn test_escape_backtick() {
    assert_eq!(escape_string("`cmd`"), "\\`cmd\\`");
}

#[test]
fn test_escape_combined() {
    assert_eq!(escape_string(r#"\$"`"#), r#"\\\$\"\`"#);
}

#[test]
fn escape_leaves_plain_and_unicode_text() {
    assert_eq!(escape_string(""), "");
    assert_eq!(escape_string("héllo wörld ✓"), "héllo wörld ✓");
}

// --- generate_command ---

#[test]
fn test_generate_command_added_bool() {
    let change = Change::Added {
        domain: "com.example".to_string(),
        key: "enabled".to_string(),
        value: Value::Boolean(true),
    };
    assert_eq!(
        generate_command(&change),
        r#"defaults write "com.example" "enabled" -bool true"#
    );
}

#[test]
fn test_generate_command_added_string() {
    let change = Change::Added {
        domain: "com.example".to_string(),
        key: "name".to_string(),
        value: text("hello"),
    };
    assert_eq!(
        generate_command(&change),
        r#"defaults write "com.example" "name" -string "hello""#
    );
}

#[test]
fn test_generate_command_added_int() {
    let change = Change::Added {
        domain: "com.example".to_string(),
        key: "count".to_string(),
        value: Value::Integer(42),
    };
    assert_eq!(
        generate_command(&change),
        r#"defaults write "com.example" "count" -int 42"#
    );
}

#[test]
fn test_generate_command_modified() {
    let change = Change::Modified {
        domain: "com.example".to_string(),
        key: "flag".to_string(),
        old_value: Value::Boolean(false),
        new_value: Value::Boolean(true),
    };
    assert_eq!(
        generate_command(&change),
        r#"defaults write "com.example" "flag" -bool true"#
    );
}

#[test]
fn test_generate_command_removed() {
    let change = Change::Removed {
        domain: "com.example".to_string(),
        key: "old_key".to_string(),
        old_value: Value::Boolean(false),
    };
    assert_eq!(
        generate_command(&change),
        r#"defaults delete "com.example" "old_key""#
    );
}

#[test]
fn text_value_with_dollar_and_quote_is_escaped() {
    let change = Change::Added {
        domain: "com.example".to_string(),
        key: "path".to_string(),
        value: text("$HOME/\"x\""),
    };
    assert_eq!(
        generate_command(&change),
        r#"defaults write "com.example" "path" -string "\$HOME/\"x\"""#
    );
}

#[test]
fn domain_and_key_are_escaped_in_delete_and_write() {
    let removed = Change::Removed {
        domain: "com.$x".to_string(),
        key: "a\"b".to_string(),
        old_value: Value::Integer(1),
    };
    assert_eq!(generate_command(&removed), r#"defaults delete "com.\$x" "a\"b""#);
    assert_eq!(
        generate_write_command("d`", "k\\", &Value::Boolean(false)),
        r#"defaults write "d\`" "k\\" -bool false"#
    );
}

#[test]
fn write_negative_and_extreme_integers() {
    assert_eq!(
        generate_write_command("d", "k", &Value::Integer(-7)),
        r#"defaults write "d" "k" -int -7"#
    );
    assert_eq!(
        generate_write_command("d", "k", &Value::Integer(i64::MIN)),
        r#"defaults write "d" "k" -int -9223372036854775808"#
    );
    assert_eq!(
        generate_write_command("d", "k", &Value::Integer(i64::MAX)),
        r#"defaults write "d" "k" -int 9223372036854775807"#
    );
    assert_eq!(
        generate_write_command("d", "k", &Value::Integer(0)),
        r#"defaults write "d" "k" -int 0"#
    );
}

#[test]
fn write_real_binary_date_and_reference() {
    assert_eq!(
        generate_write_command("d", "k", &real_value(2.5)),
        r#"defaults write "d" "k" -float 2.5"#
    );
    assert_eq!(
        generate_write_command("d", "k", &Value::Binary(vec![0x00, 0x0f, 0xab, 0xff])),
        r#"defaults write "d" "k" -data 000fabff"#
    );
    assert_eq!(
        generate_write_command("d", "k", &Value::Binary(vec![])),
        r#"defaults write "d" "k" -data "#
    );
    assert_eq!(
        generate_write_command("d", "k", &Value::Timestamp("2024-01-02T03:04:05Z".to_string())),
        r#"defaults write "d" "k" -date "2024-01-02T03:04:05Z""#
    );
    assert_eq!(
        generate_write_command("d", "k", &Value::Reference(17)),
        r#"defaults write "d" "k" -int 17 # UID type stored as integer"#
    );
}

#[test]
fn write_array_drops_unsupported_elements() {
    let arr = Value::Array(vec![
        text("a"),
        Value::Binary(vec![1]),
        Value::Integer(2),
        Value::Array(vec![]),
        Value::Boolean(true),
    ]);
    assert_eq!(
        generate_write_command("d", "k", &arr),
        r#"defaults write "d" "k" -array -string "a" -int 2 -bool true"#
    );
    assert_eq!(
        generate_write_command("d", "k", &Value::Array(vec![])),
        r#"defaults write "d" "k" -array "#
    );
}

#[test]
fn write_flat_and_nested_dictionaries() {
    let flat = Value::Dictionary(vec![
        ("b".to_string(), Value::Integer(1)),
        ("a".to_string(), text("x")),
        ("t".to_string(), Value::Timestamp("2024-01-02T03:04:05Z".to_string())),
    ]);
    assert_eq!(
        generate_write_command("d", "k", &flat),
        r#"defaults write "d" "k" -dict "b" -int 1 "a" -string "x""#
    );
    let nested = Value::Dictionary(vec![
        ("a".to_string(), Value::Integer(1)),
        ("n".to_string(), Value::Dictionary(vec![])),
    ]);
    assert_eq!(
        generate_write_command("d$", "k", &nested),
        r#"# Nested dictionary not supported by defaults command: d\$ k"#
    );
}

#[test]
fn write_unsupported_value_gives_comment() {
    assert_eq!(
        generate_write_command("d", "my\"key", &Value::Unsupported),
        r#"# Unsupported type for key: my\"key"#
    );
}

#[test]
fn scalar_literal_matches_in_array_and_at_top_level() {
    let values = vec![Value::Boolean(false), Value::Integer(-3), real_value(0.5), text("q\"")];
    let tops: Vec<String> = values
        .iter()
        .map(|v| {
            generate_write_command("d", "k", v)
                .strip_prefix(r#"defaults write "d" "k" "#)
                .unwrap()
                .to_string()
        })
        .collect();
    assert_eq!(format_array_elements(&values), tops.join(" "));
    assert_eq!(
        format_array_elements(&values),
        r#"-bool false -int -3 -float 0.5 -string "q\"""#
    );
}

// --- format_array_elements ---

#[test]
fn test_format_array_string() {
    let arr = vec![text("hello")];
    assert_eq!(format_array_elements(&arr), r#"-string "hello""#);
}

#[test]
fn test_format_array_int() {
    let arr = vec![Value::Integer(10)];
    assert_eq!(format_array_elements(&arr), "-int 10");
}

#[test]
fn test_format_array_float() {
    let arr = vec![real_value(3.14)];
    assert_eq!(format_array_elements(&arr), "-float 3.14");
}

#[test]
fn test_format_array_bool() {
    let arr = vec![Value::Boolean(false)];
    assert_eq!(format_array_elements(&arr), "-bool false");
}

#[test]
fn test_format_array_mixed() {
    let arr = vec![text("a"), Value::Integer(1)];
    assert_eq!(format_array_elements(&arr), r#"-string "a" -int 1"#);
}

// --- format_dict_pairs ---

#[test]
fn test_format_dict_pairs_basic() {
    let dict = vec![("key1".to_string(), Value::Boolean(true))];
    let result = format_dict_pairs(&dict);
    assert_eq!(result, r#""key1" -bool true"#);
}

#[test]
fn test_format_dict_pairs_string_value() {
    let dict = vec![("name".to_string(), text("val"))];
    let result = format_dict_pairs(&dict);
    assert_eq!(result, r#""name" -string "val""#);
}

#[test]
fn test_format_dict_pairs_int_value() {
    let dict = vec![("num".to_string(), Value::Integer(7))];
    let result = format_dict_pairs(&dict);
    assert_eq!(result, r#""num" -int 7"#);
}

#[test]
fn format_dict_value_kinds() {
    assert_eq!(format_dict_value("k", &real_value(1.5)), Some(r#""k" -float 1.5"#.to_string()));
    assert_eq!(format_dict_value("k", &Value::Binary(vec![0x10])), Some(r#""k" -data 10"#.to_string()));
    assert_eq!(format_dict_value("k", &Value::Reference(1)), None);
    assert_eq!(format_dict_value("k", &Value::Unsupported), None);
}

// --- has_nested_structure ---

#[test]
fn test_has_nested_structure_false() {
    let dict = vec![
        ("a".to_string(), Value::Boolean(true)),
        ("b".to_string(), Value::Integer(1)),
    ];
    assert!(!has_nested_structure(&dict));
}

#[test]
fn test_has_nested_structure_with_array() {
    let dict = vec![("arr".to_string(), Value::Array(vec![]))];
    assert!(has_nested_structure(&dict));
}

#[test]
fn test_has_nested_structure_with_dict() {
    let dict = vec![("nested".to_string(), Value::Dictionary(vec![]))];
    assert!(has_nested_structure(&dict));
}

#[test]
fn test_has_nested_structure_empty() {
    let dict: Vec<(String, Value)> = vec![];
    assert!(!has_nested_structure(&dict));
}
