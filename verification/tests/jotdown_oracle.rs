//! `parse_jotdown` against the Jotdown crate's own attribute parser.
use polka::attrs::parse_jotdown;

/// What Jotdown gives for the same text, trimmed and wrapped in braces
/// unless it starts with one.
fn jotdown_reference(input: &str) -> Vec<(String, String)> {
    let input = input.trim();
    if input.is_empty() {
        return Vec::new();
    }
    let wrapped = if input.starts_with('{') { input.to_string() } else { format!("{{{input}}}") };
    match jotdown::Attributes::try_from(wrapped.as_str()) {
        Ok(attrs) => attrs.unique_pairs().map(|(k, v)| (k.to_string(), v.to_string())).collect(),
        Err(_) => Vec::new(),
    }
}

fn assert_agrees(input: &str) {
    assert_eq!(parse_jotdown(input), jotdown_reference(input), "input: {input:?}");
}

#[test]
fn agrees_on_classes_and_ids() {
    for input in ["{.a}", ".a .b", "{#x}", "#x #y", "{.a #x .b}", "{ .a  .b }", "{.a}{.b}"] {
        assert_agrees(input);
    }
}

#[test]
fn agrees_on_key_values() {
    for input in [
        "{k=v}",
        "k=v",
        r#"{k="v w"}"#,
        r#"{k="a\"b"}"#,
        r#"{k="a\\b"}"#,
        "{k=v k=w}",
        "{a=1 b=2 a=3}",
        r#"{title="multi
line"}"#,
        "{data-x=1}",
        "{k=}",
    ] {
        assert_agrees(input);
    }
}

#[test]
fn agrees_on_comments_and_errors() {
    for input in [
        "{%c%}",
        "{% c % .a}",
        "{.a %c% #b}",
        "{",
        "}",
        "}{",
        "{.}",
        "{#}",
        "{{{.foo}}}",
        "something {.foo}",
        "hello",
        ".émoji-🎉",
        ".foo\0bar",
        ". #",
        "{.a\n.b}",
        "\t{.a}\n",
    ] {
        assert_agrees(input);
    }
}
