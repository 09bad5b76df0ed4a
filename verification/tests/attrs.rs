use polka::attrs::{find_closing_brace, parse_jotdown, split_attrs_remaining};

#[test]
fn attrs_empty() {
            assert_eq!(find_closing_brace(""), None);

            assert_eq!(split_attrs_remaining(""), ("", ""));
}

#[test]
fn no_brace() {
            assert_eq!(find_closing_brace("abc"), None);
}

#[test]
fn immediate_close() {
            assert_eq!(find_closing_brace("}"), Some(0));
}

#[test]
fn immediate_close_multiple() {
            assert_eq!(find_closing_brace("}}"), Some(0));
}

#[test]
fn immediate_close_whitespace() {
            assert_eq!(find_closing_brace("} "), Some(0));
}

#[test]
fn delayed_close() {
            assert_eq!(find_closing_brace(" }"), Some(1));
}

#[test]
fn tab_close() {
            assert_eq!(find_closing_brace(r"\t}"), Some(2));
}

#[test]
fn newline_close() {
            assert_eq!(find_closing_brace(r"\n}"), Some(2));
}

#[test]
fn close_after_content() {
            assert_eq!(find_closing_brace("key=val}"), Some(7));
}

#[test]
fn close_after_quoted_content() {
            assert_eq!(find_closing_brace(r#"key="val"}"#), Some(9));
}

#[test]
fn quoted_brace_ignored() {
            // `"}"` should not match — brace inside quotes
            assert_eq!(find_closing_brace(r#"key="}"}"#), Some(7));
}

#[test]
fn quoted_brace_ignored_multiple() {
            // `"}"` should not match — brace inside quotes
            assert_eq!(find_closing_brace(r#"key="}" "}"}"#), Some(11));
}

#[test]
fn escaped_quote_in_quoted_value() {
            // `"val\"}"` — escaped quote keeps us in-quote, real `}` is after close-quote
            assert_eq!(find_closing_brace(r#"key="v\""}"#), Some(9));
}

#[test]
fn backslash_outside_quote_not_special() {
            // `\` outside quotes is literal, `}` still matches
            assert_eq!(find_closing_brace(r"\}"), Some(1));
}

#[test]
fn multiple_quoted_segments() {
            assert_eq!(find_closing_brace(r#"a="x" b="y"}"#), Some(11));
}

#[test]
fn nested_open_brace_ignored() {
            // `{` inside content doesn't nest — first `}` wins
            assert_eq!(find_closing_brace("a{b}"), Some(3));
}

#[test]
fn unclosed_quote() {
            assert_eq!(find_closing_brace(r#""no close"#), None);
}

#[test]
fn unclosed_quote_with_brace() {
            // brace inside unclosed quote — never leaves quote mode
            assert_eq!(find_closing_brace(r#""}"#), None);
}

#[test]
fn brace_closing_multibyte() {
            assert_eq!(find_closing_brace("ñ=ü}"), Some(5));
}

#[test]
fn quoted_multibyte_brace_ignored() {
            // `}` inside quoted multibyte string — skipped
            assert_eq!(find_closing_brace(r#"κευ="λ}μ"}"#), Some(14));
}

#[test]
fn no_attr_block() {
            assert_eq!(split_attrs_remaining("text"), ("", "text"));
}

#[test]
fn unclosed_brace() {
            assert_eq!(split_attrs_remaining("{"), ("", "{"));
}

#[test]
fn lone_close_brace() {
            assert_eq!(split_attrs_remaining("}"), ("", "}"));
}

#[test]
fn single_empty_block() {
            assert_eq!(split_attrs_remaining("{}"), ("{}", ""));
}

#[test]
fn two_adjacent_blocks() {
            assert_eq!(split_attrs_remaining("{}{}"), ("{}{}", ""));
}

#[test]
fn two_blocks_space_separated() {
            assert_eq!(split_attrs_remaining("{} {}"), ("{}", " {}"));
}

#[test]
fn block_then_text() {
            assert_eq!(split_attrs_remaining("{} text"), ("{}", " text"));
}

#[test]
fn block_with_content() {
            assert_eq!(split_attrs_remaining("{a}rest"), ("{a}", "rest"));
}

#[test]
fn multiple_blocks_then_text() {
            assert_eq!(split_attrs_remaining("{a}{b} rest"), ("{a}{b}", " rest"));
}

#[test]
fn block_with_quoted_brace() {
            assert_eq!(split_attrs_remaining(r#"{key="}"} rest"#), (r#"{key="}"}"#, " rest"));
}

#[test]
fn block_with_multibyte_key() {
            assert_eq!(split_attrs_remaining("{café=1}rest"), ("{café=1}", "rest"));
}

#[test]
fn block_with_multibyte_value() {
            assert_eq!(split_attrs_remaining("{k=über}rest"), ("{k=über}", "rest"));
}

#[test]
fn block_with_quoted_multibyte_value() {
            assert_eq!(split_attrs_remaining(r#"{k="日本語"}"#), (r#"{k="日本語"}"#, ""));
}

#[test]
fn block_with_emoji_key_and_value() {
            assert_eq!(split_attrs_remaining("{🔥=🎉}tail"), ("{🔥=🎉}", "tail"));
}

#[test]
fn two_adjacent_multibyte_blocks() {
            assert_eq!(split_attrs_remaining("{ä=1}{ö=2}end"), ("{ä=1}{ö=2}", "end"));
}

#[test]
fn multibyte_after_block() {
            assert_eq!(split_attrs_remaining("{x=1}日本語"), ("{x=1}", "日本語"));
}

#[test]
fn quoted_multibyte_with_escaped_quote() {
            assert_eq!(
                split_attrs_remaining(r#"{k="café\"bar"}z"#),
                (r#"{k="café\"bar"}"#, "z")
            );
}

#[test]
fn empty_string() {
            assert_eq!(parse_jotdown(""), Vec::<(String, String)>::new());
}

#[test]
fn only_whitespace() {
            assert_eq!(parse_jotdown("   "), Vec::<(String, String)>::new());
}

#[test]
fn only_newlines_and_tabs() {
            assert_eq!(parse_jotdown("\n\t\n"), Vec::<(String, String)>::new());
}

#[test]
fn empty_braces() {
            assert_eq!(parse_jotdown("{}"), Vec::<(String, String)>::new());
}

#[test]
fn braces_with_only_whitespace() {
            assert_eq!(parse_jotdown("{  }"), Vec::<(String, String)>::new());
}

#[test]
fn only_opening_brace() {
            // jotdown should fail to parse -> empty vec
            assert_eq!(parse_jotdown("{"), Vec::<(String, String)>::new());
}

#[test]
fn only_closing_brace() {
            // auto-wrapped to "{}}") -> likely parse error
            assert_eq!(parse_jotdown("}"), Vec::<(String, String)>::new());
}

#[test]
fn opening_brace_with_content_no_close() {
            assert_eq!(parse_jotdown("{.foo"), Vec::<(String, String)>::new());
}

#[test]
fn nested_braces() {
            // "{{{.foo}}}" or similar — undefined behavior, just assert no panic
            let _ = parse_jotdown("{{{.foo}}}");
}

#[test]
fn reversed_braces() {
            assert_eq!(parse_jotdown("}{"), Vec::<(String, String)>::new());
}

#[test]
fn plain_text_no_markers() {
            // "hello" -> wrapped to "{hello}" -> jotdown may or may not parse
            let result = parse_jotdown("hello");
            // assert based on actual jotdown behavior — likely empty or key-value
            let _ = result; // at minimum: no panic
}

#[test]
fn plain_text_in_braces() {
            let result = parse_jotdown("{hello}");
            let _ = result;
}

#[test]
fn unicode_input() {
            let _ = parse_jotdown(".émoji-🎉");
}

#[test]
fn null_byte() {
            let _ = parse_jotdown(".foo\0bar");
}

#[test]
fn only_dots_and_hashes() {
            let _ = parse_jotdown(". #");
}

#[test]
fn dot_without_value() {
            let _ = parse_jotdown(".");
}

#[test]
fn hash_without_value() {
            let _ = parse_jotdown("#");
}

#[test]
fn leading_trailing_whitespace_no_braces() {
            // trimmed first, then wrapped — should behave same as without whitespace
            let a = parse_jotdown("  .foo  ");
            let b = parse_jotdown(".foo");
            assert_eq!(a, b);
}

#[test]
fn leading_trailing_whitespace_with_braces() {
            // trimmed to "{.foo}", parsed directly
            let a = parse_jotdown("  {.foo}  ");
            let b = parse_jotdown("{.foo}");
            assert_eq!(a, b);
}

#[test]
fn brace_in_middle_not_start() {
            // doesn't start with '{', so auto-wrapped: "{something {.foo}}"
            let _ = parse_jotdown("something {.foo}");
}
