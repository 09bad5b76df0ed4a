use markdown_it::plugins::html::html_block::HtmlBlock;
use markdown_it::plugins::html::html_inline::HtmlInline;
use markdown_it::{MarkdownIt, Node};
use polka::rules::html::utils::tokensink::{SinkToken, TagKind};
use polka::rules::html::validator::{extract_html_content, scan_node_html, scan_tokens, ErrorOffset, HtmlError};

/// Validate the HTML of a parsed document.
fn validate(root: &Node) -> Vec<HtmlError> {
    let mut scans = Vec::new();
    root.walk(|node, _| {
        let offset = node.srcmap.as_ref().map_or(0, |sp| sp.get_byte_offsets().0);
        let html = if let Some(hb) = node.cast::<HtmlBlock>() {
            Some(hb.content.as_str())
        } else {
            node.cast::<HtmlInline>().map(|hi| hi.content.as_str())
        };
        if let Some((node_html, node_offset)) = extract_html_content(html, offset) {
            scans.push(scan_node_html(&node_html, node_offset));
        }
    });
    polka::rules::html::validator::validate(scans)
}

fn lint(input: &str) -> Vec<String> {
    let mut md = MarkdownIt::new();
    markdown_it::plugins::cmark::add(&mut md);
    markdown_it::plugins::html::add(&mut md);

    let root = md.parse(input);
    let errors = validate(&root);
    errors.into_iter().map(|e| e.message).collect()
}

fn lint_full(input: &str) -> Vec<HtmlError> {
    let mut md = MarkdownIt::new();
    markdown_it::plugins::cmark::add(&mut md);
    markdown_it::plugins::html::add(&mut md);

    let root = md.parse(input);
    validate(&root)
}

fn assert_no_errors(input: &str) {
    let errors = lint(input);
    assert!(
        errors.is_empty(),
        "expected no errors for input:\n{input}\ngot: {errors:?}"
    );
}

fn assert_has_message(errors: &[String], needle: &str) {
    assert!(
        errors.iter().any(|m| m.contains(needle)),
        "expected message containing {needle:?} in {errors:?}"
    );
}

#[test]
fn inline_tag_pair() {
        assert_no_errors("some *text* <span>content</span> here");
}

#[test]
fn block_level_html() {
        assert_no_errors("<div>\n  <p>hello</p>\n</div>");
}

#[test]
fn nested_block_html() {
        assert_no_errors("<div>\n  <section>\n    <p>deep</p>\n  </section>\n</div>");
}

#[test]
fn mixed_inline_and_block() {
        assert_no_errors("# Title\n\n<div>\n\nparagraph with <em>emphasis</em>\n\n</div>");
}

#[test]
fn void_elements_no_errors() {
        assert_no_errors("text <br> more <hr>\n\n<img src=\"x.png\">");
}

#[test]
fn self_closing_void() {
        assert_no_errors("line<br/>break");
}

#[test]
fn multiple_valid_blocks() {
        assert_no_errors("<div>first</div>\n\n<div>second</div>");
}

#[test]
fn unclosed_in_block() {
        let errors = lint("<div>\n  <span>\n</div>");
        assert_has_message(&errors, "misnested <span>");
}

#[test]
fn orphan_closer_inline() {
        let errors = lint("text </span> more");
        assert_has_message(&errors, "closing </span> has no matching opener");
}

#[test]
fn misnesting_in_single_block() {
        let errors = lint("<div>\n  <a><b></a></b>\n</div>");
        assert_has_message(&errors, "misnested <b>");
}

#[test]
fn unclosed_in_single_block() {
        let errors = lint("<div>\n  <span>\n  <em>\n</div>");
        // span and em misnested, forced by </div>
        assert_has_message(&errors, "misnested <span>");
        assert_has_message(&errors, "misnested <em>");
}

#[test]
fn open_and_close_in_separate_blocks() {
        // markdown paragraph between two HTML blocks
        assert_no_errors("<div>\n\nsome paragraph\n\n</div>");
}

#[test]
fn unclosed_across_blocks() {
        let errors = lint("<div>\n\nsome paragraph\n\n<span>\n\nmore text");
        assert_has_message(&errors, "unclosed <div>");
        assert_has_message(&errors, "unclosed <span>");
}

#[test]
fn orphan_close_in_later_block() {
        let errors = lint("paragraph\n\n</div>");
        assert_has_message(&errors, "closing </div> has no matching opener");
}

#[test]
fn misnesting_across_blocks() {
        // <a> in one inline, </b></a> pattern across nodes
        let errors = lint("<a>\n\n<b>\n\n</a>\n\n</b>");
        assert_has_message(&errors, "misnested <b>");
}

#[test]
fn multiple_blocks_valid_together() {
        assert_no_errors("<div>\n\n<p>\n\ntext\n\n</p>\n\n</div>");
}

#[test]
fn inline_error_offset_nonzero() {
        // error should not be at offset 0 — there's preceding text
        let errors = lint_full("hello </div> world");
        assert!(!errors.is_empty());
        assert!(errors[0].offset.value() > 0, "offset should reflect preceding text");
}

#[test]
fn block_error_after_content() {
        let input = "# Title\n\nSome paragraph.\n\n<div>";
        let errors = lint_full(input);
        assert!(!errors.is_empty());
        let offset = errors[0].offset.value();
        // offset should be somewhere after "# Title\n\nSome paragraph.\n\n"
        assert!(offset >= 26, "offset {offset} should be after preceding markdown");
}

#[test]
fn exact_vs_node_start() {
        let errors = lint_full("text </span> more");
        assert!(!errors.is_empty());
        // validate_tag_nesting always produces Exact offsets
        assert!(matches!(errors[0].offset, ErrorOffset::Exact(_)));
}

#[test]
fn errors_sorted_by_offset() {
        let errors = lint_full("</b>\n\n<a>\n\n</c>");
        let offsets: Vec<usize> = errors.iter().map(|e| e.offset.value()).collect();
        let mut sorted = offsets.clone();
        sorted.sort_unstable();
        assert_eq!(offsets, sorted, "errors should be sorted by offset");
}

#[test]
fn code_block_angle_brackets() {
        assert_no_errors("```\n<div><span></div>\n```");
}

#[test]
fn inline_code_angle_brackets() {
        assert_no_errors("use `<div>` for containers and `</span>` to close");
}

#[test]
fn no_html_at_all() {
        assert_no_errors("# Hello\n\nJust **markdown** with [links](url).");
}

#[test]
fn angle_brackets_in_text() {
        // markdown-it may or may not parse these as HTML — either way, no crash
        let _ = lint("5 < 10 and 20 > 15");
}

#[test]
fn empty_document() {
        assert_no_errors("");
}

#[test]
fn only_html_no_markdown() {
        assert_no_errors("<div><p><em>all html</em></p></div>");
}

#[test]
fn html_in_blockquote() {
        // blockquotes may or may not pass through HTML — don't crash
        let _ = lint("> <div>quoted</div>");
}

#[test]
fn html_in_list_items() {
        let _ = lint("- <span>item one</span>\n- <em>item two</em>");
}

#[test]
fn adjacent_html_blocks_no_gap() {
        assert_no_errors("<div>first</div>\n<div>second</div>");
}

#[test]
fn deeply_nested_markdown_with_html() {
        assert_no_errors("> > - <em>deep</em>");
}

#[test]
fn whitespace_only_html_block() {
        // block with only whitespace — extract_html_content trims and skips
        assert_no_errors("<div>   </div>");
}

#[test]
fn html_after_thematic_break() {
        assert_no_errors("---\n\n<div>after break</div>");
}

#[test]
fn scan_tokens_counts_tags_by_kind_and_name() {
    let html = "<b></b><b/>";
    let tag = |kind: TagKind, self_closing: bool, dup: bool| SinkToken::Tag {
        kind,
        name: "b".to_string(),
        self_closing,
        had_duplicate_attributes: dup,
    };
    let tokens = vec![
        tag(TagKind::StartTag, false, false),
        SinkToken::Characters(0),
        tag(TagKind::EndTag, false, false),
        tag(TagKind::StartTag, true, true),
        SinkToken::ParseError("bad".to_string()),
    ];
    let r = scan_tokens(html, 100, &tokens);
    let events: Vec<(String, bool, usize)> =
        r.tag_events.iter().map(|e| (e.tag.clone(), e.is_open, e.offset)).collect();
    assert_eq!(events, vec![("b".to_string(), true, 100), ("b".to_string(), false, 103)]);
    assert_eq!(r.errors.len(), 2);
    assert_eq!(r.errors[0].offset, ErrorOffset::Exact(107));
    assert_eq!(r.errors[0].message, "non-void tag: <b/> or <b />");
    assert_eq!(r.errors[1].offset, ErrorOffset::NodeStart(100));
    assert_eq!(r.errors[1].message, "bad");
    assert_eq!(r.warnings.len(), 1);
    assert_eq!(r.warnings[0].offset, ErrorOffset::Exact(107));
}

#[test]
fn scan_node_html_tokenizes_fragment() {
    let r = scan_node_html("<div><br><span></span></div>", 5);
    let events: Vec<(String, bool, usize)> =
        r.tag_events.iter().map(|e| (e.tag.clone(), e.is_open, e.offset)).collect();
    assert_eq!(
        events,
        vec![
            ("div".to_string(), true, 5),
            ("span".to_string(), true, 14),
            ("span".to_string(), false, 20),
            ("div".to_string(), false, 27),
        ]
    );
    assert!(r.errors.is_empty());
    assert!(r.warnings.is_empty());
}
