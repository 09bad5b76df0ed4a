use std::cell::RefCell;

use html5ever::tokenizer::{BufferQueue, Token, TokenSink, TokenSinkResult, Tokenizer, TokenizerOpts};
use polka::rules::html::utils::tokensink::{HtmlTokenSink, SinkToken, TagKind};

/// Feeds the tokenizer's tokens to the library's sink.
struct SinkAdapter<'a> {
    inner: RefCell<HtmlTokenSink<'a>>,
}

impl TokenSink for SinkAdapter<'_> {
    type Handle = ();

    fn process_token(&self, token: Token, _line_number: u64) -> TokenSinkResult<()> {
        let token = match token {
            Token::ParseError(msg) => SinkToken::ParseError(msg.to_string()),
            Token::TagToken(tag) => SinkToken::Tag {
                kind: match tag.kind {
                    html5ever::tokenizer::TagKind::StartTag => TagKind::StartTag,
                    html5ever::tokenizer::TagKind::EndTag => TagKind::EndTag,
                },
                name: String::from(&*tag.name),
                self_closing: tag.self_closing,
                had_duplicate_attributes: tag.had_duplicate_attributes,
            },
            Token::CharacterTokens(s) => SinkToken::Characters(s.len()),
            _ => SinkToken::Other,
        };
        self.inner.borrow_mut().process_token(token);
        TokenSinkResult::Continue
    }
}

struct TokenizeResult {
    errors: Vec<(Option<usize>, String)>,
    warnings: Vec<(Option<usize>, String)>,
    tag_events: Vec<(String, bool, usize)>,
}

fn tokenize(html: &str, node_offset: usize, exact_errors: bool) -> TokenizeResult {
    let sink = SinkAdapter { inner: RefCell::new(HtmlTokenSink::new(html, node_offset)) };
    let tokenizer = Tokenizer::new(
        sink,
        TokenizerOpts {
            exact_errors,
            ..Default::default()
        },
    );
    let input = BufferQueue::default();
    input.push_back(html.into());
    let _ = tokenizer.feed(&input);
    tokenizer.end();

    let sink = tokenizer.sink.inner.borrow();
    TokenizeResult {
        errors: sink.errors.clone(),
        warnings: sink.warnings.clone(),
        tag_events: sink.tag_events.iter().map(|e| (e.tag.clone(), e.is_open, e.offset)).collect(),
    }
}

#[test]
fn simple_div() {
        let r = tokenize("<div>", 0, false);
        assert_eq!(r.tag_events, vec![("div".into(), true, 0)]);
        assert!(r.errors.is_empty());
}

#[test]
fn with_attributes() {
        let r = tokenize(r#"<div class="x" id="y">"#, 0, false);
        assert_eq!(r.tag_events, vec![("div".into(), true, 0)]);
}

#[test]
fn multiple_non_void() {
        let r = tokenize("<div><span><p>", 0, false);
        assert_eq!(
            r.tag_events,
            vec![
                ("div".into(), true, 0),
                ("span".into(), true, 5),
                ("p".into(), true, 11),
            ]
        );
}

#[test]
fn br_no_event() {
        let r = tokenize("<br>", 0, false);
        assert!(r.tag_events.is_empty());
        assert!(r.errors.is_empty());
}

#[test]
fn hr_no_event() {
        let r = tokenize("<hr>", 0, false);
        assert!(r.tag_events.is_empty());
}

#[test]
fn img_with_attrs_no_event() {
        let r = tokenize(r#"<img src="x.png" alt="y">"#, 0, false);
        assert!(r.tag_events.is_empty());
}

#[test]
fn void_among_non_void() {
        let r = tokenize("<div><br><span>", 0, false);
        assert_eq!(r.tag_events, vec![("div".into(), true, 0), ("span".into(), true, 9),]);
}

#[test]
fn br_self_closing_no_error() {
        let r = tokenize("<br/>", 0, false);
        assert!(r.tag_events.is_empty());
        // void self-closing is valid, no error
        assert!(!r.errors.iter().any(|(_, msg)| msg.contains("non-void")));
}

#[test]
fn img_self_closing_no_error() {
        let r = tokenize(r#"<img src="x.png"/>"#, 0, false);
        assert!(r.tag_events.is_empty());
        assert!(!r.errors.iter().any(|(_, msg)| msg.contains("non-void")));
}

#[test]
fn div_self_closing_error() {
        let r = tokenize("<div/>", 0, false);
        assert!(r.tag_events.is_empty()); // no event pushed
        assert!(
            r.errors
                .iter()
                .any(|(off, msg)| { off == &Some(0) && msg.contains("non-void") })
        );
}

#[test]
fn span_self_closing_error() {
        let r = tokenize("<span/>", 0, false);
        assert!(
            r.errors
                .iter()
                .any(|(off, msg)| { off == &Some(0) && msg.contains("non-void") && msg.contains("span") })
        );
}

#[test]
fn with_offset() {
        let r = tokenize("<span/>", 100, false);
        assert!(r.errors.iter().any(|(off, _)| off == &Some(100)));
}

#[test]
fn simple_close() {
        let r = tokenize("</div>", 0, false);
        assert_eq!(r.tag_events, vec![("div".into(), false, 0)]);
}

#[test]
fn open_and_close() {
        let r = tokenize("<div></div>", 0, false);
        assert_eq!(r.tag_events, vec![("div".into(), true, 0), ("div".into(), false, 5),]);
}

#[test]
fn close_void_element() {
        // html5ever emits end tags even for void elements
        let r = tokenize("</br>", 0, false);
        assert_eq!(r.tag_events, vec![("br".into(), false, 0)]);
}

#[test]
fn duplicate_attr_warning() {
        let r = tokenize(r#"<div class="a" class="b">"#, 0, false);
        assert!(
            r.warnings
                .iter()
                .any(|(off, msg)| { off == &Some(0) && msg.contains("duplicate") })
        );
}

#[test]
fn no_duplicate_no_warning() {
        let r = tokenize(r#"<div class="a" id="b">"#, 0, false);
        assert!(r.warnings.is_empty());
}

#[test]
fn both_warning_and_error() {
        let r = tokenize(r#"<div class="a" class="b"/>"#, 0, false);
        assert!(r.warnings.iter().any(|(_, msg)| msg.contains("duplicate")));
        assert!(r.errors.iter().any(|(_, msg)| msg.contains("non-void")));
}

#[test]
fn two_divs_different_offsets() {
        let r = tokenize("<div></div><div></div>", 0, false);
        assert_eq!(
            r.tag_events,
            vec![
                ("div".into(), true, 0),
                ("div".into(), false, 5),
                ("div".into(), true, 11),
                ("div".into(), false, 16),
            ]
        );
}

#[test]
fn interleaved_tags() {
        let r = tokenize("<div><span></span></div>", 0, false);
        assert_eq!(
            r.tag_events,
            vec![
                ("div".into(), true, 0),
                ("span".into(), true, 5),
                ("span".into(), false, 11),
                ("div".into(), false, 18),
            ]
        );
}

#[test]
fn nonzero_offset_added() {
        let r = tokenize("<div></div>", 50, false);
        assert_eq!(r.tag_events, vec![("div".into(), true, 50), ("div".into(), false, 55),]);
}

#[test]
fn offset_on_warning() {
        let r = tokenize(r#"<div id="a" id="b">"#, 200, false);
        assert!(r.warnings.iter().any(|(off, _)| off == &Some(200)));
}

#[test]
fn offset_on_non_void_self_closing_error() {
        let r = tokenize("<p/>", 300, false);
        assert!(r.errors.iter().any(|(off, _)| off == &Some(300)));
}

#[test]
fn plain_text_no_events() {
        let r = tokenize("hello world", 0, false);
        assert!(r.tag_events.is_empty());
        assert!(r.warnings.is_empty());
}

#[test]
fn comment_no_events() {
        let r = tokenize("<!-- comment -->", 0, false);
        assert!(r.tag_events.is_empty());
}

#[test]
fn text_between_tags() {
        let r = tokenize("<div>hello</div>", 0, false);
        assert_eq!(r.tag_events.len(), 2);
        assert!(r.warnings.is_empty());
}

#[test]
fn uppercase_tag_resolved() {
        let r = tokenize("<DIV></DIV>", 0, false);
        // html5ever lowercases tag names
        assert_eq!(r.tag_events, vec![("div".into(), true, 0), ("div".into(), false, 5),]);
}

#[test]
fn mixed_case() {
        let r = tokenize("<Div></dIV>", 0, false);
        assert_eq!(r.tag_events, vec![("div".into(), true, 0), ("div".into(), false, 5),]);
}

#[test]
fn tag_name_in_unquoted_attr() {
        // <div data=div> — "div" in attr value is inside InTag,
        // not matched because scanner only matches after < in Normal
        let r = tokenize(r"<div data=div><div>", 0, false);
        assert_eq!(r.tag_events, vec![("div".into(), true, 0), ("div".into(), true, 14),]);
}

#[test]
fn implicit_close_p_in_p() {
        let r = tokenize("<p>first<p>second", 0, false);
        // html5ever may emit: <p>, </p>(implicit), <p>
        // The implicit </p> can't be found → offset = node_offset (0)
        // This means the close event has a WRONG offset (0 instead of nonexistent)
        // Verify the events exist and check what offset we get
        let close_events: Vec<_> = r
            .tag_events
            .iter()
            .filter(|(tag, is_open, _)| tag == "p" && !is_open)
            .collect();
        if !close_events.is_empty() {
            // implicit close tag → fallback offset = node_offset
            // This is silently wrong — no error reported
            assert_eq!(close_events[0].2, 0, "implicit close falls back to node_offset");
        }
}

#[test]
fn synthesized_tags_not_in_source() {
        // NOTE: html5ever tokenizer (not tree builder) should NOT
        // synthesize tags. But if it does, offsets are wrong.
        // This test documents the assumption.
        let r = tokenize("<div>", 0, false);
        let tags: Vec<_> = r.tag_events.iter().map(|(tag, _, _)| tag.as_str()).collect();
        // Tokenizer should only emit what's in source
        assert_eq!(tags, vec!["div"]);
}

#[test]
fn more_end_tags_than_start_tags() {
        let r = tokenize("</div></div></div>", 0, false);
        assert_eq!(
            r.tag_events,
            vec![
                ("div".into(), false, 0),
                ("div".into(), false, 6),
                ("div".into(), false, 12),
            ]
        );
}

#[test]
fn interleaved_same_name_counts() {
        let r = tokenize("<div></div><div></div>", 0, false);
        assert_eq!(
            r.tag_events,
            vec![
                ("div".into(), true, 0),
                ("div".into(), false, 5),
                ("div".into(), true, 11),
                ("div".into(), false, 16),
            ]
        );
}

#[test]
fn tag_name_in_text_content() {
        let r = tokenize("div <div>", 0, false);
        assert_eq!(r.tag_events, vec![("div".into(), true, 4)]);
}

#[test]
fn process_token_tests_empty_input() {
        let r = tokenize("", 0, false);
        assert!(r.tag_events.is_empty());
        assert!(r.errors.is_empty());
        assert!(r.warnings.is_empty());
}

#[test]
fn whitespace_only() {
        let r = tokenize("   \n\t  ", 0, false);
        assert!(r.tag_events.is_empty());
}

#[test]
fn unquoted_lt_in_attribute() {
        // html5ever and find_nth_tag may disagree on tag boundaries
        let html = "<div data=<span>>";
        let r = tokenize(html, 0, false);
        // Whatever events come out, offsets should be valid
        // (within bounds of html)
        for (_, _, off) in &r.tag_events {
            assert!(*off < html.len(), "offset {off} out of bounds");
        }
}
