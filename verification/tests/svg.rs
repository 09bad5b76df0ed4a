use polka::icon::svg::{rewrite_svg_events, XmlEvent, XmlKind};
/// The icon's SVG text with the attributes `attrs` written in the document.
fn inject_inline_attrs(svg: &str, attrs: &[(&str, String)]) -> String {
    let attrs: Vec<(String, String)> = attrs.iter().map(|(k, v)| (k.to_string(), v.clone())).collect();
    polka::icon::svg::inject_inline_attrs(svg, &attrs)
}

#[test]
fn injects_defaults_on_bare_svg() {
                let result = inject_inline_attrs("<svg><path/></svg>", &[]);
                assert!(result.contains(r#"aria-hidden="true""#), "got: {result}");
                assert!(result.contains(r#"width="24""#), "got: {result}");
                assert!(result.contains(r#"height="24""#), "got: {result}");
                assert!(result.contains(r#"fill="currentColor""#), "got: {result}");
}

#[test]
fn svg_attrs_override_defaults() {
                let result = inject_inline_attrs(r#"<svg width="48" height="48"><path/></svg>"#, &[]);
                assert!(result.contains(r#"width="48""#), "got: {result}");
                assert!(result.contains(r#"height="48""#), "got: {result}");
}

#[test]
fn svg_fill_overrides_default() {
                let result = inject_inline_attrs(r#"<svg fill="none"><path/></svg>"#, &[]);
                assert!(result.contains(r#"fill="none""#), "got: {result}");
                assert!(!result.contains("currentColor"), "got: {result}");
}

#[test]
fn adds_new_attr() {
                let result = inject_inline_attrs("<svg><path/></svg>", &[("class", "icon".into())]);
                assert!(result.contains(r#"class="icon""#), "got: {result}");
}

#[test]
fn overrides_svg_attr() {
                let result = inject_inline_attrs(r#"<svg width="48"><path/></svg>"#, &[("width", "16".into())]);
                assert!(result.contains(r#"width="16""#), "got: {result}");
                assert!(!result.contains(r#"width="48""#), "got: {result}");
}

#[test]
fn overrides_default() {
                let result = inject_inline_attrs("<svg><path/></svg>", &[("fill", "red".into())]);
                assert!(result.contains(r#"fill="red""#), "got: {result}");
                assert!(!result.contains("currentColor"), "got: {result}");
}

#[test]
fn overrides_svg_attr_over_default() {
                let result = inject_inline_attrs(r#"<svg fill="none"><path/></svg>"#, &[("fill", "red".into())]);
                assert!(result.contains(r#"fill="red""#), "got: {result}");
                assert!(!result.contains("none"), "got: {result}");
}

#[test]
fn no_duplicate_width() {
            let result = inject_inline_attrs(r#"<svg width="48"><path/></svg>"#, &[("width", "16".into())]);
            assert_eq!(result.matches("width=").count(), 1, "got: {result}");
}

#[test]
fn no_duplicate_fill() {
            let result = inject_inline_attrs(r#"<svg fill="none"><path/></svg>"#, &[("fill", "red".into())]);
            assert_eq!(result.matches("fill=").count(), 1, "got: {result}");
}

#[test]
fn escapes_value() {
            let result = inject_inline_attrs("<svg><path/></svg>", &[("data-x", r#"a"b<c>"#.into())]);
            assert!(result.contains(r#"data-x="a&quot;b&lt;c&gt;""#), "got: {result}");
}

#[test]
fn no_svg_tag() {
            let input = "<div>hello</div>";
            assert_eq!(inject_inline_attrs(input, &[("class", "x".into())]), input);
}

#[test]
fn preserves_existing_xmlns() {
            let result = inject_inline_attrs(
                r#"<svg xmlns="http://www.w3.org/2000/svg"><path/></svg>"#,
                &[("class", "icon".into())],
            );
            assert!(result.contains("xmlns="), "got: {result}");
            assert!(result.contains(r#"class="icon""#), "got: {result}");
}

fn xml_event(kind: XmlKind, content: &str, name: &str) -> XmlEvent {
    XmlEvent { kind, content: content.to_string(), name: name.to_string() }
}

#[test]
fn rewrite_events_replaces_only_svg_start_tags() {
    let events = vec![
        xml_event(XmlKind::Start, r#"svg width="48""#, "svg"),
        xml_event(XmlKind::Empty, r#"path d="x""#, "path"),
        xml_event(XmlKind::Start, "g", "g"),
        xml_event(XmlKind::End, "g", ""),
        xml_event(XmlKind::End, "svg", ""),
    ];
    let out = rewrite_svg_events(events, &vec![("class".to_string(), "icon".to_string())]);
    assert_eq!(out.len(), 5);
    assert_eq!(out[0].kind, XmlKind::Start);
    assert_eq!(
        out[0].content,
        r#"svg aria-hidden="true" width="48" height="24" fill="currentColor" class="icon""#
    );
    assert_eq!(out[0].name, "svg");
    assert_eq!(out[1].kind, XmlKind::Empty);
    assert_eq!(out[1].content, r#"path d="x""#);
    assert_eq!(out[2].content, "g");
    assert_eq!(out[3].kind, XmlKind::End);
    assert_eq!(out[4].content, "svg");
}

#[test]
fn rewrite_events_escapes_attribute_values() {
    let events = vec![xml_event(XmlKind::Start, "svg", "svg")];
    let out = rewrite_svg_events(events, &vec![("title".to_string(), "a<b & \"c\"".to_string())]);
    assert!(out[0].content.ends_with(r#" title="a&lt;b &amp; &quot;c&quot;""#), "got: {}", out[0].content);
}

#[test]
fn rewrite_events_leaves_empty_svg_tag() {
    let events = vec![xml_event(XmlKind::Empty, "svg", "svg")];
    let out = rewrite_svg_events(events, &vec![]);
    assert_eq!(out[0].kind, XmlKind::Empty);
    assert_eq!(out[0].content, "svg");
}

#[test]
fn inject_keeps_comments_and_text() {
    let result = inject_inline_attrs("<!-- c --><svg><title>T &amp; U</title></svg>", &[]);
    assert_eq!(
        result,
        r#"<!-- c --><svg aria-hidden="true" width="24" height="24" fill="currentColor"><title>T &amp; U</title></svg>"#
    );
}

#[test]
fn inject_returns_input_on_read_error() {
    let input = "<svg><path></svg>";
    let result = inject_inline_attrs(input, &[]);
    assert_eq!(result, input);
}

#[test]
fn rewrite_events_without_svg_unchanged() {
    let events = vec![
        xml_event(XmlKind::Start, r#"div class="a""#, "div"),
        xml_event(XmlKind::Text, "hello", ""),
        xml_event(XmlKind::End, "div", ""),
    ];
    let out = rewrite_svg_events(events, &vec![("class".to_string(), "x".to_string())]);
    let got: Vec<(XmlKind, String, String)> = out.into_iter().map(|e| (e.kind, e.content, e.name)).collect();
    assert_eq!(
        got,
        vec![
            (XmlKind::Start, r#"div class="a""#.to_string(), "div".to_string()),
            (XmlKind::Text, "hello".to_string(), String::new()),
            (XmlKind::End, "div".to_string(), String::new()),
        ]
    );
}
