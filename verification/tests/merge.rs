//! Merging the `<svg>` attributes, and more icon-name and path cases.
use polka::icon::svg::{merge_svg_attrs, svg_start_attrs};
use polka::icon::{first_readable, icon_path_candidates, icon_search_order, normalize_icon_name, strip_html_comments};

fn pairs(v: &[(&str, &str)]) -> Vec<(String, String)> {
    v.iter().map(|(k, v)| (k.to_string(), v.to_string())).collect()
}

#[test]
fn merge_defaults_only() {
    assert_eq!(
        merge_svg_attrs(&pairs(&[]), &pairs(&[])),
        pairs(&[("aria-hidden", "true"), ("width", "24"), ("height", "24"), ("fill", "currentColor")])
    );
}

#[test]
fn merge_priority_and_order() {
    let existing = pairs(&[("xmlns", "ns"), ("width", "48")]);
    let overrides = pairs(&[("width", "16"), ("class", "icon"), ("class", "big")]);
    assert_eq!(
        merge_svg_attrs(&existing, &overrides),
        pairs(&[
            ("aria-hidden", "true"),
            ("width", "16"),
            ("height", "24"),
            ("fill", "currentColor"),
            ("xmlns", "ns"),
            ("class", "big"),
        ])
    );
}

#[test]
fn merge_never_repeats_a_key() {
    let merged = merge_svg_attrs(&pairs(&[("fill", "none"), ("fill", "red")]), &pairs(&[("fill", "blue")]));
    assert_eq!(merged.iter().filter(|(k, _)| k == "fill").count(), 1);
    assert!(merged.contains(&("fill".to_string(), "blue".to_string())));
}

#[test]
fn candidates_need_a_hyphen() {
    assert!(icon_path_candidates("lucide").is_empty());
    assert!(icon_path_candidates("").is_empty());
    assert_eq!(icon_path_candidates("a--b"), vec!["a//b.svg".to_string(), "a/-b.svg".to_string()]);
}

#[test]
fn normalize_keeps_valid_names() {
    assert_eq!(normalize_icon_name("A-9"), Some("A-9"));
    assert_eq!(normalize_icon_name("a--b"), Some("a--b"));
    assert_eq!(normalize_icon_name("-"), None);
    assert_eq!(normalize_icon_name("a-"), None);
}

#[test]
fn strip_without_comments_is_identity() {
    for s in ["", "plain", "<svg><g/></svg>", "<! -- x -->", "-->"] {
        assert_eq!(strip_html_comments(s), s);
    }
}

#[test]
fn strip_short_comment_forms() {
    assert_eq!(strip_html_comments("a<!-->b"), "ab");
    assert_eq!(strip_html_comments("a<!--->b"), "ab");
}

#[test]
fn start_tag_decision() {
    let existing = vec![Some(("width".to_string(), "48".to_string())), None];
    assert_eq!(
        svg_start_attrs("svg", &existing, &pairs(&[("class", "x")])),
        Some(pairs(&[
            ("aria-hidden", "true"),
            ("width", "48"),
            ("height", "24"),
            ("fill", "currentColor"),
            ("class", "x"),
        ]))
    );
    assert_eq!(svg_start_attrs("g", &existing, &pairs(&[("class", "x")])), None);
    assert_eq!(svg_start_attrs("SVG", &existing, &pairs(&[])), None);
}

#[test]
fn search_order_directories_then_candidates() {
    let s = |d: usize, p: &str| (d, p.to_string());
    assert_eq!(
        icon_search_order(2, "a-b-c"),
        vec![s(0, "a/b/c.svg"), s(0, "a/b-c.svg"), s(1, "a/b/c.svg"), s(1, "a/b-c.svg")]
    );
    assert!(icon_search_order(0, "a-b").is_empty());
    assert!(icon_search_order(3, "ab").is_empty());
}

#[test]
fn bare_attributes_read_as_braced() {
    assert_eq!(polka::attrs::parse_jotdown(".a #b"), polka::attrs::parse_jotdown("{.a #b}"));
    assert_eq!(polka::attrs::parse_jotdown(" k=v "), polka::attrs::parse_jotdown("{k=v}"));
}

#[test]
fn parsed_attributes_name_each_key_once() {
    assert_eq!(
        polka::attrs::parse_jotdown("{a=1 .x a=2 .y #i #j}"),
        vec![
            ("a".to_string(), "2".to_string()),
            ("class".to_string(), "x y".to_string()),
            ("id".to_string(), "j".to_string()),
        ]
    );
}

#[test]
fn first_readable_picks_first_success() {
    let reads = vec![None, Some("<svg/>".to_string()), Some("<svg></svg>".to_string())];
    assert_eq!(first_readable(&reads), Some((1, "<svg/>".to_string())));
    assert_eq!(first_readable(&vec![None, None]), None);
    assert_eq!(first_readable(&vec![]), None);
}
