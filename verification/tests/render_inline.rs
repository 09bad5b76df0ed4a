use markdown_it::generics::inline::emph_pair;
use markdown_it::parser::extset::{InlineRootExt, MarkdownItExt};
use markdown_it::parser::inline::builtin::InlineParserRule;
use markdown_it::parser::inline::{InlineRule, InlineState, Text, TextSpecial};
use markdown_it::plugins::cmark::block::list::ListItem;
use markdown_it::plugins::cmark::block::paragraph::Paragraph;
use markdown_it::plugins::cmark::inline::newline::Softbreak;
use markdown_it::plugins::html::html_block::HtmlBlock;
use markdown_it::{MarkdownIt, Node, NodeValue, Renderer};
use polka::attrs::walk::{apply_block_attrs_tree, apply_inline_attrs_tree};
use polka::attrs::{AstNode, NodeKind};
use polka::icon::svg::inject_inline_attrs;
use polka::icon::{icon_path_candidates, IconCache, IconScanner};

// The attribute rule.

fn kind_of(node: &Node) -> NodeKind {
    if node.is::<Text>() {
        NodeKind::Text
    } else if node.is::<TextSpecial>() {
        NodeKind::TextSpecial
    } else if node.is::<Softbreak>() {
        NodeKind::Softbreak
    } else if node.is::<Paragraph>() {
        NodeKind::Paragraph
    } else if node.is::<ListItem>() {
        NodeKind::ListItem
    } else if node.is::<HtmlBlock>() {
        NodeKind::HtmlBlock
    } else {
        NodeKind::Other
    }
}

fn to_ast(node: &Node, id: usize) -> AstNode {
    AstNode {
        id,
        kind: kind_of(node),
        content: node.cast::<Text>().map(|t| t.content.clone()).unwrap_or_default(),
        attrs: node.attrs.iter().map(|(k, v)| (k.to_string(), v.clone())).collect(),
        children: node.children.iter().enumerate().map(|(i, c)| to_ast(c, i)).collect(),
    }
}

fn write_back(node: &mut Node, ast: AstNode) {
    node.attrs = ast.attrs.into_iter().map(|(k, v)| (&*Box::leak(k.into_boxed_str()), v)).collect();
    if let Some(t) = node.cast_mut::<Text>() {
        t.content = ast.content;
    }
    let mut old: Vec<Option<Node>> = std::mem::take(&mut node.children).into_iter().map(Some).collect();
    node.children = ast
        .children
        .into_iter()
        .map(|c| {
            let mut child = old[c.id].take().expect("each child is kept once");
            write_back(&mut child, c);
            child
        })
        .collect();
}

struct AttrsPasses;

impl markdown_it::parser::core::CoreRule for AttrsPasses {
    fn run(root: &mut Node, _md: &MarkdownIt) {
        let mut tree = to_ast(root, 0);
        apply_inline_attrs_tree(&mut tree);
        write_back(root, tree);
        let mut tree = to_ast(root, 0);
        apply_block_attrs_tree(&mut tree);
        write_back(root, tree);
    }
}

// Spans, superscript and subscript.

#[derive(Debug)]
struct Span;

impl NodeValue for Span {
    fn render(&self, node: &Node, fmt: &mut dyn Renderer) {
        fmt.open("span", &node.attrs);
        fmt.contents(&node.children);
        fmt.close("span");
    }
}

#[derive(Debug)]
struct Superscript;

impl NodeValue for Superscript {
    fn render(&self, node: &Node, fmt: &mut dyn Renderer) {
        fmt.open("sup", &node.attrs);
        fmt.contents(&node.children);
        fmt.close("sup");
    }
}

#[derive(Debug)]
struct Subscript;

impl NodeValue for Subscript {
    fn render(&self, node: &Node, fmt: &mut dyn Renderer) {
        fmt.open("sub", &node.attrs);
        fmt.contents(&node.children);
        fmt.close("sub");
    }
}

// Icons, read from a fixed set of files instead of a directory; with no
// icon directory configured, none is found.

#[derive(Debug)]
struct IconFiles {
    present: bool,
}

impl MarkdownItExt for IconFiles {}

#[derive(Debug, Default)]
struct ScanCache {
    scanned: bool,
    max: Vec<usize>,
}

impl InlineRootExt for ScanCache {}

fn icon_file(rel: &str) -> Option<String> {
    let name = match rel {
        "lucide/sun.svg" => "lucide-sun",
        "lucide/sun-dim.svg" => "lucide-sun-dim",
        "fontawesome/solid/sun.svg" => "fontawesome-solid-sun",
        "fontawesome/solid/sun-plant-wilt.svg" => "fontawesome-solid-sun-plant-wilt",
        _ => return None,
    };
    Some(format!(r#"<svg><path d="{name}"/></svg>"#))
}

#[derive(Debug)]
struct IconNode {
    svg: String,
}

impl NodeValue for IconNode {
    fn render(&self, node: &Node, fmt: &mut dyn Renderer) {
        let attrs: Vec<(String, String)> = node.attrs.iter().map(|(k, v)| (k.to_string(), v.clone())).collect();
        fmt.text_raw(&inject_inline_attrs(&self.svg, &attrs));
    }
}

struct IconRule;

impl InlineRule for IconRule {
    const MARKER: char = ':';

    fn run(state: &mut InlineState) -> Option<(Node, usize)> {
        let after_marker = state.trailing_text_get().ends_with(':');
        let stored = state.inline_ext.get_or_insert_default::<ScanCache>();
        let mut cache = IconCache { scanned: stored.scanned, max: std::mem::take(&mut stored.max) };
        let found = IconScanner { marker: ':' }.scan(&state.src, state.pos, state.pos_max, after_marker, &mut cache);
        let stored = state.inline_ext.get_or_insert_default::<ScanCache>();
        stored.scanned = cache.scanned;
        stored.max = cache.max;
        let (name, len) = found?;
        if !state.md.ext.get::<IconFiles>()?.present {
            return None;
        }
        let (path, content) = icon_path_candidates(&name).into_iter().find_map(|p| icon_file(&p).map(|c| (p, c)))?;
        let icon = polka::icon::Icon::new(':', name, path, &content);
        Some((Node::new(IconNode { svg: icon.svg }), len))
    }
}

fn add_polka(md: &mut MarkdownIt, icon_files: bool) {
    md.ext.insert(IconFiles { present: icon_files });
    md.inline.add_rule::<IconRule>();
    emph_pair::add_with::<'|', 1, true>(md, || Node::new(Span));
    emph_pair::add_with::<'^', 1, true>(md, || Node::new(Superscript));
    emph_pair::add_with::<'~', 1, true>(md, || Node::new(Subscript));
    md.add_rule::<AttrsPasses>().after::<InlineParserRule>();
}

fn create_test_parser() -> MarkdownIt {
    let mut md = MarkdownIt::new();
    markdown_it::plugins::cmark::add(&mut md);
    // Markdown Extensions
    // Don't enable extra::typographer, it replaces ASCII dashes in Text nodes,
    // breaking CSS identifiers like `.btn--primary`.
    markdown_it::plugins::extra::beautify_links::add(&mut md);
    markdown_it::plugins::extra::linkify::add(&mut md);
    // Don't enable extra::smartquotes, it replaces ASCII quotes in Text nodes,
    // breaking CSS attribute values like `data-attr="value"`.
    markdown_it::plugins::extra::strikethrough::add(&mut md);
    markdown_it::plugins::extra::tables::add(&mut md);
    add_polka(&mut md, false);
    md
}

fn render(input: &str) -> String {
    create_test_parser().parse(input).render()
}

#[test]
fn str() {
    assert_eq!(render("abc"), "<p>abc</p>\n");
    assert_eq!(render("abc def"), "<p>abc def</p>\n");
}

#[test]
fn verbatim() {
    assert_eq!(render("`abc`"), "<p><code>abc</code></p>\n");
    assert_eq!(render("`abc\ndef`"), "<p><code>abc def</code></p>\n");
    assert_eq!(render("`abc&def`"), "<p><code>abc&amp;def</code></p>\n");
    assert_eq!(render("`abc"), "<p>`abc</p>\n");
    assert_eq!(render("``abc``"), "<p><code>abc</code></p>\n");
    assert_eq!(render("abc `def`"), "<p>abc <code>def</code></p>\n");
    assert_eq!(render("abc`def`"), "<p>abc<code>def</code></p>\n");
}

#[test]
fn hard_break() {
    assert_eq!(render("abc\\\ndef"), "<p>abc<br>\ndef</p>\n");
    assert_eq!(render("abc\\"), "<p>abc\\</p>\n");
    assert_eq!(render("abc\\\n"), "<p>abc\\</p>\n");
}

#[test]
fn verbatim_attr() {
    assert_eq!(
        render("pre `raw`{#id} post"),
        r#"<p>pre <code id="id">raw</code> post</p>
"#
    );
}

#[test]
fn verbatim_attr_inside() {
    assert_eq!(render("`a{i=0}`"), "<p><code>a{i=0}</code></p>\n");
    // skip inline math
}

#[test]
fn verbatim_whitespace() {
    assert_eq!(render("`  `"), "<p><code>  </code></p>\n");
    assert_eq!(render("` abc `"), "<p><code>abc</code></p>\n");
}

#[test]
fn verbatim_trim() {
    assert_eq!(render("` ``abc`` `"), "<p><code>``abc``</code></p>\n");
}

#[test]
fn span() {
    assert_eq!(render("|text|"), "<p><span>text</span></p>\n");
    assert_eq!(render("before|text|after"), "<p>before<span>text</span>after</p>\n");
    assert_eq!(render("before |text| after"), "<p>before <span>text</span> after</p>\n");
}

#[test]
fn span_nested() {
    assert_eq!(render("||text||"), "<p><span><span>text</span></span></p>\n");
    assert_eq!(render("|some *text*|"), "<p><span>some <em>text</em></span></p>\n");
}

#[test]
fn span_marker() {
    assert_eq!(render("|"), "<p>|</p>\n");
    assert_eq!(render("||"), "<p>||</p>\n");
    assert_eq!(render("|||"), "<p>|||</p>\n");
    assert_eq!(render("||||"), "<p>||||</p>\n");
}

#[test]
fn span_attr() {
    assert_eq!(render("|abc|{.def}"), "<p><span class=\"def\">abc</span></p>\n");
    assert_eq!(render("||{.cls}"), "<p>||{.cls}</p>\n");
    assert_eq!(
        render("not |attached| {#id}."),
        "<p>not <span>attached</span> {#id}.</p>\n"
    );
}

#[test]
fn span_attr_cont() {
    assert_eq!(
        render("|x_y|{.bar_}"),
        r#"<p><span class="bar_">x_y</span></p>
"#
    );
}

#[test]
fn container_marker() {
    assert_eq!(render("{}"), "<p>{}</p>\n");
    assert_eq!(render("{inner}"), "<p>{inner}</p>\n");
    assert_eq!(render("*abc*{}"), "<p><em>abc</em></p>\n");
}

#[test]
fn container_basic() {
    assert_eq!(render("_abc_"), "<p><em>abc</em></p>\n");
    assert_eq!(render("{_abc_}"), "<p>{<em>abc</em>}</p>\n");
    assert_eq!(render("{_{_abc_}_}"), "<p>{<em>{<em>abc</em>}</em>}</p>\n");
}

#[test]
fn container_unclosed_attr() {
    assert_eq!(render("^.^{unclosed"), "<p><sup>.</sup>{unclosed</p>\n");
}

#[test]
fn verbatim_unclosed_attr() {
    assert_eq!(render("`.`{unclosed"), "<p><code>.</code>{unclosed</p>\n");
}

#[test]
fn container_unopened() {
    assert_eq!(render("*}abc"), "<p>*}abc</p>\n");
}

#[test]
fn container_close_block() {
    assert_eq!(render("{_abc"), "<p>{_abc</p>\n");
    assert_eq!(render("{_{*{_abc"), "<p>{_{*{_abc</p>\n");
}

#[test]
fn container_attr() {
    assert_eq!(
        render("_abc def_{.attr}"),
        r#"<p><em class="attr">abc def</em></p>
"#
    );
}

#[test]
fn container_attr_empty() {
    assert_eq!(render("_abc def_{}"), "<p><em>abc def</em></p>\n");
    assert_eq!(render("_abc def_{ % comment % } ghi"), "<p><em>abc def</em> ghi</p>\n");
}

#[test]
fn container_attr_multiple() {
    assert_eq!(
        render("_abc def_{}{}{.a}{}{.b}"),
        r#"<p><em class="a b">abc def</em></p>
"#
    );
    assert_eq!(
        render("_abc def_{.a}{.b}{.c} {.d}"),
        r#"<p><em class="a b c">abc def</em> {.d}</p>
"#
    );
}

#[test]
fn attr() {
    assert_eq!(render("word{a=b}"), "<p>word{a=b}</p>\n");
    assert_eq!(
        render("some word{.a}{.b} with attrs"),
        "<p>some word{.a}{.b} with attrs</p>\n"
    );
}

#[test]
fn attr_whitespace() {
    assert_eq!(render("word {%comment%}"), "<p>word {%comment%}</p>\n");
    assert_eq!(render("word {%comment%} word"), "<p>word {%comment%} word</p>\n");
    assert_eq!(render("word {a=b}"), "<p>word {a=b}</p>\n");
    assert_eq!(render(" {a=b}"), "<p>{a=b}</p>\n");
}

#[test]
fn attr_start() {
    assert_eq!(render("{a=b} word"), "<p>{a=b} word</p>\n");
}

#[test]
fn attr_empty() {
    assert_eq!(render("word{}"), "<p>word{}</p>\n");
    assert_eq!(
        render("word{ % comment % } trail"),
        "<p>word{ % comment % } trail</p>\n"
    );
}

#[test]
fn quote() {
    assert_eq!(render("'a'"), "<p>'a'</p>\n");
    assert_eq!(render(" 'a' "), "<p>'a'</p>\n");
}

#[test]
fn quote_attr() {
    assert_eq!(render("'a'{.b}"), "<p>'a'{.b}</p>\n");
}
