//! HTML attributes written after an element, like `{ #id .class key=val }`:
//! Djot-style inline and block attributes.
use vstd::prelude::*;

use crate::jotdown_attr::{
    lemma_unique_pairs_keys_distinct, parse_attrs, parse_attributes, unescape, unique_pairs,
    unique_pairs_from,
};
use crate::text::{
    chars_of, is_unicode_whitespace, is_whitespace, lemma_ascii_is_boundary,
    lemma_boundary_after_ascii, lemma_str_bytes_valid, string_from_chars,
};
use vstd::string::StrSliceExecFns;
use vstd::string::StringExecFns;
use vstd::string::StringSliceAdditionalSpecFns;
use vstd::utf8::*;

pub mod walk;

verus! {

/// The core rule that applies attributes: first inline, then block ones,
/// each pass over every node of the tree.
pub struct AttrsRule;

// ---------------------------------------------------------------------------
// Locating attribute blocks in text
// ---------------------------------------------------------------------------

/// Scanning from byte `i`, inside a double-quoted value or not: the index of
/// the first `}` outside quotes. A backslash inside quotes escapes the next
/// character; outside quotes it is literal.
pub open spec fn closing_brace_from(b: Seq<u8>, i: int, in_quote: bool) -> Option<int>
    decreases b.len() + 2 - i,
{
    if i < 0 || i >= b.len() {
        None
    } else if b[i] == 92u8 && in_quote {
        closing_brace_from(b, i + 2, true)
    } else if b[i] == 34u8 {
        closing_brace_from(b, i + 1, !in_quote)
    } else if b[i] == 125u8 && !in_quote {
        Some(i)
    } else {
        closing_brace_from(b, i + 1, in_quote)
    }
}

proof fn lemma_closing_brace_bounds(b: Seq<u8>, i: int, in_quote: bool)
    ensures
        closing_brace_from(b, i, in_quote) matches Some(c) ==> i <= c < b.len() && b[c] == 125u8,
    decreases b.len() + 2 - i,
{
    if !(i < 0 || i >= b.len()) {
        if b[i] == 92u8 && in_quote {
            lemma_closing_brace_bounds(b, i + 2, true);
        } else if b[i] == 34u8 {
            lemma_closing_brace_bounds(b, i + 1, !in_quote);
        } else if !(b[i] == 125u8 && !in_quote) {
            lemma_closing_brace_bounds(b, i + 1, in_quote);
        }
    }
}

fn closing_brace_at(b: &[u8], start: usize) -> (r: Option<usize>)
    ensures
        r == (match closing_brace_from(b@, start as int, false) {
            Some(c) => Some(c as usize),
            None => None::<usize>,
        }),
        r matches Some(c) ==> start <= c < b@.len() && b@[c as int] == 125u8,
{
    proof {
        lemma_closing_brace_bounds(b@, start as int, false);
    }
    let mut in_quote = false;
    let mut i = start;
    while i < b.len()
        invariant
            start <= i,
            closing_brace_from(b@, start as int, false) == closing_brace_from(b@, i as int, in_quote),
        decreases b@.len() - i,
    {
        let c = b[i];
        if c == 92u8 && in_quote {
            if b.len() - i < 2 {
                assert(closing_brace_from(b@, i + 2, true) is None);
                return None;
            }
            i = i + 2;
        } else if c == 34u8 {
            in_quote = !in_quote;
            i = i + 1;
        } else if c == 125u8 && !in_quote {
            return Some(i);
        } else {
            i = i + 1;
        }
    }
    None
}

/// Find the byte index of the closing `}`, respecting double-quoted values and
/// backslash escapes inside them (Jotdown's quoting rules).
pub fn find_closing_brace(s: &str) -> (r: Option<usize>)
    ensures
        r == (match closing_brace_from(s.spec_bytes(), 0, false) {
            Some(c) => Some(c as usize),
            None => None::<usize>,
        }),
{
    closing_brace_at(s.as_bytes(), 0)
}

/// Starting at `pos`: the end of the run of back-to-back `{...}` blocks.
pub open spec fn attrs_end_from(b: Seq<u8>, pos: int) -> int
    decreases b.len() - pos,
{
    if pos < 0 || pos >= b.len() || b[pos] != 123u8 {
        pos
    } else {
        match closing_brace_from(b, pos + 1, false) {
            Some(c) => if pos + 1 <= c < b.len() {
                attrs_end_from(b, c + 1)
            } else {
                pos
            },
            None => pos,
        }
    }
}

/// The length in bytes of the leading run of attribute blocks of `b`.
pub open spec fn attrs_prefix_len(b: Seq<u8>) -> int {
    attrs_end_from(b, 0)
}

proof fn lemma_attrs_end_bounds(b: Seq<u8>, pos: int)
    requires
        0 <= pos <= b.len(),
        valid_utf8(b),
        is_char_boundary(b, pos),
    ensures
        pos <= attrs_end_from(b, pos) <= b.len(),
        is_char_boundary(b, attrs_end_from(b, pos)),
    decreases b.len() - pos,
{
    if !(pos < 0 || pos >= b.len() || b[pos] != 123u8) {
        lemma_closing_brace_bounds(b, pos + 1, false);
        if let Some(c) = closing_brace_from(b, pos + 1, false) {
            lemma_ascii_is_boundary(b, c);
            lemma_boundary_after_ascii(b, c);
            lemma_attrs_end_bounds(b, c + 1);
        }
    }
}

/// Split `s` into its leading attribute blocks (`{...}{...}`, back to back)
/// and the rest; together they are `s`.
pub fn split_attrs_remaining(s: &str) -> (r: (&str, &str))
    ensures
        r.0.spec_bytes() == s.spec_bytes().take(attrs_prefix_len(s.spec_bytes())),
        r.1.spec_bytes() == s.spec_bytes().skip(attrs_prefix_len(s.spec_bytes())),
        r.0@ + r.1@ == s@,
{
    let b = s.as_bytes();
    proof {
        lemma_str_bytes_valid(s);
        lemma_attrs_end_bounds(b@, 0);
    }
    let mut pos: usize = 0;
    let mut done = false;
    while !done && pos < b.len() && b[pos] == 123u8
        invariant
            pos <= b@.len(),
            b@ == s.spec_bytes(),
            valid_utf8(b@),
            is_char_boundary(b@, pos as int),
            attrs_end_from(b@, 0) == attrs_end_from(b@, pos as int),
            done ==> attrs_end_from(b@, pos as int) == pos,
        decreases b@.len() - pos, if done { 0int } else { 1int },
    {
        proof {
            lemma_closing_brace_bounds(b@, pos + 1, false);
        }
        match closing_brace_at(b, pos + 1) {
            Some(close) => {
                proof {
                    lemma_ascii_is_boundary(b@, close as int);
                    lemma_boundary_after_ascii(b@, close as int);
                }
                pos = close + 1;
            },
            None => {
                done = true;
            },
        }
    }
    let r = s.split_at(pos);
    proof {
        decode_utf8_split(b@, pos as int);
        encode_utf8_decode_utf8(s@);
        encode_utf8_decode_utf8(r.0@);
        encode_utf8_decode_utf8(r.1@);
        assert(b@.subrange(0, pos as int) =~= r.0.spec_bytes());
        assert(b@.subrange(pos as int, b@.len() as int) =~= r.1.spec_bytes());
    }
    r
}

// ---------------------------------------------------------------------------
// Parsing attribute sets
// ---------------------------------------------------------------------------

/// `s` without leading whitespace.
pub open spec fn trim_start_ws(s: Seq<char>) -> Seq<char>
    decreases s.len(),
{
    if s.len() > 0 && is_unicode_whitespace(s[0]) {
        trim_start_ws(s.drop_first())
    } else {
        s
    }
}

/// `s` without trailing whitespace.
pub open spec fn trim_end_ws(s: Seq<char>) -> Seq<char>
    decreases s.len(),
{
    if s.len() > 0 && is_unicode_whitespace(s.last()) {
        trim_end_ws(s.drop_last())
    } else {
        s
    }
}

/// `str::trim`: leading and trailing whitespace removed.
pub open spec fn trim_ws(s: Seq<char>) -> Seq<char> {
    trim_end_ws(trim_start_ws(s))
}

/// Braces added around the text unless it already starts with one.
pub open spec fn braced(t: Seq<char>) -> Seq<char> {
    if t.len() > 0 && t[0] == '{' {
        t
    } else {
        seq!['{'] + t + seq!['}']
    }
}

/// The pairs `{...}` (or bare `.class #id ...`) gives an element: nothing when
/// it is blank or does not parse.
pub open spec fn jotdown_pairs(input: Seq<char>) -> Seq<(Seq<char>, Seq<char>)> {
    let t = trim_ws(input);
    if t.len() == 0 {
        seq![]
    } else {
        match parse_attrs(braced(t)) {
            None => seq![],
            Some(elems) => unique_pairs_from(elems, 0).map_values(
                |p: (Seq<char>, Seq<char>)| (p.0, unescape(p.1)),
            ),
        }
    }
}

proof fn lemma_trim_start_head(s: Seq<char>)
    ensures
        trim_start_ws(s).len() == 0 || !is_unicode_whitespace(trim_start_ws(s)[0]),
    decreases s.len(),
{
    if s.len() > 0 && is_unicode_whitespace(s[0]) {
        lemma_trim_start_head(s.drop_first());
    }
}

proof fn lemma_trim_end_prefix(s: Seq<char>)
    ensures
        trim_end_ws(s).len() <= s.len(),
        trim_end_ws(s) == s.take(trim_end_ws(s).len() as int),
        trim_end_ws(s).len() == 0 || !is_unicode_whitespace(trim_end_ws(s).last()),
    decreases s.len(),
{
    if s.len() > 0 && is_unicode_whitespace(s.last()) {
        lemma_trim_end_prefix(s.drop_last());
        assert(s.drop_last().take(trim_end_ws(s).len() as int) =~= s.take(
            trim_end_ws(s).len() as int,
        ));
    } else {
        assert(s.take(s.len() as int) =~= s);
    }
}

/// Trimming twice is trimming once.
proof fn lemma_trim_idempotent(s: Seq<char>)
    ensures
        trim_ws(trim_ws(s)) == trim_ws(s),
{
    let y = trim_start_ws(s);
    let z = trim_end_ws(y);
    lemma_trim_start_head(s);
    lemma_trim_end_prefix(y);
    if z.len() > 0 {
        assert(z[0] == y[0]);
    }
    assert(trim_start_ws(z) == z);
    assert(trim_end_ws(z) == z);
}

/// Whitespace around attributes does not matter: the text is trimmed first.
pub proof fn lemma_jotdown_pairs_trimmed(input: Seq<char>)
    ensures
        jotdown_pairs(input) == jotdown_pairs(trim_ws(input)),
{
    lemma_trim_idempotent(input);
}

/// Bare attributes read as if written in braces: `.a #b` as `{.a #b}`.
pub proof fn lemma_jotdown_pairs_bare(input: Seq<char>)
    requires
        trim_ws(input).len() > 0,
        trim_ws(input)[0] != '{',
    ensures
        jotdown_pairs(input) == jotdown_pairs(seq!['{'] + trim_ws(input) + seq!['}']),
{
    let w = seq!['{'] + trim_ws(input) + seq!['}'];
    assert(w[0] == '{');
    assert(w.last() == '}');
    assert(trim_start_ws(w) == w);
    assert(trim_end_ws(w) == w);
}

/// Parsed attributes name each attribute once.
pub proof fn lemma_jotdown_pairs_unique_keys(input: Seq<char>)
    ensures
        forall|a: int, b: int|
            0 <= a < b < jotdown_pairs(input).len() ==> (#[trigger] jotdown_pairs(input)[a]).0 != (
            #[trigger] jotdown_pairs(input)[b]).0,
{
    let t = trim_ws(input);
    if t.len() > 0 {
        match parse_attrs(braced(t)) {
            None => {},
            Some(elems) => {
                lemma_unique_pairs_keys_distinct(elems);
                let u = unique_pairs_from(elems, 0);
                assert forall|a: int, b: int|
                    0 <= a < b < jotdown_pairs(input).len() implies (
                    #[trigger] jotdown_pairs(input)[a]).0 != (#[trigger] jotdown_pairs(input)[b]).0 by {
                    assert(jotdown_pairs(input)[a].0 == u[a].0);
                    assert(jotdown_pairs(input)[b].0 == u[b].0);
                }
            },
        }
    }
}

pub open spec fn pairs_view(v: Seq<(String, String)>) -> Seq<(Seq<char>, Seq<char>)> {
    v.map_values(|p: (String, String)| (p.0@, p.1@))
}

/// Parse attributes the Djot way. Accepts `{.class #id}` or the bare
/// `.class #id` (braces are added); invalid or empty input gives no pairs.
pub fn parse_jotdown(input: &str) -> (r: Vec<(String, String)>)
    ensures
        pairs_view(r@) == jotdown_pairs(input@),
{
    let chars = chars_of(input);
    let ghost s = input@;
    // trim
    let mut a: usize = 0;
    assert(s.skip(0) =~= s);
    while a < chars.len() && is_whitespace(chars[a])
        invariant
            chars@ == s,
            a <= s.len(),
            trim_start_ws(s) == trim_start_ws(s.skip(a as int)),
        decreases s.len() - a,
    {
        assert(s.skip(a as int).drop_first() =~= s.skip(a + 1));
        a = a + 1;
    }
    assert(trim_start_ws(s.skip(a as int)) == s.skip(a as int));
    let mut b: usize = chars.len();
    assert(s.subrange(a as int, b as int) =~= s.skip(a as int));
    while b > a && is_whitespace(chars[b - 1])
        invariant
            chars@ == s,
            a <= b <= s.len(),
            trim_ws(s) == trim_end_ws(s.subrange(a as int, b as int)),
        decreases b,
    {
        assert(s.subrange(a as int, b as int).drop_last() =~= s.subrange(a as int, b - 1));
        b = b - 1;
    }
    let ghost t = s.subrange(a as int, b as int);
    assert(trim_end_ws(t) == t);
    if a == b {
        let r: Vec<(String, String)> = Vec::new();
        assert(pairs_view(r@) =~= Seq::<(Seq<char>, Seq<char>)>::empty());
        return r;
    }
    // braces
    let mut to_parse: Vec<char> = Vec::new();
    let wrap = chars[a] != '{';
    if wrap {
        to_parse.push('{');
    }
    let mut k = a;
    while k < b
        invariant
            chars@ == s,
            a <= k <= b <= s.len(),
            to_parse@ == (if wrap { seq!['{'] } else { seq![] }) + s.subrange(a as int, k as int),
        decreases b - k,
    {
        to_parse.push(chars[k]);
        assert(s.subrange(a as int, k + 1) =~= s.subrange(a as int, k as int).push(s[k as int]));
        k = k + 1;
    }
    if wrap {
        to_parse.push('}');
    }
    assert(to_parse@ =~= braced(t));
    match parse_attributes(&to_parse) {
        None => {
            let r: Vec<(String, String)> = Vec::new();
            assert(pairs_view(r@) =~= Seq::<(Seq<char>, Seq<char>)>::empty());
            r
        },
        Some(elems) => {
            let pairs = unique_pairs(&elems);
            let ghost target = pairs@.map_values(|p: (Vec<char>, Vec<char>)| (p.0@, p.1@));
            let mut r: Vec<(String, String)> = Vec::new();
            let mut m: usize = 0;
            while m < pairs.len()
                invariant
                    m <= pairs@.len(),
                    target == pairs@.map_values(|p: (Vec<char>, Vec<char>)| (p.0@, p.1@)),
                    pairs_view(r@) == target.take(m as int),
                decreases pairs@.len() - m,
            {
                let key = string_from_chars(pairs[m].0.as_slice());
                let value = string_from_chars(pairs[m].1.as_slice());
                let ghost r0 = pairs_view(r@);
                r.push((key, value));
                assert(pairs_view(r@) =~= r0.push((key@, value@)));
                assert(target.take(m + 1) =~= target.take(m as int).push(target[m as int]));
                m = m + 1;
            }
            assert(target.take(m as int) =~= target);
            r
        },
    }
}

// ---------------------------------------------------------------------------
// The syntax tree the passes work on
// ---------------------------------------------------------------------------

/// What the attribute passes need to know of a node's type.
#[derive(PartialEq, Eq, Structural, Clone, Copy)]
pub enum NodeKind {
    Text,
    TextSpecial,
    Softbreak,
    Paragraph,
    ListItem,
    HtmlBlock,
    Other,
}

/// A node of the markdown syntax tree: its type, its text (for text nodes),
/// its HTML attributes and its children. `id` names the node it stands for.
pub struct AstNode {
    pub id: usize,
    pub kind: NodeKind,
    pub content: String,
    pub attrs: Vec<(String, String)>,
    pub children: Vec<AstNode>,
}

/// A node as plain values.
pub struct NodeView {
    pub id: usize,
    pub kind: NodeKind,
    pub content: Seq<char>,
    pub attrs: Seq<(Seq<char>, Seq<char>)>,
    pub children: Seq<NodeView>,
}

pub open spec fn node_view(n: AstNode) -> NodeView
    decreases n,
{
    NodeView {
        id: n.id,
        kind: n.kind,
        content: n.content@,
        attrs: pairs_view(n.attrs@),
        children: nodes_view(n.children@),
    }
}

pub open spec fn nodes_view(s: Seq<AstNode>) -> Seq<NodeView>
    decreases s,
{
    if s.len() == 0 {
        seq![]
    } else {
        nodes_view(s.drop_last()).push(node_view(s.last()))
    }
}

pub(crate) proof fn lemma_nodes_view(s: Seq<AstNode>)
    ensures
        nodes_view(s).len() == s.len(),
        forall|k: int| 0 <= k < s.len() ==> #[trigger] nodes_view(s)[k] == node_view(s[k]),
    decreases s.len(),
{
    if s.len() > 0 {
        lemma_nodes_view(s.drop_last());
        assert forall|k: int| 0 <= k < s.len() implies #[trigger] nodes_view(s)[k] == node_view(
            s[k],
        ) by {
            if k < s.len() - 1 {
                assert(s.drop_last()[k] == s[k]);
            }
        }
    }
}

// ---------------------------------------------------------------------------
// Attribute text in text nodes
// ---------------------------------------------------------------------------

/// A text split into its leading attribute blocks and the rest.
pub open spec fn attrs_split(content: Seq<char>) -> (Seq<char>, Seq<char>) {
    let b = encode_utf8(content);
    let p = attrs_prefix_len(b);
    (decode_utf8(b.take(p)), decode_utf8(b.skip(p)))
}

fn split_text(content: &String) -> (r: (String, String))
    ensures
        (r.0@, r.1@) == attrs_split(content@),
{
    let (a, rest) = split_attrs_remaining(content.as_str());
    let a2 = a.to_owned();
    let r2 = rest.to_owned();
    proof {
        encode_utf8_decode_utf8(a@);
        encode_utf8_decode_utf8(rest@);
    }
    (a2, r2)
}

/// The attribute text of a text node made only of attribute blocks.
pub open spec fn attr_only_text(n: NodeView) -> Option<Seq<char>> {
    if n.kind != NodeKind::Text {
        None
    } else {
        let (a, rest) = attrs_split(n.content);
        if a.len() == 0 || rest.len() != 0 {
            None
        } else {
            Some(a)
        }
    }
}

/// If `node` is a text node made only of attribute blocks, their text.
pub fn is_attr_only_text(node: &AstNode) -> (r: Option<String>)
    ensures
        match r {
            Some(a) => attr_only_text(node_view(*node)) == Some(a@),
            None => attr_only_text(node_view(*node)) is None,
        },
{
    if node.kind != NodeKind::Text {
        return None;
    }
    let (a, rest) = split_text(&node.content);
    if a.as_str().is_empty() || !rest.as_str().is_empty() {
        return None;
    }
    Some(a)
}

/// After the first attribute-only text at `j - 1`: further (softbreak, attribute-only text) pairs.
pub open spec fn scan_more(ch: Seq<NodeView>, j: int, acc: Seq<char>) -> (Seq<char>, int)
    decreases ch.len() - j,
{
    if 0 <= j && j + 1 < ch.len() && ch[j].kind == NodeKind::Softbreak && attr_only_text(
        ch[j + 1],
    ) is Some {
        scan_more(ch, j + 2, acc + attr_only_text(ch[j + 1]).unwrap())
    } else {
        (acc, j)
    }
}

/// A leading run `TA [SB TA]*` of attribute-only texts separated by
/// softbreaks: their attribute text and the index past the last one.
pub open spec fn leading_attrs(ch: Seq<NodeView>) -> Option<(Seq<char>, int)> {
    if ch.len() == 0 {
        None
    } else {
        match attr_only_text(ch[0]) {
            None => None,
            Some(a) => Some(scan_more(ch, 1, a)),
        }
    }
}

pub(crate) proof fn lemma_scan_more_bounds(ch: Seq<NodeView>, j: int, acc: Seq<char>)
    requires
        1 <= j <= ch.len(),
    ensures
        j <= scan_more(ch, j, acc).1 <= ch.len(),
    decreases ch.len() - j,
{
    if 0 <= j && j + 1 < ch.len() && ch[j].kind == NodeKind::Softbreak && attr_only_text(
        ch[j + 1],
    ) is Some {
        lemma_scan_more_bounds(ch, j + 2, acc + attr_only_text(ch[j + 1]).unwrap());
    }
}

/// Scans a paragraph's inline children for a leading sequence of
/// attribute-only text nodes separated by softbreaks. Returns all their
/// attribute text and the index past the last one consumed, or `None` when
/// the first child is not an attribute-only text.
pub fn scan_leading_attrs(children: &Vec<AstNode>) -> (r: Option<(String, usize)>)
    ensures
        match r {
            Some((a, j)) => leading_attrs(nodes_view(children@)) == Some((a@, j as int)),
            None => leading_attrs(nodes_view(children@)) is None,
        },
        r matches Some((a, j)) ==> 1 <= j <= children@.len(),
{
    proof {
        lemma_nodes_view(children@);
    }
    let ghost ch = nodes_view(children@);
    if children.len() == 0 {
        return None;
    }
    let first = match is_attr_only_text(&children[0]) {
        Some(a) => a,
        None => {
            return None;
        },
    };
    let mut all_attrs = String::new();
    all_attrs.append(first.as_str());
    let mut j: usize = 1;
    let mut done = false;
    while !done && j < children.len() - 1
        invariant
            ch == nodes_view(children@),
            ch.len() == children@.len(),
            forall|k: int| 0 <= k < ch.len() ==> #[trigger] ch[k] == node_view(children@[k]),
            1 <= j <= children@.len(),
            leading_attrs(ch) == Some(scan_more(ch, j as int, all_attrs@)),
            done ==> scan_more(ch, j as int, all_attrs@) == (all_attrs@, j as int),
        decreases children@.len() - j, if done { 0int } else { 1int },
    {
        assert(ch[j as int] == node_view(children@[j as int]));
        assert(ch[j + 1] == node_view(children@[j + 1]));
        if children[j].kind != NodeKind::Softbreak {
            done = true;
        } else {
            match is_attr_only_text(&children[j + 1]) {
                Some(attrs) => {
                    all_attrs.append(attrs.as_str());
                    j = j + 2;
                },
                None => {
                    done = true;
                },
            }
        }
    }
    proof {
        lemma_scan_more_bounds(ch, j as int, all_attrs@);
    }
    Some((all_attrs, j))
}

// ---------------------------------------------------------------------------
// Editing children
// ---------------------------------------------------------------------------

proof fn lemma_nodes_view_push(s: Seq<AstNode>, x: AstNode)
    ensures
        nodes_view(s.push(x)) == nodes_view(s).push(node_view(x)),
{
    assert(s.push(x).drop_last() =~= s);
}

pub(crate) proof fn lemma_nodes_view_update(s: Seq<AstNode>, k: int, x: AstNode)
    requires
        0 <= k < s.len(),
    ensures
        nodes_view(s.update(k, x)) == nodes_view(s).update(k, node_view(x)),
{
    lemma_nodes_view(s);
    lemma_nodes_view(s.update(k, x));
    assert(nodes_view(s.update(k, x)) =~= nodes_view(s).update(k, node_view(x)));
}

proof fn lemma_nodes_view_skip(s: Seq<AstNode>, k: int)
    requires
        0 <= k <= s.len(),
    ensures
        nodes_view(s.skip(k)) == nodes_view(s).skip(k),
{
    lemma_nodes_view(s);
    lemma_nodes_view(s.skip(k));
    assert(nodes_view(s.skip(k)) =~= nodes_view(s).skip(k));
}

pub(crate) fn placeholder() -> (n: AstNode)
    ensures
        node_view(n) == (NodeView {
            id: 0,
            kind: NodeKind::Other,
            content: seq![],
            attrs: seq![],
            children: seq![],
        }),
{
    let n = AstNode { id: 0, kind: NodeKind::Other, content: String::new(), attrs: Vec::new(), children: Vec::new() };
    assert(n.content@ =~= Seq::<char>::empty());
    assert(pairs_view(n.attrs@) =~= Seq::<(Seq<char>, Seq<char>)>::empty());
    assert(nodes_view(n.children@) =~= Seq::<NodeView>::empty());
    n
}

fn swap_nodes(v: &mut Vec<AstNode>, a: usize, b: usize)
    requires
        a < old(v)@.len(),
        b < old(v)@.len(),
        a != b,
    ensures
        final(v)@ == old(v)@.update(a as int, old(v)@[b as int]).update(b as int, old(v)@[a as int]),
{
    let ghost o = v@;
    let mut tmp = placeholder();
    v.set_and_swap(a, &mut tmp);
    v.set_and_swap(b, &mut tmp);
    v.set_and_swap(a, &mut tmp);
    assert(v@ =~= o.update(a as int, o[b as int]).update(b as int, o[a as int]));
}

fn push_pairs(attrs: &mut Vec<(String, String)>, pairs: &Vec<(String, String)>)
    ensures
        pairs_view(final(attrs)@) == pairs_view(old(attrs)@) + pairs_view(pairs@),
{
    let ghost a0 = pairs_view(attrs@);
    let mut k: usize = 0;
    while k < pairs.len()
        invariant
            k <= pairs@.len(),
            pairs_view(attrs@) == a0 + pairs_view(pairs@).take(k as int),
        decreases pairs@.len() - k,
    {
        let key = pairs[k].0.clone();
        let value = pairs[k].1.clone();
        let ghost before = pairs_view(attrs@);
        attrs.push((key, value));
        assert(pairs_view(attrs@) =~= before.push((key@, value@)));
        assert(pairs_view(pairs@).take(k + 1) =~= pairs_view(pairs@).take(k as int).push(
            pairs_view(pairs@)[k as int],
        ));
        k = k + 1;
    }
    assert(pairs_view(pairs@).take(k as int) =~= pairs_view(pairs@));
}

fn drain_front(v: &mut Vec<AstNode>, k: usize)
    requires
        k <= old(v)@.len(),
    ensures
        final(v)@ == old(v)@.skip(k as int),
{
    let ghost o = v@;
    let mut m: usize = 0;
    while m < k
        invariant
            m <= k <= o.len(),
            v@ == o.skip(m as int),
        decreases k - m,
    {
        v.remove(0);
        assert(o.skip(m as int).remove(0) =~= o.skip(m + 1));
        m = m + 1;
    }
}

/// `s` without the entries whose index is listed in `rm`.
pub open spec fn keep_unlisted(s: Seq<NodeView>, rm: Seq<int>) -> Seq<NodeView>
    decreases s.len(),
{
    if s.len() == 0 {
        seq![]
    } else {
        let prev = keep_unlisted(s.drop_last(), rm);
        if rm.contains(s.len() - 1) {
            prev
        } else {
            prev.push(s.last())
        }
    }
}

pub open spec fn as_ints(v: Seq<usize>) -> Seq<int> {
    v.map_values(|k: usize| k as int)
}

pub open spec fn strictly_increasing(v: Seq<usize>) -> bool {
    forall|a: int, b: int| 0 <= a < b < v.len() ==> v[a] < v[b]
}

/// `view` with other children.
pub open spec fn with_children(view: NodeView, children: Seq<NodeView>) -> NodeView {
    NodeView { children, ..view }
}

/// Remove the listed children, keeping the others in order.
fn remove_children(node: &mut AstNode, to_remove: &Vec<usize>)
    requires
        strictly_increasing(to_remove@),
    ensures
        node_view(*final(node)) == with_children(
            node_view(*old(node)),
            keep_unlisted(node_view(*old(node)).children, as_ints(to_remove@)),
        ),
{
    let ghost o = node.children@;
    let ghost rm = as_ints(to_remove@);
    let n = node.children.len();
    let mut ri: usize = 0;
    let mut write: usize = 0;
    let mut read: usize = 0;
    assert(o.take(0) =~= Seq::<AstNode>::empty());
    assert(node.children@.take(0) =~= Seq::<AstNode>::empty());
    while read < n
        invariant
            n == o.len(),
            node.children@.len() == n,
            rm == as_ints(to_remove@),
            strictly_increasing(to_remove@),
            write <= read <= n,
            ri <= to_remove@.len(),
            forall|k: int| 0 <= k < ri ==> (#[trigger] to_remove@[k]) < read,
            forall|k: int| ri <= k < to_remove@.len() ==> (#[trigger] to_remove@[k]) >= read,
            nodes_view(node.children@.take(write as int)) == keep_unlisted(
                nodes_view(o.take(read as int)),
                rm,
            ),
            forall|k: int| read <= k < n ==> #[trigger] node.children@[k] == o[k],
            node.id == old(node).id,
            node.kind == old(node).kind,
            node.content == old(node).content,
            node.attrs == old(node).attrs,
            o == old(node).children@,
        decreases n - read,
    {
        let ghost pre = node.children@;
        let ghost ov = nodes_view(o.take(read + 1));
        proof {
            assert(o.take(read + 1).drop_last() =~= o.take(read as int));
            assert(o.take(read + 1).last() == o[read as int]);
            assert(ov.drop_last() == nodes_view(o.take(read as int)));
            assert(ov.last() == node_view(o[read as int]));
            assert(ov.len() - 1 == read) by {
                lemma_nodes_view(o.take(read + 1));
            }
        }
        if ri < to_remove.len() && to_remove[ri] == read {
            proof {
                assert(rm.contains(read as int)) by {
                    assert(rm[ri as int] == read);
                }
            }
            ri = ri + 1;
        } else {
            proof {
                assert(!rm.contains(read as int)) by {
                    if rm.contains(read as int) {
                        let k = choose|k: int| 0 <= k < rm.len() && rm[k] == read;
                        assert(to_remove@[k] == read);
                        if k < ri {
                        } else if k > ri {
                            assert(to_remove@[ri as int] < to_remove@[k]);
                        }
                    }
                }
            }
            if write != read {
                swap_nodes(&mut node.children, write, read);
            }
            proof {
                assert(node.children@.take(write + 1) =~= pre.take(write as int).push(o[read as int]));
                lemma_nodes_view_push(pre.take(write as int), o[read as int]);
                assert(pre.take(write as int) =~= node.children@.take(write as int).take(
                    write as int,
                ));
            }
            write = write + 1;
        }
        read = read + 1;
    }
    node.children.truncate(write);
    proof {
        assert(o.take(n as int) =~= o);
        assert(node.children@ =~= node.children@.take(write as int));
    }
}

// ---------------------------------------------------------------------------
// Inline attributes: `*text*{.class}`
// ---------------------------------------------------------------------------

/// Plain inline content, which attributes never attach to.
pub open spec fn is_plain_inline(k: NodeKind) -> bool {
    k == NodeKind::Text || k == NodeKind::TextSpecial || k == NodeKind::Softbreak
}

pub open spec fn starts_with_brace(c: Seq<char>) -> bool {
    c.len() > 0 && c[0] == '{'
}

/// `n` with `extra` appended to its attributes.
pub open spec fn with_attrs(n: NodeView, extra: Seq<(Seq<char>, Seq<char>)>) -> NodeView {
    NodeView { attrs: n.attrs + extra, ..n }
}

/// One child of the inline pass: a text starting with attribute blocks right
/// after a structural inline element gives that element the attributes; the
/// text keeps what follows the blocks, or is marked for removal.
pub open spec fn inline_step(ch: Seq<NodeView>, rm: Seq<int>, i: int) -> (Seq<NodeView>, Seq<int>) {
    if is_plain_inline(ch[i - 1].kind) || ch[i].kind != NodeKind::Text || !starts_with_brace(
        ch[i].content,
    ) {
        (ch, rm)
    } else {
        let (a, rest) = attrs_split(ch[i].content);
        if a.len() == 0 {
            (ch, rm)
        } else {
            let ch2 = ch.update(i - 1, with_attrs(ch[i - 1], jotdown_pairs(a)));
            if rest.len() > 0 {
                (ch2.update(i, NodeView { content: rest, ..ch2[i] }), rm)
            } else {
                (ch2, rm.push(i))
            }
        }
    }
}

pub open spec fn inline_fold(ch: Seq<NodeView>, rm: Seq<int>, i: int, n: int) -> (Seq<NodeView>, Seq<int>)
    decreases n - i,
{
    if i < 1 || i >= n || ch.len() != n {
        (ch, rm)
    } else {
        let (c2, r2) = inline_step(ch, rm, i);
        inline_fold(c2, r2, i + 1, n)
    }
}

/// The children after the inline pass.
pub open spec fn inline_children(ch: Seq<NodeView>) -> Seq<NodeView> {
    let (c, rm) = inline_fold(ch, seq![], 1, ch.len() as int);
    keep_unlisted(c, rm)
}

fn starts_with_open_brace(s: &String) -> (r: bool)
    ensures
        r == starts_with_brace(s@),
{
    let t = s.as_str();
    !t.is_empty() && t.get_char(0) == '{'
}

/// Append `pairs` to the attributes of child `k`.
fn add_child_attrs(children: &mut Vec<AstNode>, k: usize, pairs: &Vec<(String, String)>)
    requires
        k < old(children)@.len(),
    ensures
        final(children)@.len() == old(children)@.len(),
        nodes_view(final(children)@) == nodes_view(old(children)@).update(
            k as int,
            with_attrs(nodes_view(old(children)@)[k as int], pairs_view(pairs@)),
        ),
{
    proof {
        lemma_nodes_view(children@);
    }
    let ghost c0 = children@;
    let mut child = placeholder();
    children.set_and_swap(k, &mut child);
    let ghost before = node_view(child);
    push_pairs(&mut child.attrs, pairs);
    assert(node_view(child) =~= with_attrs(before, pairs_view(pairs@)));
    children.set_and_swap(k, &mut child);
    proof {
        assert(children@ =~= c0.update(k as int, children@[k as int]));
        lemma_nodes_view_update(c0, k as int, children@[k as int]);
    }
}

/// Replace the text of child `k`.
fn set_child_content(children: &mut Vec<AstNode>, k: usize, content: String)
    requires
        k < old(children)@.len(),
    ensures
        final(children)@.len() == old(children)@.len(),
        nodes_view(final(children)@) == nodes_view(old(children)@).update(
            k as int,
            NodeView { content: content@, ..nodes_view(old(children)@)[k as int] },
        ),
{
    proof {
        lemma_nodes_view(children@);
    }
    let ghost c0 = children@;
    let mut child = placeholder();
    children.set_and_swap(k, &mut child);
    let ghost before = node_view(child);
    child.content = content;
    assert(node_view(child) =~= NodeView { content: content@, ..before });
    children.set_and_swap(k, &mut child);
    proof {
        assert(children@ =~= c0.update(k as int, children@[k as int]));
        lemma_nodes_view_update(c0, k as int, children@[k as int]);
    }
}

/// Apply `{...}` attribute texts to the structural inline element before them
/// (not to plain text or line breaks); texts made only of attributes go away.
pub fn apply_inline_attrs(node: &mut AstNode)
    ensures
        node_view(*final(node)) == with_children(
            node_view(*old(node)),
            inline_children(node_view(*old(node)).children),
        ),
{
    let ghost ov = node_view(*node);
    let n = node.children.len();
    proof {
        lemma_nodes_view(node.children@);
    }
    if n == 0 {
        proof {
            assert(keep_unlisted(ov.children, seq![]) =~= ov.children);
            assert(node_view(*node) =~= with_children(ov, inline_children(ov.children)));
        }
        return;
    }
    let mut to_remove: Vec<usize> = Vec::new();
    let mut i: usize = 1;
    let ghost target = inline_fold(ov.children, seq![], 1, n as int);
    assert(as_ints(to_remove@) =~= Seq::<int>::empty());
    while i < n
        invariant
            1 <= i <= n,
            n == ov.children.len(),
            node.children@.len() == n,
            ov == node_view(*old(node)),
            target == inline_fold(ov.children, seq![], 1, n as int),
            target == inline_fold(nodes_view(node.children@), as_ints(to_remove@), i as int, n as int),
            strictly_increasing(to_remove@),
            forall|k: int| 0 <= k < to_remove@.len() ==> (#[trigger] to_remove@[k]) < i,
            node.id == old(node).id,
            node.kind == old(node).kind,
            node.content == old(node).content,
            node.attrs == old(node).attrs,
        decreases n - i,
    {
        let ghost cur = nodes_view(node.children@);
        let ghost rmv = as_ints(to_remove@);
        proof {
            lemma_nodes_view(node.children@);
            assert(cur.len() == n);
        }
        let prev_kind = node.children[i - 1].kind;
        assert(cur[i - 1].kind == prev_kind);
        if !(prev_kind == NodeKind::Text || prev_kind == NodeKind::TextSpecial || prev_kind
            == NodeKind::Softbreak) && node.children[i].kind == NodeKind::Text
            && starts_with_open_brace(&node.children[i].content) {
            let (a, rest) = split_text(&node.children[i].content);
            if !a.as_str().is_empty() {
                let pairs = parse_jotdown(a.as_str());
                add_child_attrs(&mut node.children, i - 1, &pairs);
                let ghost ch2 = nodes_view(node.children@);
                if !rest.as_str().is_empty() {
                    proof {
                        lemma_nodes_view(node.children@);
                    }
                    set_child_content(&mut node.children, i, rest);
                    assert(nodes_view(node.children@) == inline_step(cur, rmv, i as int).0);
                } else {
                    to_remove.push(i);
                    assert(as_ints(to_remove@) =~= rmv.push(i as int));
                }
            }
        }
        assert((nodes_view(node.children@), as_ints(to_remove@)) == inline_step(cur, rmv, i as int));
        i = i + 1;
    }
    remove_children(node, &to_remove);
}


// ---------------------------------------------------------------------------
// Block attributes: `{.class}` on a line of its own, or leading a paragraph
// ---------------------------------------------------------------------------

/// The block pass over a node's children, as plain values: the node's own
/// attributes, its children, and the indices of the children to remove.
pub struct BlockState {
    pub attrs: Seq<(Seq<char>, Seq<char>)>,
    pub children: Seq<NodeView>,
    pub remove: Seq<int>,
}

/// One child of the block pass. A paragraph or list item that starts with
/// attribute-only texts (`TA [SB TA]*`):
/// - made only of them: a list item takes the attributes itself and loses
///   those texts; a paragraph gives them to the next sibling and goes away,
///   unless there is none (orphan), it is an HTML block, or it starts with
///   attributes of its own (widow); the first paragraph of a list item gives
///   them to the list item;
/// - followed by a softbreak and content: it takes the attributes and loses
///   the attribute texts and that softbreak.
pub open spec fn block_step(parent: NodeKind, s: BlockState, i: int) -> BlockState {
    let ch = s.children;
    let c = ch[i];
    if c.kind != NodeKind::Paragraph && c.kind != NodeKind::ListItem {
        s
    } else {
        match leading_attrs(c.children) {
            None => s,
            Some((raw, j)) => {
                let pairs = jotdown_pairs(raw);
                if pairs.len() == 0 {
                    s
                } else if j == c.children.len() {
                    if c.kind == NodeKind::ListItem {
                        BlockState {
                            children: ch.update(
                                i,
                                NodeView { children: c.children.skip(j), ..with_attrs(c, pairs) },
                            ),
                            ..s
                        }
                    } else if i + 1 >= ch.len() || ch[i + 1].kind == NodeKind::HtmlBlock {
                        s
                    } else if parent == NodeKind::ListItem && i == 0 {
                        BlockState { attrs: s.attrs + pairs, remove: s.remove.push(i), ..s }
                    } else if ch[i + 1].children.len() > 0 && attr_only_text(
                        ch[i + 1].children[0],
                    ) is Some {
                        s
                    } else {
                        BlockState {
                            children: ch.update(i + 1, with_attrs(ch[i + 1], pairs)),
                            remove: s.remove.push(i),
                            ..s
                        }
                    }
                } else if j < c.children.len() && c.children[j].kind == NodeKind::Softbreak {
                    BlockState {
                        children: ch.update(
                            i,
                            NodeView { children: c.children.skip(j + 1), ..with_attrs(c, pairs) },
                        ),
                        ..s
                    }
                } else {
                    s
                }
            },
        }
    }
}

pub open spec fn block_fold(parent: NodeKind, s: BlockState, i: int, n: int) -> BlockState
    decreases n - i,
{
    if i < 0 || i >= n || s.children.len() != n {
        s
    } else {
        block_fold(parent, block_step(parent, s, i), i + 1, n)
    }
}

/// A node after the block pass over its children.
pub open spec fn block_result(v: NodeView) -> NodeView {
    let f = block_fold(
        v.kind,
        BlockState { attrs: v.attrs, children: v.children, remove: seq![] },
        0,
        v.children.len() as int,
    );
    NodeView { attrs: f.attrs, children: keep_unlisted(f.children, f.remove), ..v }
}

/// Drop the first `m` children of child `k`.
fn drain_child(children: &mut Vec<AstNode>, k: usize, m: usize)
    requires
        k < old(children)@.len(),
        m <= nodes_view(old(children)@)[k as int].children.len(),
    ensures
        final(children)@.len() == old(children)@.len(),
        nodes_view(final(children)@) == nodes_view(old(children)@).update(
            k as int,
            NodeView {
                children: nodes_view(old(children)@)[k as int].children.skip(m as int),
                ..nodes_view(old(children)@)[k as int]
            },
        ),
{
    proof {
        lemma_nodes_view(children@);
    }
    let ghost c0 = children@;
    let mut child = placeholder();
    children.set_and_swap(k, &mut child);
    let ghost before = node_view(child);
    let ghost kids = child.children@;
    proof {
        lemma_nodes_view(kids);
    }
    drain_front(&mut child.children, m);
    proof {
        lemma_nodes_view_skip(kids, m as int);
    }
    assert(node_view(child) =~= NodeView { children: before.children.skip(m as int), ..before });
    children.set_and_swap(k, &mut child);
    proof {
        assert(children@ =~= c0.update(k as int, children@[k as int]));
        lemma_nodes_view_update(c0, k as int, children@[k as int]);
    }
}

/// Apply block attributes among the children of `node`; see `block_step`.
pub fn apply_block_attrs(node: &mut AstNode)
    ensures
        node_view(*final(node)) == block_result(node_view(*old(node))),
{
    let ghost ov = node_view(*node);
    let n = node.children.len();
    proof {
        lemma_nodes_view(node.children@);
    }
    let mut to_remove: Vec<usize> = Vec::new();
    assert(as_ints(to_remove@) =~= Seq::<int>::empty());
    let ghost target = block_fold(
        ov.kind,
        BlockState { attrs: ov.attrs, children: ov.children, remove: seq![] },
        0,
        n as int,
    );
    let mut i: usize = 0;
    while i < n
        invariant
            i <= n,
            n == ov.children.len(),
            node.children@.len() == n,
            ov == node_view(*old(node)),
            target == block_fold(
                ov.kind,
                BlockState { attrs: ov.attrs, children: ov.children, remove: seq![] },
                0,
                n as int,
            ),
            target == block_fold(
                ov.kind,
                BlockState {
                    attrs: pairs_view(node.attrs@),
                    children: nodes_view(node.children@),
                    remove: as_ints(to_remove@),
                },
                i as int,
                n as int,
            ),
            strictly_increasing(to_remove@),
            forall|k: int| 0 <= k < to_remove@.len() ==> (#[trigger] to_remove@[k]) < i,
            node.id == old(node).id,
            node.kind == old(node).kind,
            node.content == old(node).content,
        decreases n - i,
    {
        let ghost cur = BlockState {
            attrs: pairs_view(node.attrs@),
            children: nodes_view(node.children@),
            remove: as_ints(to_remove@),
        };
        proof {
            lemma_nodes_view(node.children@);
        }
        let ck = node.children[i].kind;
        assert(cur.children[i as int].kind == ck);
        if ck == NodeKind::Paragraph || ck == NodeKind::ListItem {
            assert(cur.children[i as int].children == nodes_view(node.children@[i as int].children@));
            match scan_leading_attrs(&node.children[i].children) {
                None => {},
                Some((raw, j)) => {
                    let pairs = parse_jotdown(raw.as_str());
                    proof {
                        lemma_nodes_view(node.children@[i as int].children@);
                    }
                    if pairs.len() > 0 {
                        let clen = node.children[i].children.len();
                        if j == clen {
                            if ck == NodeKind::ListItem {
                                add_child_attrs(&mut node.children, i, &pairs);
                                proof {
                                    lemma_nodes_view(node.children@);
                                }
                                drain_child(&mut node.children, i, j);
                                assert(nodes_view(node.children@) =~= block_step(
                                    ov.kind,
                                    cur,
                                    i as int,
                                ).children);
                            } else if i + 1 < n && node.children[i + 1].kind != NodeKind::HtmlBlock {
                                if node.kind == NodeKind::ListItem && i == 0 {
                                    push_pairs(&mut node.attrs, &pairs);
                                    to_remove.push(i);
                                    assert(as_ints(to_remove@) =~= cur.remove.push(i as int));
                                } else {
                                    let ghost next = cur.children[i + 1];
                                    assert(next.children == nodes_view(
                                        node.children@[i + 1].children@,
                                    ));
                                    proof {
                                        lemma_nodes_view(node.children@[i + 1].children@);
                                    }
                                    let first_is_attr = node.children[i + 1].children.len() > 0
                                        && is_attr_only_text(&node.children[i + 1].children[0]).is_some();
                                    if !first_is_attr {
                                        add_child_attrs(&mut node.children, i + 1, &pairs);
                                        to_remove.push(i);
                                        assert(as_ints(to_remove@) =~= cur.remove.push(i as int));
                                    }
                                }
                            }
                        } else if node.children[i].children[j].kind == NodeKind::Softbreak {
                            add_child_attrs(&mut node.children, i, &pairs);
                            proof {
                                lemma_nodes_view(node.children@);
                            }
                            drain_child(&mut node.children, i, j + 1);
                            assert(nodes_view(node.children@) =~= block_step(
                                ov.kind,
                                cur,
                                i as int,
                            ).children);
                        }
                    }
                },
            }
        }
        assert(BlockState {
            attrs: pairs_view(node.attrs@),
            children: nodes_view(node.children@),
            remove: as_ints(to_remove@),
        } == block_step(ov.kind, cur, i as int));
        i = i + 1;
    }
    remove_children(node, &to_remove);
}

} // verus!
