//! Token-level bookkeeping for the HTML validator: which tags open and close
//! where, which tags are void, and where the nth `<tag` of a fragment starts.
use vstd::prelude::*;

use crate::text::str_eq;
use vstd::string::StringSliceAdditionalSpecFns;
use vstd::string::StringExecFns;
use vstd::utf8::encode_utf8;

verus! {

/// A tag opening or closing, at a byte offset of the whole markdown source.
pub struct TagEvent {
    pub tag: String,
    pub is_open: bool,
    pub offset: usize,
}

/// Whether a tag token opens or closes an element.
#[derive(PartialEq, Eq, Structural, Clone, Copy)]
pub enum TagKind {
    StartTag,
    EndTag,
}

/// What the sink reads of one token of the HTML tokenizer.
pub enum SinkToken {
    /// A parse error, with the tokenizer's message.
    ParseError(String),
    /// A start or end tag.
    Tag { kind: TagKind, name: String, self_closing: bool, had_duplicate_attributes: bool },
    /// A run of characters, with its length.
    Characters(usize),
    /// Any other token (doctype, comment, null character, end of input).
    Other,
}

/// The void elements of HTML: they never take a closing tag.
pub open spec fn is_void_name(tag: Seq<char>) -> bool {
    ||| tag == "area"@
    ||| tag == "base"@
    ||| tag == "br"@
    ||| tag == "col"@
    ||| tag == "embed"@
    ||| tag == "hr"@
    ||| tag == "img"@
    ||| tag == "input"@
    ||| tag == "link"@
    ||| tag == "meta"@
    ||| tag == "param"@
    ||| tag == "source"@
    ||| tag == "track"@
    ||| tag == "wbr"@
}

/// Whether `tag` names a void element (`<br>`, `<img>`, ...).
pub fn is_void(tag: &str) -> (r: bool)
    ensures
        r == is_void_name(tag@),
{
    str_eq(tag, "area") || str_eq(tag, "base") || str_eq(tag, "br") || str_eq(tag, "col")
        || str_eq(tag, "embed") || str_eq(tag, "hr") || str_eq(tag, "img") || str_eq(tag, "input")
        || str_eq(tag, "link") || str_eq(tag, "meta") || str_eq(tag, "param") || str_eq(
        tag,
        "source",
    ) || str_eq(tag, "track") || str_eq(tag, "wbr")
}

// ---------------------------------------------------------------------------
// Locating the nth `<tag` / `</tag` of a fragment
// ---------------------------------------------------------------------------

/// The lexical context of the scanner in `find_nth_tag`.
pub enum ScanState {
    Normal,
    InTag,
    InQuote(u8),
    InComment,
}

/// ASCII lower-casing of one byte.
pub open spec fn lower(b: u8) -> u8 {
    if 65 <= b <= 90 {
        (b + 32) as u8
    } else {
        b
    }
}

/// The byte pattern searched for: `<tag` or `</tag`, the tag lower-cased.
pub open spec fn tag_pattern(tag: Seq<u8>, is_start_tag: bool) -> Seq<u8> {
    let lowered = tag.map_values(|b: u8| lower(b));
    if is_start_tag {
        seq![60u8] + lowered
    } else {
        seq![60u8, 47u8] + lowered
    }
}

/// The byte after a tag name ends it: end of input, whitespace, `>` or `/`.
pub open spec fn is_name_end(html: Seq<u8>, j: int) -> bool {
    j >= html.len() || {
        let b = html[j];
        b == 32 || b == 9 || b == 10 || b == 13 || b == 62 || b == 47
    }
}

/// `pat` (lower-case) occurs at `i`, compared case-insensitively, and the tag
/// name ends right after it.
pub open spec fn pattern_at(html: Seq<u8>, pat: Seq<u8>, i: int) -> bool {
    &&& 0 <= i
    &&& i + pat.len() <= html.len()
    &&& html[i] == 60u8
    &&& forall|k: int| 0 <= k < pat.len() ==> lower(#[trigger] html[i + k]) == pat[k]
    &&& is_name_end(html, i + pat.len())
}

/// `<!--` starts at `i`.
pub open spec fn comment_open_at(html: Seq<u8>, i: int) -> bool {
    i + 4 <= html.len() && html[i] == 60u8 && html[i + 1] == 33u8 && html[i + 2] == 45u8
        && html[i + 3] == 45u8
}

/// `-->` starts at `i`.
pub open spec fn comment_close_at(html: Seq<u8>, i: int) -> bool {
    i + 3 <= html.len() && html[i] == 45u8 && html[i + 1] == 45u8 && html[i + 2] == 62u8
}

pub open spec fn state_rank(st: ScanState) -> int {
    if st is InTag {
        1
    } else {
        0
    }
}

/// The positions, in order, at which the scanner, started at byte `i` in state
/// `st`, recognises `pat`: outside comments and quoted attribute values, where
/// a `<` begins a tag.
pub open spec fn tag_matches(html: Seq<u8>, pat: Seq<u8>, i: int, st: ScanState) -> Seq<int>
    decreases html.len() - i, state_rank(st),
{
    if i < 0 || i >= html.len() {
        seq![]
    } else {
        match st {
            ScanState::Normal => {
                if comment_open_at(html, i) {
                    tag_matches(html, pat, i + 4, ScanState::InComment)
                } else {
                    let next = if html[i] == 60u8 {
                        ScanState::InTag
                    } else {
                        ScanState::Normal
                    };
                    let rest = tag_matches(html, pat, i + 1, next);
                    if pattern_at(html, pat, i) {
                        seq![i] + rest
                    } else {
                        rest
                    }
                }
            },
            ScanState::InTag => {
                let b = html[i];
                if b == 34u8 || b == 39u8 {
                    tag_matches(html, pat, i + 1, ScanState::InQuote(b))
                } else if b == 62u8 {
                    tag_matches(html, pat, i + 1, ScanState::Normal)
                } else if b == 60u8 {
                    tag_matches(html, pat, i, ScanState::Normal)
                } else {
                    tag_matches(html, pat, i + 1, ScanState::InTag)
                }
            },
            ScanState::InQuote(q) => {
                if html[i] == q {
                    tag_matches(html, pat, i + 1, ScanState::InTag)
                } else {
                    tag_matches(html, pat, i + 1, ScanState::InQuote(q))
                }
            },
            ScanState::InComment => {
                if comment_close_at(html, i) {
                    tag_matches(html, pat, i + 3, ScanState::Normal)
                } else {
                    tag_matches(html, pat, i + 1, ScanState::InComment)
                }
            },
        }
    }
}

/// What `find_nth_tag` answers: the `n`th recognised occurrence, if any.
pub open spec fn nth_tag(html: Seq<u8>, tag: Seq<u8>, n: int, is_start_tag: bool) -> Option<int> {
    let ms = tag_matches(html, tag_pattern(tag, is_start_tag), 0, ScanState::Normal);
    if tag.len() == 0 || n >= ms.len() {
        None
    } else {
        Some(ms[n])
    }
}

fn build_pattern(tag: &[u8], is_start_tag: bool) -> (pat: Vec<u8>)
    ensures
        pat@ == tag_pattern(tag@, is_start_tag),
{
    let mut pat: Vec<u8> = Vec::new();
    pat.push(60u8);
    if !is_start_tag {
        pat.push(47u8);
    }
    let ghost head = pat@;
    let mut k: usize = 0;
    while k < tag.len()
        invariant
            k <= tag@.len(),
            head == (if is_start_tag { seq![60u8] } else { seq![60u8, 47u8] }),
            pat@ == head + tag@.take(k as int).map_values(|b: u8| lower(b)),
        decreases tag@.len() - k,
    {
        let b = tag[k];
        let lb: u8 = if 65 <= b && b <= 90 {
            b + 32
        } else {
            b
        };
        pat.push(lb);
        k = k + 1;
        assert(tag@.take(k as int).map_values(|b: u8| lower(b)) =~= tag@.take(k - 1).map_values(
            |b: u8| lower(b),
        ).push(lb));
    }
    assert(tag@.take(k as int) =~= tag@);
    pat
}

fn pattern_matches_here(bytes: &[u8], pat: &Vec<u8>, i: usize) -> (r: bool)
    requires
        i < bytes@.len(),
        bytes@[i as int] == 60u8,
    ensures
        r == pattern_at(bytes@, pat@, i as int),
{
    let len = bytes.len();
    let plen = pat.len();
    if plen > len - i {
        return false;
    }
    let mut k: usize = 0;
    while k < plen
        invariant
            plen == pat@.len(),
            len == bytes@.len(),
            i + plen <= len,
            k <= plen,
            forall|m: int| 0 <= m < k ==> lower(#[trigger] bytes@[i + m]) == pat@[m],
        decreases plen - k,
    {
        let b = bytes[i + k];
        let lb: u8 = if 65 <= b && b <= 90 {
            b + 32
        } else {
            b
        };
        if lb != pat[k] {
            return false;
        }
        k = k + 1;
    }
    if i + plen == len {
        true
    } else {
        let b = bytes[i + plen];
        b == 32 || b == 9 || b == 10 || b == 13 || b == 62 || b == 47
    }
}

/// Find the byte offset of the nth occurrence of `<tag` (or `</tag`) in `html`,
/// verifying a word boundary after the tag name to avoid matching `<span` in
/// `<spaniel>`. Tags inside comments and quoted attribute values are skipped.
pub fn find_nth_tag(html: &str, tag: &str, n: usize, is_start_tag: bool) -> (r: Option<usize>)
    ensures
        r == (match nth_tag(html.spec_bytes(), tag.spec_bytes(), n as int, is_start_tag) {
            Some(p) => Some(p as usize),
            None => None::<usize>,
        }),
        r matches Some(p) ==> p < html.spec_bytes().len(),
        nth_tag(html.spec_bytes(), tag.spec_bytes(), n as int, is_start_tag) matches Some(p) ==> 0
            <= p < html.spec_bytes().len(),
{
    let tag_bytes = tag.as_bytes();
    if tag_bytes.len() == 0 {
        return None;
    }
    let pat = build_pattern(tag_bytes, is_start_tag);
    let bytes = html.as_bytes();
    let len = bytes.len();
    let ghost hb = bytes@;
    let ghost all = tag_matches(hb, pat@, 0, ScanState::Normal);

    let mut count: usize = 0;
    let mut i: usize = 0;
    let mut state = ScanState::Normal;
    let ghost mut seen: Seq<int> = seq![];

    while i < len
        invariant
            len == hb.len(),
            hb == bytes@,
            hb == html.spec_bytes(),
            pat@ == tag_pattern(tag.spec_bytes(), is_start_tag),
            tag.spec_bytes().len() != 0,
            all == tag_matches(hb, pat@, 0, ScanState::Normal),
            i <= len,
            count <= n,
            seen.len() == count,
            all == seen + tag_matches(hb, pat@, i as int, state),
            forall|m: int| 0 <= m < seen.len() ==> 0 <= #[trigger] seen[m] < len,
        decreases len - i, state_rank(state),
    {
        match state {
            ScanState::Normal => {
                if len - i >= 4 && bytes[i] == 60u8 && bytes[i + 1] == 33u8 && bytes[i + 2] == 45u8
                    && bytes[i + 3] == 45u8 {
                    state = ScanState::InComment;
                    i = i + 4;
                    continue;
                }
                let is_lt = bytes[i] == 60u8;
                let hit = is_lt && pattern_matches_here(bytes, &pat, i);
                let ghost rest = tag_matches(
                    hb,
                    pat@,
                    i + 1,
                    if is_lt {
                        ScanState::InTag
                    } else {
                        ScanState::Normal
                    },
                );
                if hit {
                    if count == n {
                        assert(all[n as int] == i);
                        assert(n < all.len());
                        return Some(i);
                    }
                    count = count + 1;
                    proof {
                        assert(all =~= (seen + seq![i as int]) + rest);
                        seen = seen + seq![i as int];
                    }
                }
                if is_lt {
                    state = ScanState::InTag;
                }
            },
            ScanState::InTag => {
                let b = bytes[i];
                if b == 34u8 || b == 39u8 {
                    state = ScanState::InQuote(b);
                } else if b == 62u8 {
                    state = ScanState::Normal;
                } else if b == 60u8 {
                    state = ScanState::Normal;
                    continue;
                }
            },
            ScanState::InQuote(q) => {
                if bytes[i] == q {
                    state = ScanState::InTag;
                }
            },
            ScanState::InComment => {
                if len - i > 2 && bytes[i] == 45u8 && bytes[i + 1] == 45u8 && bytes[i + 2] == 62u8 {
                    state = ScanState::Normal;
                    i = i + 3;
                    continue;
                }
            },
        }
        i = i + 1;
    }
    assert(all =~= seen);
    None
}


/// The recognised occurrences lie in `[i, html.len())`, in increasing order,
/// and each is the pattern followed by the end of the tag name.
proof fn lemma_tag_matches(html: Seq<u8>, pat: Seq<u8>, i: int, st: ScanState)
    ensures
        forall|k: int|
            0 <= k < tag_matches(html, pat, i, st).len() ==> i <= #[trigger] tag_matches(
                html,
                pat,
                i,
                st,
            )[k] < html.len() && pattern_at(html, pat, tag_matches(html, pat, i, st)[k]),
        forall|a: int, b: int|
            0 <= a < b < tag_matches(html, pat, i, st).len() ==> #[trigger] tag_matches(
                html,
                pat,
                i,
                st,
            )[a] < #[trigger] tag_matches(html, pat, i, st)[b],
    decreases html.len() - i, state_rank(st),
{
    if !(i < 0 || i >= html.len()) {
        let ms = tag_matches(html, pat, i, st);
        match st {
            ScanState::Normal => {
                if comment_open_at(html, i) {
                    lemma_tag_matches(html, pat, i + 4, ScanState::InComment);
                    assert(ms == tag_matches(html, pat, i + 4, ScanState::InComment));
                } else {
                    let next = if html[i] == 60u8 {
                        ScanState::InTag
                    } else {
                        ScanState::Normal
                    };
                    lemma_tag_matches(html, pat, i + 1, next);
                    let rest = tag_matches(html, pat, i + 1, next);
                    if pattern_at(html, pat, i) {
                        assert(ms == seq![i] + rest);
                        assert forall|k: int| 0 < k < ms.len() implies ms[k] == rest[k - 1] by {}
                        assert(ms[0] == i);
                    } else {
                        assert(ms == rest);
                    }
                }
            },
            ScanState::InTag => {
                let b = html[i];
                if b == 34u8 || b == 39u8 {
                    lemma_tag_matches(html, pat, i + 1, ScanState::InQuote(b));
                    assert(ms == tag_matches(html, pat, i + 1, ScanState::InQuote(b)));
                } else if b == 62u8 {
                    lemma_tag_matches(html, pat, i + 1, ScanState::Normal);
                    assert(ms == tag_matches(html, pat, i + 1, ScanState::Normal));
                } else if b == 60u8 {
                    lemma_tag_matches(html, pat, i, ScanState::Normal);
                    assert(ms == tag_matches(html, pat, i, ScanState::Normal));
                } else {
                    lemma_tag_matches(html, pat, i + 1, ScanState::InTag);
                    assert(ms == tag_matches(html, pat, i + 1, ScanState::InTag));
                }
            },
            ScanState::InQuote(q) => {
                if html[i] == q {
                    lemma_tag_matches(html, pat, i + 1, ScanState::InTag);
                    assert(ms == tag_matches(html, pat, i + 1, ScanState::InTag));
                } else {
                    lemma_tag_matches(html, pat, i + 1, ScanState::InQuote(q));
                    assert(ms == tag_matches(html, pat, i + 1, ScanState::InQuote(q)));
                }
            },
            ScanState::InComment => {
                if comment_close_at(html, i) {
                    lemma_tag_matches(html, pat, i + 3, ScanState::Normal);
                    assert(ms == tag_matches(html, pat, i + 3, ScanState::Normal));
                } else {
                    lemma_tag_matches(html, pat, i + 1, ScanState::InComment);
                    assert(ms == tag_matches(html, pat, i + 1, ScanState::InComment));
                }
            },
        }
    }
}

/// The occurrences `find_nth_tag` counts come in source order: when the
/// `m`th exists, so does every earlier one, before it; and each is `<tag`
/// (or `</tag`), compared case-insensitively, right before the end of the
/// tag name.
pub proof fn lemma_nth_tag_ordered(html: Seq<u8>, tag: Seq<u8>, n: int, m: int, is_start_tag: bool)
    requires
        0 <= n < m,
        nth_tag(html, tag, m, is_start_tag) is Some,
    ensures
        nth_tag(html, tag, n, is_start_tag) is Some,
        nth_tag(html, tag, n, is_start_tag).unwrap() < nth_tag(html, tag, m, is_start_tag).unwrap(),
        pattern_at(html, tag_pattern(tag, is_start_tag), nth_tag(html, tag, m, is_start_tag).unwrap()),
{
    let pat = tag_pattern(tag, is_start_tag);
    lemma_tag_matches(html, pat, 0, ScanState::Normal);
    let ms = tag_matches(html, pat, 0, ScanState::Normal);
    assert(ms[n] < ms[m]);
}

// ---------------------------------------------------------------------------
// The token sink
// ---------------------------------------------------------------------------

/// The first index whose key is `name`, if any.
pub open spec fn count_index(v: Seq<(String, usize)>, name: Seq<char>) -> Option<int>
    decreases v.len(),
{
    if v.len() == 0 {
        None
    } else if v[0].0@ == name {
        Some(0)
    } else {
        match count_index(v.drop_first(), name) {
            Some(i) => Some(i + 1),
            None => None,
        }
    }
}

/// How many times `name` has been counted in `v` (0 when absent).
pub open spec fn count_of(v: Seq<(String, usize)>, name: Seq<char>) -> nat {
    match count_index(v, name) {
        Some(i) => v[i].1 as nat,
        None => 0,
    }
}

proof fn lemma_count_index_bounds(v: Seq<(String, usize)>, name: Seq<char>)
    ensures
        count_index(v, name) matches Some(i) ==> 0 <= i < v.len() && v[i].0@ == name && (
        forall|j: int| 0 <= j < i ==> v[j].0@ != name),
        count_index(v, name) is None ==> forall|j: int| 0 <= j < v.len() ==> v[j].0@ != name,
    decreases v.len(),
{
    if v.len() > 0 {
        lemma_count_index_bounds(v.drop_first(), name);
        if v[0].0@ != name {
            assert forall|j: int| 1 <= j < v.len() implies v[j] == v.drop_first()[j - 1] by {}
        }
    }
}

proof fn lemma_count_index_char(v: Seq<(String, usize)>, name: Seq<char>, i: int)
    requires
        0 <= i < v.len(),
        v[i].0@ == name,
        forall|j: int| 0 <= j < i ==> v[j].0@ != name,
    ensures
        count_index(v, name) == Some(i),
    decreases v.len(),
{
    if i > 0 {
        assert forall|j: int| 0 <= j < i - 1 implies v.drop_first()[j].0@ != name by {
            assert(v.drop_first()[j] == v[j + 1]);
        }
        lemma_count_index_char(v.drop_first(), name, i - 1);
    }
}

proof fn lemma_count_index_none(v: Seq<(String, usize)>, name: Seq<char>)
    requires
        forall|j: int| 0 <= j < v.len() ==> v[j].0@ != name,
    ensures
        count_index(v, name) is None,
    decreases v.len(),
{
    if v.len() > 0 {
        assert forall|j: int| 0 <= j < v.drop_first().len() implies v.drop_first()[j].0@ != name by {
            assert(v.drop_first()[j] == v[j + 1]);
        }
        lemma_count_index_none(v.drop_first(), name);
    }
}

/// Increment the count of `name` (saturating), returning the count before.
fn bump_count(counts: &mut Vec<(String, usize)>, name: &String) -> (n: usize)
    ensures
        n == count_of(old(counts)@, name@),
        forall|other: Seq<char>| #![trigger count_of(final(counts)@, other)]
            other != name@ ==> count_of(final(counts)@, other) == count_of(old(counts)@, other),
        count_of(final(counts)@, name@) == (if n < usize::MAX { n + 1 } else { n as int }),
{
    let ghost v0 = counts@;
    let mut i: usize = 0;
    while i < counts.len()
        invariant
            counts@ == v0,
            v0 == old(counts)@,
            i <= v0.len(),
            forall|j: int| 0 <= j < i ==> v0[j].0@ != name@,
        decreases v0.len() - i,
    {
        if counts[i].0 == *name {
            let n = counts[i].1;
            let key = counts[i].0.clone();
            counts.set(i, (key, n.saturating_add(1)));
            proof {
                lemma_count_index_char(v0, name@, i as int);
                lemma_count_index_char(counts@, name@, i as int);
                assert forall|other: Seq<char>| other != name@ implies count_of(counts@, other)
                    == count_of(v0, other) by {
                    lemma_count_index_bounds(v0, other);
                    match count_index(v0, other) {
                        Some(k) => {
                            lemma_count_index_char(counts@, other, k);
                        },
                        None => {
                            lemma_count_index_none(counts@, other);
                        },
                    }
                }
            }
            return n;
        }
        i = i + 1;
    }
    counts.push((name.clone(), 1));
    proof {
        lemma_count_index_none(v0, name@);
        lemma_count_index_char(counts@, name@, v0.len() as int);
        assert forall|other: Seq<char>| other != name@ implies count_of(counts@, other) == count_of(
            v0,
            other,
        ) by {
            lemma_count_index_bounds(v0, other);
            match count_index(v0, other) {
                Some(k) => {
                    lemma_count_index_char(counts@, other, k);
                },
                None => {
                    lemma_count_index_none(counts@, other);
                },
            }
        }
    }
    0
}

/// Token sink for the HTML tokenizer. Collects parse errors, duplicate
/// attribute flags, and tag open/close events from a single HTML fragment.
pub struct HtmlTokenSink<'a> {
    /// The raw HTML fragment being tokenized.
    pub node_html: &'a str,
    /// Byte offset of this HTML fragment's start in the full markdown source.
    pub node_offset: usize,
    /// Hard errors: parse errors, non-void self-closing tags.
    /// `Some(offset)` = exact source-global offset; `None` = none available.
    pub errors: Vec<(Option<usize>, String)>,
    /// Soft warnings: duplicate attributes.
    pub warnings: Vec<(Option<usize>, String)>,
    /// Open/close events derived from tag tokens, for cross-node balance checking.
    pub tag_events: Vec<TagEvent>,
    /// How many times each tag name has appeared as a start / end tag so far.
    pub start_counts: Vec<(String, usize)>,
    pub end_counts: Vec<(String, usize)>,
}

/// The source-global offset of the `n`th `<name` (or `</name`) of `html`,
/// or the fragment start where the fragment holds no such occurrence.
pub open spec fn resolved_offset(
    html: Seq<u8>,
    node_offset: usize,
    name: Seq<char>,
    n: nat,
    is_start_tag: bool,
) -> int {
    match nth_tag(html, encode_utf8(name), n as int, is_start_tag) {
        Some(p) => node_offset + p,
        None => node_offset as int,
    }
}

/// The message for a non-void element written self-closing.
pub open spec fn non_void_message(name: Seq<char>) -> Seq<char> {
    "non-void tag: <"@ + name + "/> or <"@ + name + " />"@
}

impl<'a> HtmlTokenSink<'a> {
    /// Offsets stay representable: the fragment lies within a source that fits in memory.
    pub open spec fn wf(&self) -> bool {
        self.node_offset + self.node_html.spec_bytes().len() <= usize::MAX
    }

    /// How many start tags named `name` have been seen.
    pub open spec fn start_count(&self, name: Seq<char>) -> nat {
        count_of(self.start_counts@, name)
    }

    /// How many end tags named `name` have been seen.
    pub open spec fn end_count(&self, name: Seq<char>) -> nat {
        count_of(self.end_counts@, name)
    }

    /// How many tags of `kind` named `name` have been seen.
    pub open spec fn seen_count(&self, kind: TagKind, name: Seq<char>) -> nat {
        if kind == TagKind::StartTag {
            self.start_count(name)
        } else {
            self.end_count(name)
        }
    }

    pub fn new(node_html: &'a str, node_offset: usize) -> (s: Self)
        requires
            node_offset + node_html.spec_bytes().len() <= usize::MAX,
        ensures
            s.wf(),
            s.node_html == node_html,
            s.node_offset == node_offset,
            s.errors@.len() == 0,
            s.warnings@.len() == 0,
            s.tag_events@.len() == 0,
            forall|name: Seq<char>| #[trigger] s.start_count(name) == 0 && s.end_count(name) == 0,
    {
        HtmlTokenSink {
            node_html,
            node_offset,
            errors: Vec::new(),
            warnings: Vec::new(),
            tag_events: Vec::new(),
            start_counts: Vec::new(),
            end_counts: Vec::new(),
        }
    }

    /// Record one token: parse errors become errors, duplicate attributes
    /// warnings, non-void self-closing start tags errors, and other non-void
    /// start tags and all end tags open/close events at their resolved offset.
    pub fn process_token(&mut self, token: SinkToken)
        requires
            old(self).wf(),
        ensures
            final(self).wf(),
            final(self).node_html == old(self).node_html,
            final(self).node_offset == old(self).node_offset,
            match token {
                SinkToken::ParseError(msg) => {
                    &&& final(self).errors@ == old(self).errors@.push((None, msg))
                    &&& final(self).warnings@ == old(self).warnings@
                    &&& final(self).tag_events@ == old(self).tag_events@
                    &&& final(self).start_counts@ == old(self).start_counts@
                    &&& final(self).end_counts@ == old(self).end_counts@
                },
                SinkToken::Tag { kind, name, self_closing, had_duplicate_attributes } => {
                    let is_start = kind == TagKind::StartTag;
                    let n = old(self).seen_count(kind, name@);
                    let offset = resolved_offset(
                        old(self).node_html.spec_bytes(),
                        old(self).node_offset,
                        name@,
                        n,
                        is_start,
                    );
                    let void = is_void_name(name@);
                    &&& final(self).seen_count(kind, name@) == (if n < usize::MAX {
                        (n + 1) as int
                    } else {
                        n as int
                    })
                    &&& forall|other: Seq<char>|
                        #![trigger final(self).seen_count(kind, other)]
                        other != name@ ==> final(self).seen_count(kind, other) == old(
                            self,
                        ).seen_count(kind, other)
                    &&& forall|other: Seq<char>|
                        #![trigger final(self).seen_count(kind, other)]
                        final(self).seen_count(
                            if is_start {
                                TagKind::EndTag
                            } else {
                                TagKind::StartTag
                            },
                            other,
                        ) == old(self).seen_count(
                            if is_start {
                                TagKind::EndTag
                            } else {
                                TagKind::StartTag
                            },
                            other,
                        )
                    &&& had_duplicate_attributes ==> {
                        &&& final(self).warnings@.len() == old(self).warnings@.len() + 1
                        &&& final(self).warnings@.drop_last() == old(self).warnings@
                        &&& final(self).warnings@.last().0 == Some(offset as usize)
                        &&& final(self).warnings@.last().1@ == "duplicate attribute"@
                    }
                    &&& !had_duplicate_attributes ==> final(self).warnings@ == old(self).warnings@
                    &&& (is_start && self_closing && !void) ==> {
                        &&& final(self).errors@.len() == old(self).errors@.len() + 1
                        &&& final(self).errors@.drop_last() == old(self).errors@
                        &&& final(self).errors@.last().0 == Some(offset as usize)
                        &&& final(self).errors@.last().1@ == non_void_message(name@)
                        &&& final(self).tag_events@ == old(self).tag_events@
                    }
                    &&& !(is_start && self_closing && !void) ==> final(self).errors@ == old(
                        self,
                    ).errors@
                    &&& (!is_start || (!self_closing && !void)) ==> {
                        &&& final(self).tag_events@.len() == old(self).tag_events@.len() + 1
                        &&& final(self).tag_events@.drop_last() == old(self).tag_events@
                        &&& final(self).tag_events@.last().tag == name
                        &&& final(self).tag_events@.last().is_open == is_start
                        &&& final(self).tag_events@.last().offset == offset
                    }
                    &&& (is_start && void) ==> final(self).tag_events@ == old(self).tag_events@
                },
                _ => {
                    &&& final(self).errors@ == old(self).errors@
                    &&& final(self).warnings@ == old(self).warnings@
                    &&& final(self).tag_events@ == old(self).tag_events@
                    &&& final(self).start_counts@ == old(self).start_counts@
                    &&& final(self).end_counts@ == old(self).end_counts@
                },
            },
    {
        match token {
            SinkToken::ParseError(msg) => {
                self.errors.push((None, msg));
            },
            SinkToken::Tag { kind, name, self_closing, had_duplicate_attributes } => {
                let is_start_tag = kind == TagKind::StartTag;
                let n = if is_start_tag {
                    bump_count(&mut self.start_counts, &name)
                } else {
                    bump_count(&mut self.end_counts, &name)
                };
                let name_str = name.as_str();
                assert(name_str.spec_bytes() == encode_utf8(name@));
                let found = find_nth_tag(self.node_html, name_str, n, is_start_tag);
                let offset = match found {
                    Some(p) => self.node_offset + p,
                    None => self.node_offset,
                };
                assert(offset == resolved_offset(
                    self.node_html.spec_bytes(),
                    self.node_offset,
                    name@,
                    n as nat,
                    is_start_tag,
                ));
                if had_duplicate_attributes {
                    self.warnings.push((Some(offset), "duplicate attribute".to_owned()));
                }
                let void = is_void(name.as_str());
                if is_start_tag && self_closing && !void {
                    let mut msg = String::from_str("non-void tag: <");
                    msg.append(name.as_str());
                    msg.append("/> or <");
                    msg.append(name.as_str());
                    msg.append(" />");
                    self.errors.push((Some(offset), msg));
                } else if !is_start_tag || !void {
                    self.tag_events.push(TagEvent { tag: name, is_open: is_start_tag, offset });
                }
            },
            _ => {},
        }
    }
}


// ---------------------------------------------------------------------------
// A whole token stream
// ---------------------------------------------------------------------------

/// A token as plain values.
pub enum TokenView {
    ParseError(Seq<char>),
    Tag { kind: TagKind, name: Seq<char>, self_closing: bool, had_duplicate_attributes: bool },
    Characters(usize),
    Other,
}

impl View for SinkToken {
    type V = TokenView;

    open spec fn view(&self) -> TokenView {
        match self {
            SinkToken::ParseError(m) => TokenView::ParseError(m@),
            SinkToken::Tag { kind, name, self_closing, had_duplicate_attributes } => TokenView::Tag {
                kind: *kind,
                name: name@,
                self_closing: *self_closing,
                had_duplicate_attributes: *had_duplicate_attributes,
            },
            SinkToken::Characters(n) => TokenView::Characters(*n),
            SinkToken::Other => TokenView::Other,
        }
    }
}

pub open spec fn tokens_view(v: Seq<SinkToken>) -> Seq<TokenView> {
    v.map_values(|t: SinkToken| t@)
}

/// How many tag tokens of `kind` named `name` `tokens` holds.
pub open spec fn tag_count(tokens: Seq<TokenView>, kind: TagKind, name: Seq<char>) -> nat
    decreases tokens.len(),
{
    if tokens.len() == 0 {
        0
    } else {
        let c = tag_count(tokens.drop_last(), kind, name);
        match tokens.last() {
            TokenView::Tag { kind: k, name: n, .. } => if k == kind && n == name {
                c + 1
            } else {
                c
            },
            _ => c,
        }
    }
}

/// A count that stops at `usize::MAX`.
pub open spec fn saturated(n: nat) -> nat {
    if n < usize::MAX {
        n
    } else {
        usize::MAX as nat
    }
}

/// Where a tag token after `before` resolves to: the occurrence of its tag in
/// the fragment numbered by how many such tags came before it.
pub open spec fn tag_offset(
    html: Seq<u8>,
    node_offset: usize,
    before: Seq<TokenView>,
    kind: TagKind,
    name: Seq<char>,
) -> int {
    resolved_offset(
        html,
        node_offset,
        name,
        saturated(tag_count(before, kind, name)),
        kind == TagKind::StartTag,
    )
}

/// The errors the sink records for `tokens`, in order: each parse error's
/// message, and each non-void start tag written self-closing.
pub open spec fn scan_errors(html: Seq<u8>, node_offset: usize, tokens: Seq<TokenView>) -> Seq<
    (Option<usize>, Seq<char>),
>
    decreases tokens.len(),
{
    if tokens.len() == 0 {
        seq![]
    } else {
        let before = tokens.drop_last();
        let prev = scan_errors(html, node_offset, before);
        match tokens.last() {
            TokenView::ParseError(msg) => prev.push((None, msg)),
            TokenView::Tag { kind, name, self_closing, .. } => if kind == TagKind::StartTag
                && self_closing && !is_void_name(name) {
                prev.push(
                    (
                        Some(tag_offset(html, node_offset, before, kind, name) as usize),
                        non_void_message(name),
                    ),
                )
            } else {
                prev
            },
            _ => prev,
        }
    }
}

/// The warnings the sink records for `tokens`: one per tag with a duplicate
/// attribute.
pub open spec fn scan_warnings(html: Seq<u8>, node_offset: usize, tokens: Seq<TokenView>) -> Seq<
    (Option<usize>, Seq<char>),
>
    decreases tokens.len(),
{
    if tokens.len() == 0 {
        seq![]
    } else {
        let before = tokens.drop_last();
        let prev = scan_warnings(html, node_offset, before);
        match tokens.last() {
            TokenView::Tag { kind, name, had_duplicate_attributes, .. } => if had_duplicate_attributes {
                prev.push(
                    (
                        Some(tag_offset(html, node_offset, before, kind, name) as usize),
                        "duplicate attribute"@,
                    ),
                )
            } else {
                prev
            },
            _ => prev,
        }
    }
}

/// The open/close events the sink records for `tokens`: every end tag, and
/// every start tag of a non-void element not written self-closing.
pub open spec fn scan_tag_events(
    html: Seq<u8>,
    node_offset: usize,
    tokens: Seq<TokenView>,
) -> Seq<(Seq<char>, bool, int)>
    decreases tokens.len(),
{
    if tokens.len() == 0 {
        seq![]
    } else {
        let before = tokens.drop_last();
        let prev = scan_tag_events(html, node_offset, before);
        match tokens.last() {
            TokenView::Tag { kind, name, self_closing, .. } => {
                let is_start = kind == TagKind::StartTag;
                if !is_start || (!self_closing && !is_void_name(name)) {
                    prev.push((name, is_start, tag_offset(html, node_offset, before, kind, name)))
                } else {
                    prev
                }
            },
            _ => prev,
        }
    }
}

pub open spec fn entries_plain(v: Seq<(Option<usize>, String)>) -> Seq<(Option<usize>, Seq<char>)> {
    v.map_values(|e: (Option<usize>, String)| (e.0, e.1@))
}

pub open spec fn events_plain(v: Seq<TagEvent>) -> Seq<(Seq<char>, bool, int)> {
    v.map_values(|e: TagEvent| (e.tag@, e.is_open, e.offset as int))
}

impl<'a> HtmlTokenSink<'a> {
    /// The sink holds what `tokens` leave in it.
    pub open spec fn has_scanned(&self, tokens: Seq<TokenView>) -> bool {
        let html = self.node_html.spec_bytes();
        &&& entries_plain(self.errors@) == scan_errors(html, self.node_offset, tokens)
        &&& entries_plain(self.warnings@) == scan_warnings(html, self.node_offset, tokens)
        &&& events_plain(self.tag_events@) == scan_tag_events(html, self.node_offset, tokens)
        &&& forall|kind: TagKind, name: Seq<char>| #[trigger]
            self.seen_count(kind, name) == saturated(tag_count(tokens, kind, name))
    }
}

fn copy_token(t: &SinkToken) -> (r: SinkToken)
    ensures
        r@ == t@,
{
    match t {
        SinkToken::ParseError(m) => SinkToken::ParseError(m.clone()),
        SinkToken::Tag { kind, name, self_closing, had_duplicate_attributes } => SinkToken::Tag {
            kind: *kind,
            name: name.clone(),
            self_closing: *self_closing,
            had_duplicate_attributes: *had_duplicate_attributes,
        },
        SinkToken::Characters(n) => SinkToken::Characters(*n),
        SinkToken::Other => SinkToken::Other,
    }
}

/// A sink for the fragment `node_html` at `node_offset`, fed `tokens` in order.
pub fn sink_tokens<'a>(node_html: &'a str, node_offset: usize, tokens: &Vec<SinkToken>) -> (s:
    HtmlTokenSink<'a>)
    requires
        node_offset + node_html.spec_bytes().len() <= usize::MAX,
    ensures
        s.wf(),
        s.node_html == node_html,
        s.node_offset == node_offset,
        s.has_scanned(tokens_view(tokens@)),
{
    let ghost tv = tokens_view(tokens@);
    let mut sink = HtmlTokenSink::new(node_html, node_offset);
    proof {
        assert(entries_plain(sink.errors@) =~= seq![]);
        assert(entries_plain(sink.warnings@) =~= seq![]);
        assert(events_plain(sink.tag_events@) =~= seq![]);
        assert(tv.take(0) =~= seq![]);
        assert forall|kind: TagKind, name: Seq<char>| #[trigger]
            sink.seen_count(kind, name) == saturated(tag_count(tv.take(0), kind, name)) by {
            assert(sink.start_count(name) == 0 && sink.end_count(name) == 0);
        }
    }
    let mut k: usize = 0;
    while k < tokens.len()
        invariant
            k <= tokens@.len(),
            tv == tokens_view(tokens@),
            sink.wf(),
            sink.node_html == node_html,
            sink.node_offset == node_offset,
            sink.has_scanned(tv.take(k as int)),
        decreases tokens@.len() - k,
    {
        let ghost old_sink = sink;
        let ghost before = tv.take(k as int);
        let ghost after = tv.take(k + 1);
        let token = copy_token(&tokens[k]);
        proof {
            assert(after.drop_last() =~= before);
            assert(after.last() == token@);
        }
        sink.process_token(token);
        proof {
            let html = node_html.spec_bytes();
            match token@ {
                TokenView::ParseError(msg) => {
                    assert(entries_plain(sink.errors@) =~= entries_plain(old_sink.errors@).push(
                        (None, msg),
                    ));
                    assert(entries_plain(sink.warnings@) =~= entries_plain(old_sink.warnings@));
                    assert(events_plain(sink.tag_events@) =~= events_plain(old_sink.tag_events@));
                    assert forall|kind: TagKind, name: Seq<char>| #[trigger]
                        sink.seen_count(kind, name) == saturated(tag_count(after, kind, name)) by {
                        assert(old_sink.seen_count(kind, name) == saturated(
                            tag_count(before, kind, name),
                        ));
                    }
                },
                TokenView::Tag { kind, name, self_closing, had_duplicate_attributes } => {
                    let is_start = kind == TagKind::StartTag;
                    let off = tag_offset(html, node_offset, before, kind, name);
                    assert(old_sink.seen_count(kind, name) == saturated(
                        tag_count(before, kind, name),
                    ));
                    if had_duplicate_attributes {
                        assert(entries_plain(sink.warnings@) =~= entries_plain(
                            old_sink.warnings@,
                        ).push((Some(off as usize), "duplicate attribute"@)));
                    } else {
                        assert(entries_plain(sink.warnings@) =~= entries_plain(old_sink.warnings@));
                    }
                    if is_start && self_closing && !is_void_name(name) {
                        assert(entries_plain(sink.errors@) =~= entries_plain(old_sink.errors@).push(
                            (Some(off as usize), non_void_message(name)),
                        ));
                        assert(events_plain(sink.tag_events@) =~= events_plain(
                            old_sink.tag_events@,
                        ));
                    } else {
                        assert(entries_plain(sink.errors@) =~= entries_plain(old_sink.errors@));
                        if !is_start || (!self_closing && !is_void_name(name)) {
                            assert(events_plain(sink.tag_events@) =~= events_plain(
                                old_sink.tag_events@,
                            ).push((name, is_start, off)));
                        } else {
                            assert(events_plain(sink.tag_events@) =~= events_plain(
                                old_sink.tag_events@,
                            ));
                        }
                    }
                    assert forall|kind2: TagKind, name2: Seq<char>| #[trigger]
                        sink.seen_count(kind2, name2) == saturated(tag_count(after, kind2, name2)) by {
                        assert(old_sink.seen_count(kind2, name2) == saturated(
                            tag_count(before, kind2, name2),
                        ));
                        if kind2 == kind {
                            if name2 != name {
                                assert(sink.seen_count(kind, name2) == old_sink.seen_count(
                                    kind,
                                    name2,
                                ));
                            }
                        } else {
                            let _ = sink.seen_count(kind, name2);
                            assert(kind2 == (if is_start {
                                TagKind::EndTag
                            } else {
                                TagKind::StartTag
                            }));
                            assert(sink.seen_count(kind2, name2) == old_sink.seen_count(
                                kind2,
                                name2,
                            ));
                        }
                    }
                },
                _ => {
                    assert(entries_plain(sink.errors@) =~= entries_plain(old_sink.errors@));
                    assert(entries_plain(sink.warnings@) =~= entries_plain(old_sink.warnings@));
                    assert(events_plain(sink.tag_events@) =~= events_plain(old_sink.tag_events@));
                    assert forall|kind: TagKind, name: Seq<char>| #[trigger]
                        sink.seen_count(kind, name) == saturated(tag_count(after, kind, name)) by {
                        assert(old_sink.seen_count(kind, name) == saturated(
                            tag_count(before, kind, name),
                        ));
                    }
                },
            }
        }
        k = k + 1;
    }
    proof {
        assert(tv.take(k as int) =~= tv);
    }
    sink
}

} // verus!
