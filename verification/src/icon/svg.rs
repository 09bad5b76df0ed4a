//! Attributes on an icon's `<svg>` element: defaults, the file's own, and
//! the ones written in the document, merged with an insertion-ordered map;
//! the SVG text is read and written with an XML reader and writer.
use vstd::prelude::*;

use crate::attrs::pairs_view;
use crate::text::str_eq;
use indexmap::IndexMap;
use quick_xml::events::{
    BytesCData, BytesDecl, BytesEnd, BytesPI, BytesRef, BytesStart, BytesText, Event,
};
use quick_xml::events::Event::{
    CData, Comment, Decl, DocType, Empty, End, Eof, Start, Text, PI,
};
use quick_xml::{Reader, Writer};
use vstd::utf8::{decode_utf8, encode_utf8, valid_utf8};

verus! {

// ---------------------------------------------------------------------------
// The insertion-ordered map
// ---------------------------------------------------------------------------

#[verifier::external_type_specification]
#[verifier::external_body]
#[verifier::reject_recursive_types(K)]
#[verifier::reject_recursive_types(V)]
#[verifier::reject_recursive_types(S)]
pub struct ExIndexMap<K, V, S>(IndexMap<K, V, S>);

/// The entries of an `IndexMap`, in the map's order.
pub uninterp spec fn map_entries(m: IndexMap<String, String>) -> Seq<(Seq<char>, Seq<char>)>;

/// The index of the entry with key `k` in `e`, searching from `i`.
pub open spec fn key_index_from(e: Seq<(Seq<char>, Seq<char>)>, k: Seq<char>, i: int) -> Option<int>
    decreases e.len() - i,
{
    if i < 0 || i >= e.len() {
        None
    } else if e[i].0 == k {
        Some(i)
    } else {
        key_index_from(e, k, i + 1)
    }
}

pub open spec fn key_index(e: Seq<(Seq<char>, Seq<char>)>, k: Seq<char>) -> Option<int> {
    key_index_from(e, k, 0)
}

/// Inserting into an insertion-ordered map: an existing key keeps its place
/// and takes the new value; a new key goes last.
pub open spec fn entries_insert(e: Seq<(Seq<char>, Seq<char>)>, k: Seq<char>, v: Seq<char>) -> Seq<
    (Seq<char>, Seq<char>),
> {
    match key_index(e, k) {
        Some(i) => e.update(i, (k, v)),
        None => e.push((k, v)),
    }
}

/// `IndexMap::new`: an empty map.
#[verifier::external_body]
fn index_map_new() -> (m: IndexMap<String, String>)
    ensures
        map_entries(m) == Seq::<(Seq<char>, Seq<char>)>::empty(),
{
    IndexMap::new()
}

/// `IndexMap::insert`: an equal key already present keeps its place in the
/// order and takes the new value; otherwise the pair goes last.
#[verifier::external_body]
fn index_map_insert(m: &mut IndexMap<String, String>, key: String, value: String)
    ensures
        map_entries(*final(m)) == entries_insert(map_entries(*old(m)), key@, value@),
{
    m.insert(key, value);
}

/// Iterating an `IndexMap`: its entries, in order.
#[verifier::external_body]
fn index_map_pairs(m: &IndexMap<String, String>) -> (r: Vec<(String, String)>)
    ensures
        pairs_view(r@) == map_entries(*m),
{
    m.iter().map(|(k, v)| (k.clone(), v.clone())).collect()
}

// ---------------------------------------------------------------------------
// Merging the attributes
// ---------------------------------------------------------------------------

/// `items` inserted one by one, in order.
pub open spec fn insert_all(e: Seq<(Seq<char>, Seq<char>)>, items: Seq<(Seq<char>, Seq<char>)>) -> Seq<
    (Seq<char>, Seq<char>),
>
    decreases items.len(),
{
    if items.len() == 0 {
        e
    } else {
        let prev = insert_all(e, items.drop_last());
        entries_insert(prev, items.last().0, items.last().1)
    }
}

/// What every icon gets unless the file or the document says otherwise.
pub open spec fn svg_defaults() -> Seq<(Seq<char>, Seq<char>)> {
    seq![
        ("aria-hidden"@, "true"@),
        ("width"@, "24"@),
        ("height"@, "24"@),
        ("fill"@, "currentColor"@),
    ]
}

/// The `<svg>` element's attributes: the defaults, overridden by the file's
/// own (`existing`), overridden by the document's (`overrides`); each key
/// once, where it first appeared, with the last value given.
pub open spec fn merged_svg_attrs(
    existing: Seq<(Seq<char>, Seq<char>)>,
    overrides: Seq<(Seq<char>, Seq<char>)>,
) -> Seq<(Seq<char>, Seq<char>)> {
    insert_all(insert_all(insert_all(seq![], svg_defaults()), existing), overrides)
}

fn insert_pairs(m: &mut IndexMap<String, String>, items: &Vec<(String, String)>)
    ensures
        map_entries(*final(m)) == insert_all(map_entries(*old(m)), pairs_view(items@)),
{
    let ghost e0 = map_entries(*m);
    let mut k: usize = 0;
    while k < items.len()
        invariant
            k <= items@.len(),
            map_entries(*m) == insert_all(e0, pairs_view(items@).take(k as int)),
        decreases items@.len() - k,
    {
        let key = items[k].0.clone();
        let value = items[k].1.clone();
        index_map_insert(m, key, value);
        assert(pairs_view(items@).take(k + 1).drop_last() =~= pairs_view(items@).take(k as int));
        k = k + 1;
    }
    assert(pairs_view(items@).take(k as int) =~= pairs_view(items@));
}

/// The attributes the `<svg>` element is written with; see `merged_svg_attrs`.
pub fn merge_svg_attrs(existing: &Vec<(String, String)>, overrides: &Vec<(String, String)>) -> (r: Vec<
    (String, String),
>)
    ensures
        pairs_view(r@) == merged_svg_attrs(pairs_view(existing@), pairs_view(overrides@)),
{
    let mut defaults: Vec<(String, String)> = Vec::new();
    defaults.push(("aria-hidden".to_owned(), "true".to_owned()));
    defaults.push(("width".to_owned(), "24".to_owned()));
    defaults.push(("height".to_owned(), "24".to_owned()));
    defaults.push(("fill".to_owned(), "currentColor".to_owned()));
    assert(pairs_view(defaults@) =~= svg_defaults());
    let mut merged = index_map_new();
    insert_pairs(&mut merged, &defaults);
    insert_pairs(&mut merged, existing);
    insert_pairs(&mut merged, overrides);
    index_map_pairs(&merged)
}

// ---------------------------------------------------------------------------
// What the merge promises
// ---------------------------------------------------------------------------

/// No key occurs twice.
pub open spec fn unique_keys(e: Seq<(Seq<char>, Seq<char>)>) -> bool {
    forall|a: int, b: int| 0 <= a < b < e.len() ==> #[trigger] e[a].0 != #[trigger] e[b].0
}

/// The value stored for `k`.
pub open spec fn lookup(e: Seq<(Seq<char>, Seq<char>)>, k: Seq<char>) -> Option<Seq<char>> {
    match key_index(e, k) {
        Some(i) => Some(e[i].1),
        None => None,
    }
}

/// The last value given for `k` in `items`.
pub open spec fn last_for(items: Seq<(Seq<char>, Seq<char>)>, k: Seq<char>) -> Option<Seq<char>>
    decreases items.len(),
{
    if items.len() == 0 {
        None
    } else if items.last().0 == k {
        Some(items.last().1)
    } else {
        last_for(items.drop_last(), k)
    }
}

proof fn lemma_key_index_from(e: Seq<(Seq<char>, Seq<char>)>, k: Seq<char>, i: int)
    requires
        0 <= i,
    ensures
        key_index_from(e, k, i) matches Some(j) ==> i <= j < e.len() && e[j].0 == k && forall|m: int|
            i <= m < j ==> e[m].0 != k,
        key_index_from(e, k, i) is None ==> forall|m: int| i <= m < e.len() ==> e[m].0 != k,
    decreases e.len() - i,
{
    if i < e.len() && e[i].0 != k {
        lemma_key_index_from(e, k, i + 1);
    }
}

/// `key_index` finds the first entry with the key, or there is none.
proof fn lemma_key_index(e: Seq<(Seq<char>, Seq<char>)>, k: Seq<char>)
    ensures
        key_index(e, k) matches Some(j) ==> 0 <= j < e.len() && e[j].0 == k && forall|m: int|
            0 <= m < j ==> e[m].0 != k,
        key_index(e, k) is None ==> forall|m: int| 0 <= m < e.len() ==> e[m].0 != k,
{
    lemma_key_index_from(e, k, 0);
}

proof fn lemma_insert_unique(e: Seq<(Seq<char>, Seq<char>)>, k: Seq<char>, v: Seq<char>)
    requires
        unique_keys(e),
    ensures
        unique_keys(entries_insert(e, k, v)),
        forall|q: Seq<char>| #[trigger] lookup(entries_insert(e, k, v), q) == if q == k {
            Some(v)
        } else {
            lookup(e, q)
        },
{
    lemma_key_index(e, k);
    let e2 = entries_insert(e, k, v);
    assert forall|q: Seq<char>| #[trigger] lookup(e2, q) == if q == k {
        Some(v)
    } else {
        lookup(e, q)
    } by {
        lemma_key_index(e, q);
        lemma_key_index(e2, q);
        match key_index(e, k) {
            Some(i) => {
                assert forall|m: int| 0 <= m < e2.len() implies (e2[m].0 == q) == (e[m].0 == q) by {
                    if m == i {
                    }
                }
                if q == k {
                    assert(key_index(e2, q) == Some(i));
                } else {
                    match key_index(e, q) {
                        Some(j) => {
                            assert(key_index(e2, q) == Some(j));
                            assert(j != i);
                        },
                        None => {
                            assert(key_index(e2, q) is None);
                        },
                    }
                }
            },
            None => {
                assert(e2 == e.push((k, v)));
                assert forall|m: int| 0 <= m < e.len() implies e2[m] == e[m] by {}
                assert(e2[e.len() as int] == (k, v));
                if q == k {
                    assert(key_index(e2, q) == Some(e.len() as int));
                } else {
                    match key_index(e, q) {
                        Some(j) => {
                            assert(key_index(e2, q) == Some(j));
                        },
                        None => {
                            assert(key_index(e2, q) is None);
                        },
                    }
                }
            },
        }
    }
}

proof fn lemma_insert_all(e: Seq<(Seq<char>, Seq<char>)>, items: Seq<(Seq<char>, Seq<char>)>)
    requires
        unique_keys(e),
    ensures
        unique_keys(insert_all(e, items)),
        forall|q: Seq<char>| #[trigger] lookup(insert_all(e, items), q) == match last_for(items, q) {
            Some(v) => Some(v),
            None => lookup(e, q),
        },
    decreases items.len(),
{
    if items.len() > 0 {
        lemma_insert_all(e, items.drop_last());
        lemma_insert_unique(insert_all(e, items.drop_last()), items.last().0, items.last().1);
    }
}

/// No attribute is written twice on the `<svg>` element.
pub proof fn lemma_merged_keys_unique(
    existing: Seq<(Seq<char>, Seq<char>)>,
    overrides: Seq<(Seq<char>, Seq<char>)>,
)
    ensures
        unique_keys(merged_svg_attrs(existing, overrides)),
{
    let empty = Seq::<(Seq<char>, Seq<char>)>::empty();
    lemma_insert_all(empty, svg_defaults());
    lemma_insert_all(insert_all(empty, svg_defaults()), existing);
    lemma_insert_all(insert_all(insert_all(empty, svg_defaults()), existing), overrides);
}

/// Each attribute of the `<svg>` element takes the document's value if the
/// document gives one, else the file's, else the default (the last value
/// given, where one source gives several).
pub proof fn lemma_merged_priority(
    existing: Seq<(Seq<char>, Seq<char>)>,
    overrides: Seq<(Seq<char>, Seq<char>)>,
    key: Seq<char>,
)
    ensures
        lookup(merged_svg_attrs(existing, overrides), key) == match last_for(overrides, key) {
            Some(v) => Some(v),
            None => match last_for(existing, key) {
                Some(v) => Some(v),
                None => last_for(svg_defaults(), key),
            },
        },
{
    let empty = Seq::<(Seq<char>, Seq<char>)>::empty();
    lemma_insert_all(empty, svg_defaults());
    lemma_insert_all(insert_all(empty, svg_defaults()), existing);
    lemma_insert_all(insert_all(insert_all(empty, svg_defaults()), existing), overrides);
    lemma_key_index(empty, key);
}


// ---------------------------------------------------------------------------
// XML events as plain values
// ---------------------------------------------------------------------------

/// The kinds of event an XML reader yields before the end of its input.
#[derive(Clone, Copy, PartialEq, Eq, Structural, Debug)]
pub enum XmlKind {
    Start,
    End,
    Empty,
    Text,
    CData,
    Comment,
    Decl,
    PI,
    DocType,
    GeneralRef,
}

/// One XML event: its kind, its text between the kind's delimiters (for a
/// tag, the name and the attributes as written), and, for a start or
/// empty-element tag, its name (empty for the other kinds).
#[derive(Debug)]
pub struct XmlEvent {
    pub kind: XmlKind,
    pub content: String,
    pub name: String,
}

pub struct XmlEventView {
    pub kind: XmlKind,
    pub content: Seq<char>,
    pub name: Seq<char>,
}

impl View for XmlEvent {
    type V = XmlEventView;

    open spec fn view(&self) -> XmlEventView {
        XmlEventView { kind: self.kind, content: self.content@, name: self.name@ }
    }
}

/// `content` starts with `name`.
pub open spec fn starts_with(content: Seq<char>, name: Seq<char>) -> bool {
    name.len() <= content.len() && content.take(name.len() as int) == name
}

impl XmlEventView {
    /// The name is where the text starts.
    pub open spec fn well_formed(self) -> bool {
        starts_with(self.content, self.name)
    }
}

pub open spec fn events_view(v: Seq<XmlEvent>) -> Seq<XmlEventView> {
    v.map_values(|e: XmlEvent| e@)
}

/// What one call of `read_event` gives: an event, the end of the input, or
/// an error.
pub enum XmlStep {
    Event(XmlEvent),
    End,
    Failed,
}

pub enum XmlStepView {
    Event(XmlEventView),
    End,
    Failed,
}

impl View for XmlStep {
    type V = XmlStepView;

    open spec fn view(&self) -> XmlStepView {
        match self {
            XmlStep::Event(e) => XmlStepView::Event(e@),
            XmlStep::End => XmlStepView::End,
            XmlStep::Failed => XmlStepView::Failed,
        }
    }
}

/// The text an event is written as: its content between the delimiters of
/// its kind.
pub open spec fn event_text(e: XmlEventView) -> Seq<char> {
    let (open, close): (Seq<char>, Seq<char>) = match e.kind {
        XmlKind::Start => (seq!['<'], seq!['>']),
        XmlKind::End => (seq!['<', '/'], seq!['>']),
        XmlKind::Empty => (seq!['<'], seq!['/', '>']),
        XmlKind::Text => (seq![], seq![]),
        XmlKind::CData => (seq!['<', '!', '[', 'C', 'D', 'A', 'T', 'A', '['], seq![']', ']', '>']),
        XmlKind::Comment => (seq!['<', '!', '-', '-'], seq!['-', '-', '>']),
        XmlKind::Decl => (seq!['<', '?'], seq!['?', '>']),
        XmlKind::PI => (seq!['<', '?'], seq!['?', '>']),
        XmlKind::DocType => (seq!['<', '!', 'D', 'O', 'C', 'T', 'Y', 'P', 'E', ' '], seq!['>']),
        XmlKind::GeneralRef => (seq!['&'], seq![';']),
    };
    open + e.content + close
}

/// The texts of `evs`, one after the other.
pub open spec fn events_text(evs: Seq<XmlEventView>) -> Seq<char>
    decreases evs.len(),
{
    if evs.len() == 0 {
        seq![]
    } else {
        events_text(evs.drop_last()) + event_text(evs.last())
    }
}

/// An attribute value as an XML writer escapes it: `<`, `>`, `&`, `'`, `"`,
/// carriage return, line feed and tab become character references.
pub open spec fn escape_attr_char(c: char) -> Seq<char> {
    if c == '<' {
        seq!['&', 'l', 't', ';']
    } else if c == '>' {
        seq!['&', 'g', 't', ';']
    } else if c == '&' {
        seq!['&', 'a', 'm', 'p', ';']
    } else if c == '\'' {
        seq!['&', 'a', 'p', 'o', 's', ';']
    } else if c == '"' {
        seq!['&', 'q', 'u', 'o', 't', ';']
    } else if c == '\r' {
        seq!['&', '#', '1', '3', ';']
    } else if c == '\n' {
        seq!['&', '#', '1', '0', ';']
    } else if c == '\t' {
        seq!['&', '#', '9', ';']
    } else {
        seq![c]
    }
}

pub open spec fn escape_attr(v: Seq<char>) -> Seq<char>
    decreases v.len(),
{
    if v.len() == 0 {
        seq![]
    } else {
        escape_attr(v.drop_last()) + escape_attr_char(v.last())
    }
}

/// ` key="value"`, the value escaped.
pub open spec fn attr_text(key: Seq<char>, value: Seq<char>) -> Seq<char> {
    seq![' '] + key + seq!['=', '"'] + escape_attr(value) + seq!['"']
}

pub open spec fn attrs_text(pairs: Seq<(Seq<char>, Seq<char>)>) -> Seq<char>
    decreases pairs.len(),
{
    if pairs.len() == 0 {
        seq![]
    } else {
        attrs_text(pairs.drop_last()) + attr_text(pairs.last().0, pairs.last().1)
    }
}

pub open spec fn svg_name() -> Seq<char> {
    seq!['s', 'v', 'g']
}

/// The `<svg>` start tag with `pairs` as its attributes, in order.
pub open spec fn svg_tag(pairs: Seq<(Seq<char>, Seq<char>)>) -> XmlEventView {
    XmlEventView { kind: XmlKind::Start, content: svg_name() + attrs_text(pairs), name: svg_name() }
}

/// The attributes of a start tag that could be read, in order.
pub open spec fn readable_attrs(items: Seq<Option<(Seq<char>, Seq<char>)>>) -> Seq<
    (Seq<char>, Seq<char>),
>
    decreases items.len(),
{
    if items.len() == 0 {
        seq![]
    } else {
        let prev = readable_attrs(items.drop_last());
        match items.last() {
            Some(p) => prev.push(p),
            None => prev,
        }
    }
}

pub open spec fn opt_pairs_view(v: Seq<Option<(String, String)>>) -> Seq<
    Option<(Seq<char>, Seq<char>)>,
> {
    v.map_values(
        |o: Option<(String, String)>|
            match o {
                Some(p) => Some((p.0@, p.1@)),
                None => None,
            },
    )
}

// ---------------------------------------------------------------------------
// Reading and writing the SVG text
// ---------------------------------------------------------------------------

#[verifier::external_type_specification]
#[verifier::external_body]
#[verifier::reject_recursive_types(R)]
pub struct ExReader<R>(Reader<R>);

/// What the `n`-th call (from 0) of `read_event` gives on a reader made by
/// `Reader::from_str(text)`.
pub uninterp spec fn xml_read_step(text: Seq<char>, n: nat) -> XmlStepView;

/// The text a reader reads.
pub uninterp spec fn reader_text(r: Reader<&[u8]>) -> Seq<char>;

/// How many times `read_event` has been called on a reader.
pub uninterp spec fn reader_calls(r: Reader<&[u8]>) -> nat;

/// What `BytesStart::attributes` yields for the start tag with text `content`
/// and name `name`: each attribute's key and raw value, or `None` for one
/// that cannot be read.
pub uninterp spec fn xml_start_attributes(content: Seq<char>, name: Seq<char>) -> Seq<
    Option<(Seq<char>, Seq<char>)>,
>;

/// `Reader::from_str`: a reader over `text`, not read from yet.
#[verifier::external_body]
fn xml_reader<'a>(text: &'a str) -> (r: Reader<&'a [u8]>)
    ensures
        reader_text(r) == text@,
        reader_calls(r) == 0,
{
    Reader::from_str(text)
}

/// `Reader::read_event`: the next event as its kind, its text (what the
/// event dereferences to) and, for a start or empty-element tag, its name
/// (`BytesStart::name`, a prefix of the text); the end of the input; or an
/// error.
#[verifier::external_body]
fn read_xml_event(reader: &mut Reader<&[u8]>) -> (r: XmlStep)
    ensures
        r@ == xml_read_step(reader_text(*old(reader)), reader_calls(*old(reader))),
        reader_text(*final(reader)) == reader_text(*old(reader)),
        reader_calls(*final(reader)) == reader_calls(*old(reader)) + 1,
        (r matches XmlStep::Event(e) ==> e@.well_formed()),
{
    let e = match reader.read_event() {
        Ok(Eof) => return XmlStep::End,
        Ok(e) => e,
        Err(_) => return XmlStep::Failed,
    };
    let kind = match &e {
        Start(_) => XmlKind::Start, End(_) => XmlKind::End, Empty(_) => XmlKind::Empty,
        Text(_) => XmlKind::Text, CData(_) => XmlKind::CData, Comment(_) => XmlKind::Comment,
        Decl(_) => XmlKind::Decl, PI(_) => XmlKind::PI, DocType(_) => XmlKind::DocType,
        _ => XmlKind::GeneralRef,
    };
    let name = match &e { Start(s) | Empty(s) => s.name().0, _ => "" };
    XmlStep::Event(XmlEvent { kind, content: String::from(&*e), name: name.to_owned() })
}

/// `BytesStart::attributes` on `BytesStart::from_content(content, ..)` with
/// the name's length: each attribute's key and raw value, or `None`.
#[verifier::external_body]
fn start_tag_attributes(content: &str, name: &str) -> (r: Vec<Option<(String, String)>>)
    requires
        starts_with(content@, name@),
    ensures
        opt_pairs_view(r@) == xml_start_attributes(content@, name@),
{
    let tag = BytesStart::from_content(content, name.len());
    tag.attributes().map(|a| a.ok().map(|a| (a.key.0.to_owned(), a.value.into_owned()))).collect()
}

/// `BytesStart::push_attribute((key, value))` on a tag with text `content`:
/// the text grows by a space, the key as given, `="`, the value escaped as
/// `escape_attr` says, and `"`.
#[verifier::external_body]
fn push_attribute_text(content: String, key: &str, value: &str) -> (r: String)
    ensures
        r@ == content@ + attr_text(key@, value@),
{
    let mut tag = BytesStart::new(content);
    tag.push_attribute((key, value));
    String::from(&*tag)
}

/// The kinds written as markup around a name: tags, declarations and
/// processing instructions.
pub open spec fn is_markup_kind(k: XmlKind) -> bool {
    ||| k == XmlKind::Start
    ||| k == XmlKind::Empty
    ||| k == XmlKind::End
    ||| k == XmlKind::Decl
    ||| k == XmlKind::PI
}

/// `Writer::write_event` of a markup event `e`, rebuilt as a quick-xml event
/// from its kind and text, on a writer over an empty `Vec<u8>` without
/// indentation: the bytes of `event_text(e)`. Writing into a `Vec` does not
/// fail: it grows.
#[verifier::external_body]
fn markup_event_bytes(e: &XmlEvent) -> (r: Vec<u8>)
    requires
        is_markup_kind(e.kind),
    ensures
        r@ == encode_utf8(event_text(e@)),
{
    let (c, n) = (e.content.as_str(), e.name.len());
    let event = match e.kind {
        XmlKind::Start => Event::Start(BytesStart::from_content(c, n)),
        XmlKind::Empty => Event::Empty(BytesStart::from_content(c, n)),
        XmlKind::End => Event::End(BytesEnd::new(c)),
        XmlKind::Decl => Event::Decl(BytesDecl::from_start(BytesStart::from_content(c, n))),
        _ => Event::PI(BytesPI::new(c)),
    };
    let mut w = Writer::new(Vec::new());
    w.write_event(event).unwrap();
    w.into_inner()
}

/// `Writer::write_event` of any other event `e` (text, CDATA, comment,
/// doctype, entity reference), rebuilt from its kind and text, on a writer
/// over an empty `Vec<u8>` without indentation: the bytes of `event_text(e)`.
#[verifier::external_body]
fn text_event_bytes(e: &XmlEvent) -> (r: Vec<u8>)
    requires
        !is_markup_kind(e.kind),
    ensures
        r@ == encode_utf8(event_text(e@)),
{
    let c = e.content.as_str();
    let event = match e.kind {
        XmlKind::Text => Event::Text(BytesText::from_escaped(c)),
        XmlKind::CData => Event::CData(BytesCData::new(c)),
        XmlKind::Comment => Event::Comment(BytesText::from_escaped(c)),
        XmlKind::DocType => Event::DocType(BytesText::from_escaped(c)),
        _ => Event::GeneralRef(BytesRef::new(c)),
    };
    let mut w = Writer::new(Vec::new());
    w.write_event(event).unwrap();
    w.into_inner()
}

/// The bytes a writer writes for `e`.
fn xml_event_bytes(e: &XmlEvent) -> (r: Vec<u8>)
    ensures
        r@ == encode_utf8(event_text(e@)),
{
    let markup = match e.kind {
        XmlKind::Start | XmlKind::Empty | XmlKind::End | XmlKind::Decl | XmlKind::PI => true,
        _ => false,
    };
    if markup {
        markup_event_bytes(e)
    } else {
        text_event_bytes(e)
    }
}

/// `String::from_utf8`: the text the bytes encode, when they are UTF-8.
#[verifier::external_body]
fn utf8_text(bytes: Vec<u8>) -> (r: Option<String>)
    ensures
        r is Some <==> valid_utf8(bytes@),
        r matches Some(s) ==> s@ == decode_utf8(bytes@),
{
    String::from_utf8(bytes).ok()
}

fn keep_readable(items: &Vec<Option<(String, String)>>) -> (r: Vec<(String, String)>)
    ensures
        pairs_view(r@) == readable_attrs(opt_pairs_view(items@)),
{
    let mut r: Vec<(String, String)> = Vec::new();
    let mut k: usize = 0;
    while k < items.len()
        invariant
            k <= items@.len(),
            pairs_view(r@) == readable_attrs(opt_pairs_view(items@.take(k as int))),
        decreases items@.len() - k,
    {
        assert(opt_pairs_view(items@.take(k + 1)).drop_last() =~= opt_pairs_view(
            items@.take(k as int),
        ));
        let ghost before = pairs_view(r@);
        match &items[k] {
            Some(p) => {
                let key = p.0.clone();
                let value = p.1.clone();
                r.push((key, value));
                assert(pairs_view(r@) =~= before.push((p.0@, p.1@)));
            },
            None => {},
        }
        k = k + 1;
    }
    assert(items@.take(k as int) =~= items@);
    r
}

/// The attributes to write on a start tag named `name` whose attributes read
/// as `existing`: for `<svg>`, the merged ones (see `merged_svg_attrs`); for
/// any other tag, `None`, and the tag is written as it was read.
pub fn svg_start_attrs(
    name: &str,
    existing: &Vec<Option<(String, String)>>,
    overrides: &Vec<(String, String)>,
) -> (r: Option<Vec<(String, String)>>)
    ensures
        match r {
            Some(v) => name@ == svg_name() && pairs_view(v@) == merged_svg_attrs(
                readable_attrs(opt_pairs_view(existing@)),
                pairs_view(overrides@),
            ),
            None => name@ != svg_name(),
        },
{
    proof {
        reveal_strlit("svg");
        assert("svg"@ =~= svg_name());
    }
    if str_eq(name, "svg") {
        let kept = keep_readable(existing);
        Some(merge_svg_attrs(&kept, overrides))
    } else {
        None
    }
}

/// The `<svg>` start tag with `pairs` as its attributes.
fn svg_tag_event(pairs: &Vec<(String, String)>) -> (r: XmlEvent)
    ensures
        r@ == svg_tag(pairs_view(pairs@)),
{
    proof {
        reveal_strlit("svg");
        assert("svg"@ =~= svg_name());
    }
    let mut content = "svg".to_owned();
    let mut k: usize = 0;
    while k < pairs.len()
        invariant
            k <= pairs@.len(),
            content@ == svg_name() + attrs_text(pairs_view(pairs@).take(k as int)),
        decreases pairs@.len() - k,
    {
        content = push_attribute_text(content, pairs[k].0.as_str(), pairs[k].1.as_str());
        assert(pairs_view(pairs@).take(k + 1).drop_last() =~= pairs_view(pairs@).take(k as int));
        k = k + 1;
    }
    assert(pairs_view(pairs@).take(k as int) =~= pairs_view(pairs@));
    XmlEvent { kind: XmlKind::Start, content, name: "svg".to_owned() }
}

/// An event as it is written back: an `<svg>` start tag becomes the `<svg>`
/// start tag with the merged attributes (defaults, then the tag's own
/// readable attributes, then `attrs`); any other event stays as it is.
pub open spec fn rewrite_event(e: XmlEventView, attrs: Seq<(Seq<char>, Seq<char>)>) -> XmlEventView {
    if e.kind == XmlKind::Start && e.name == svg_name() {
        svg_tag(merged_svg_attrs(readable_attrs(xml_start_attributes(e.content, e.name)), attrs))
    } else {
        e
    }
}

pub open spec fn rewrite_events(
    evs: Seq<XmlEventView>,
    attrs: Seq<(Seq<char>, Seq<char>)>,
) -> Seq<XmlEventView> {
    evs.map_values(|e: XmlEventView| rewrite_event(e, attrs))
}

/// Events holding no `<svg>` start tag are written back as they were read.
pub proof fn lemma_rewrite_without_svg(
    evs: Seq<XmlEventView>,
    attrs: Seq<(Seq<char>, Seq<char>)>,
)
    requires
        forall|i: int|
            0 <= i < evs.len() ==> !((#[trigger] evs[i]).kind == XmlKind::Start && evs[i].name
                == svg_name()),
    ensures
        rewrite_events(evs, attrs) == evs,
{
    assert(rewrite_events(evs, attrs) =~= evs);
}

/// One event rewritten as `rewrite_event` says.
pub fn rewrite_svg_event(e: XmlEvent, attrs: &Vec<(String, String)>) -> (r: XmlEvent)
    requires
        e@.well_formed(),
    ensures
        r@ == rewrite_event(e@, pairs_view(attrs@)),
{
    let is_start = match e.kind {
        XmlKind::Start => true,
        _ => false,
    };
    if is_start {
        let attributes = start_tag_attributes(e.content.as_str(), e.name.as_str());
        match svg_start_attrs(e.name.as_str(), &attributes, attrs) {
            Some(merged) => svg_tag_event(&merged),
            None => e,
        }
    } else {
        e
    }
}

/// The events read from an icon's SVG text, rewritten as `rewrite_event`
/// says: every `<svg>` start tag gets the merged attributes.
pub fn rewrite_svg_events(events: Vec<XmlEvent>, attrs: &Vec<(String, String)>) -> (r: Vec<
    XmlEvent,
>)
    requires
        forall|i: int| 0 <= i < events@.len() ==> (#[trigger] events@[i])@.well_formed(),
    ensures
        events_view(r@) == rewrite_events(events_view(events@), pairs_view(attrs@)),
{
    let mut v = events;
    let mut k: usize = 0;
    while k < v.len()
        invariant
            k <= v@.len(),
            v@.len() == events@.len(),
            forall|i: int| k <= i < v@.len() ==> v@[i] == events@[i],
            forall|i: int| 0 <= i < events@.len() ==> (#[trigger] events@[i])@.well_formed(),
            forall|i: int|
                0 <= i < k ==> (#[trigger] v@[i])@ == rewrite_event(
                    events@[i]@,
                    pairs_view(attrs@),
                ),
        decreases v@.len() - k,
    {
        let mut e = XmlEvent { kind: XmlKind::Text, content: String::new(), name: String::new() };
        v.set_and_swap(k, &mut e);
        let mut new = rewrite_svg_event(e, attrs);
        v.set_and_swap(k, &mut new);
        k = k + 1;
    }
    assert(events_view(v@) =~= rewrite_events(events_view(events@), pairs_view(attrs@)));
    v
}

/// The events `Reader::from_str(text)` yields on its first `n` calls.
pub open spec fn read_events(text: Seq<char>, n: nat) -> Seq<XmlEventView> {
    Seq::new(
        n,
        |i: int|
            match xml_read_step(text, i as nat) {
                XmlStepView::Event(e) => e,
                _ => svg_tag(seq![]),
            },
    )
}

/// Call `n` is the first that does not yield an event, and it comes within
/// `usize::MAX` calls.
pub open spec fn first_stop(text: Seq<char>, n: nat) -> bool {
    &&& n < usize::MAX
    &&& !(xml_read_step(text, n) is Event)
    &&& forall|m: nat| m < n ==> (#[trigger] xml_read_step(text, m)) is Event
}

/// The SVG text with the document's attributes on its `<svg>` start tags:
/// the events read up to the end of the input, rewritten and written back.
/// Where reading fails, or does not end within `usize::MAX` calls, the text
/// as it is.
pub open spec fn injected_text(text: Seq<char>, attrs: Seq<(Seq<char>, Seq<char>)>) -> Seq<char> {
    if exists|n: nat| first_stop(text, n) {
        let n = choose|n: nat| first_stop(text, n);
        if xml_read_step(text, n) is End {
            events_text(rewrite_events(read_events(text, n), attrs))
        } else {
            text
        }
    } else {
        text
    }
}

proof fn lemma_encode_concat(a: Seq<char>, b: Seq<char>)
    ensures
        encode_utf8(a + b) == encode_utf8(a) + encode_utf8(b),
    decreases a.len(),
{
    if a.len() == 0 {
        assert(a + b =~= b);
    } else {
        lemma_encode_concat(a.drop_first(), b);
        assert((a + b).drop_first() =~= a.drop_first() + b);
        assert((a + b)[0] == a[0]);
    }
}

/// The icon's SVG text with the document's attributes `attrs` on its `<svg>`
/// start tags (see `injected_text`).
pub fn inject_inline_attrs(svg: &str, attrs: &Vec<(String, String)>) -> (r: String)
    ensures
        r@ == injected_text(svg@, pairs_view(attrs@)),
{
    broadcast use {vstd::utf8::encode_utf8_valid_utf8, vstd::utf8::encode_utf8_decode_utf8};

    let ghost text = svg@;
    let ghost a = pairs_view(attrs@);
    let mut reader = xml_reader(svg);
    let mut out: Vec<u8> = Vec::new();
    let ghost mut count: nat = 0;
    let mut budget: usize = usize::MAX;
    assert(events_text(rewrite_events(read_events(text, 0), a)) =~= seq![]);
    while budget > 0
        invariant
            text == svg@,
            a == pairs_view(attrs@),
            count + budget == usize::MAX,
            reader_text(reader) == text,
            reader_calls(reader) == count,
            forall|m: nat| m < count ==> (#[trigger] xml_read_step(text, m)) is Event,
            out@ == encode_utf8(events_text(rewrite_events(read_events(text, count), a))),
        decreases budget,
    {
        budget = budget - 1;
        let step = read_xml_event(&mut reader);
        match step {
            XmlStep::Event(e) => {
                let ghost ev = e@;
                let new = rewrite_svg_event(e, attrs);
                let mut bytes = xml_event_bytes(&new);
                proof {
                    let prev = rewrite_events(read_events(text, count), a);
                    assert(read_events(text, count + 1) =~= read_events(text, count).push(ev));
                    assert(rewrite_events(read_events(text, count + 1), a) =~= prev.push(
                        rewrite_event(ev, a),
                    ));
                    assert(rewrite_events(read_events(text, count + 1), a).drop_last() =~= prev);
                    lemma_encode_concat(events_text(prev), event_text(rewrite_event(ev, a)));
                }
                out.append(&mut bytes);
                proof {
                    count = count + 1;
                }
            },
            XmlStep::End => {
                proof {
                    assert(first_stop(text, count));
                    let n = choose|n: nat| first_stop(text, n);
                    if n < count {
                        assert(xml_read_step(text, n) is Event);
                    }
                    if n > count {
                        assert(xml_read_step(text, count) is Event);
                    }
                    assert(n == count);
                    let t = events_text(rewrite_events(read_events(text, count), a));
                    vstd::utf8::encode_utf8_valid_utf8(t);
                    vstd::utf8::encode_utf8_decode_utf8(t);
                    assert(injected_text(text, a) == t);
                }
                return match utf8_text(out) {
                    Some(t) => t,
                    None => svg.to_owned(),
                };
            },
            XmlStep::Failed => {
                proof {
                    assert(first_stop(text, count));
                    let n = choose|n: nat| first_stop(text, n);
                    if n < count {
                        assert(xml_read_step(text, n) is Event);
                    }
                    if n > count {
                        assert(xml_read_step(text, count) is Event);
                    }
                    assert(n == count);
                }
                return svg.to_owned();
            },
        }
    }
    proof {
        if exists|n: nat| first_stop(text, n) {
            let n = choose|n: nat| first_stop(text, n);
            assert(xml_read_step(text, n) is Event);
        }
    }
    svg.to_owned()
}

} // verus!
