//! Cross-fragment validation of inline and block HTML: tag balance, with
//! errors placed at source offsets and ordered by them.
use vstd::prelude::*;

use crate::rules::html::utils::tokensink::{
    events_plain, scan_errors, scan_tag_events, scan_warnings, sink_tokens, tokens_view,
    HtmlTokenSink, SinkToken, TagEvent, TagKind, TokenView,
};
use html5ever::tokenizer::TagKind as HtmlTagKind;
use html5ever::tokenizer::{BufferQueue, Token, TokenSink, TokenSinkResult, Tokenizer, TokenizerOpts};
use std::cell::RefCell;
use crate::text::{is_blank, is_blank_chars, string_from_chars};
use markdown_it::common::sourcemap::{SourcePos, SourceWithLineStarts};
use vstd::multiset::Multiset;
use vstd::string::StringExecFns;
use vstd::string::StringSliceAdditionalSpecFns;

verus! {

broadcast use vstd::seq_lib::group_to_multiset_ensures;

/// Whether the byte offset points to the exact problem location
/// or only to the start of the containing HTML node.
#[derive(Debug, Clone, Copy, PartialEq, Eq, Structural)]
pub enum ErrorOffset {
    /// Precise byte offset (resolved from tag matching).
    Exact(usize),
    /// Coarse offset: only the start of the HTML node that contains the error.
    NodeStart(usize),
}

impl ErrorOffset {
    pub open spec fn spec_value(self) -> usize {
        match self {
            ErrorOffset::Exact(o) => o,
            ErrorOffset::NodeStart(o) => o,
        }
    }

    /// The byte offset, exact or not.
    pub fn value(&self) -> (r: usize)
        ensures
            r == self.spec_value(),
    {
        match self {
            ErrorOffset::Exact(o) => *o,
            ErrorOffset::NodeStart(o) => *o,
        }
    }

    /// An exact offset when one is known, else the node start.
    pub fn from_option(offset: Option<usize>, fallback: usize) -> (r: Self)
        ensures
            r == (match offset {
                Some(o) => ErrorOffset::Exact(o),
                None => ErrorOffset::NodeStart(fallback),
            }),
    {
        match offset {
            Some(o) => ErrorOffset::Exact(o),
            None => ErrorOffset::NodeStart(fallback),
        }
    }
}

#[derive(Debug, Clone, Copy, PartialEq, Eq, Structural)]
pub enum Severity {
    Error,
    Warning,
}

/// A note attached to an error, pointing at a second location.
pub struct RelatedInfo {
    pub offset: ErrorOffset,
    pub message: String,
}

/// One diagnostic of the validator.
pub struct HtmlError {
    pub offset: ErrorOffset,
    pub message: String,
    pub severity: Severity,
    pub related: Vec<RelatedInfo>,
}

/// What a diagnostic says, as plain values.
pub struct ErrorView {
    pub offset: ErrorOffset,
    pub message: Seq<char>,
    pub severity: Severity,
    pub related: Seq<(ErrorOffset, Seq<char>)>,
}

impl View for HtmlError {
    type V = ErrorView;

    open spec fn view(&self) -> ErrorView {
        ErrorView {
            offset: self.offset,
            message: self.message@,
            severity: self.severity,
            related: self.related@.map_values(|r: RelatedInfo| (r.offset, r.message@)),
        }
    }
}

pub open spec fn errors_view(errors: Seq<HtmlError>) -> Seq<ErrorView> {
    errors.map_values(|e: HtmlError| e@)
}

// ---------------------------------------------------------------------------
// Tag balance
// ---------------------------------------------------------------------------

pub open spec fn orphan_message(tag: Seq<char>) -> Seq<char> {
    "closing </"@ + tag + "> has no matching opener"@
}

pub open spec fn misnested_message(tag: Seq<char>) -> Seq<char> {
    "misnested <"@ + tag + ">"@
}

pub open spec fn forced_message(tag: Seq<char>) -> Seq<char> {
    "forced by </"@ + tag + ">"@
}

pub open spec fn unclosed_message(tag: Seq<char>) -> Seq<char> {
    "unclosed <"@ + tag + ">"@
}

pub open spec fn plain_error(offset: usize, message: Seq<char>) -> ErrorView {
    ErrorView {
        offset: ErrorOffset::Exact(offset),
        message,
        severity: Severity::Error,
        related: seq![],
    }
}

/// The error for an opener `(tag, offset)` forced closed by `</closer>` at `at`.
pub open spec fn misnested_error(open: (Seq<char>, usize), closer: Seq<char>, at: usize) -> ErrorView {
    ErrorView {
        offset: ErrorOffset::Exact(open.1),
        message: misnested_message(open.0),
        severity: Severity::Error,
        related: seq![(ErrorOffset::Exact(at), forced_message(closer))],
    }
}

/// The state of the balance check: open tags (name, offset), the multiset of
/// names forced closed, and the errors so far.
pub struct NestState {
    pub stack: Seq<(Seq<char>, usize)>,
    pub evicted: Multiset<Seq<char>>,
    pub errors: Seq<ErrorView>,
}

/// The index of the topmost open tag named `tag`.
pub open spec fn last_match(stack: Seq<(Seq<char>, usize)>, tag: Seq<char>) -> Option<int>
    decreases stack.len(),
{
    if stack.len() == 0 {
        None
    } else if stack.last().0 == tag {
        Some(stack.len() - 1)
    } else {
        last_match(stack.drop_last(), tag)
    }
}

/// Misnesting errors for the openers above index `from`, topmost first.
pub open spec fn evictions(stack: Seq<(Seq<char>, usize)>, from: int, closer: Seq<char>, at: usize) -> Seq<
    ErrorView,
>
    decreases stack.len(),
{
    if stack.len() <= from || stack.len() == 0 {
        seq![]
    } else {
        seq![misnested_error(stack.last(), closer, at)] + evictions(stack.drop_last(), from, closer, at)
    }
}

/// `ev` with the names of the openers above index `from` added.
pub open spec fn evicted_names(stack: Seq<(Seq<char>, usize)>, from: int, ev: Multiset<Seq<char>>) -> Multiset<
    Seq<char>,
>
    decreases stack.len(),
{
    if stack.len() <= from || stack.len() == 0 {
        ev
    } else {
        evicted_names(stack.drop_last(), from, ev.insert(stack.last().0))
    }
}

/// One event of the balance check: an opener is pushed; a closer consumes the
/// nearest opener of its name, forcing closed everything above it, or, with no
/// such opener, is absorbed by an earlier forced close of its name or reported.
pub open spec fn nest_step(s: NestState, e: TagEvent) -> NestState {
    if e.is_open {
        NestState { stack: s.stack.push((e.tag@, e.offset)), ..s }
    } else {
        match last_match(s.stack, e.tag@) {
            None => if s.evicted.count(e.tag@) > 0 {
                NestState { evicted: s.evicted.remove(e.tag@), ..s }
            } else {
                NestState {
                    errors: s.errors.push(plain_error(e.offset, orphan_message(e.tag@))),
                    ..s
                }
            },
            Some(j) => NestState {
                stack: s.stack.take(j),
                evicted: evicted_names(s.stack, j + 1, s.evicted),
                errors: s.errors + evictions(s.stack, j + 1, e.tag@, e.offset),
            },
        }
    }
}

pub open spec fn nest_fold(events: Seq<TagEvent>) -> NestState
    decreases events.len(),
{
    if events.len() == 0 {
        NestState { stack: seq![], evicted: Multiset::empty(), errors: seq![] }
    } else {
        nest_step(nest_fold(events.drop_last()), events.last())
    }
}

/// All errors of the balance check: those raised while scanning, then one
/// `unclosed` error per opener left open, bottom first.
pub open spec fn nesting_errors(events: Seq<TagEvent>) -> Seq<ErrorView> {
    let s = nest_fold(events);
    s.errors + s.stack.map_values(|p: (Seq<char>, usize)| plain_error(p.1, unclosed_message(p.0)))
}

fn tag_message(prefix: &str, tag: &String, suffix: &str) -> (m: String)
    ensures
        m@ == prefix@ + tag@ + suffix@,
{
    let mut m = String::from_str(prefix);
    m.append(tag.as_str());
    m.append(suffix);
    m
}

fn plain_exact_error(offset: usize, message: String) -> (e: HtmlError)
    ensures
        e@ == plain_error(offset, message@),
{
    let e = HtmlError {
        offset: ErrorOffset::Exact(offset),
        message,
        severity: Severity::Error,
        related: Vec::new(),
    };
    assert(e@.related =~= seq![]);
    e
}

pub open spec fn stack_view(events: Seq<TagEvent>, stack: Seq<usize>) -> Seq<(Seq<char>, usize)> {
    stack.map_values(|k: usize| (events[k as int].tag@, events[k as int].offset))
}

pub open spec fn bag_view(bag: Seq<String>) -> Multiset<Seq<char>> {
    bag.map_values(|s: String| s@).to_multiset()
}

fn find_last_open(tag_events: &[TagEvent], stack: &Vec<usize>, tag: &String) -> (r: Option<usize>)
    requires
        forall|m: int| 0 <= m < stack@.len() ==> (#[trigger] stack@[m]) < tag_events@.len(),
    ensures
        r == (match last_match(stack_view(tag_events@, stack@), tag@) {
            Some(j) => Some(j as usize),
            None => None::<usize>,
        }),
        r matches Some(j) ==> j < stack@.len() && last_match(stack_view(tag_events@, stack@), tag@)
            == Some(j as int),
{
    let ghost sv = stack_view(tag_events@, stack@);
    let mut k: usize = stack.len();
    assert(sv.take(k as int) =~= sv);
    while k > 0
        invariant
            k <= stack@.len(),
            sv == stack_view(tag_events@, stack@),
            forall|m: int| 0 <= m < stack@.len() ==> (#[trigger] stack@[m]) < tag_events@.len(),
            last_match(sv, tag@) == last_match(sv.take(k as int), tag@),
        decreases k,
    {
        let top = stack[k - 1];
        assert(sv.take(k as int).last() == sv[k - 1]);
        if tag_events[top].tag == *tag {
            return Some(k - 1);
        }
        assert(sv.take(k as int).drop_last() =~= sv.take(k - 1));
        k = k - 1;
    }
    assert(sv.take(0) =~= Seq::<(Seq<char>, usize)>::empty());
    None
}

/// Remove one forced-closed `tag` from the bag, if there is one.
fn take_evicted(bag: &mut Vec<String>, tag: &String) -> (r: bool)
    ensures
        r == (bag_view(old(bag)@).count(tag@) > 0),
        r ==> bag_view(final(bag)@) == bag_view(old(bag)@).remove(tag@),
        !r ==> bag_view(final(bag)@) == bag_view(old(bag)@),
{
    let ghost names = bag@.map_values(|s: String| s@);
    let mut k: usize = 0;
    while k < bag.len()
        invariant
            k <= bag@.len(),
            bag@ == old(bag)@,
            names == bag@.map_values(|s: String| s@),
            forall|m: int| 0 <= m < k ==> names[m] != tag@,
        decreases bag@.len() - k,
    {
        if bag[k] == *tag {
            let ghost before = bag@;
            bag.remove(k);
            proof {
                assert(bag@.map_values(|s: String| s@) =~= names.remove(k as int));
                assert(names[k as int] == tag@);
                assert(names.contains(tag@));
            }
            return true;
        }
        k = k + 1;
    }
    proof {
        assert(!names.contains(tag@));
    }
    false
}

/// Check tag balance across all collected tag events, appending one error per
/// unmatched closer, per opener forced closed by a later closer, and per opener
/// left open. HTML's implicit close rules are deliberately not applied.
pub fn validate_tag_nesting(tag_events: &[TagEvent], errors: &mut Vec<HtmlError>)
    ensures
        errors_view(final(errors)@) == errors_view(old(errors)@) + nesting_errors(tag_events@),
{
    let ghost events = tag_events@;
    let ghost base = errors_view(errors@);
    let mut stack: Vec<usize> = Vec::new();
    let mut bag: Vec<String> = Vec::new();
    let mut i: usize = 0;
    proof {
        assert(events.take(0) =~= Seq::<TagEvent>::empty());
        assert(stack_view(events, stack@) =~= Seq::<(Seq<char>, usize)>::empty());
        assert(bag_view(bag@) =~= Multiset::<Seq<char>>::empty());
        assert(errors_view(errors@) =~= base + Seq::<ErrorView>::empty());
    }
    while i < tag_events.len()
        invariant
            events == tag_events@,
            i <= events.len(),
            forall|m: int| 0 <= m < stack@.len() ==> (#[trigger] stack@[m]) < events.len(),
            stack_view(events, stack@) == nest_fold(events.take(i as int)).stack,
            bag_view(bag@) == nest_fold(events.take(i as int)).evicted,
            errors_view(errors@) == base + nest_fold(events.take(i as int)).errors,
        decreases events.len() - i,
    {
        let ghost pre = nest_fold(events.take(i as int));
        assert(events.take(i + 1).drop_last() =~= events.take(i as int));
        assert(events.take(i + 1).last() == events[i as int]);
        let event = &tag_events[i];
        if event.is_open {
            let ghost sv0 = stack_view(events, stack@);
            stack.push(i);
            assert(stack_view(events, stack@) =~= sv0.push((event.tag@, event.offset)));
            assert(stack_view(events, stack@) == nest_step(pre, events[i as int]).stack);
            assert(bag_view(bag@) == nest_step(pre, events[i as int]).evicted);
        } else {
            match find_last_open(tag_events, &stack, &event.tag) {
                None => {
                    if !take_evicted(&mut bag, &event.tag) {
                        let msg = tag_message("closing </", &event.tag, "> has no matching opener");
                        let e = plain_exact_error(event.offset, msg);
                        let ghost ev0 = errors_view(errors@);
                        errors.push(e);
                        assert(errors_view(errors@) =~= ev0.push(e@));
                    }
                    assert(stack_view(events, stack@) == nest_step(pre, events[i as int]).stack);
                    assert(bag_view(bag@) == nest_step(pre, events[i as int]).evicted);
                },
                Some(pos) => {
                    let ghost sv_orig = stack_view(events, stack@);
                    let ghost st_orig = stack@;
                    let ghost target_errors = base + pre.errors + evictions(
                        sv_orig,
                        pos + 1,
                        event.tag@,
                        event.offset,
                    );
                    let ghost target_bag = evicted_names(sv_orig, pos + 1, pre.evicted);
                    assert(errors_view(errors@) + evictions(sv_orig, pos + 1, event.tag@, event.offset)
                        =~= target_errors);
                    while stack.len() > pos + 1
                        invariant
                            events == tag_events@,
                            pos < stack@.len() <= st_orig.len(),
                            stack@ == st_orig.take(stack@.len() as int),
                            sv_orig == stack_view(events, st_orig),
                            sv_orig == pre.stack,
                            target_bag == evicted_names(sv_orig, pos + 1, pre.evicted),
                            last_match(sv_orig, event.tag@) == Some(pos as int),
                            *event == events[i as int],
                            forall|m: int| 0 <= m < st_orig.len() ==> (#[trigger] st_orig[m]) < events.len(),
                            errors_view(errors@) + evictions(
                                stack_view(events, stack@),
                                pos + 1,
                                event.tag@,
                                event.offset,
                            ) == target_errors,
                            evicted_names(stack_view(events, stack@), pos + 1, bag_view(bag@))
                                == target_bag,
                        decreases stack@.len(),
                    {
                        let ghost sv = stack_view(events, stack@);
                        let top = stack.pop().unwrap();
                        assert(stack@ =~= st_orig.take(stack@.len() as int));
                        assert(sv.drop_last() =~= stack_view(events, stack@));
                        assert(sv.last() == (tag_events@[top as int].tag@, tag_events@[top as int].offset));
                        let ghost b0 = bag@;
                        bag.push(tag_events[top].tag.clone());
                        assert(bag@.map_values(|s: String| s@) =~= b0.map_values(|s: String| s@).push(
                            tag_events@[top as int].tag@,
                        ));
                        let msg = tag_message("misnested <", &tag_events[top].tag, ">");
                        let forced = tag_message("forced by </", &event.tag, ">");
                        let mut related: Vec<RelatedInfo> = Vec::new();
                        related.push(RelatedInfo { offset: ErrorOffset::Exact(event.offset), message: forced });
                        let e = HtmlError {
                            offset: ErrorOffset::Exact(tag_events[top].offset),
                            message: msg,
                            severity: Severity::Error,
                            related,
                        };
                        assert(e@.related =~= seq![(ErrorOffset::Exact(event.offset), forced_message(event.tag@))]);
                        assert(e@ == misnested_error(sv.last(), event.tag@, event.offset));
                        let ghost ev0 = errors_view(errors@);
                        errors.push(e);
                        assert(errors_view(errors@) =~= ev0.push(e@));
                        assert(evictions(sv, pos + 1, event.tag@, event.offset) =~= seq![e@]
                            + evictions(sv.drop_last(), pos + 1, event.tag@, event.offset));
                        assert(ev0.push(e@) + evictions(sv.drop_last(), pos + 1, event.tag@, event.offset)
                            =~= ev0 + evictions(sv, pos + 1, event.tag@, event.offset));
                    }
                    assert(errors_view(errors@) =~= target_errors);
                    assert(bag_view(bag@) == target_bag);
                    stack.pop();
                    assert(stack@ =~= st_orig.take(pos as int));
                    assert(stack_view(events, stack@) =~= sv_orig.take(pos as int));
                    assert(stack_view(events, stack@) == nest_step(pre, events[i as int]).stack);
                    assert(bag_view(bag@) == nest_step(pre, events[i as int]).evicted);
                },
            }
        }
        assert(nest_fold(events.take(i + 1)) == nest_step(pre, events[i as int]));
        i = i + 1;
    }
    assert(events.take(i as int) =~= events);
    let ghost fin = nest_fold(events);
    let ghost sv = stack_view(events, stack@);
    let ghost unclosed = sv.map_values(|p: (Seq<char>, usize)| plain_error(p.1, unclosed_message(p.0)));
    let mut m: usize = 0;
    while m < stack.len()
        invariant
            events == tag_events@,
            sv == stack_view(events, stack@),
            unclosed == sv.map_values(|p: (Seq<char>, usize)| plain_error(p.1, unclosed_message(p.0))),
            fin == nest_fold(events),
            m <= stack@.len(),
            forall|k: int| 0 <= k < stack@.len() ==> (#[trigger] stack@[k]) < events.len(),
            errors_view(errors@) == base + fin.errors + unclosed.take(m as int),
        decreases stack@.len() - m,
    {
        let ev = &tag_events[stack[m]];
        let msg = tag_message("unclosed <", &ev.tag, ">");
        let e = plain_exact_error(ev.offset, msg);
        let ghost ev0 = errors_view(errors@);
        errors.push(e);
        assert(errors_view(errors@) =~= ev0.push(e@));
        assert(unclosed[m as int] == e@);
        assert(unclosed.take(m + 1) =~= unclosed.take(m as int).push(e@));
        m = m + 1;
    }
    assert(unclosed.take(m as int) =~= unclosed);
}

// ---------------------------------------------------------------------------
// Collecting per-fragment results and ordering the diagnostics
// ---------------------------------------------------------------------------

/// What one HTML fragment contributes: its errors, warnings and tag events.
pub struct ScanResult {
    pub errors: Vec<HtmlError>,
    pub warnings: Vec<HtmlError>,
    pub tag_events: Vec<TagEvent>,
}

/// The diagnostic for one `(offset, message)` entry of a sink: an exact offset
/// when the sink resolved one, else the fragment start.
pub open spec fn sink_entry_view(entry: (Option<usize>, String), node_offset: usize, severity: Severity) -> ErrorView {
    ErrorView {
        offset: match entry.0 {
            Some(o) => ErrorOffset::Exact(o),
            None => ErrorOffset::NodeStart(node_offset),
        },
        message: entry.1@,
        severity,
        related: seq![],
    }
}

pub open spec fn sink_entries_view(entries: Seq<(Option<usize>, String)>, node_offset: usize, severity: Severity) -> Seq<ErrorView> {
    entries.map_values(|entry: (Option<usize>, String)| sink_entry_view(entry, node_offset, severity))
}

fn entries_to_errors(entries: &Vec<(Option<usize>, String)>, node_offset: usize, severity: Severity) -> (r: Vec<HtmlError>)
    ensures
        errors_view(r@) == sink_entries_view(entries@, node_offset, severity),
{
    let mut r: Vec<HtmlError> = Vec::new();
    let mut k: usize = 0;
    while k < entries.len()
        invariant
            k <= entries@.len(),
            errors_view(r@) == sink_entries_view(entries@, node_offset, severity).take(k as int),
        decreases entries@.len() - k,
    {
        let e = HtmlError {
            offset: ErrorOffset::from_option(entries[k].0, node_offset),
            message: entries[k].1.clone(),
            severity,
            related: Vec::new(),
        };
        assert(e@.related =~= seq![]);
        let ghost ev0 = errors_view(r@);
        r.push(e);
        assert(errors_view(r@) =~= ev0.push(e@));
        assert(sink_entries_view(entries@, node_offset, severity).take(k + 1) =~= sink_entries_view(
            entries@,
            node_offset,
            severity,
        ).take(k as int).push(e@));
        k = k + 1;
    }
    assert(sink_entries_view(entries@, node_offset, severity).take(k as int) =~= sink_entries_view(
        entries@,
        node_offset,
        severity,
    ));
    r
}

/// Turn what the token sink gathered for one fragment into diagnostics and
/// tag events: errors with exact offsets where known, else the fragment start.
pub fn collect_scan_result(sink: HtmlTokenSink) -> (r: ScanResult)
    ensures
        errors_view(r.errors@) == sink_entries_view(sink.errors@, sink.node_offset, Severity::Error),
        errors_view(r.warnings@) == sink_entries_view(sink.warnings@, sink.node_offset, Severity::Warning),
        r.tag_events@ == sink.tag_events@,
{
    let errors = entries_to_errors(&sink.errors, sink.node_offset, Severity::Error);
    let warnings = entries_to_errors(&sink.warnings, sink.node_offset, Severity::Warning);
    ScanResult { errors, warnings, tag_events: sink.tag_events }
}

/// The diagnostics for plain `(offset, message)` entries of a fragment.
pub open spec fn entries_view(
    entries: Seq<(Option<usize>, Seq<char>)>,
    node_offset: usize,
    severity: Severity,
) -> Seq<ErrorView> {
    entries.map_values(
        |entry: (Option<usize>, Seq<char>)|
            ErrorView {
                offset: match entry.0 {
                    Some(o) => ErrorOffset::Exact(o),
                    None => ErrorOffset::NodeStart(node_offset),
                },
                message: entry.1,
                severity,
                related: seq![],
            },
    )
}

/// `r` is what scanning the fragment with bytes `html` at `node_offset`
/// gives when its tokens are `tokens`.
pub open spec fn scan_matches(
    r: ScanResult,
    html: Seq<u8>,
    node_offset: usize,
    tokens: Seq<TokenView>,
) -> bool {
    &&& errors_view(r.errors@) == entries_view(
        scan_errors(html, node_offset, tokens),
        node_offset,
        Severity::Error,
    )
    &&& errors_view(r.warnings@) == entries_view(
        scan_warnings(html, node_offset, tokens),
        node_offset,
        Severity::Warning,
    )
    &&& events_plain(r.tag_events@) == scan_tag_events(html, node_offset, tokens)
}

/// Scan one HTML fragment, which starts at `node_offset` of the source, from
/// the tokens the HTML tokenizer emits for it: every token goes through the
/// sink in order, then the sink's findings become diagnostics.
pub fn scan_tokens(node_html: &str, node_offset: usize, tokens: &Vec<SinkToken>) -> (r: ScanResult)
    requires
        node_offset + node_html.spec_bytes().len() <= usize::MAX,
    ensures
        scan_matches(r, node_html.spec_bytes(), node_offset, tokens_view(tokens@)),
{
    let sink = sink_tokens(node_html, node_offset, tokens);
    let ghost errors = sink.errors@;
    let ghost warnings = sink.warnings@;
    let r = collect_scan_result(sink);
    assert(sink_entries_view(errors, node_offset, Severity::Error) =~= entries_view(
        crate::rules::html::utils::tokensink::entries_plain(errors),
        node_offset,
        Severity::Error,
    ));
    assert(sink_entries_view(warnings, node_offset, Severity::Warning) =~= entries_view(
        crate::rules::html::utils::tokensink::entries_plain(warnings),
        node_offset,
        Severity::Warning,
    ));
    r
}

#[verifier::external_type_specification]
#[verifier::external_body]
pub struct ExToken(Token);

#[verifier::external_type_specification]
#[verifier::external_body]
#[verifier::reject_recursive_types(Handle)]
pub struct ExTokenSinkResult<Handle>(TokenSinkResult<Handle>);

#[verifier::external_type_specification]
#[verifier::external_body]
#[verifier::reject_recursive_types(T)]
pub struct ExRefCell<T: ?Sized>(RefCell<T>);

/// Gathers the tokens html5ever's tokenizer emits.
struct TokenCollector {
    tokens: RefCell<Vec<SinkToken>>,
}

impl TokenSink for TokenCollector {
    type Handle = ();

    /// Each token as a `SinkToken`: a parse error with its message, a tag with
    /// its kind, name and flags, a run of characters with its length, or any
    /// other token; then the tokenizer goes on.
    #[verifier::external_body]
    fn process_token(&self, token: Token, _line_number: u64) -> TokenSinkResult<()> {
        let token = match token {
            Token::ParseError(msg) => SinkToken::ParseError(msg.to_string()),
            Token::TagToken(tag) => SinkToken::Tag {
                kind: match tag.kind { HtmlTagKind::StartTag => TagKind::StartTag, _ => TagKind::EndTag },
                name: String::from(&*tag.name),
                self_closing: tag.self_closing,
                had_duplicate_attributes: tag.had_duplicate_attributes,
            },
            Token::CharacterTokens(s) => SinkToken::Characters(s.len()),
            _ => SinkToken::Other,
        };
        self.tokens.borrow_mut().push(token);
        TokenSinkResult::Continue
    }
}

/// The tokens html5ever's `Tokenizer` emits for `html` (default options but
/// `exact_errors` off, the whole text fed at once, then ended), in order.
pub uninterp spec fn html_token_stream(html: Seq<char>) -> Seq<TokenView>;

/// `Tokenizer::new`, `feed` and `end` over `html`, with a sink that keeps
/// every token: the tokens emitted, in order.
#[verifier::external_body]
fn html_tokens(html: &str) -> (r: Vec<SinkToken>)
    ensures
        tokens_view(r@) == html_token_stream(html@),
{
    let collector = TokenCollector { tokens: RefCell::new(Vec::new()) };
    let opts = TokenizerOpts { exact_errors: false, ..Default::default() };
    let tokenizer = Tokenizer::new(collector, opts);
    let input = BufferQueue::default();
    input.push_back(html.into());
    let _ = tokenizer.feed(&input);
    tokenizer.end();
    tokenizer.sink.tokens.into_inner()
}

/// Tokenize one HTML fragment, which starts at `node_offset` of the source,
/// and scan its tokens (see `scan_tokens`).
pub fn scan_node_html(node_html: &str, node_offset: usize) -> (r: ScanResult)
    requires
        node_offset + node_html.spec_bytes().len() <= usize::MAX,
    ensures
        scan_matches(r, node_html.spec_bytes(), node_offset, html_token_stream(node_html@)),
{
    let tokens = html_tokens(node_html);
    scan_tokens(node_html, node_offset, &tokens)
}

/// The sort key of a diagnostic: exact offsets first, then by offset.
pub open spec fn key_le(a: ErrorOffset, b: ErrorOffset) -> bool {
    match (a, b) {
        (ErrorOffset::Exact(x), ErrorOffset::Exact(y)) => x <= y,
        (ErrorOffset::Exact(_), ErrorOffset::NodeStart(_)) => true,
        (ErrorOffset::NodeStart(_), ErrorOffset::Exact(_)) => false,
        (ErrorOffset::NodeStart(x), ErrorOffset::NodeStart(y)) => x <= y,
    }
}

/// Where a stable insertion puts `x`: after every entry whose key is at most its own.
pub open spec fn insert_pos(sorted: Seq<ErrorView>, x: ErrorView) -> int
    decreases sorted.len(),
{
    if sorted.len() == 0 {
        0
    } else if key_le(sorted[0].offset, x.offset) {
        1 + insert_pos(sorted.drop_first(), x)
    } else {
        0
    }
}

/// The stable sort of diagnostics by key (exact offsets first, then by offset;
/// equal keys keep their order).
pub open spec fn sort_errors(s: Seq<ErrorView>) -> Seq<ErrorView>
    decreases s.len(),
{
    if s.len() == 0 {
        seq![]
    } else {
        let sorted = sort_errors(s.drop_last());
        sorted.insert(insert_pos(sorted, s.last()), s.last())
    }
}

pub open spec fn sorted_by_key(s: Seq<ErrorView>) -> bool {
    forall|i: int, j: int| 0 <= i < j < s.len() ==> key_le(#[trigger] s[i].offset, #[trigger] s[j].offset)
}

fn offset_le(a: ErrorOffset, b: ErrorOffset) -> (r: bool)
    ensures
        r == key_le(a, b),
{
    match (a, b) {
        (ErrorOffset::Exact(x), ErrorOffset::Exact(y)) => x <= y,
        (ErrorOffset::Exact(_), ErrorOffset::NodeStart(_)) => true,
        (ErrorOffset::NodeStart(_), ErrorOffset::Exact(_)) => false,
        (ErrorOffset::NodeStart(x), ErrorOffset::NodeStart(y)) => x <= y,
    }
}

proof fn lemma_insert_pos(sorted: Seq<ErrorView>, x: ErrorView, p: int)
    requires
        0 <= p <= sorted.len(),
        forall|k: int| 0 <= k < p ==> key_le(#[trigger] sorted[k].offset, x.offset),
        p == sorted.len() || !key_le(sorted[p].offset, x.offset),
    ensures
        insert_pos(sorted, x) == p,
    decreases sorted.len(),
{
    if p > 0 {
        assert forall|k: int| 0 <= k < p - 1 implies key_le(
            #[trigger] sorted.drop_first()[k].offset,
            x.offset,
        ) by {
            assert(sorted.drop_first()[k] == sorted[k + 1]);
        }
        if p < sorted.len() {
            assert(sorted.drop_first()[p - 1] == sorted[p]);
        }
        lemma_insert_pos(sorted.drop_first(), x, p - 1);
    }
}

/// Place `e` into `sorted` after every entry whose key is at most its own.
fn insert_by_key(sorted: &mut Vec<HtmlError>, e: HtmlError)
    ensures
        errors_view(final(sorted)@) == errors_view(old(sorted)@).insert(
            insert_pos(errors_view(old(sorted)@), e@),
            e@,
        ),
{
    let ghost sv = errors_view(sorted@);
    let mut p: usize = 0;
    while p < sorted.len() && offset_le(sorted[p].offset, e.offset)
        invariant
            p <= sorted@.len(),
            sv == errors_view(sorted@),
            forall|k: int| 0 <= k < p ==> key_le(#[trigger] sv[k].offset, e.offset),
        decreases sorted@.len() - p,
    {
        p = p + 1;
    }
    proof {
        lemma_insert_pos(sv, e@, p as int);
    }
    sorted.insert(p, e);
    assert(errors_view(sorted@) =~= sv.insert(p as int, e@));
}

pub open spec fn scans_errors(scans: Seq<ScanResult>) -> Seq<ErrorView>
    decreases scans.len(),
{
    if scans.len() == 0 {
        seq![]
    } else {
        scans_errors(scans.drop_last()) + errors_view(scans.last().errors@)
    }
}

pub open spec fn scans_warnings(scans: Seq<ScanResult>) -> Seq<ErrorView>
    decreases scans.len(),
{
    if scans.len() == 0 {
        seq![]
    } else {
        scans_warnings(scans.drop_last()) + errors_view(scans.last().warnings@)
    }
}

pub open spec fn scans_events(scans: Seq<ScanResult>) -> Seq<TagEvent>
    decreases scans.len(),
{
    if scans.len() == 0 {
        seq![]
    } else {
        scans_events(scans.drop_last()) + scans.last().tag_events@
    }
}

/// What `validate` reports for the fragments of a document, in document
/// order: their errors, the balance errors of all their tag events together,
/// then their warnings, stably sorted by offset with exact offsets first.
pub open spec fn validation_report(scans: Seq<ScanResult>) -> Seq<ErrorView> {
    sort_errors(scans_errors(scans) + nesting_errors(scans_events(scans)) + scans_warnings(scans))
}

/// Validate the HTML fragments of a document, given in document order:
/// per-fragment errors, cross-fragment tag balance, then warnings, all sorted
/// by offset (exact offsets before node-start offsets, ties kept in order).
pub fn validate(scans: Vec<ScanResult>) -> (r: Vec<HtmlError>)
    ensures
        errors_view(r@) == validation_report(scans@),
{
    let ghost all = scans@;
    let mut scans = scans;
    let mut errors: Vec<HtmlError> = Vec::new();
    let mut warnings: Vec<HtmlError> = Vec::new();
    let mut tag_events: Vec<TagEvent> = Vec::new();
    let mut k: usize = 0;
    proof {
        assert(all.take(0) =~= Seq::<ScanResult>::empty());
        assert(errors_view(errors@) =~= Seq::<ErrorView>::empty());
        assert(errors_view(warnings@) =~= Seq::<ErrorView>::empty());
    }
    while k < scans.len()
        invariant
            k <= scans@.len(),
            scans@.len() == all.len(),
            forall|m: int| k <= m < all.len() ==> #[trigger] scans@[m] == all[m],
            errors_view(errors@) == scans_errors(all.take(k as int)),
            errors_view(warnings@) == scans_warnings(all.take(k as int)),
            tag_events@ == scans_events(all.take(k as int)),
        decreases all.len() - k,
    {
        let mut one = ScanResult { errors: Vec::new(), warnings: Vec::new(), tag_events: Vec::new() };
        scans.set_and_swap(k, &mut one);
        assert(one == all[k as int]);
        assert(all.take(k + 1).drop_last() =~= all.take(k as int));
        let ghost e0 = errors@;
        let ghost w0 = warnings@;
        errors.append(&mut one.errors);
        warnings.append(&mut one.warnings);
        tag_events.append(&mut one.tag_events);
        assert(errors_view(errors@) =~= errors_view(e0) + errors_view(all[k as int].errors@));
        assert(errors_view(warnings@) =~= errors_view(w0) + errors_view(all[k as int].warnings@));
        k = k + 1;
    }
    assert(all.take(k as int) =~= all);
    validate_tag_nesting(tag_events.as_slice(), &mut errors);
    let ghost e1 = errors@;
    errors.append(&mut warnings);
    let ghost input = errors_view(errors@);
    assert(input =~= errors_view(e1) + scans_warnings(all));
    // stable insertion sort
    let mut sorted: Vec<HtmlError> = Vec::new();
    let mut rest = errors;
    let ghost mut done: int = 0;
    proof {
        assert(input.take(0) =~= Seq::<ErrorView>::empty());
        assert(errors_view(rest@) =~= input.skip(0));
    }
    while rest.len() > 0
        invariant
            0 <= done <= input.len(),
            errors_view(rest@) == input.skip(done),
            errors_view(sorted@) == sort_errors(input.take(done)),
        decreases rest@.len(),
    {
        let ghost r0 = rest@;
        assert(errors_view(r0).len() == r0.len());
        assert(errors_view(r0)[0] == r0[0]@);
        let e = rest.remove(0);
        assert(e@ == input[done]);
        assert(rest@ =~= r0.remove(0));
        assert(errors_view(rest@) =~= errors_view(r0).skip(1));
        assert(errors_view(rest@) =~= input.skip(done + 1));
        assert(input.take(done + 1).drop_last() =~= input.take(done));
        insert_by_key(&mut sorted, e);
        proof {
            done = done + 1;
        }
    }
    assert(input.take(done) =~= input);
    sorted
}

// ---------------------------------------------------------------------------
// Laws of the balance check
// ---------------------------------------------------------------------------

/// Strict well-nestedness: every closer closes the innermost open tag, and
/// nothing is left open. `None` once a closer does not fit.
pub open spec fn balance_fold(events: Seq<TagEvent>) -> Option<Seq<Seq<char>>>
    decreases events.len(),
{
    if events.len() == 0 {
        Some(seq![])
    } else {
        match balance_fold(events.drop_last()) {
            None => None,
            Some(open) => {
                let e = events.last();
                if e.is_open {
                    Some(open.push(e.tag@))
                } else if open.len() > 0 && open.last() == e.tag@ {
                    Some(open.drop_last())
                } else {
                    None
                }
            },
        }
    }
}

pub open spec fn well_nested(events: Seq<TagEvent>) -> bool {
    balance_fold(events) == Some(Seq::<Seq<char>>::empty())
}

pub open spec fn stack_names(stack: Seq<(Seq<char>, usize)>) -> Seq<Seq<char>> {
    stack.map_values(|p: (Seq<char>, usize)| p.0)
}

proof fn lemma_last_match(stack: Seq<(Seq<char>, usize)>, tag: Seq<char>)
    ensures
        last_match(stack, tag) matches Some(j) ==> 0 <= j < stack.len() && stack[j].0 == tag,
        last_match(stack, tag) matches Some(j) ==> (j == stack.len() - 1 <==> stack.last().0
            == tag),
        last_match(stack, tag) is None ==> stack.len() == 0 || stack.last().0 != tag,
    decreases stack.len(),
{
    if stack.len() > 0 && stack.last().0 != tag {
        lemma_last_match(stack.drop_last(), tag);
    }
}

proof fn lemma_nest_step_errors_grow(s: NestState, e: TagEvent)
    ensures
        nest_step(s, e).errors.len() >= s.errors.len(),
        s.errors.len() > 0 ==> nest_step(s, e).errors.len() > 0,
{
}

proof fn lemma_nest_fold_clean(events: Seq<TagEvent>)
    ensures
        (nest_fold(events).errors.len() == 0) == (balance_fold(events) is Some),
        nest_fold(events).errors.len() == 0 ==> {
            &&& stack_names(nest_fold(events).stack) == balance_fold(events).unwrap()
            &&& nest_fold(events).evicted =~= Multiset::empty()
        },
    decreases events.len(),
{
    if events.len() > 0 {
        let prefix = events.drop_last();
        let e = events.last();
        lemma_nest_fold_clean(prefix);
        let s = nest_fold(prefix);
        lemma_nest_step_errors_grow(s, e);
        if s.errors.len() == 0 {
            let open = balance_fold(prefix).unwrap();
            if e.is_open {
                assert(stack_names(s.stack.push((e.tag@, e.offset))) =~= open.push(e.tag@));
            } else {
                lemma_last_match(s.stack, e.tag@);
                if s.stack.len() > 0 {
                    assert(stack_names(s.stack).last() == s.stack.last().0);
                }
                match last_match(s.stack, e.tag@) {
                    None => {},
                    Some(j) => {
                        if j == s.stack.len() - 1 {
                            assert(evictions(s.stack, j + 1, e.tag@, e.offset) =~= seq![]);
                            assert(s.errors + evictions(s.stack, j + 1, e.tag@, e.offset) =~= s.errors);
                            assert(stack_names(s.stack.take(j)) =~= open.drop_last());
                        } else {
                            assert(evictions(s.stack, j + 1, e.tag@, e.offset).len() > 0);
                        }
                    },
                }
            }
        }
    }
}

/// The balance check reports nothing exactly when the tag events are strictly
/// well nested: each closer closes the innermost open tag of its name and every
/// opened tag is closed.
pub proof fn lemma_no_nesting_errors_iff_well_nested(events: Seq<TagEvent>)
    ensures
        (nesting_errors(events).len() == 0) == well_nested(events),
{
    lemma_nest_fold_clean(events);
    let s = nest_fold(events);
    let unclosed = s.stack.map_values(|p: (Seq<char>, usize)| plain_error(p.1, unclosed_message(p.0)));
    assert(nesting_errors(events).len() == s.errors.len() + unclosed.len());
    if s.errors.len() == 0 {
        let open = balance_fold(events).unwrap();
        assert(stack_names(s.stack).len() == s.stack.len());
        if s.stack.len() == 0 {
            assert(open =~= Seq::<Seq<char>>::empty());
        }
    }
}

pub open spec fn all_exact_errors(errs: Seq<ErrorView>) -> bool {
    forall|k: int|
        0 <= k < errs.len() ==> (#[trigger] errs[k]).offset is Exact && errs[k].severity
            == Severity::Error
}

proof fn lemma_evictions_exact(stack: Seq<(Seq<char>, usize)>, from: int, closer: Seq<char>, at: usize)
    ensures
        all_exact_errors(evictions(stack, from, closer, at)),
    decreases stack.len(),
{
    if !(stack.len() <= from || stack.len() == 0) {
        lemma_evictions_exact(stack.drop_last(), from, closer, at);
        let rest = evictions(stack.drop_last(), from, closer, at);
        let all = evictions(stack, from, closer, at);
        assert forall|k: int| 0 <= k < all.len() implies (#[trigger] all[k]).offset is Exact
            && all[k].severity == Severity::Error by {
            if k > 0 {
                assert(all[k] == rest[k - 1]);
            }
        }
    }
}

proof fn lemma_nest_fold_exact(events: Seq<TagEvent>)
    ensures
        all_exact_errors(nest_fold(events).errors),
    decreases events.len(),
{
    if events.len() > 0 {
        lemma_nest_fold_exact(events.drop_last());
        let s = nest_fold(events.drop_last());
        let e = events.last();
        if !e.is_open {
            if let Some(j) = last_match(s.stack, e.tag@) {
                lemma_evictions_exact(s.stack, j + 1, e.tag@, e.offset);
                let ev = evictions(s.stack, j + 1, e.tag@, e.offset);
                let all = s.errors + ev;
                assert forall|k: int| 0 <= k < all.len() implies (#[trigger] all[k]).offset is Exact
                    && all[k].severity == Severity::Error by {
                    if k >= s.errors.len() {
                        assert(all[k] == ev[k - s.errors.len()]);
                    }
                }
            }
        }
    }
}

/// Every error of the balance check is an error (not a warning) placed at an
/// exact offset.
pub proof fn lemma_nesting_errors_exact(events: Seq<TagEvent>)
    ensures
        all_exact_errors(nesting_errors(events)),
{
    lemma_nest_fold_exact(events);
    let s = nest_fold(events);
    let unclosed = s.stack.map_values(|p: (Seq<char>, usize)| plain_error(p.1, unclosed_message(p.0)));
    let all = nesting_errors(events);
    assert forall|k: int| 0 <= k < all.len() implies (#[trigger] all[k]).offset is Exact
        && all[k].severity == Severity::Error by {
        if k >= s.errors.len() {
            assert(all[k] == unclosed[k - s.errors.len()]);
        }
    }
}

proof fn lemma_insert_pos_props(sorted: Seq<ErrorView>, x: ErrorView)
    ensures
        0 <= insert_pos(sorted, x) <= sorted.len(),
        forall|k: int| 0 <= k < insert_pos(sorted, x) ==> key_le(#[trigger] sorted[k].offset, x.offset),
        insert_pos(sorted, x) < sorted.len() ==> !key_le(sorted[insert_pos(sorted, x)].offset, x.offset),
    decreases sorted.len(),
{
    if sorted.len() > 0 && key_le(sorted[0].offset, x.offset) {
        lemma_insert_pos_props(sorted.drop_first(), x);
        assert forall|k: int| 0 <= k < insert_pos(sorted, x) implies key_le(
            #[trigger] sorted[k].offset,
            x.offset,
        ) by {
            if k > 0 {
                assert(sorted[k] == sorted.drop_first()[k - 1]);
            }
        }
    }
}

/// Diagnostics come out ordered by key (exact offsets first, then by offset),
/// and none is lost or added.
pub proof fn lemma_sort_errors(s: Seq<ErrorView>)
    ensures
        sorted_by_key(sort_errors(s)),
        sort_errors(s).to_multiset() =~= s.to_multiset(),
    decreases s.len(),
{
    broadcast use vstd::seq_lib::group_to_multiset_ensures;

    if s.len() > 0 {
        let prev = sort_errors(s.drop_last());
        lemma_sort_errors(s.drop_last());
        let x = s.last();
        lemma_insert_pos_props(prev, x);
        let p = insert_pos(prev, x);
        let r = prev.insert(p, x);
        assert forall|i: int, j: int| 0 <= i < j < r.len() implies key_le(
            #[trigger] r[i].offset,
            #[trigger] r[j].offset,
        ) by {
            if i < p && j < p {
                assert(key_le(prev[i].offset, prev[j].offset));
            } else if i < p && j == p {
            } else if i < p {
                assert(key_le(prev[i].offset, prev[j - 1].offset));
            } else if i == p {
                assert(key_le(prev[p].offset, prev[j - 1].offset) || j - 1 == p);
            } else {
                assert(key_le(prev[i - 1].offset, prev[j - 1].offset));
            }
        }
        assert(s =~= s.drop_last().push(x));
        assert(r.to_multiset() =~= prev.to_multiset().insert(x)) by {
            assert(r =~= prev.take(p) + seq![x] + prev.skip(p));
            assert(prev =~= prev.take(p) + prev.skip(p));
            vstd::seq_lib::lemma_multiset_commutative(prev.take(p), seq![x] + prev.skip(p));
            vstd::seq_lib::lemma_multiset_commutative(prev.take(p) + seq![x], prev.skip(p));
            vstd::seq_lib::lemma_multiset_commutative(prev.take(p), seq![x]);
            vstd::seq_lib::lemma_multiset_commutative(prev.take(p), prev.skip(p));
            assert(prev.take(p) + seq![x] + prev.skip(p) =~= prev.take(p) + (seq![x] + prev.skip(p)));
            vstd::seq_lib::lemma_multiset_commutative(seq![x], prev.skip(p));
        }
    }
}

/// The diagnostics of `s` with offset `key`, in order.
pub open spec fn with_key(s: Seq<ErrorView>, key: ErrorOffset) -> Seq<ErrorView>
    decreases s.len(),
{
    if s.len() == 0 {
        seq![]
    } else {
        let prev = with_key(s.drop_last(), key);
        if s.last().offset == key {
            prev.push(s.last())
        } else {
            prev
        }
    }
}

proof fn lemma_with_key_concat(a: Seq<ErrorView>, b: Seq<ErrorView>, key: ErrorOffset)
    ensures
        with_key(a + b, key) == with_key(a, key) + with_key(b, key),
    decreases b.len(),
{
    if b.len() == 0 {
        assert(a + b =~= a);
    } else {
        lemma_with_key_concat(a, b.drop_last(), key);
        assert((a + b).drop_last() =~= a + b.drop_last());
        assert((a + b).last() == b.last());
    }
}

proof fn lemma_with_key_none(s: Seq<ErrorView>, key: ErrorOffset)
    requires
        forall|k: int| 0 <= k < s.len() ==> (#[trigger] s[k]).offset != key,
    ensures
        with_key(s, key) == Seq::<ErrorView>::empty(),
    decreases s.len(),
{
    if s.len() > 0 {
        assert forall|k: int| 0 <= k < s.drop_last().len() implies (
        #[trigger] s.drop_last()[k]).offset != key by {
            assert(s.drop_last()[k] == s[k]);
        }
        lemma_with_key_none(s.drop_last(), key);
    }
}

proof fn lemma_with_key_single(x: ErrorView, key: ErrorOffset)
    ensures
        with_key(seq![x], key) == (if x.offset == key {
            seq![x]
        } else {
            Seq::<ErrorView>::empty()
        }),
{
    reveal_with_fuel(with_key, 2);
    assert(seq![x].drop_last() =~= Seq::<ErrorView>::empty());
    assert(seq![x].last() == x);
    assert(Seq::<ErrorView>::empty().push(x) =~= seq![x]);
}

/// Inserting `x` where a stable insertion puts it.
proof fn lemma_with_key_insert(sorted: Seq<ErrorView>, x: ErrorView, key: ErrorOffset)
    requires
        sorted_by_key(sorted),
    ensures
        with_key(sorted.insert(insert_pos(sorted, x), x), key) == if x.offset == key {
            with_key(sorted, key).push(x)
        } else {
            with_key(sorted, key)
        },
{
    lemma_insert_pos_props(sorted, x);
    let p = insert_pos(sorted, x);
    let before = sorted.take(p);
    let after = sorted.skip(p);
    assert(sorted.insert(p, x) =~= before + seq![x] + after);
    assert(sorted =~= before + after);
    lemma_with_key_concat(before + seq![x], after, key);
    lemma_with_key_concat(before, seq![x], key);
    lemma_with_key_concat(before, after, key);
    lemma_with_key_single(x, key);
    if x.offset == key {
        assert forall|k: int| 0 <= k < after.len() implies (#[trigger] after[k]).offset != key by {
            assert(after[k] == sorted[p + k]);
            if k > 0 {
                assert(key_le(sorted[p].offset, sorted[p + k].offset));
            }
        }
        lemma_with_key_none(after, key);
        assert(with_key(before, key) + seq![x] =~= with_key(before, key).push(x));
        assert(with_key(before, key).push(x) + Seq::<ErrorView>::empty() =~= with_key(before, key).push(x));
        assert(with_key(before, key) + Seq::<ErrorView>::empty() =~= with_key(before, key));
        assert(with_key(sorted, key) =~= with_key(before, key) + with_key(after, key));
    } else {
        assert(with_key(before, key) + Seq::<ErrorView>::empty() =~= with_key(before, key));
    }
}

/// Diagnostics with the same offset keep their order through the sort.
pub proof fn lemma_sort_errors_stable(s: Seq<ErrorView>, key: ErrorOffset)
    ensures
        with_key(sort_errors(s), key) == with_key(s, key),
    decreases s.len(),
{
    if s.len() > 0 {
        lemma_sort_errors_stable(s.drop_last(), key);
        lemma_sort_errors(s.drop_last());
        lemma_with_key_insert(sort_errors(s.drop_last()), s.last(), key);
    }
}

/// The report of `validate` is ordered by key and holds exactly the fragment
/// errors, the balance errors and the warnings.
pub proof fn lemma_validation_report_sorted(scans: Seq<ScanResult>)
    ensures
        sorted_by_key(validation_report(scans)),
        validation_report(scans).to_multiset() =~= (scans_errors(scans) + nesting_errors(
            scans_events(scans),
        ) + scans_warnings(scans)).to_multiset(),
{
    lemma_sort_errors(scans_errors(scans) + nesting_errors(scans_events(scans)) + scans_warnings(scans));
}

/// The report of `validate` is ordered by byte offset: every diagnostic with
/// an exact offset comes before every diagnostic that only knows its node's
/// start, and within each kind the offsets never decrease.
pub proof fn lemma_validation_report_offsets_ascend(scans: Seq<ScanResult>)
    ensures
        forall|i: int, j: int|
            #![trigger validation_report(scans)[i], validation_report(scans)[j]]
            0 <= i < j < validation_report(scans).len() ==> {
                let a = validation_report(scans)[i].offset;
                let b = validation_report(scans)[j].offset;
                &&& !(a is NodeStart && b is Exact)
                &&& (a is Exact && b is Exact) ==> a.spec_value() <= b.spec_value()
                &&& (a is NodeStart && b is NodeStart) ==> a.spec_value() <= b.spec_value()
            },
{
    let r = validation_report(scans);
    lemma_validation_report_sorted(scans);
    assert forall|i: int, j: int| #![trigger r[i], r[j]] 0 <= i < j < r.len() implies {
        let a = r[i].offset;
        let b = r[j].offset;
        &&& !(a is NodeStart && b is Exact)
        &&& (a is Exact && b is Exact) ==> a.spec_value() <= b.spec_value()
        &&& (a is NodeStart && b is NodeStart) ==> a.spec_value() <= b.spec_value()
    } by {
        assert(key_le(r[i].offset, r[j].offset));
    }
}

// ---------------------------------------------------------------------------
// The rule
// ---------------------------------------------------------------------------

/// The core rule that validates the HTML embedded in a document.
pub struct HtmlValidatorRule;

/// The HTML to validate in a node: the text of an HTML block or inline HTML
/// node (`html`, `None` for other nodes) unless it is blank, with the byte
/// offset where the node starts.
pub fn extract_html_content(html: Option<&str>, offset: usize) -> (r: Option<(String, usize)>)
    ensures
        match r {
            Some((content, o)) => html matches Some(h) && !is_blank_chars(h@) && content@ == h@
                && o == offset,
            None => html matches Some(h) ==> is_blank_chars(h@),
        },
{
    match html {
        Some(h) => {
            if is_blank(h) {
                None
            } else {
                Some((h.to_owned(), offset))
            }
        },
        None => None,
    }
}

// ---------------------------------------------------------------------------
// The report
// ---------------------------------------------------------------------------

/// The `(line, column)` markdown-it's source map gives for a byte offset of
/// the source.
pub uninterp spec fn source_line_col(source: Seq<char>, offset: usize) -> (u32, u32);

/// `SourcePos::get_positions` over `SourceWithLineStarts::new(source)`: the
/// start position of each offset, as markdown-it reports it (for the span of
/// the one byte there). Markdown-it adds one to the offset, so none may be
/// `usize::MAX`.
#[verifier::external_body]
fn line_cols(source: &str, offsets: &Vec<usize>) -> (r: Vec<(u32, u32)>)
    requires
        forall|k: int| 0 <= k < offsets@.len() ==> offsets@[k] < usize::MAX,
    ensures
        r@.len() == offsets@.len(),
        forall|k: int| 0 <= k < offsets@.len() ==> #[trigger] r@[k] == source_line_col(source@, offsets@[k]),
{
    let map = SourceWithLineStarts::new(source);
    offsets.iter().map(|&o| SourcePos::new(o, o + 1).get_positions(&map).0).collect()
}

pub open spec fn digit_char(d: nat) -> char {
    if d == 0 {
        '0'
    } else if d == 1 {
        '1'
    } else if d == 2 {
        '2'
    } else if d == 3 {
        '3'
    } else if d == 4 {
        '4'
    } else if d == 5 {
        '5'
    } else if d == 6 {
        '6'
    } else if d == 7 {
        '7'
    } else if d == 8 {
        '8'
    } else {
        '9'
    }
}

/// `n` in decimal, without leading zeros.
pub open spec fn decimal(n: nat) -> Seq<char>
    decreases n,
{
    if n < 10 {
        seq![digit_char(n)]
    } else {
        decimal(n / 10).push(digit_char(n % 10))
    }
}

fn push_decimal(out: &mut Vec<char>, n: u32)
    ensures
        final(out)@ == old(out)@ + decimal(n as nat),
    decreases n,
{
    if n >= 10 {
        push_decimal(out, n / 10);
    }
    let d = n % 10;
    let c = if d == 0 {
        '0'
    } else if d == 1 {
        '1'
    } else if d == 2 {
        '2'
    } else if d == 3 {
        '3'
    } else if d == 4 {
        '4'
    } else if d == 5 {
        '5'
    } else if d == 6 {
        '6'
    } else if d == 7 {
        '7'
    } else if d == 8 {
        '8'
    } else {
        '9'
    };
    out.push(c);
}

/// The value of a decimal digit character.
pub open spec fn digit_value(c: char) -> int {
    c as int - '0' as int
}

pub open spec fn is_digit(c: char) -> bool {
    '0' <= c <= '9'
}

/// Digits read as a decimal number, the first digit the most significant.
pub open spec fn read_decimal(s: Seq<char>) -> int
    decreases s.len(),
{
    if s.len() == 0 {
        0
    } else {
        read_decimal(s.drop_last()) * 10 + digit_value(s.last())
    }
}

/// `s` is how `n` is written in decimal: digits only, no leading zero, and
/// reading them back gives `n`.
pub open spec fn writes_decimal(s: Seq<char>, n: nat) -> bool {
    &&& s.len() > 0
    &&& forall|k: int| 0 <= k < s.len() ==> is_digit(#[trigger] s[k])
    &&& (s.len() > 1 ==> s[0] != '0')
    &&& read_decimal(s) == n
}

/// A number's text is its ordinary decimal: digits, most significant first,
/// without leading zeros, that read back as the number.
pub proof fn lemma_decimal_reads_back(n: nat)
    ensures
        writes_decimal(decimal(n), n),
    decreases n,
{
    let d = decimal(n);
    if n < 10 {
        assert(d == seq![digit_char(n)]);
        assert(d.drop_last() =~= Seq::<char>::empty());
        assert(read_decimal(d.drop_last()) == 0);
        assert(digit_value(digit_char(n)) == n);
    } else {
        lemma_decimal_reads_back(n / 10);
        let h = decimal(n / 10);
        let c = digit_char(n % 10);
        assert(d == h.push(c));
        assert(d.drop_last() =~= h);
        assert(digit_value(c) == n % 10);
        assert(is_digit(c));
        assert(n == (n / 10) * 10 + n % 10);
        assert forall|k: int| 0 <= k < d.len() implies is_digit(#[trigger] d[k]) by {
            if k < h.len() {
                assert(d[k] == h[k]);
            }
        }
        assert(d[0] == h[0]);
        if n / 10 < 10 {
            assert(h == seq![digit_char(n / 10)]);
            assert(n / 10 >= 1);
        } else {
            lemma_decimal_reads_back(n / 100);
            assert((n / 10) / 10 == n / 100);
            assert(h == decimal(n / 100).push(digit_char((n / 10) % 10)));
            assert(h.len() > 1);
        }
    }
}

/// Where a diagnostic points, read back: for an exact offset, the line in
/// decimal, `:`, then the column in decimal; otherwise the line in decimal
/// followed by `:?`.
pub proof fn lemma_location_text_reads_back(offset: ErrorOffset, pos: (u32, u32))
    ensures
        offset is Exact ==> exists|i: int|
            0 < i < location_text(offset, pos).len() && location_text(offset, pos)[i] == ':'
                && writes_decimal(#[trigger] location_text(offset, pos).take(i), pos.0 as nat)
                && writes_decimal(location_text(offset, pos).skip(i + 1), pos.1 as nat),
        offset is NodeStart ==> exists|i: int|
            0 < i < location_text(offset, pos).len() && writes_decimal(
                #[trigger] location_text(offset, pos).take(i),
                pos.0 as nat,
            ) && location_text(offset, pos).skip(i) == seq![':', '?'],
{
    lemma_decimal_reads_back(pos.0 as nat);
    lemma_decimal_reads_back(pos.1 as nat);
    let t = location_text(offset, pos);
    let a = decimal(pos.0 as nat);
    let b = decimal(pos.1 as nat);
    let i = a.len() as int;
    if offset is Exact {
        assert(t.take(i) =~= a);
        assert(t.skip(i + 1) =~= b);
        assert(t[i] == ':');
    } else {
        assert(t.take(i) =~= a);
        assert(t.skip(i) =~= seq![':', '?']);
    }
}

/// Where a diagnostic points: `line:column`, or `line:?` when only the
/// node's start is known.
pub open spec fn location_text(offset: ErrorOffset, pos: (u32, u32)) -> Seq<char> {
    match offset {
        ErrorOffset::Exact(_) => decimal(pos.0 as nat) + seq![':'] + decimal(pos.1 as nat),
        ErrorOffset::NodeStart(_) => decimal(pos.0 as nat) + seq![':', '?'],
    }
}

pub open spec fn error_prefix() -> Seq<char> {
    "\x1b[31mERROR   -\x1b[0m  "@
}

pub open spec fn warning_prefix() -> Seq<char> {
    "\x1b[33mWARNING -\x1b[0m  "@
}

pub open spec fn related_prefix() -> Seq<char> {
    "              \u{2514}\u{2500} "@
}

/// The offsets a diagnostic mentions: its own, then its notes'.
pub open spec fn error_offsets(e: ErrorView) -> Seq<usize> {
    seq![e.offset.spec_value()] + e.related.map_values(|r: (ErrorOffset, Seq<char>)| r.0.spec_value())
}

/// The report lines of one diagnostic: colored severity, location and
/// message, then one indented line per note.
pub open spec fn error_lines(e: ErrorView, source: Seq<char>) -> Seq<Seq<char>> {
    let head = (if e.severity == Severity::Error {
        error_prefix()
    } else {
        warning_prefix()
    }) + location_text(e.offset, source_line_col(source, e.offset.spec_value())) + seq![' ']
        + e.message;
    seq![head] + e.related.map_values(
        |r: (ErrorOffset, Seq<char>)|
            related_prefix() + location_text(r.0, source_line_col(source, r.0.spec_value())) + seq![
                ' ',
            ] + r.1,
    )
}

/// The report of all diagnostics, in order.
pub open spec fn report(errors: Seq<ErrorView>, source: Seq<char>) -> Seq<Seq<char>>
    decreases errors.len(),
{
    if errors.len() == 0 {
        seq![]
    } else {
        report(errors.drop_last(), source) + error_lines(errors.last(), source)
    }
}

pub open spec fn strings_view(v: Seq<String>) -> Seq<Seq<char>> {
    v.map_values(|s: String| s@)
}

fn location_string(offset: ErrorOffset, pos: (u32, u32)) -> (r: Vec<char>)
    ensures
        r@ == location_text(offset, pos),
{
    let mut out: Vec<char> = Vec::new();
    push_decimal(&mut out, pos.0);
    out.push(':');
    match offset {
        ErrorOffset::Exact(_) => {
            push_decimal(&mut out, pos.1);
        },
        ErrorOffset::NodeStart(_) => {
            out.push('?');
        },
    }
    assert(out@ =~= location_text(offset, pos));
    out
}

/// `prefix`, the location, a space and the message, as one line.
fn report_line(prefix: &str, location: Vec<char>, message: &String) -> (r: String)
    ensures
        r@ == prefix@ + location@ + seq![' '] + message@,
{
    let mut line = String::from_str(prefix);
    let loc = string_from_chars(location.as_slice());
    line.append(loc.as_str());
    line.append(" ");
    line.append(message.as_str());
    proof {
        reveal_strlit(" ");
    }
    assert(line@ =~= prefix@ + location@ + seq![' '] + message@);
    line
}

/// The lines that report `errors` for the document `source`; see
/// `error_lines`. Offsets are positions in the source, so below `usize::MAX`.
pub fn report_lines(errors: &Vec<HtmlError>, source: &str) -> (r: Vec<String>)
    requires
        forall|a: int, q: int|
            0 <= a < errors@.len() && 0 <= q < error_offsets(errors@[a]@).len()
                ==> #[trigger] error_offsets(errors@[a]@)[q] < usize::MAX,
    ensures
        strings_view(r@) == report(errors_view(errors@), source@),
{
    let mut lines: Vec<String> = Vec::new();
    let mut i: usize = 0;
    while i < errors.len()
        invariant
            i <= errors@.len(),
            forall|a: int, q: int|
                0 <= a < errors@.len() && 0 <= q < error_offsets(errors@[a]@).len()
                    ==> #[trigger] error_offsets(errors@[a]@)[q] < usize::MAX,
            strings_view(lines@) == report(errors_view(errors@.take(i as int)), source@),
        decreases errors@.len() - i,
    {
        let e = &errors[i];
        let ghost ev = e@;
        let mut offsets: Vec<usize> = Vec::new();
        offsets.push(e.offset.value());
        let mut k: usize = 0;
        while k < e.related.len()
            invariant
                k <= e.related@.len(),
                ev == e@,
                offsets@ == error_offsets(ev).take(k + 1),
            decreases e.related@.len() - k,
        {
            offsets.push(e.related[k].offset.value());
            assert(error_offsets(ev).take(k + 2) =~= error_offsets(ev).take(k + 1).push(
                e.related@[k as int].offset.spec_value(),
            ));
            k = k + 1;
        }
        assert(offsets@ =~= error_offsets(ev));
        assert(forall|q: int| 0 <= q < offsets@.len() ==> offsets@[q] < usize::MAX) by {
            assert forall|q: int| 0 <= q < offsets@.len() implies offsets@[q] < usize::MAX by {
                assert(errors@[i as int]@ == ev);
                assert(error_offsets(errors@[i as int]@)[q] < usize::MAX);
            }
        }
        let pos = line_cols(source, &offsets);
        let ghost before = strings_view(lines@);
        let prefix = match e.severity {
            Severity::Error => "\x1b[31mERROR   -\x1b[0m  ",
            Severity::Warning => "\x1b[33mWARNING -\x1b[0m  ",
        };
        proof {
            reveal_strlit("\x1b[31mERROR   -\x1b[0m  ");
            reveal_strlit("\x1b[33mWARNING -\x1b[0m  ");
        }
        let head = report_line(prefix, location_string(e.offset, pos[0]), &e.message);
        lines.push(head);
        let ghost target = error_lines(ev, source@);
        assert(strings_view(lines@) =~= before + target.take(1));
        let mut k: usize = 0;
        while k < e.related.len()
            invariant
                k <= e.related@.len(),
                ev == e@,
                pos@.len() == error_offsets(ev).len(),
                forall|q: int| 0 <= q < pos@.len() ==> #[trigger] pos@[q] == source_line_col(source@, error_offsets(ev)[q]),
                target == error_lines(ev, source@),
                strings_view(lines@) == before + target.take(k + 1),
            decreases e.related@.len() - k,
        {
            let r = &e.related[k];
            proof {
                reveal_strlit("              \u{2514}\u{2500} ");
                assert(error_offsets(ev)[k + 1] == r.offset.spec_value());
            }
            let line = report_line("              \u{2514}\u{2500} ", location_string(r.offset, pos[k + 1]), &r.message);
            let ghost mid = strings_view(lines@);
            lines.push(line);
            assert(strings_view(lines@) =~= mid.push(line@));
            assert(target.take(k + 2) =~= target.take(k + 1).push(target[k + 1]));
            k = k + 1;
        }
        assert(target.take(e.related@.len() + 1int) =~= target);
        assert(errors@.take(i + 1).drop_last() =~= errors@.take(i as int));
        let ghost vs = errors_view(errors@.take(i + 1));
        assert(vs =~= errors_view(errors@.take(i as int)).push(ev));
        assert(vs.drop_last() =~= errors_view(errors@.take(i as int)));
        assert(vs.last() == ev);
        assert(report(vs, source@) == report(errors_view(errors@.take(i as int)), source@)
            + error_lines(ev, source@));
        assert(strings_view(lines@) == before + target);
        i = i + 1;
    }
    assert(errors@.take(i as int) =~= errors@);
    lines
}

} // verus!
