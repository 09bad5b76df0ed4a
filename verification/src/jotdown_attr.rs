//! Djot attribute sets, `{.class #id key=value key="quoted value" %comment%}`:
//! the state machine that parses them and the pairs they give an element.
use vstd::prelude::*;

verus! {

/// The states of the attribute parser.
#[derive(PartialEq, Eq, Structural, Clone, Copy)]
pub enum AttrState {
    Start,
    Whitespace,
    CommentFirst,
    Comment,
    CommentNewline,
    ClassFirst,
    Class,
    IdentifierFirst,
    Identifier,
    Key,
    ValueFirst,
    Value,
    ValueQuoted,
    ValueEscape,
    ValueNewline,
    ValueContinued,
    Done,
    Invalid,
}

/// A character allowed in names: ASCII letters and digits, `:`, `_`, `-`.
pub open spec fn is_name_char(c: char) -> bool {
    ('a' <= c <= 'z') || ('A' <= c <= 'Z') || ('0' <= c <= '9') || c == ':' || c == '_' || c == '-'
}

/// ASCII whitespace: space, tab, line feed, form feed, carriage return.
pub open spec fn is_ascii_ws(c: char) -> bool {
    c == ' ' || c == '\t' || c == '\n' || c == '\x0C' || c == '\r'
}

/// One transition of the attribute parser.
pub open spec fn step(st: AttrState, c: char) -> AttrState {
    match st {
        AttrState::Start => if c == '{' {
            AttrState::Whitespace
        } else {
            AttrState::Invalid
        },
        AttrState::Whitespace => if c == '}' {
            AttrState::Done
        } else if c == '.' {
            AttrState::ClassFirst
        } else if c == '#' {
            AttrState::IdentifierFirst
        } else if c == '%' {
            AttrState::CommentFirst
        } else if is_name_char(c) {
            AttrState::Key
        } else if is_ascii_ws(c) {
            AttrState::Whitespace
        } else {
            AttrState::Invalid
        },
        AttrState::CommentFirst | AttrState::Comment | AttrState::CommentNewline => if c == '%' {
            AttrState::Whitespace
        } else if c == '}' {
            AttrState::Done
        } else if c == '\n' {
            AttrState::CommentNewline
        } else {
            AttrState::Comment
        },
        AttrState::ClassFirst => if is_name_char(c) {
            AttrState::Class
        } else {
            AttrState::Invalid
        },
        AttrState::IdentifierFirst => if is_name_char(c) {
            AttrState::Identifier
        } else {
            AttrState::Invalid
        },
        AttrState::Class | AttrState::Identifier | AttrState::Value => if is_name_char(c) {
            st
        } else if is_ascii_ws(c) {
            AttrState::Whitespace
        } else if c == '}' {
            AttrState::Done
        } else {
            AttrState::Invalid
        },
        AttrState::Key => if is_name_char(c) {
            AttrState::Key
        } else if c == '=' {
            AttrState::ValueFirst
        } else {
            AttrState::Invalid
        },
        AttrState::ValueFirst => if is_name_char(c) {
            AttrState::Value
        } else if c == '"' {
            AttrState::ValueQuoted
        } else {
            AttrState::Invalid
        },
        AttrState::ValueQuoted => if c == '"' {
            AttrState::Whitespace
        } else if c == '\n' {
            AttrState::ValueNewline
        } else if c == '\\' {
            AttrState::ValueEscape
        } else {
            AttrState::ValueQuoted
        },
        AttrState::ValueNewline | AttrState::ValueContinued => if c == '"' {
            AttrState::Whitespace
        } else if c == '\n' {
            AttrState::ValueNewline
        } else {
            AttrState::ValueContinued
        },
        AttrState::ValueEscape => if c == '\n' {
            AttrState::ValueNewline
        } else {
            AttrState::ValueQuoted
        },
        AttrState::Done | AttrState::Invalid => AttrState::Invalid,
    }
}

fn is_name(c: char) -> (r: bool)
    ensures
        r == is_name_char(c),
{
    ('a' <= c && c <= 'z') || ('A' <= c && c <= 'Z') || ('0' <= c && c <= '9') || c == ':' || c
        == '_' || c == '-'
}

fn is_ascii_whitespace(c: char) -> (r: bool)
    ensures
        r == is_ascii_ws(c),
{
    c == ' ' || c == '\t' || c == '\n' || c == '\x0C' || c == '\r'
}

fn next_state(st: AttrState, c: char) -> (r: AttrState)
    ensures
        r == step(st, c),
{
    match st {
        AttrState::Start => if c == '{' {
            AttrState::Whitespace
        } else {
            AttrState::Invalid
        },
        AttrState::Whitespace => if c == '}' {
            AttrState::Done
        } else if c == '.' {
            AttrState::ClassFirst
        } else if c == '#' {
            AttrState::IdentifierFirst
        } else if c == '%' {
            AttrState::CommentFirst
        } else if is_name(c) {
            AttrState::Key
        } else if is_ascii_whitespace(c) {
            AttrState::Whitespace
        } else {
            AttrState::Invalid
        },
        AttrState::CommentFirst | AttrState::Comment | AttrState::CommentNewline => if c == '%' {
            AttrState::Whitespace
        } else if c == '}' {
            AttrState::Done
        } else if c == '\n' {
            AttrState::CommentNewline
        } else {
            AttrState::Comment
        },
        AttrState::ClassFirst => if is_name(c) {
            AttrState::Class
        } else {
            AttrState::Invalid
        },
        AttrState::IdentifierFirst => if is_name(c) {
            AttrState::Identifier
        } else {
            AttrState::Invalid
        },
        AttrState::Class | AttrState::Identifier | AttrState::Value => if is_name(c) {
            st
        } else if is_ascii_whitespace(c) {
            AttrState::Whitespace
        } else if c == '}' {
            AttrState::Done
        } else {
            AttrState::Invalid
        },
        AttrState::Key => if is_name(c) {
            AttrState::Key
        } else if c == '=' {
            AttrState::ValueFirst
        } else {
            AttrState::Invalid
        },
        AttrState::ValueFirst => if is_name(c) {
            AttrState::Value
        } else if c == '"' {
            AttrState::ValueQuoted
        } else {
            AttrState::Invalid
        },
        AttrState::ValueQuoted => if c == '"' {
            AttrState::Whitespace
        } else if c == '\n' {
            AttrState::ValueNewline
        } else if c == '\\' {
            AttrState::ValueEscape
        } else {
            AttrState::ValueQuoted
        },
        AttrState::ValueNewline | AttrState::ValueContinued => if c == '"' {
            AttrState::Whitespace
        } else if c == '\n' {
            AttrState::ValueNewline
        } else {
            AttrState::ValueContinued
        },
        AttrState::ValueEscape => if c == '\n' {
            AttrState::ValueNewline
        } else {
            AttrState::ValueQuoted
        },
        AttrState::Done | AttrState::Invalid => AttrState::Invalid,
    }
}

// ---------------------------------------------------------------------------
// Elements of an attribute set
// ---------------------------------------------------------------------------

/// The kind of one element of an attribute set.
pub enum AttrKind {
    /// `.name`
    Class,
    /// `#name`
    Id,
    /// `key=value`
    Pair(Vec<char>),
    /// `%comment%`
    Comment,
}

/// One element: its kind and its raw value (escapes not yet processed).
pub struct AttrElem {
    pub kind: AttrKind,
    pub value: Vec<char>,
}

/// The kind of an element, as plain values.
pub enum KindView {
    Class,
    Id,
    Pair(Seq<char>),
    Comment,
}

pub open spec fn kind_view(k: AttrKind) -> KindView {
    match k {
        AttrKind::Class => KindView::Class,
        AttrKind::Id => KindView::Id,
        AttrKind::Pair(key) => KindView::Pair(key@),
        AttrKind::Comment => KindView::Comment,
    }
}

pub open spec fn elems_view(elems: Seq<AttrElem>) -> Seq<(KindView, Seq<char>)> {
    elems.map_values(|e: AttrElem| (kind_view(e.kind), e.value@))
}

/// Appending a value part: empty parts are dropped, parts are separated by a space.
pub open spec fn extend(v: Seq<char>, s: Seq<char>) -> Seq<char> {
    if s.len() == 0 {
        v
    } else if v.len() == 0 {
        s
    } else {
        v + seq![' '] + s
    }
}

/// Change the value of the last element, if there is one.
pub open spec fn map_last(
    elems: Seq<(KindView, Seq<char>)>,
    f: spec_fn(Seq<char>) -> Seq<char>,
) -> Seq<(KindView, Seq<char>)> {
    if elems.len() == 0 {
        elems
    } else {
        elems.update(elems.len() - 1, (elems.last().0, f(elems.last().1)))
    }
}

/// What leaving state `st` with `content` (the characters read in it) adds.
pub open spec fn emit(elems: Seq<(KindView, Seq<char>)>, st: AttrState, content: Seq<char>) -> Seq<
    (KindView, Seq<char>),
> {
    match st {
        AttrState::Class => elems.push((KindView::Class, content)),
        AttrState::Identifier => elems.push((KindView::Id, content)),
        AttrState::Key => elems.push((KindView::Pair(content), seq![])),
        AttrState::Value | AttrState::ValueContinued => map_last(
            elems,
            |v: Seq<char>| extend(v, content),
        ),
        AttrState::ValueQuoted => map_last(elems, |v: Seq<char>| extend(v, after_quote(content))),
        AttrState::Comment => map_last(elems, |v: Seq<char>| v + content),
        AttrState::CommentNewline => map_last(elems, |v: Seq<char>| v + seq!['\n']),
        AttrState::CommentFirst => elems.push((KindView::Comment, seq![])),
        _ => elems,
    }
}

/// A quoted value's characters after its opening quote.
pub open spec fn after_quote(content: Seq<char>) -> Seq<char> {
    if content.len() == 0 {
        content
    } else {
        content.skip(1)
    }
}

/// A change of state cuts the input, except into or out of an escape.
pub open spec fn cuts(st: AttrState, next: AttrState) -> bool {
    st != next && st != AttrState::ValueEscape && next != AttrState::ValueEscape
}

/// Running the parser from character `i` in state `st`, the last cut at
/// `prev`: `Err(pos)` at an invalid character, else how far it read, the
/// state it stopped in and the elements. After a `}` it goes on only when a
/// `{` follows at once.
pub open spec fn run(
    input: Seq<char>,
    i: int,
    st: AttrState,
    prev: int,
    elems: Seq<(KindView, Seq<char>)>,
) -> Result<(int, AttrState, Seq<(KindView, Seq<char>)>), int>
    decreases input.len() - i,
{
    if i < 0 || i >= input.len() {
        Ok((input.len() as int, st, elems))
    } else {
        let next = step(st, input[i]);
        if next == AttrState::Invalid {
            Err(i)
        } else {
            let prev2 = if cuts(st, next) {
                i
            } else {
                prev
            };
            let elems2 = if cuts(st, next) {
                emit(elems, st, input.subrange(prev, i))
            } else {
                elems
            };
            if next == AttrState::Done {
                if i + 1 < input.len() && input[i + 1] == '{' {
                    run(input, i + 1, AttrState::Start, prev2, elems2)
                } else {
                    Ok((i + 1, AttrState::Done, elems2))
                }
            } else {
                run(input, i + 1, next, prev2, elems2)
            }
        }
    }
}

/// `input` without its trailing ASCII whitespace.
pub open spec fn trim_end_ascii(input: Seq<char>) -> Seq<char>
    decreases input.len(),
{
    if input.len() > 0 && is_ascii_ws(input.last()) {
        trim_end_ascii(input.drop_last())
    } else {
        input
    }
}

/// The elements of one or more back-to-back attribute sets filling `input`
/// (up to trailing ASCII whitespace), or `None` when it is not that.
pub open spec fn parse_attrs(input: Seq<char>) -> Option<Seq<(KindView, Seq<char>)>> {
    let t = trim_end_ascii(input);
    match run(t, 0, AttrState::Start, 0, seq![]) {
        Ok((n, st, elems)) => if n == t.len() && st == AttrState::Done {
            Some(elems)
        } else {
            None
        },
        Err(_) => None,
    }
}

fn copy_range(input: &Vec<char>, from: usize, to: usize) -> (r: Vec<char>)
    requires
        from <= to <= input@.len(),
    ensures
        r@ == input@.subrange(from as int, to as int),
{
    let mut r: Vec<char> = Vec::new();
    let mut k = from;
    while k < to
        invariant
            from <= k <= to,
            to <= input@.len(),
            r@ == input@.subrange(from as int, k as int),
        decreases to - k,
    {
        r.push(input[k]);
        assert(input@.subrange(from as int, k + 1) =~= input@.subrange(from as int, k as int).push(
            input@[k as int],
        ));
        k = k + 1;
    }
    r
}

fn append_chars(v: &mut Vec<char>, s: &Vec<char>, skip: usize)
    requires
        skip <= s@.len(),
    ensures
        final(v)@ == old(v)@ + s@.skip(skip as int),
{
    let mut k = skip;
    let ghost v0 = v@;
    while k < s.len()
        invariant
            skip <= k <= s@.len(),
            v@ == v0 + s@.subrange(skip as int, k as int),
        decreases s@.len() - k,
    {
        v.push(s[k]);
        assert(s@.subrange(skip as int, k + 1) =~= s@.subrange(skip as int, k as int).push(s@[k as int]));
        k = k + 1;
    }
    assert(s@.subrange(skip as int, k as int) =~= s@.skip(skip as int));
}

/// `extend` on a concrete value: drop empty parts, separate parts by a space.
fn extend_value(v: &mut Vec<char>, content: &Vec<char>, skip: usize)
    requires
        skip <= content@.len(),
    ensures
        final(v)@ == extend(old(v)@, content@.skip(skip as int)),
{
    if skip == content.len() {
        assert(content@.skip(skip as int) =~= Seq::<char>::empty());
        return;
    }
    if v.len() == 0 {
        append_chars(v, content, skip);
        assert(v@ =~= content@.skip(skip as int));
    } else {
        v.push(' ');
        append_chars(v, content, skip);
    }
}

fn emit_exec(elems: &mut Vec<AttrElem>, st: AttrState, content: Vec<char>)
    ensures
        elems_view(final(elems)@) == emit(elems_view(old(elems)@), st, content@),
{
    let ghost ev = elems_view(elems@);
    match st {
        AttrState::Class => {
            elems.push(AttrElem { kind: AttrKind::Class, value: content });
            assert(elems_view(elems@) =~= ev.push((KindView::Class, content@)));
        },
        AttrState::Identifier => {
            elems.push(AttrElem { kind: AttrKind::Id, value: content });
            assert(elems_view(elems@) =~= ev.push((KindView::Id, content@)));
        },
        AttrState::Key => {
            let ghost c = content@;
            elems.push(AttrElem { kind: AttrKind::Pair(content), value: Vec::new() });
            assert(elems_view(elems@) =~= ev.push((KindView::Pair(c), seq![])));
        },
        AttrState::CommentFirst => {
            elems.push(AttrElem { kind: AttrKind::Comment, value: Vec::new() });
            assert(elems_view(elems@) =~= ev.push((KindView::Comment, seq![])));
        },
        AttrState::Value | AttrState::ValueContinued | AttrState::ValueQuoted | AttrState::Comment
        | AttrState::CommentNewline => {
            let n = elems.len();
            if n == 0 {
                return;
            }
            let mut last = AttrElem { kind: AttrKind::Comment, value: Vec::new() };
            elems.set_and_swap(n - 1, &mut last);
            let ghost old_value = last.value@;
            match st {
                AttrState::ValueQuoted => {
                    if content.len() == 0 {
                        extend_value(&mut last.value, &content, 0);
                    } else {
                        extend_value(&mut last.value, &content, 1);
                    }
                },
                AttrState::Comment => append_chars(&mut last.value, &content, 0),
                AttrState::CommentNewline => last.value.push('\n'),
                _ => extend_value(&mut last.value, &content, 0),
            }
            proof {
                assert(content@.skip(0) =~= content@);
                assert(old_value + seq!['\n'] =~= old_value.push('\n'));
            }
            elems.set_and_swap(n - 1, &mut last);
            assert(elems_view(elems@) =~= emit(ev, st, content@));
        },
        _ => {},
    }
}

/// Parse one or more back-to-back attribute sets filling `input`.
pub fn parse_attributes(input: &Vec<char>) -> (r: Option<Vec<AttrElem>>)
    ensures
        match r {
            Some(elems) => parse_attrs(input@) == Some(elems_view(elems@)),
            None => parse_attrs(input@) is None,
        },
{
    // trailing ASCII whitespace is not part of the sets
    let mut len = input.len();
    assert(input@.take(len as int) =~= input@);
    while len > 0 && is_ascii_whitespace(input[len - 1])
        invariant
            len <= input@.len(),
            trim_end_ascii(input@) == trim_end_ascii(input@.take(len as int)),
        decreases len,
    {
        assert(input@.take(len as int).drop_last() =~= input@.take(len - 1));
        len = len - 1;
    }
    let ghost t = input@.take(len as int);
    assert(trim_end_ascii(t) == t);
    let mut elems: Vec<AttrElem> = Vec::new();
    let mut st = AttrState::Start;
    let mut prev: usize = 0;
    let mut i: usize = 0;
    assert(elems_view(elems@) =~= Seq::<(KindView, Seq<char>)>::empty());
    while i < len
        invariant
            len <= input@.len(),
            t == input@.take(len as int),
            trim_end_ascii(input@) == t,
            i <= len,
            prev <= i,
            st != AttrState::Invalid,
            st != AttrState::Done,
            run(t, 0, AttrState::Start, 0, seq![]) == run(t, i as int, st, prev as int, elems_view(elems@)),
        decreases len - i,
    {
        let c = input[i];
        let next = next_state(st, c);
        if next == AttrState::Invalid {
            return None;
        }
        if next != st && st != AttrState::ValueEscape && next != AttrState::ValueEscape {
            let content = copy_range(input, prev, i);
            assert(content@ =~= t.subrange(prev as int, i as int));
            emit_exec(&mut elems, st, content);
            prev = i;
        }
        if next == AttrState::Done {
            if i + 1 < len && input[i + 1] == '{' {
                st = AttrState::Start;
            } else {
                if i + 1 == len {
                    return Some(elems);
                } else {
                    return None;
                }
            }
        } else {
            st = next;
        }
        i = i + 1;
    }
    None
}

// ---------------------------------------------------------------------------
// Unique pairs and escapes
// ---------------------------------------------------------------------------

pub open spec fn class_key() -> Seq<char> {
    seq!['c', 'l', 'a', 's', 's']
}

pub open spec fn id_key() -> Seq<char> {
    seq!['i', 'd']
}

/// The attribute an element sets: `class`, `id`, its key, or none for a comment.
pub open spec fn key_of(k: KindView) -> Option<Seq<char>> {
    match k {
        KindView::Class => Some(class_key()),
        KindView::Id => Some(id_key()),
        KindView::Pair(key) => Some(key),
        KindView::Comment => None,
    }
}

/// Some element of `elems` sets `key`.
pub open spec fn has_key(elems: Seq<(KindView, Seq<char>)>, key: Seq<char>) -> bool {
    exists|j: int| 0 <= j < elems.len() && key_of(#[trigger] elems[j].0) == Some(key)
}

/// `acc` extended with the values of the class elements from `j` on.
pub open spec fn class_fold(elems: Seq<(KindView, Seq<char>)>, j: int, acc: Seq<char>) -> Seq<char>
    decreases elems.len() - j,
{
    if j < 0 || j >= elems.len() {
        acc
    } else {
        class_fold(
            elems,
            j + 1,
            if key_of(elems[j].0) == Some(class_key()) {
                extend(acc, elems[j].1)
            } else {
                acc
            },
        )
    }
}

/// The value of the last element from `j` on that sets `key`, else `acc`.
pub open spec fn last_value(elems: Seq<(KindView, Seq<char>)>, j: int, key: Seq<char>, acc: Seq<char>) -> Seq<
    char,
>
    decreases elems.len() - j,
{
    if j < 0 || j >= elems.len() {
        acc
    } else {
        last_value(
            elems,
            j + 1,
            key,
            if key_of(elems[j].0) == Some(key) {
                elems[j].1
            } else {
                acc
            },
        )
    }
}

/// The value given to `key`, first set at `i`: all classes joined by spaces,
/// or else the last value set.
pub open spec fn value_for(elems: Seq<(KindView, Seq<char>)>, i: int, key: Seq<char>) -> Seq<char> {
    if key == class_key() {
        class_fold(elems, i + 1, elems[i].1)
    } else {
        last_value(elems, i + 1, key, elems[i].1)
    }
}

/// One pair per attribute set, in the order the attributes first appear.
pub open spec fn unique_pairs_from(elems: Seq<(KindView, Seq<char>)>, i: int) -> Seq<(Seq<char>, Seq<char>)>
    decreases elems.len() - i,
{
    if i < 0 || i >= elems.len() {
        seq![]
    } else {
        let rest = unique_pairs_from(elems, i + 1);
        match key_of(elems[i].0) {
            None => rest,
            Some(k) => if has_key(elems.take(i), k) {
                rest
            } else {
                seq![(k, value_for(elems, i, k))] + rest
            },
        }
    }
}

/// ASCII punctuation: ``!"#$%&'()*+,-./:;<=>?@[\]^_`{|}~``.
pub open spec fn is_ascii_punct(c: char) -> bool {
    ('!' <= c <= '/') || (':' <= c <= '@') || ('[' <= c <= '`') || ('{' <= c <= '~')
}

/// A value as displayed: a backslash before ASCII punctuation is dropped.
pub open spec fn unescape(v: Seq<char>) -> Seq<char>
    decreases v.len(),
{
    if v.len() == 0 {
        seq![]
    } else if v[0] == '\\' && v.len() >= 2 && is_ascii_punct(v[1]) {
        seq![v[1]] + unescape(v.skip(2))
    } else {
        seq![v[0]] + unescape(v.skip(1))
    }
}

fn chars_eq(a: &Vec<char>, b: &Vec<char>) -> (r: bool)
    ensures
        r == (a@ == b@),
{
    if a.len() != b.len() {
        return false;
    }
    let mut k: usize = 0;
    while k < a.len()
        invariant
            a@.len() == b@.len(),
            k <= a@.len(),
            forall|m: int| 0 <= m < k ==> a@[m] == b@[m],
        decreases a@.len() - k,
    {
        if a[k] != b[k] {
            return false;
        }
        k = k + 1;
    }
    assert(a@ =~= b@);
    true
}

fn key_of_elem(kind: &AttrKind) -> (r: Option<Vec<char>>)
    ensures
        match r {
            Some(k) => key_of(kind_view(*kind)) == Some(k@),
            None => key_of(kind_view(*kind)) is None,
        },
{
    match kind {
        AttrKind::Class => Some(vec!['c', 'l', 'a', 's', 's']),
        AttrKind::Id => Some(vec!['i', 'd']),
        AttrKind::Pair(key) => Some(key.clone()),
        AttrKind::Comment => None,
    }
}

fn clone_chars(v: &Vec<char>) -> (r: Vec<char>)
    ensures
        r@ == v@,
{
    let mut r: Vec<char> = Vec::new();
    append_chars(&mut r, v, 0);
    assert(v@.skip(0) =~= v@);
    r
}

/// The displayed form of a raw value.
pub fn unescape_value(v: &Vec<char>) -> (r: Vec<char>)
    ensures
        r@ == unescape(v@),
{
    let mut r: Vec<char> = Vec::new();
    let mut i: usize = 0;
    assert(v@.skip(0) =~= v@);
    while i < v.len()
        invariant
            i <= v@.len(),
            unescape(v@) == r@ + unescape(v@.skip(i as int)),
        decreases v@.len() - i,
    {
        let ghost rest = v@.skip(i as int);
        let c = v[i];
        if c == '\\' && v.len() - i >= 2 && ('!' <= v[i + 1] && v[i + 1] <= '/' || ':' <= v[i + 1]
            && v[i + 1] <= '@' || '[' <= v[i + 1] && v[i + 1] <= '`' || '{' <= v[i + 1] && v[i + 1]
            <= '~') {
            r.push(v[i + 1]);
            assert(rest.skip(2) =~= v@.skip(i + 2));
            i = i + 2;
        } else {
            r.push(c);
            assert(rest.skip(1) =~= v@.skip(i + 1));
            i = i + 1;
        }
    }
    assert(v@.skip(i as int) =~= Seq::<char>::empty());
    r
}

fn key_seen(elems: &Vec<AttrElem>, i: usize, key: &Vec<char>) -> (r: bool)
    requires
        i <= elems@.len(),
    ensures
        r == has_key(elems_view(elems@).take(i as int), key@),
{
    let ghost ev = elems_view(elems@);
    let mut j: usize = 0;
    while j < i
        invariant
            i <= elems@.len(),
            ev == elems_view(elems@),
            j <= i,
            forall|m: int| 0 <= m < j ==> key_of(#[trigger] ev[m].0) != Some(key@),
        decreases i - j,
    {
        match key_of_elem(&elems[j].kind) {
            Some(k) => {
                if chars_eq(&k, key) {
                    assert(ev.take(i as int)[j as int] == ev[j as int]);
                    assert(key_of(ev.take(i as int)[j as int].0) == Some(key@));
                    return true;
                }
            },
            None => {},
        }
        j = j + 1;
    }
    assert forall|m: int| 0 <= m < ev.take(i as int).len() implies key_of(
        #[trigger] ev.take(i as int)[m].0,
    ) != Some(key@) by {
        assert(ev.take(i as int)[m] == ev[m]);
    }
    false
}

fn value_of(elems: &Vec<AttrElem>, i: usize, key: &Vec<char>) -> (r: Vec<char>)
    requires
        i < elems@.len(),
    ensures
        r@ == value_for(elems_view(elems@), i as int, key@),
{
    let ghost ev = elems_view(elems@);
    let is_class = chars_eq(key, &vec!['c', 'l', 'a', 's', 's']);
    let mut acc = clone_chars(&elems[i].value);
    let n = elems.len();
    let mut j = i + 1;
    while j < elems.len()
        invariant
            ev == elems_view(elems@),
            i < j <= elems@.len(),
            is_class == (key@ == class_key()),
            value_for(ev, i as int, key@) == (if is_class {
                class_fold(ev, j as int, acc@)
            } else {
                last_value(ev, j as int, key@, acc@)
            }),
        decreases elems@.len() - j,
    {
        match key_of_elem(&elems[j].kind) {
            Some(k) => {
                if chars_eq(&k, key) {
                    if is_class {
                        extend_value(&mut acc, &elems[j].value, 0);
                        assert(elems[j as int].value@.skip(0) =~= elems[j as int].value@);
                    } else {
                        acc = clone_chars(&elems[j].value);
                    }
                }
            },
            None => {},
        }
        j = j + 1;
    }
    acc
}

/// One `(key, value)` pair per attribute, in first-appearance order: classes
/// joined by spaces, other keys with their last value, escapes processed;
/// comments give nothing.
pub fn unique_pairs(elems: &Vec<AttrElem>) -> (r: Vec<(Vec<char>, Vec<char>)>)
    ensures
        r@.map_values(|p: (Vec<char>, Vec<char>)| (p.0@, p.1@)) == unique_pairs_from(
            elems_view(elems@),
            0,
        ).map_values(|p: (Seq<char>, Seq<char>)| (p.0, unescape(p.1))),
{
    let ghost ev = elems_view(elems@);
    let ghost target = unique_pairs_from(ev, 0).map_values(
        |p: (Seq<char>, Seq<char>)| (p.0, unescape(p.1)),
    );
    let mut r: Vec<(Vec<char>, Vec<char>)> = Vec::new();
    let mut i: usize = 0;
    while i < elems.len()
        invariant
            ev == elems_view(elems@),
            i <= elems@.len(),
            target == r@.map_values(|p: (Vec<char>, Vec<char>)| (p.0@, p.1@)) + unique_pairs_from(
                ev,
                i as int,
            ).map_values(|p: (Seq<char>, Seq<char>)| (p.0, unescape(p.1))),
        decreases elems@.len() - i,
    {
        let ghost r0 = r@.map_values(|p: (Vec<char>, Vec<char>)| (p.0@, p.1@));
        let ghost rest = unique_pairs_from(ev, i + 1).map_values(
            |p: (Seq<char>, Seq<char>)| (p.0, unescape(p.1)),
        );
        match key_of_elem(&elems[i].kind) {
            Some(k) => {
                if !key_seen(elems, i, &k) {
                    let raw = value_of(elems, i, &k);
                    let v = unescape_value(&raw);
                    let ghost pk = k@;
                    let ghost pv = v@;
                    r.push((k, v));
                    assert(r@.map_values(|p: (Vec<char>, Vec<char>)| (p.0@, p.1@)) =~= r0.push(
                        (pk, pv),
                    ));
                    assert(unique_pairs_from(ev, i as int).map_values(
                        |p: (Seq<char>, Seq<char>)| (p.0, unescape(p.1)),
                    ) =~= seq![(pk, pv)] + rest);
                } else {
                    assert(unique_pairs_from(ev, i as int) == unique_pairs_from(ev, i + 1));
                }
            },
            None => {
                assert(unique_pairs_from(ev, i as int) == unique_pairs_from(ev, i + 1));
            },
        }
        i = i + 1;
    }
    assert(unique_pairs_from(ev, i as int) =~= Seq::<(Seq<char>, Seq<char>)>::empty());
    assert(r@.map_values(|p: (Vec<char>, Vec<char>)| (p.0@, p.1@)) + Seq::<(Seq<char>, Seq<char>)>::empty().map_values(
        |p: (Seq<char>, Seq<char>)| (p.0, unescape(p.1)),
    ) =~= r@.map_values(|p: (Vec<char>, Vec<char>)| (p.0@, p.1@)));
    r
}

/// Every key that `unique_pairs_from(elems, i)` gives comes from an element
/// at `j >= i` that is the first in `elems` to set it.
proof fn lemma_unique_pairs_origin(elems: Seq<(KindView, Seq<char>)>, i: int)
    requires
        0 <= i,
    ensures
        forall|a: int|
            0 <= a < unique_pairs_from(elems, i).len() ==> exists|j: int|
                i <= j < elems.len() && key_of(#[trigger] elems[j].0) == Some(
                    (#[trigger] unique_pairs_from(elems, i)[a]).0,
                ) && !has_key(elems.take(j), unique_pairs_from(elems, i)[a].0),
        forall|a: int, b: int|
            0 <= a < b < unique_pairs_from(elems, i).len() ==> (#[trigger] unique_pairs_from(
                elems,
                i,
            )[a]).0 != (#[trigger] unique_pairs_from(elems, i)[b]).0,
    decreases elems.len() - i,
{
    if i < elems.len() {
        lemma_unique_pairs_origin(elems, i + 1);
        let rest = unique_pairs_from(elems, i + 1);
        let out = unique_pairs_from(elems, i);
        match key_of(elems[i].0) {
            None => {
                assert(out == rest);
            },
            Some(k) => {
                if has_key(elems.take(i), k) {
                    assert(out == rest);
                } else {
                    assert(out == seq![(k, value_for(elems, i, k))] + rest);
                    assert forall|a: int| 0 <= a < out.len() implies exists|j: int|
                        i <= j < elems.len() && key_of(#[trigger] elems[j].0) == Some(
                            (#[trigger] out[a]).0,
                        ) && !has_key(elems.take(j), out[a].0) by {
                        if a == 0 {
                            assert(key_of(elems[i].0) == Some(out[0].0));
                        } else {
                            assert(out[a] == rest[a - 1]);
                        }
                    }
                    assert forall|a: int, b: int| 0 <= a < b < out.len() implies (
                    #[trigger] out[a]).0 != (#[trigger] out[b]).0 by {
                        if a == 0 {
                            assert(out[b] == rest[b - 1]);
                            let j = choose|j: int|
                                i + 1 <= j < elems.len() && key_of(#[trigger] elems[j].0) == Some(
                                    rest[b - 1].0,
                                ) && !has_key(elems.take(j), rest[b - 1].0);
                            if rest[b - 1].0 == k {
                                assert(elems.take(j)[i] == elems[i]);
                                assert(has_key(elems.take(j), k));
                            }
                        } else {
                            assert(out[a] == rest[a - 1]);
                            assert(out[b] == rest[b - 1]);
                        }
                    }
                }
            },
        }
    }
}

/// The pairs of an attribute set name each attribute once.
pub proof fn lemma_unique_pairs_keys_distinct(elems: Seq<(KindView, Seq<char>)>)
    ensures
        forall|a: int, b: int|
            0 <= a < b < unique_pairs_from(elems, 0).len() ==> (#[trigger] unique_pairs_from(
                elems,
                0,
            )[a]).0 != (#[trigger] unique_pairs_from(elems, 0)[b]).0,
{
    lemma_unique_pairs_origin(elems, 0);
}

} // verus!
