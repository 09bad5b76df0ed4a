//! Inline SVG icons written as `:family-name:` shortcodes: the shortcode
//! scanner, icon names, the files a name may live in, and the SVG text.
use vstd::prelude::*;

pub mod svg;

use crate::text::{
    chars_of, is_unicode_whitespace, is_whitespace, lemma_ascii_is_boundary,
    lemma_boundary_after_ascii, lemma_str_bytes_valid, string_from_chars,
};
use vstd::string::StringSliceAdditionalSpecFns;
use vstd::utf8::*;

verus! {

// ---------------------------------------------------------------------------
// Icon names
// ---------------------------------------------------------------------------

pub open spec fn is_ascii_alnum(c: char) -> bool {
    let u = c as u32;
    (48 <= u <= 57) || (65 <= u <= 90) || (97 <= u <= 122)
}

/// An icon name: ASCII letters, digits and hyphens, with at least one hyphen
/// (the family is the part before the first one, a directory on disk), and
/// starting and ending with a letter or digit.
pub open spec fn valid_icon_name(s: Seq<char>) -> bool {
    &&& s.contains('-')
    &&& forall|k: int| 0 <= k < s.len() ==> is_ascii_alnum(#[trigger] s[k]) || s[k] == '-'
    &&& s[0] != '-'
    &&& is_ascii_alnum(s.last())
}

fn is_alnum(c: char) -> (r: bool)
    ensures
        r == is_ascii_alnum(c),
{
    let u = c as u32;
    (48 <= u && u <= 57) || (65 <= u && u <= 90) || (97 <= u && u <= 122)
}

/// Validate an icon name; see `valid_icon_name`.
pub fn normalize_icon_name(name: &str) -> (r: Option<&str>)
    ensures
        match r {
            Some(n) => n@ == name@ && valid_icon_name(name@),
            None => !valid_icon_name(name@),
        },
{
    let chars = chars_of(name);
    let ghost s = name@;
    let mut has_hyphen = false;
    let mut k: usize = 0;
    while k < chars.len()
        invariant
            chars@ == s,
            s == name@,
            k <= s.len(),
            has_hyphen == (exists|j: int| 0 <= j < k && #[trigger] s[j] == '-'),
            forall|j: int| 0 <= j < k ==> is_ascii_alnum(#[trigger] s[j]) || s[j] == '-',
            k > 0 ==> s[0] != '-',
        decreases s.len() - k,
    {
        let c = chars[k];
        assert(s[k as int] == c);
        if c == '-' {
            if k == 0 {
                return None;
            }
            has_hyphen = true;
        } else if !is_alnum(c) {
            assert(!valid_icon_name(s)) by {
                assert(!(is_ascii_alnum(s[k as int]) || s[k as int] == '-'));
            }
            return None;
        }
        k = k + 1;
    }
    if has_hyphen && is_alnum(chars[chars.len() - 1]) {
        Some(name)
    } else {
        None
    }
}

// ---------------------------------------------------------------------------
// Where an icon's file may be
// ---------------------------------------------------------------------------

/// The number of hyphens in `s`.
pub open spec fn hyphens(s: Seq<char>) -> nat
    decreases s.len(),
{
    if s.len() == 0 {
        0
    } else {
        hyphens(s.drop_last()) + if s.last() == '-' {
            1nat
        } else {
            0nat
        }
    }
}

/// `name` with its first `m` hyphens turned into path separators.
pub open spec fn split_dirs(name: Seq<char>, m: nat) -> Seq<char> {
    Seq::new(
        name.len(),
        |k: int|
            if name[k] == '-' && hyphens(name.take(k)) < m {
                '/'
            } else {
                name[k]
            },
    )
}

pub open spec fn svg_ext() -> Seq<char> {
    seq!['.', 's', 'v', 'g']
}

/// The files, relative to an icon directory, that may hold the icon `name`,
/// from most specific to least: every hyphen but the last `t` becomes a
/// directory separator, for `t` from 0 up, and `.svg` is added.
/// `fontawesome-solid-sun-plant-wilt` gives `fontawesome/solid/sun/plant/wilt.svg`,
/// then `fontawesome/solid/sun/plant-wilt.svg`, ..., `fontawesome/solid-sun-plant-wilt.svg`.
pub open spec fn path_candidates(name: Seq<char>) -> Seq<Seq<char>> {
    let h = hyphens(name);
    Seq::new(h, |t: int| split_dirs(name, (h - t) as nat) + svg_ext())
}

proof fn lemma_hyphens_take_step(s: Seq<char>, k: int)
    requires
        0 <= k < s.len(),
    ensures
        hyphens(s.take(k + 1)) == hyphens(s.take(k)) + if s[k] == '-' {
            1nat
        } else {
            0nat
        },
{
    assert(s.take(k + 1).drop_last() =~= s.take(k));
}

proof fn lemma_hyphens_bound(s: Seq<char>)
    ensures
        hyphens(s) <= s.len(),
    decreases s.len(),
{
    if s.len() > 0 {
        lemma_hyphens_bound(s.drop_last());
    }
}

fn dirs_path(chars: &Vec<char>, m: usize) -> (r: String)
    ensures
        r@ == split_dirs(chars@, m as nat) + svg_ext(),
{
    let ghost s = chars@;
    let mut out: Vec<char> = Vec::new();
    let mut used: usize = 0;
    let mut k: usize = 0;
    while k < chars.len()
        invariant
            s == chars@,
            k <= s.len(),
            used as nat == if hyphens(s.take(k as int)) < m {
                hyphens(s.take(k as int))
            } else {
                m as nat
            },
            out@ == split_dirs(s, m as nat).take(k as int),
        decreases s.len() - k,
    {
        proof {
            lemma_hyphens_take_step(s, k as int);
        }
        let c = chars[k];
        if c == '-' && used < m {
            out.push('/');
            used = used + 1;
        } else {
            out.push(c);
        }
        assert(out@ =~= split_dirs(s, m as nat).take(k + 1));
        k = k + 1;
    }
    out.push('.');
    out.push('s');
    out.push('v');
    out.push('g');
    assert(out@ =~= split_dirs(s, m as nat) + svg_ext());
    string_from_chars(out.as_slice())
}

/// The candidate files for the icon `name`, relative to an icon directory;
/// see `path_candidates`.
pub fn icon_path_candidates(name: &str) -> (r: Vec<String>)
    ensures
        r@.len() == path_candidates(name@).len(),
        forall|t: int| 0 <= t < r@.len() ==> #[trigger] r@[t]@ == path_candidates(name@)[t],
{
    let chars = chars_of(name);
    let ghost s = name@;
    let mut h: usize = 0;
    let mut k: usize = 0;
    while k < chars.len()
        invariant
            s == chars@,
            k <= s.len(),
            h == hyphens(s.take(k as int)),
            h <= k,
        decreases s.len() - k,
    {
        proof {
            lemma_hyphens_take_step(s, k as int);
        }
        if chars[k] == '-' {
            h = h + 1;
        }
        k = k + 1;
    }
    assert(s.take(k as int) =~= s);
    let mut out: Vec<String> = Vec::new();
    let mut t: usize = 0;
    while t < h
        invariant
            s == chars@,
            s == name@,
            h == hyphens(s),
            t <= h,
            out@.len() == t,
            forall|u: int| 0 <= u < t ==> #[trigger] out@[u]@ == path_candidates(s)[u],
        decreases h - t,
    {
        let p = dirs_path(&chars, h - t);
        out.push(p);
        t = t + 1;
    }
    out
}

/// The files tried for the icon `name` across `n_dirs` icon directories:
/// each directory in turn, and in it each candidate, most specific first.
pub open spec fn search_order(n_dirs: nat, name: Seq<char>) -> Seq<(int, Seq<char>)> {
    let c = path_candidates(name);
    Seq::new(n_dirs * c.len(), |k: int| (k / c.len() as int, c[k % c.len() as int]))
}

/// The files to try for the icon `name` in `n_dirs` directories, in order,
/// as directory index and path under it; the first that can be read is the
/// icon's file. See `search_order`.
pub fn icon_search_order(n_dirs: usize, name: &str) -> (r: Vec<(usize, String)>)
    ensures
        r@.len() == search_order(n_dirs as nat, name@).len(),
        forall|k: int|
            0 <= k < r@.len() ==> (#[trigger] r@[k]).0 as int == search_order(n_dirs as nat, name@)[k].0
                && r@[k].1@ == search_order(n_dirs as nat, name@)[k].1,
{
    let cands = icon_path_candidates(name);
    let ghost c = path_candidates(name@);
    let nc = cands.len();
    let mut r: Vec<(usize, String)> = Vec::new();
    let mut d: usize = 0;
    while d < n_dirs
        invariant
            d <= n_dirs,
            nc == c.len(),
            cands@.len() == nc,
            forall|t: int| 0 <= t < nc ==> #[trigger] cands@[t]@ == c[t],
            r@.len() == d * nc,
            forall|k: int|
                0 <= k < r@.len() ==> (#[trigger] r@[k]).0 as int == k / nc as int && r@[k].1@ == c[k
                    % nc as int],
        decreases n_dirs - d,
    {
        let mut t: usize = 0;
        while t < nc
            invariant
                d < n_dirs,
                t <= nc,
                nc == c.len(),
                cands@.len() == nc,
                forall|t: int| 0 <= t < nc ==> #[trigger] cands@[t]@ == c[t],
                r@.len() == d * nc + t,
                forall|k: int|
                    0 <= k < r@.len() ==> (#[trigger] r@[k]).0 as int == k / nc as int && r@[k].1@
                        == c[k % nc as int],
            decreases nc - t,
        {
            let path = cands[t].clone();
            proof {
                let k = d * nc + t;
                assert(k / nc as int == d && k % nc as int == t) by (nonlinear_arith)
                    requires
                        k == d * nc + t,
                        0 <= t < nc,
                        0 <= d,
                ;
            }
            r.push((d, path));
            t = t + 1;
        }
        proof {
            assert((d + 1) * nc == d * nc + nc) by (nonlinear_arith);
        }
        d = d + 1;
    }
    proof {
        assert(r@.len() == search_order(n_dirs as nat, name@).len()) by {
            assert(n_dirs * nc == (n_dirs as nat) * c.len());
        }
    }
    r
}

// ---------------------------------------------------------------------------
// SVG text
// ---------------------------------------------------------------------------

pub open spec fn comment_open() -> Seq<char> {
    seq!['<', '!', '-', '-']
}

pub open spec fn comment_close() -> Seq<char> {
    seq!['-', '-', '>']
}

pub open spec fn matches_at(s: Seq<char>, k: int, pat: Seq<char>) -> bool {
    0 <= k && k + pat.len() <= s.len() && s.subrange(k, k + pat.len()) == pat
}

/// The first index from `i` on where `pat` occurs in `s`.
pub open spec fn find_from(s: Seq<char>, pat: Seq<char>, i: int) -> Option<int>
    decreases s.len() + 1 - i,
{
    if i < 0 || i + pat.len() > s.len() {
        None
    } else if matches_at(s, i, pat) {
        Some(i)
    } else {
        find_from(s, pat, i + 1)
    }
}

pub proof fn lemma_find_from_bounds(s: Seq<char>, pat: Seq<char>, i: int)
    ensures
        find_from(s, pat, i) matches Some(k) ==> i <= k && matches_at(s, k, pat),
    decreases s.len() + 1 - i,
{
    if !(i < 0 || i + pat.len() > s.len()) && !matches_at(s, i, pat) {
        lemma_find_from_bounds(s, pat, i + 1);
    }
}

/// `s` from `i` on, without its HTML comments: each `<!--` up to the next
/// `-->` (searched from the `<!--` itself) goes; an unclosed comment stays.
pub open spec fn strip_comments_from(s: Seq<char>, i: int) -> Seq<char>
    decreases s.len() - i,
{
    if i < 0 || i > s.len() {
        seq![]
    } else {
        match find_from(s, comment_open(), i) {
            None => s.skip(i),
            Some(st) => match find_from(s, comment_close(), st) {
                None => s.skip(i),
                Some(e) => {
                    proof {
                        lemma_find_from_bounds(s, comment_open(), i);
                        lemma_find_from_bounds(s, comment_close(), st);
                    }
                    s.subrange(i, st) + strip_comments_from(s, e + 3)
                },
            },
        }
    }
}

pub open spec fn strip_comments(s: Seq<char>) -> Seq<char> {
    strip_comments_from(s, 0)
}

/// Text without `<!--` comes back unchanged.
pub proof fn lemma_strip_without_comments(s: Seq<char>)
    requires
        find_from(s, comment_open(), 0) is None,
    ensures
        strip_comments(s) == s,
{
    assert(s.skip(0) =~= s);
}

fn find_pat(s: &Vec<char>, pat: &Vec<char>, i: usize) -> (r: Option<usize>)
    requires
        i <= s@.len(),
    ensures
        match r {
            Some(k) => find_from(s@, pat@, i as int) == Some(k as int) && i <= k && k + pat@.len()
                <= s@.len(),
            None => find_from(s@, pat@, i as int) is None,
        },
{
    proof {
        lemma_find_from_bounds(s@, pat@, i as int);
    }
    let n = s.len();
    let mut k = i;
    while k <= s.len() && pat.len() <= s.len() - k
        invariant
            n == s@.len(),
            i <= k,
            k <= s@.len() + 1,
            find_from(s@, pat@, i as int) == find_from(s@, pat@, k as int),
        decreases s@.len() + 1 - k,
    {
        let mut j: usize = 0;
        let mut same = true;
        while same && j < pat.len()
            invariant
                n == s@.len(),
                j <= pat@.len(),
                k + pat@.len() <= s@.len(),
                same == (forall|q: int| 0 <= q < j ==> s@[k + q] == pat@[q]),
            decreases pat@.len() - j,
        {
            if s[k + j] != pat[j] {
                same = false;
            }
            j = j + 1;
        }
        if same {
            assert(s@.subrange(k as int, k + pat@.len()) =~= pat@);
            return Some(k);
        }
        assert(!matches_at(s@, k as int, pat@)) by {
            if matches_at(s@, k as int, pat@) {
                let q = choose|q: int| 0 <= q < j && s@[k + q] != pat@[q];
                assert(s@.subrange(k as int, k + pat@.len())[q] == s@[k + q]);
            }
        }
        k = k + 1;
    }
    None
}

fn push_range(out: &mut Vec<char>, s: &Vec<char>, from: usize, to: usize)
    requires
        from <= to <= s@.len(),
    ensures
        final(out)@ == old(out)@ + s@.subrange(from as int, to as int),
{
    let ghost o = out@;
    let mut k = from;
    while k < to
        invariant
            from <= k <= to <= s@.len(),
            out@ == o + s@.subrange(from as int, k as int),
        decreases to - k,
    {
        out.push(s[k]);
        assert(s@.subrange(from as int, k + 1) =~= s@.subrange(from as int, k as int).push(
            s@[k as int],
        ));
        k = k + 1;
    }
}

/// The SVG text without its HTML comments; see `strip_comments_from`.
pub fn strip_html_comments(svg: &str) -> (r: String)
    ensures
        r@ == strip_comments(svg@),
{
    let s = chars_of(svg);
    let open: Vec<char> = vec!['<', '!', '-', '-'];
    let close: Vec<char> = vec!['-', '-', '>'];
    assert(open@ =~= comment_open());
    assert(close@ =~= comment_close());
    let mut out: Vec<char> = Vec::new();
    let mut i: usize = 0;
    let mut done = false;
    let n = s.len();
    while !done
        invariant
            n == s@.len(),
            i <= s@.len(),
            open@ == comment_open(),
            close@ == comment_close(),
            done ==> out@ == strip_comments(s@),
            !done ==> out@ + strip_comments_from(s@, i as int) == strip_comments(s@),
        decreases s@.len() - i, if done { 0int } else { 1int },
    {
        let ghost before = out@;
        match find_pat(&s, &open, i) {
            None => {
                push_range(&mut out, &s, i, s.len());
                done = true;
            },
            Some(st) => match find_pat(&s, &close, st) {
                None => {
                    push_range(&mut out, &s, i, s.len());
                    done = true;
                },
                Some(e) => {
                    push_range(&mut out, &s, i, st);
                    assert(strip_comments_from(s@, i as int) == s@.subrange(i as int, st as int)
                        + strip_comments_from(s@, e + 3));
                    assert(before + strip_comments_from(s@, i as int) =~= out@
                        + strip_comments_from(s@, e + 3));
                    i = e + 3;
                },
            },
        }
    }
    string_from_chars(out.as_slice())
}

// ---------------------------------------------------------------------------
// The icon node
// ---------------------------------------------------------------------------

/// An icon in the document: the marker it was written with, the icon's name,
/// the file it was read from and its SVG text.
pub struct Icon {
    pub marker: char,
    pub marker_len: usize,
    pub name: String,
    pub path: String,
    pub svg: String,
}

impl Icon {
    /// The icon `name` written with `marker`, read from `path` with text
    /// `svg_content`; its SVG text is that text without HTML comments.
    pub fn new(marker: char, name: String, path: String, svg_content: &str) -> (r: Icon)
        ensures
            r.marker == marker,
            r.marker_len == 1,
            r.name@ == name@,
            r.path@ == path@,
            r.svg@ == strip_comments(svg_content@),
    {
        let svg = strip_html_comments(svg_content);
        Icon { marker, marker_len: 1, name, path, svg }
    }
}

// ---------------------------------------------------------------------------
// Scanning `:family-name:` shortcodes
// ---------------------------------------------------------------------------

/// What the icon rule remembers while it scans one inline run: whether the
/// rest of the run was scanned to its end already, and for each length of a
/// run of markers met, where the last such run started.
pub struct IconCache {
    pub scanned: bool,
    pub max: Vec<usize>,
}

/// The shortcode scanner for icons written between single `marker`s.
pub struct IconScanner {
    pub marker: char,
}

/// Index past the run of `m` bytes that starts at `k`, stopping at `end`.
pub open spec fn run_end(b: Seq<u8>, m: u8, k: int, end: int) -> int
    decreases end - k,
{
    if 0 <= k < end && k < b.len() && b[k] == m {
        run_end(b, m, k + 1, end)
    } else {
        k
    }
}

/// The first index from `k` on, before `end`, of the byte `m`.
pub open spec fn find_byte(b: Seq<u8>, m: u8, k: int, end: int) -> Option<int>
    decreases end - k,
{
    if k < 0 || k >= end || k >= b.len() {
        None
    } else if b[k] == m {
        Some(k)
    } else {
        find_byte(b, m, k + 1, end)
    }
}

pub proof fn lemma_run_end_bounds(b: Seq<u8>, m: u8, k: int, end: int)
    requires
        0 <= k <= end,
    ensures
        k <= run_end(b, m, k, end) <= end,
    decreases end - k,
{
    if 0 <= k < end && k < b.len() && b[k] == m {
        lemma_run_end_bounds(b, m, k + 1, end);
    }
}

pub proof fn lemma_find_byte_bounds(b: Seq<u8>, m: u8, k: int, end: int)
    ensures
        find_byte(b, m, k, end) matches Some(st) ==> k <= st < end && st < b.len() && b[st] == m,
    decreases end - k,
{
    if !(k < 0 || k >= end || k >= b.len()) && b[k] != m {
        lemma_find_byte_bounds(b, m, k + 1, end);
    }
}

/// `max` with entry `k` set to `v`, grown with zeros first if too short.
pub open spec fn grow_set(max: Seq<usize>, k: int, v: usize) -> Seq<usize> {
    let grown = if max.len() > k {
        max
    } else {
        max + Seq::new((k + 1 - max.len()) as nat, |_j: int| 0usize)
    };
    grown.update(k, v)
}

/// Looking for the closing marker from byte `k` on: the first run of exactly
/// one marker, as `(start, end)`; runs of other lengths met on the way are
/// recorded in `max`, which is returned as it then is.
pub open spec fn scan_closer(b: Seq<u8>, m: u8, k: int, end: int, max: Seq<usize>) -> (
    Option<(int, int)>,
    Seq<usize>,
)
    decreases end - k,
{
    if k < 0 || k > end {
        (None, max)
    } else {
        match find_byte(b, m, k, end) {
            None => (None, max),
            Some(st) => {
                proof {
                    lemma_find_byte_bounds(b, m, k, end);
                    lemma_run_end_bounds(b, m, st + 1, end);
                }
                let e = run_end(b, m, st + 1, end);
                if e - st == 1 {
                    (Some((st, e)), max)
                } else {
                    scan_closer(b, m, e, end, grow_set(max, e - st, st as usize))
                }
            },
        }
    }
}

/// The icon rule at byte `pos` of the inline run `b[..end]`, with marker byte
/// `m`, given whether the text before ends with a marker and the cache: the
/// icon's name and the length of the shortcode, or `None`; and the cache
/// afterwards. A shortcode opens with exactly one marker (not right after
/// another) and closes at the next run of exactly one marker; what lies
/// between must be a valid icon name. When the cache shows that the run was
/// scanned to its end and no single marker lies after `pos`, nothing is
/// scanned again.
pub open spec fn icon_scan(
    b: Seq<u8>,
    m: u8,
    pos: int,
    end: int,
    after_marker: bool,
    scanned: bool,
    max: Seq<usize>,
) -> (Option<(Seq<char>, int)>, bool, Seq<usize>) {
    if b[pos] != m || after_marker {
        (None, scanned, max)
    } else if run_end(b, m, pos + 1, end) - pos != 1 {
        (None, scanned, max)
    } else if scanned && (if max.len() > 1 {
        max[1] as int
    } else {
        0
    }) <= pos {
        (None, scanned, max)
    } else {
        let (found, max2) = scan_closer(b, m, pos + 1, end, max);
        match found {
            None => (None, true, max2),
            Some((st, e)) => {
                let name = decode_utf8(b.subrange(pos + 1, st));
                if valid_icon_name(name) {
                    (Some((name, e - pos)), scanned, max2)
                } else {
                    (None, scanned, max2)
                }
            },
        }
    }
}

fn run_end_exec(b: &[u8], m: u8, k: usize, end: usize) -> (r: usize)
    requires
        k <= end <= b@.len(),
    ensures
        r == run_end(b@, m, k as int, end as int),
        k <= r <= end,
{
    proof {
        lemma_run_end_bounds(b@, m, k as int, end as int);
    }
    let mut j = k;
    while j < end && b[j] == m
        invariant
            k <= j <= end <= b@.len(),
            run_end(b@, m, k as int, end as int) == run_end(b@, m, j as int, end as int),
        decreases end - j,
    {
        j = j + 1;
    }
    j
}

fn find_byte_exec(b: &[u8], m: u8, k: usize, end: usize) -> (r: Option<usize>)
    requires
        k <= end <= b@.len(),
    ensures
        match r {
            Some(st) => find_byte(b@, m, k as int, end as int) == Some(st as int),
            None => find_byte(b@, m, k as int, end as int) is None,
        },
{
    let mut j = k;
    while j < end
        invariant
            k <= j <= end <= b@.len(),
            find_byte(b@, m, k as int, end as int) == find_byte(b@, m, j as int, end as int),
        decreases end - j,
    {
        if b[j] == m {
            return Some(j);
        }
        j = j + 1;
    }
    None
}

/// Record that a run of `len` markers starts at `start`; see `grow_set`.
fn record_run(max: &mut Vec<usize>, len: usize, start: usize)
    ensures
        final(max)@ == grow_set(old(max)@, len as int, start),
{
    let ghost o = max@;
    while max.len() <= len
        invariant
            o.len() <= max@.len(),
            max@.subrange(0, o.len() as int) == o,
            forall|j: int| o.len() <= j < max@.len() ==> #[trigger] max@[j] == 0usize,
            o.len() <= len ==> max@.len() <= len + 1,
            o.len() > len ==> max@ == o,
        decreases len + 1 - max@.len(),
    {
        max.push(0);
    }
    max.set(len, start);
    proof {
        if o.len() > len {
            assert(max@ =~= o.update(len as int, start));
        } else {
            assert(max@ =~= (o + Seq::new((len + 1 - o.len()) as nat, |_j: int| 0usize)).update(
                len as int,
                start,
            ));
        }
    }
}

fn scan_closer_exec(b: &[u8], m: u8, k: usize, end: usize, max: &mut Vec<usize>) -> (r: Option<
    (usize, usize),
>)
    requires
        k <= end <= b@.len(),
    ensures
        final(max)@ == scan_closer(b@, m, k as int, end as int, old(max)@).1,
        match r {
            Some((st, e)) => scan_closer(b@, m, k as int, end as int, old(max)@).0 == Some(
                (st as int, e as int),
            ),
            None => scan_closer(b@, m, k as int, end as int, old(max)@).0 is None,
        },
{
    let ghost target = scan_closer(b@, m, k as int, end as int, max@);
    let mut j = k;
    loop
        invariant
            k <= j <= end <= b@.len(),
            target == scan_closer(b@, m, k as int, end as int, old(max)@),
            target == scan_closer(b@, m, j as int, end as int, max@),
        decreases end - j,
    {
        proof {
            lemma_find_byte_bounds(b@, m, j as int, end as int);
        }
        match find_byte_exec(b, m, j, end) {
            None => {
                return None;
            },
            Some(st) => {
                let e = run_end_exec(b, m, st + 1, end);
                if e - st == 1 {
                    return Some((st, e));
                }
                record_run(max, e - st, st);
                j = e;
            },
        }
    }
}

impl IconScanner {
    /// The icon rule at byte `pos` of `src`, which ends at `pos_max` here;
    /// `after_marker` tells whether the text before `pos` ends with the
    /// marker. See `icon_scan`. The marker is an ASCII character.
    pub fn scan(
        &self,
        src: &str,
        pos: usize,
        pos_max: usize,
        after_marker: bool,
        cache: &mut IconCache,
    ) -> (r: Option<(String, usize)>)
        requires
            (self.marker as u32) < 128,
            pos < pos_max <= src.spec_bytes().len(),
        ensures
            ({
                let (res, sc, mx) = icon_scan(
                    src.spec_bytes(),
                    (self.marker as u32) as u8,
                    pos as int,
                    pos_max as int,
                    after_marker,
                    old(cache).scanned,
                    old(cache).max@,
                );
                &&& final(cache).scanned == sc
                &&& final(cache).max@ == mx
                &&& match r {
                    Some((name, len)) => res == Some((name@, len as int)),
                    None => res is None,
                }
            }),
    {
        let b = src.as_bytes();
        let m = (self.marker as u32) as u8;
        if b[pos] != m || after_marker {
            return None;
        }
        let p1 = run_end_exec(b, m, pos + 1, pos_max);
        if p1 - pos != 1 {
            return None;
        }
        if cache.scanned {
            let limit = if cache.max.len() > 1 {
                cache.max[1]
            } else {
                0
            };
            if limit <= pos {
                return None;
            }
        }
        let found = scan_closer_exec(b, m, p1, pos_max, &mut cache.max);
        match found {
            None => {
                cache.scanned = true;
                None
            },
            Some((st, e)) => {
                proof {
                    lemma_str_bytes_valid(src);
                    lemma_scan_closer_found(b@, m, p1 as int, pos_max as int, old(cache).max@);
                    lemma_ascii_is_boundary(b@, pos as int);
                    lemma_boundary_after_ascii(b@, pos as int);
                }
                let (_, tail) = src.split_at(pos + 1);
                proof {
                    lemma_str_bytes_valid(tail);
                    assert(tail.spec_bytes()[st - pos - 1] == m);
                    lemma_ascii_is_boundary(tail.spec_bytes(), st - pos - 1);
                }
                let (content, _) = tail.split_at(st - pos - 1);
                proof {
                    assert(content.spec_bytes() =~= b@.subrange(pos + 1, st as int));
                    encode_utf8_decode_utf8(content@);
                }
                let mut has_ws = false;
                let cs = chars_of(content);
                let mut q: usize = 0;
                while q < cs.len()
                    invariant
                        q <= cs@.len(),
                        has_ws ==> exists|w: int| 0 <= w < cs@.len() && is_unicode_whitespace(
                            #[trigger] cs@[w],
                        ),
                    decreases cs@.len() - q,
                {
                    if is_whitespace(cs[q]) {
                        has_ws = true;
                    }
                    q = q + 1;
                }
                if has_ws {
                    assert(!valid_icon_name(content@)) by {
                        let w = choose|w: int| 0 <= w < cs@.len() && is_unicode_whitespace(
                            #[trigger] cs@[w],
                        );
                        assert(!(is_ascii_alnum(content@[w]) || content@[w] == '-'));
                    }
                    return None;
                }
                match normalize_icon_name(content) {
                    Some(name) => Some((name.to_owned(), e - pos)),
                    None => None,
                }
            },
        }
    }
}

proof fn lemma_scan_closer_found(b: Seq<u8>, m: u8, k: int, end: int, max: Seq<usize>)
    requires
        0 <= k <= end,
    ensures
        scan_closer(b, m, k, end, max).0 matches Some((st, e)) ==> k <= st < e <= end && st
            < b.len() && b[st] == m && e == st + 1,
    decreases end - k,
{
    match find_byte(b, m, k, end) {
        None => {},
        Some(st) => {
            lemma_find_byte_bounds(b, m, k, end);
            lemma_run_end_bounds(b, m, st + 1, end);
            let e = run_end(b, m, st + 1, end);
            if e - st != 1 {
                lemma_scan_closer_found(b, m, e, end, grow_set(max, e - st, st as usize));
            }
        },
    }
}

/// A run of markers starts at `st`: a marker not right after another.
pub open spec fn run_start(b: Seq<u8>, m: u8, st: int) -> bool {
    0 <= st < b.len() && b[st] == m && (st == 0 || b[st - 1] != m)
}

proof fn lemma_find_byte_skips(b: Seq<u8>, m: u8, k: int, end: int)
    requires
        0 <= k,
        end <= b.len(),
    ensures
        match find_byte(b, m, k, end) {
            Some(st) => forall|j: int| k <= j < st ==> b[j] != m,
            None => forall|j: int| k <= j < end ==> b[j] != m,
        },
    decreases end - k,
{
    if !(k >= end || k >= b.len()) && b[k] != m {
        lemma_find_byte_skips(b, m, k + 1, end);
    }
}

proof fn lemma_run_end_run(b: Seq<u8>, m: u8, k: int, end: int)
    requires
        0 <= k <= end <= b.len(),
    ensures
        forall|j: int| k <= j < run_end(b, m, k, end) ==> b[j] == m,
        run_end(b, m, k, end) < end ==> b[run_end(b, m, k, end)] != m,
    decreases end - k,
{
    if k < end && b[k] == m {
        lemma_run_end_run(b, m, k + 1, end);
    }
}

/// A search for a closer from `k` (not inside a run) that finds none went
/// past every run in `[k, end)`, and none of them was a single marker.
proof fn lemma_exhausted_no_single(b: Seq<u8>, m: u8, k: int, end: int, max: Seq<usize>)
    requires
        0 <= k <= end <= b.len(),
        k == end || b[k] != m,
        scan_closer(b, m, k, end, max).0 is None,
    ensures
        forall|st: int| k <= st < end && run_start(b, m, st) ==> run_end(b, m, st + 1, end) != st + 1,
    decreases end - k,
{
    lemma_find_byte_skips(b, m, k, end);
    match find_byte(b, m, k, end) {
        None => {},
        Some(st0) => {
            lemma_find_byte_bounds(b, m, k, end);
            lemma_run_end_bounds(b, m, st0 + 1, end);
            lemma_run_end_run(b, m, st0 + 1, end);
            let e = run_end(b, m, st0 + 1, end);
            assert(e - st0 != 1);
            lemma_exhausted_no_single(b, m, e, end, grow_set(max, e - st0, st0 as usize));
            assert forall|st: int| k <= st < end && run_start(b, m, st) implies run_end(
                b,
                m,
                st + 1,
                end,
            ) != st + 1 by {
                if st < st0 {
                    assert(b[st] != m);
                } else if st0 < st < e {
                    assert(b[st - 1] == m);
                }
            }
        },
    }
}

/// A closer found from `k` (not inside a run) is a run of a single marker.
proof fn lemma_found_single(b: Seq<u8>, m: u8, k: int, end: int, max: Seq<usize>)
    requires
        0 <= k <= end <= b.len(),
        k == end || b[k] != m,
    ensures
        scan_closer(b, m, k, end, max).0 matches Some((st, e)) ==> k <= st < end && run_start(b, m, st)
            && run_end(b, m, st + 1, end) == st + 1,
    decreases end - k,
{
    lemma_find_byte_skips(b, m, k, end);
    match find_byte(b, m, k, end) {
        None => {},
        Some(st0) => {
            lemma_find_byte_bounds(b, m, k, end);
            lemma_run_end_bounds(b, m, st0 + 1, end);
            lemma_run_end_run(b, m, st0 + 1, end);
            let e = run_end(b, m, st0 + 1, end);
            if st0 > 0 && st0 > k {
                assert(b[st0 - 1] != m);
            }
            if e - st0 != 1 {
                lemma_found_single(b, m, e, end, grow_set(max, e - st0, st0 as usize));
            }
        },
    }
}

/// When the search for a closer after an opener at `p0` reaches the end of
/// the run without one, no opener after it in the run yields an icon,
/// whatever the cache holds: so remembering that the run was scanned never
/// hides an icon.
pub proof fn lemma_exhausted_run_has_no_later_icon(
    b: Seq<u8>,
    m: u8,
    p0: int,
    pos: int,
    end: int,
    max0: Seq<usize>,
    after_marker: bool,
    scanned: bool,
    max: Seq<usize>,
)
    requires
        0 <= p0 < pos < end <= b.len(),
        b[p0] == m,
        run_end(b, m, p0 + 1, end) == p0 + 1,
        scan_closer(b, m, p0 + 1, end, max0).0 is None,
    ensures
        icon_scan(b, m, pos, end, after_marker, scanned, max).0 is None,
{
    lemma_run_end_run(b, m, p0 + 1, end);
    lemma_exhausted_no_single(b, m, p0 + 1, end, max0);
    if b[pos] == m && !after_marker && run_end(b, m, pos + 1, end) - pos == 1 {
        lemma_run_end_run(b, m, pos + 1, end);
        lemma_found_single(b, m, pos + 1, end, max);
    }
}

/// The first file that could be read, among the results of reading the
/// files of `search_order` in turn (`None` for one that could not be read):
/// its index in that order and its text; `None` when none could be read.
pub fn first_readable(reads: &Vec<Option<String>>) -> (r: Option<(usize, String)>)
    ensures
        match r {
            Some((k, text)) => {
                &&& k < reads@.len()
                &&& reads@[k as int] matches Some(t) && t@ == text@
                &&& forall|j: int| 0 <= j < k ==> (#[trigger] reads@[j]) is None
            },
            None => forall|j: int| 0 <= j < reads@.len() ==> (#[trigger] reads@[j]) is None,
        },
{
    let mut k: usize = 0;
    while k < reads.len()
        invariant
            k <= reads@.len(),
            forall|j: int| 0 <= j < k ==> (#[trigger] reads@[j]) is None,
        decreases reads@.len() - k,
    {
        match &reads[k] {
            Some(text) => {
                return Some((k, text.clone()));
            },
            None => {},
        }
        k = k + 1;
    }
    None
}

} // verus!
