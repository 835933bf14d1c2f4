//! Snippet extraction with highlight markers.
//!
//! Given the original text of a hit and the query terms, build a short
//! excerpt that contains as many query matches as possible, with byte
//! offsets into the snippet for each match:
//!
//! 1. tokenize the text and keep the tokens whose term matches a query term
//!    (ASCII case-insensitively);
//! 2. among all windows of a fixed byte width over the text, take the one
//!    that holds the most matches, the leftmost on ties; when every match is
//!    wider than the window, so that no window holds one, anchor the window
//!    a quarter of its width before the first match and stretch it to the
//!    end of that match;
//! 3. widen the window to whitespace on both sides and mark a cut side with
//!    an ellipsis;
//! 4. re-emit the offsets of the matches inside the window, relative to the
//!    snippet.

use vstd::prelude::*;
use vstd::string::{StrSliceExecFns, StringSliceAdditionalSpecFns};
use vstd::utf8::*;

use crate::text::{ascii_ci_eq, byte_slice, eq_ignore_ascii_case, is_ascii_ws, is_ascii_ws_spec, utf8};
use crate::tokenizer::{lowercase, spec_tokenize, to_lowercase, tokenize, tokens_in_text, TokenizerConfig};

verus! {

/// A single highlighted excerpt around query matches.
#[derive(Debug, Clone, PartialEq, Eq)]
pub struct Snippet {
    /// The excerpt text, possibly prefixed/suffixed with an ellipsis.
    pub text: String,
    /// Byte ranges (start, end) into [`Snippet::text`] that should be
    /// emphasized.
    pub highlights: Vec<(usize, usize)>,
}

/// Snippet extraction options.
#[derive(Debug, Clone, Copy)]
pub struct SnippetConfig {
    /// Target byte length of the snippet window before whole-word widening.
    pub window_bytes: usize,
    /// Mark a cut side of the snippet with an ellipsis.
    pub use_ellipsis: bool,
}

impl Default for SnippetConfig {
    fn default() -> (r: Self)
        ensures
            r.window_bytes == 160,
            r.use_ellipsis,
    {
        SnippetConfig { window_bytes: 160, use_ellipsis: true }
    }
}

/// The end of the window that starts at `start`, cut at the end of the text.
pub open spec fn window_end(start: int, w: int, len: int) -> int {
    if start + w <= len {
        start + w
    } else {
        len
    }
}

/// The number of spans that lie within `start..end`.
pub open spec fn count_within(spans: Seq<(int, int)>, start: int, end: int) -> nat
    decreases spans.len(),
{
    if spans.len() == 0 {
        0
    } else {
        count_within(spans.drop_last(), start, end) + if start <= spans.last().0
            && spans.last().1 <= end {
            1nat
        } else {
            0nat
        }
    }
}

/// The number of spans inside the window of width `w` that starts at `s`.
pub open spec fn window_count(spans: Seq<(int, int)>, w: int, len: int, s: int) -> nat {
    count_within(spans, s, window_end(s, w, len))
}

/// Whether `s` starts a window of width `w` over a text of `len` bytes that
/// holds the most spans, and no window starting further left holds as many.
pub open spec fn is_best_start(spans: Seq<(int, int)>, w: int, len: int, s: int) -> bool {
    &&& 0 <= s <= len
    &&& forall|t: int|
        0 <= t <= len ==> #[trigger] window_count(spans, w, len, t) <= window_count(
            spans,
            w,
            len,
            s,
        )
    &&& forall|t: int|
        0 <= t < s ==> #[trigger] window_count(spans, w, len, t) < window_count(spans, w, len, s)
}

/// The window `(start, end)` of width `w` over a text of `len` bytes that
/// holds the most spans, the leftmost on ties.
pub open spec fn spec_best_window(spans: Seq<(int, int)>, w: int, len: int) -> (int, int) {
    let s = choose|s: int| is_best_start(spans, w, len, s);
    (s, window_end(s, w, len))
}

/// The leftmost start of a window of width `w` that can hold span `k`.
spec fn first_start(spans: Seq<(int, int)>, w: int, k: int) -> int {
    if spans[k].1 >= w {
        spans[k].1 - w
    } else {
        0
    }
}

/// Every span lies within `0..len` and starts before it ends.
pub open spec fn spans_in(spans: Seq<(int, int)>, len: int) -> bool {
    forall|i: int| 0 <= i < spans.len() ==> 0 <= (#[trigger] spans[i]).0 < spans[i].1 <= len
}

proof fn lemma_count_push(spans: Seq<(int, int)>, x: (int, int), start: int, end: int)
    ensures
        count_within(spans.push(x), start, end) == count_within(spans, start, end) + if start
            <= x.0 && x.1 <= end {
            1nat
        } else {
            0nat
        },
{
    assert(spans.push(x).drop_last() =~= spans);
}

proof fn lemma_count_bound(spans: Seq<(int, int)>, start: int, end: int)
    ensures
        count_within(spans, start, end) <= spans.len(),
    decreases spans.len(),
{
    if spans.len() > 0 {
        lemma_count_bound(spans.drop_last(), start, end);
    }
}

/// The number of spans of `spans` within `start..end`.
fn count_spans(spans: &Vec<(usize, usize)>, start: usize, end: usize) -> (r: usize)
    ensures
        r == count_within(span_view(spans@), start as int, end as int),
{
    let ghost sv = span_view(spans@);
    let mut n: usize = 0;
    let mut i: usize = 0;
    while i < spans.len()
        invariant
            sv == span_view(spans@),
            0 <= i <= spans@.len(),
            n == count_within(sv.take(i as int), start as int, end as int),
            n <= i,
        decreases spans@.len() - i,
    {
        let (s, e) = spans[i];
        proof {
            assert(sv.take(i as int + 1) =~= sv.take(i as int).push(sv[i as int]));
            lemma_count_push(sv.take(i as int), sv[i as int], start as int, end as int);
        }
        if s >= start && e <= end {
            n = n + 1;
        }
        i = i + 1;
    }
    assert(sv.take(spans@.len() as int) =~= sv);
    n
}

/// The spans as pairs of integers.
pub open spec fn span_view(spans: Seq<(usize, usize)>) -> Seq<(int, int)> {
    spans.map_values(|p: (usize, usize)| (p.0 as int, p.1 as int))
}

/// The end of the window of width `window_bytes` that starts at `start`.
fn end_of_window(len: usize, start: usize, window_bytes: usize) -> (r: usize)
    requires
        start <= len,
    ensures
        r == window_end(start as int, window_bytes as int, len as int),
{
    if window_bytes <= len - start {
        start + window_bytes
    } else {
        len
    }
}

/// Find the `window_bytes`-wide window over a text of `len` bytes that holds
/// the most matches, the leftmost on ties.
///
/// Only the start of the text and the first starts that take in a match can
/// begin such a window, so those are the starts that are tried.
fn best_window(len: usize, spans: &Vec<(usize, usize)>, window_bytes: usize) -> (r: (usize, usize))
    requires
        spans_in(span_view(spans@), len as int),
    ensures
        is_best_start(span_view(spans@), window_bytes as int, len as int, r.0 as int),
        (r.0 as int, r.1 as int) == spec_best_window(span_view(spans@), window_bytes as int, len as int),
        r.0 <= r.1 <= len,
{
    let ghost sv = span_view(spans@);
    let ghost w = window_bytes as int;
    let ghost n = len as int;
    let mut best_start: usize = 0;
    let mut best_count: usize = count_spans(spans, 0, end_of_window(len, 0, window_bytes));
    let mut i: usize = 0;
    while i < spans.len()
        invariant
            sv == span_view(spans@),
            w == window_bytes as int,
            n == len as int,
            spans_in(sv, n),
            0 <= i <= spans@.len(),
            best_start <= len,
            best_count == window_count(sv, w, n, best_start as int),
            window_count(sv, w, n, 0) <= best_count,
            0 < best_start ==> window_count(sv, w, n, 0) < best_count,
            forall|j: int|
                #![trigger first_start(sv, w, j)]
                0 <= j < i ==> window_count(sv, w, n, first_start(sv, w, j)) <= best_count,
            forall|j: int|
                #![trigger first_start(sv, w, j)]
                0 <= j < i && first_start(sv, w, j) < best_start ==> window_count(
                    sv,
                    w,
                    n,
                    first_start(sv, w, j),
                ) < best_count,
        decreases spans@.len() - i,
    {
        let e = spans[i].1;
        assert(sv[i as int] == (spans@[i as int].0 as int, e as int));
        let c = if e >= window_bytes { e - window_bytes } else { 0 };
        assert(c as int == first_start(sv, w, i as int));
        let cnt = count_spans(spans, c, end_of_window(len, c, window_bytes));
        if cnt > best_count || (cnt == best_count && c < best_start) {
            best_count = cnt;
            best_start = c;
        }
        i = i + 1;
    }
    proof {
        lemma_scan_is_best(sv, w, n, best_start as int);
        lemma_best_window_is_best(sv, w, n);
    }
    (best_start, end_of_window(len, best_start, window_bytes))
}

/// Moving left from `i`, the first position after an ASCII whitespace byte,
/// or the start of the text.
pub open spec fn snap_left_from(bytes: Seq<u8>, i: int) -> int
    decreases i,
{
    if i <= 0 {
        0
    } else if is_ascii_ws_spec(bytes[i - 1]) {
        i
    } else {
        snap_left_from(bytes, i - 1)
    }
}

/// `pos`, moved left to just after the nearest whitespace (or to 0).
pub open spec fn spec_snap_left(bytes: Seq<u8>, pos: int) -> int {
    if pos == 0 {
        0
    } else {
        snap_left_from(bytes, if pos <= bytes.len() { pos } else { bytes.len() as int })
    }
}

/// Moving right from `i`, the first position of an ASCII whitespace byte,
/// or the end of the text.
pub open spec fn snap_right_from(bytes: Seq<u8>, i: int) -> int
    decreases bytes.len() - i,
{
    if i >= bytes.len() {
        bytes.len() as int
    } else if is_ascii_ws_spec(bytes[i]) {
        i
    } else {
        snap_right_from(bytes, i + 1)
    }
}

/// `pos`, moved right to the nearest whitespace (or to the end).
pub open spec fn spec_snap_right(bytes: Seq<u8>, pos: int) -> int {
    snap_right_from(bytes, if pos <= bytes.len() { pos } else { bytes.len() as int })
}

proof fn lemma_snap_left_from(bytes: Seq<u8>, i: int)
    requires
        0 <= i <= bytes.len(),
    ensures
        0 <= snap_left_from(bytes, i) <= i,
        snap_left_from(bytes, i) == 0 || is_ascii_ws_spec(bytes[snap_left_from(bytes, i) - 1]),
    decreases i,
{
    if i > 0 && !is_ascii_ws_spec(bytes[i - 1]) {
        lemma_snap_left_from(bytes, i - 1);
    }
}

proof fn lemma_snap_right_from(bytes: Seq<u8>, i: int)
    requires
        0 <= i <= bytes.len(),
    ensures
        i <= snap_right_from(bytes, i) <= bytes.len(),
        snap_right_from(bytes, i) == bytes.len() || is_ascii_ws_spec(
            bytes[snap_right_from(bytes, i)],
        ),
    decreases bytes.len() - i,
{
    if i < bytes.len() && !is_ascii_ws_spec(bytes[i]) {
        lemma_snap_right_from(bytes, i + 1);
    }
}

/// Snap `pos` left to the nearest whitespace (or 0).
fn snap_left(text: &str, pos: usize) -> (r: usize)
    ensures
        r == spec_snap_left(text.spec_bytes(), pos as int),
        r <= pos,
        r == 0 || is_ascii_ws_spec(text.spec_bytes()[r - 1]),
{
    if pos == 0 {
        return 0;
    }
    let bytes = text.as_bytes();
    let mut i = if pos <= bytes.len() { pos } else { bytes.len() };
    let ghost m = i as int;
    proof {
        lemma_snap_left_from(bytes@, m);
    }
    while i > 0 && !is_ascii_ws(bytes[i - 1])
        invariant
            bytes@ == text.spec_bytes(),
            0 <= i <= m <= bytes@.len(),
            snap_left_from(bytes@, i as int) == snap_left_from(bytes@, m),
        decreases i,
    {
        i = i - 1;
    }
    proof {
        lemma_snap_left_from(bytes@, m);
    }
    i
}

/// Snap `pos` right to the nearest whitespace (or the text end).
fn snap_right(text: &str, pos: usize) -> (r: usize)
    ensures
        r == spec_snap_right(text.spec_bytes(), pos as int),
        r == text.spec_bytes().len() || is_ascii_ws_spec(text.spec_bytes()[r as int]),
        r <= text.spec_bytes().len(),
        pos <= text.spec_bytes().len() ==> pos <= r,
{
    let bytes = text.as_bytes();
    let mut i = if pos <= bytes.len() { pos } else { bytes.len() };
    let ghost m = i as int;
    proof {
        lemma_snap_right_from(bytes@, m);
    }
    while i < bytes.len() && !is_ascii_ws(bytes[i])
        invariant
            bytes@ == text.spec_bytes(),
            m <= i <= bytes@.len(),
            0 <= m,
            snap_right_from(bytes@, i as int) == snap_right_from(bytes@, m),
        decreases bytes@.len() - i,
    {
        i = i + 1;
    }
    i
}

/// The query terms as bytes.
pub open spec fn query_bytes(qs: Seq<&str>) -> Seq<Seq<u8>> {
    qs.map_values(|q: &str| q.spec_bytes())
}

/// Whether `term` equals one of the query terms, ASCII case-insensitively.
pub open spec fn matches_query(qs: Seq<Seq<u8>>, term: Seq<char>) -> bool {
    exists|i: int| 0 <= i < qs.len() && ascii_ci_eq(#[trigger] qs[i], utf8(term))
}

/// The byte ranges of the tokens that match a query term, in order.
pub open spec fn match_spans(toks: Seq<(Seq<char>, int, int)>, qs: Seq<Seq<u8>>) -> Seq<(int, int)>
    decreases toks.len(),
{
    if toks.len() == 0 {
        seq![]
    } else {
        let rest = match_spans(toks.drop_last(), qs);
        let t = toks.last();
        if matches_query(qs, t.0) {
            rest.push((t.1, t.2))
        } else {
            rest
        }
    }
}

/// The spans within `ts..te`, moved to start at `plen` where `ts` was.
pub open spec fn highlights_of(spans: Seq<(int, int)>, ts: int, te: int, plen: int) -> Seq<(int, int)>
    decreases spans.len(),
{
    if spans.len() == 0 {
        seq![]
    } else {
        let rest = highlights_of(spans.drop_last(), ts, te, plen);
        let m = spans.last();
        if m.0 >= ts && m.1 <= te {
            rest.push((m.0 - ts + plen, m.1 - ts + plen))
        } else {
            rest
        }
    }
}

/// The byte `x` with an ASCII capital `A`..`Z` mapped to `a`..`z`.
pub open spec fn fold_ascii_capital(x: u8) -> int {
    if 0x41 <= x <= 0x5A {
        x + 0x20
    } else {
        x as int
    }
}

/// Whether `a` and `b` have the same length and the same bytes once ASCII
/// capitals are mapped to small letters.
pub open spec fn same_ignoring_ascii_case(a: Seq<u8>, b: Seq<u8>) -> bool {
    a.len() == b.len() && forall|i: int|
        0 <= i < a.len() ==> fold_ascii_capital(a[i]) == fold_ascii_capital(b[i])
}

/// Each match comes from a whole term: for the match span at `i`, the
/// returned token `j` has that span, and its term, in UTF-8, has the byte
/// length of the returned query term `k` and agrees with it byte for byte
/// once ASCII capitals are mapped to small letters.
pub proof fn lemma_match_is_whole_term(toks: Seq<(Seq<char>, int, int)>, qs: Seq<Seq<u8>>, i: int) -> (
    r: (int, int))
    requires
        0 <= i < match_spans(toks, qs).len(),
    ensures
        0 <= r.0 < toks.len(),
        0 <= r.1 < qs.len(),
        match_spans(toks, qs)[i] == (toks[r.0].1, toks[r.0].2),
        same_ignoring_ascii_case(qs[r.1], utf8(toks[r.0].0)),
    decreases toks.len(),
{
    let init = toks.drop_last();
    let t = toks.last();
    let n = toks.len() - 1;
    let rest = match_spans(init, qs);
    assert(toks[n] == t);
    if i < rest.len() {
        assert(match_spans(toks, qs)[i] == rest[i]);
        let r = lemma_match_is_whole_term(init, qs, i);
        assert(init[r.0] == toks[r.0]);
        r
    } else {
        let k = choose|k: int| 0 <= k < qs.len() && ascii_ci_eq(#[trigger] qs[k], utf8(t.0));
        assert(same_ignoring_ascii_case(qs[k], utf8(toks[n].0)));
        (n, k)
    }
}

/// Every token whose term, in UTF-8, has the byte length of a query term
/// and agrees with it byte for byte once ASCII capitals are mapped to small
/// letters is a match: its span is among the match spans.
pub proof fn lemma_whole_term_is_match(toks: Seq<(Seq<char>, int, int)>, qs: Seq<Seq<u8>>)
    ensures
        forall|j: int, k: int|
            0 <= j < toks.len() && 0 <= k < qs.len() && #[trigger] same_ignoring_ascii_case(
                qs[k],
                utf8(toks[j].0),
            ) ==> match_spans(toks, qs).contains((toks[j].1, toks[j].2)),
    decreases toks.len(),
{
    if toks.len() > 0 {
        let init = toks.drop_last();
        let t = toks.last();
        let rest = match_spans(init, qs);
        lemma_whole_term_is_match(init, qs);
        assert forall|j: int, k: int|
            0 <= j < toks.len() && 0 <= k < qs.len() && #[trigger] same_ignoring_ascii_case(
                qs[k],
                utf8(toks[j].0),
            ) implies match_spans(toks, qs).contains((toks[j].1, toks[j].2)) by {
            if j < init.len() {
                assert(init[j] == toks[j]);
                assert(rest.contains((init[j].1, init[j].2)));
                let m = rest.index_of((init[j].1, init[j].2));
                if matches_query(qs, t.0) {
                    assert(rest.push((t.1, t.2))[m] == rest[m]);
                }
            } else {
                assert(toks[j] == t);
                assert(ascii_ci_eq(qs[k], utf8(t.0)));
                assert(matches_query(qs, t.0));
                assert(rest.push((t.1, t.2))[rest.len() as int] == (t.1, t.2));
            }
        }
    }
}

/// Without ellipses, the snippet's text is exactly the text between the
/// widened window's bounds, with no marker before or after it.
pub proof fn lemma_snippet_without_ellipsis(
    text: Seq<char>,
    qs: Seq<Seq<u8>>,
    tcfg: TokenizerConfig,
    scfg: SnippetConfig,
)
    requires
        !scfg.use_ellipsis,
    ensures
        spec_extract(text, qs, tcfg, scfg) matches Some(r) ==> r.0 == decode_utf8(
            utf8(text).subrange(
                snippet_bounds(
                    utf8(text),
                    match_spans(spec_tokenize(text, tcfg), qs),
                    scfg.window_bytes as int,
                ).0,
                snippet_bounds(
                    utf8(text),
                    match_spans(spec_tokenize(text, tcfg), qs),
                    scfg.window_bytes as int,
                ).1,
            ),
        ),
{
    let e = Seq::<char>::empty();
    let bytes = utf8(text);
    let (ts, te) = snippet_bounds(bytes, match_spans(spec_tokenize(text, tcfg), qs), scfg.window_bytes as int);
    let body = decode_utf8(bytes.subrange(ts, te));
    assert(e + body + e =~= body);
}

/// With ellipses, the snippet's text is the text between the widened
/// window's bounds, preceded by `"… "` exactly when the window does not
/// start at the start of the text and followed by `" …"` exactly when it
/// does not end at its end.
pub proof fn lemma_snippet_with_ellipsis(
    text: Seq<char>,
    qs: Seq<Seq<u8>>,
    tcfg: TokenizerConfig,
    scfg: SnippetConfig,
)
    requires
        scfg.use_ellipsis,
    ensures
        spec_extract(text, qs, tcfg, scfg) matches Some(r) ==> {
            let (ts, te) = snippet_bounds(
                utf8(text),
                match_spans(spec_tokenize(text, tcfg), qs),
                scfg.window_bytes as int,
            );
            r.0 == (if ts > 0 {
                seq!['\u{2026}', ' ']
            } else {
                Seq::<char>::empty()
            }) + decode_utf8(utf8(text).subrange(ts, te)) + (if te < utf8(text).len() {
                seq![' ', '\u{2026}']
            } else {
                Seq::<char>::empty()
            })
        },
{
}

/// The ellipsis marking a snippet cut at its start.
pub open spec fn ellipsis_before() -> Seq<char> {
    seq!['\u{2026}', ' ']
}

/// The ellipsis marking a snippet cut at its end.
pub open spec fn ellipsis_after() -> Seq<char> {
    seq![' ', '\u{2026}']
}

/// The start of the window anchored at a match that starts at `s`: a
/// quarter of the width `w` before it, or the start of the text.
pub open spec fn anchor(s: int, w: int) -> int {
    if s >= w / 4 {
        s - w / 4
    } else {
        0
    }
}

/// The window the snippet is cut from: the best window when it holds a
/// match; otherwise (every match is wider than the window) the window
/// anchored at the first match, stretched to the end of that match.
pub open spec fn snippet_window(spans: Seq<(int, int)>, w: int, len: int) -> (int, int) {
    let best = spec_best_window(spans, w, len);
    if spans.len() == 0 || window_count(spans, w, len, best.0) > 0 {
        best
    } else {
        (anchor(spans[0].0, w), spans[0].1)
    }
}

/// The window `(start, end)` of the snippet over `bytes` for the matches
/// `spans`: the snippet window, widened to whitespace on both sides.
pub open spec fn snippet_bounds(bytes: Seq<u8>, spans: Seq<(int, int)>, w: int) -> (int, int) {
    let win = snippet_window(spans, w, bytes.len() as int);
    (spec_snap_left(bytes, win.0), spec_snap_right(bytes, win.1))
}

/// The snippet of `text` for the query terms `qs`: `None` when there is no
/// query term, no text or no match; otherwise its text and highlights.
pub open spec fn spec_extract(
    text: Seq<char>,
    qs: Seq<Seq<u8>>,
    tcfg: TokenizerConfig,
    scfg: SnippetConfig,
) -> Option<(Seq<char>, Seq<(int, int)>)> {
    let bytes = utf8(text);
    let spans = match_spans(spec_tokenize(text, tcfg), qs);
    if qs.len() == 0 || text.len() == 0 || spans.len() == 0 {
        None
    } else {
        let (ts, te) = snippet_bounds(bytes, spans, scfg.window_bytes as int);
        let pre = if scfg.use_ellipsis && ts > 0 {
            ellipsis_before()
        } else {
            seq![]
        };
        let suf = if scfg.use_ellipsis && te < bytes.len() {
            ellipsis_after()
        } else {
            seq![]
        };
        Some(
            (
                pre + decode_utf8(bytes.subrange(ts, te)) + suf,
                highlights_of(spans, ts, te, utf8(pre).len() as int),
            ),
        )
    }
}

/// The spans of the tokens that match a query term.
fn collect_spans(tokens: &Vec<crate::tokenizer::Token>, query_terms: &[&str]) -> (r: Vec<(usize, usize)>)
    ensures
        span_view(r@) == match_spans(tokens.deep_view(), query_bytes(query_terms@)),
{
    let ghost qs = query_bytes(query_terms@);
    let ghost tv = tokens.deep_view();
    let mut out: Vec<(usize, usize)> = Vec::new();
    let mut i: usize = 0;
    while i < tokens.len()
        invariant
            qs == query_bytes(query_terms@),
            tv == tokens.deep_view(),
            0 <= i <= tokens@.len(),
            span_view(out@) == match_spans(tv.take(i as int), qs),
        decreases tokens@.len() - i,
    {
        let tok = &tokens[i];
        assert(tv[i as int] == (tok.term@, tok.start as int, tok.end as int));
        let mut found = false;
        let mut j: usize = 0;
        while j < query_terms.len()
            invariant
                qs == query_bytes(query_terms@),
                0 <= j <= query_terms@.len(),
                found <==> exists|k: int| 0 <= k < j && ascii_ci_eq(#[trigger] qs[k], utf8(tok.term@)),
            decreases query_terms@.len() - j,
        {
            if eq_ignore_ascii_case(query_terms[j], tok.term.as_str()) {
                assert(ascii_ci_eq(qs[j as int], utf8(tok.term@)));
                found = true;
            }
            j = j + 1;
        }
        assert(tv.take(i as int + 1).drop_last() =~= tv.take(i as int));
        assert(tv.take(i as int + 1).last() == tv[i as int]);
        if found {
            let ghost before = out@;
            out.push((tok.start, tok.end));
            assert(span_view(out@) =~= span_view(before).push((tok.start as int, tok.end as int)));
        }
        i = i + 1;
    }
    assert(tv.take(tokens@.len() as int) =~= tv);
    out
}

/// The spans within `ts..te`, moved to start at `plen` where `ts` was.
fn shift_highlights(spans: &Vec<(usize, usize)>, ts: usize, te: usize, plen: usize) -> (r: Vec<(usize, usize)>)
    requires
        ts <= te,
        te + plen <= usize::MAX,
        forall|i: int| 0 <= i < spans@.len() ==> (#[trigger] spans@[i]).0 <= spans@[i].1,
    ensures
        span_view(r@) == highlights_of(span_view(spans@), ts as int, te as int, plen as int),
{
    let ghost sv = span_view(spans@);
    let mut out: Vec<(usize, usize)> = Vec::new();
    let mut i: usize = 0;
    while i < spans.len()
        invariant
            sv == span_view(spans@),
            ts <= te,
            te + plen <= usize::MAX,
            forall|i: int| 0 <= i < spans@.len() ==> (#[trigger] spans@[i]).0 <= spans@[i].1,
            0 <= i <= spans@.len(),
            span_view(out@) == highlights_of(sv.take(i as int), ts as int, te as int, plen as int),
        decreases spans@.len() - i,
    {
        let (s, e) = spans[i];
        assert(sv[i as int] == (s as int, e as int));
        assert(sv.take(i as int + 1).drop_last() =~= sv.take(i as int));
        assert(sv.take(i as int + 1).last() == sv[i as int]);
        if s >= ts && e <= te {
            let ghost before = out@;
            out.push((s - ts + plen, e - ts + plen));
            assert(span_view(out@) =~= span_view(before).push(
                ((s - ts + plen) as int, (e - ts + plen) as int),
            ));
        }
        i = i + 1;
    }
    assert(sv.take(spans@.len() as int) =~= sv);
    out
}

/// The spans of tokens that lie in the text lie in the text.
proof fn lemma_match_spans_in(toks: Seq<(Seq<char>, int, int)>, qs: Seq<Seq<u8>>, bytes: Seq<u8>)
    requires
        tokens_in_text(bytes, toks),
    ensures
        spans_in(match_spans(toks, qs), bytes.len() as int),
    decreases toks.len(),
{
    if toks.len() > 0 {
        let init = toks.drop_last();
        crate::tokenizer::lemma_tokens_in_text_init(bytes, toks);
        lemma_match_spans_in(init, qs, bytes);
        let rest = match_spans(init, qs);
        let t = toks.last();
        assert(toks[toks.len() - 1] == t);
        if matches_query(qs, t.0) {
            let all = rest.push((t.1, t.2));
            assert forall|i: int| 0 <= i < all.len() implies 0 <= (#[trigger] all[i]).0 < all[i].1
                <= bytes.len() by {
                if i < rest.len() {
                    assert(all[i] == rest[i]);
                }
            }
        }
    }
}

/// Every matched span is a token's byte range, between character
/// boundaries, whose lowercase text matches a query term.
proof fn lemma_spans_match(toks: Seq<(Seq<char>, int, int)>, qs: Seq<Seq<u8>>, bytes: Seq<u8>)
    requires
        tokens_in_text(bytes, toks),
    ensures
        forall|i: int|
            0 <= i < match_spans(toks, qs).len() ==> {
                let m = #[trigger] match_spans(toks, qs)[i];
                &&& matches_query(
                    qs,
                    crate::tokenizer::lowercase(decode_utf8(bytes.subrange(m.0, m.1))),
                )
                &&& is_char_boundary(bytes, m.0)
                &&& is_char_boundary(bytes, m.1)
            },
    decreases toks.len(),
{
    if toks.len() > 0 {
        let init = toks.drop_last();
        crate::tokenizer::lemma_tokens_in_text_init(bytes, toks);
        lemma_spans_match(init, qs, bytes);
        let rest = match_spans(init, qs);
        let t = toks.last();
        assert(toks[toks.len() - 1] == t);
        if matches_query(qs, t.0) {
            let all = rest.push((t.1, t.2));
            assert forall|i: int| 0 <= i < all.len() implies {
                let m = #[trigger] all[i];
                &&& matches_query(
                    qs,
                    crate::tokenizer::lowercase(decode_utf8(bytes.subrange(m.0, m.1))),
                )
                &&& is_char_boundary(bytes, m.0)
                &&& is_char_boundary(bytes, m.1)
            } by {
                if i < rest.len() {
                    assert(all[i] == rest[i]);
                }
            }
        }
    }
}

/// Each highlight is a span within `ts..te`, moved by `plen - ts`.
proof fn lemma_highlights_from_spans(spans: Seq<(int, int)>, ts: int, te: int, plen: int)
    ensures
        forall|i: int|
            0 <= i < highlights_of(spans, ts, te, plen).len() ==> exists|j: int|
                0 <= j < spans.len() && ts <= (#[trigger] spans[j]).0 && spans[j].1 <= te
                    && #[trigger] highlights_of(spans, ts, te, plen)[i] == (
                    spans[j].0 - ts + plen,
                    spans[j].1 - ts + plen,
                ),
    decreases spans.len(),
{
    if spans.len() > 0 {
        let init = spans.drop_last();
        lemma_highlights_from_spans(init, ts, te, plen);
        let rest = highlights_of(init, ts, te, plen);
        let m = spans.last();
        let all = highlights_of(spans, ts, te, plen);
        assert forall|i: int| 0 <= i < all.len() implies exists|j: int|
            0 <= j < spans.len() && ts <= (#[trigger] spans[j]).0 && spans[j].1 <= te && #[trigger] all[i]
                == (spans[j].0 - ts + plen, spans[j].1 - ts + plen) by {
            if i < rest.len() {
                assert(all[i] == rest[i]);
                let j = choose|j: int|
                    0 <= j < init.len() && ts <= (#[trigger] init[j]).0 && init[j].1 <= te
                        && #[trigger] rest[i] == (init[j].0 - ts + plen, init[j].1 - ts + plen);
                assert(spans[j] == init[j]);
            } else {
                assert(spans[spans.len() - 1] == m);
            }
        }
    }
}

/// The snippet window starts at the text start or right after whitespace,
/// and ends at the text end or right at whitespace.
pub proof fn lemma_snippet_bounds(bytes: Seq<u8>, spans: Seq<(int, int)>, w: int)
    requires
        spans_in(spans, bytes.len() as int),
        w >= 0,
    ensures
        ({
            let (ts, te) = snippet_bounds(bytes, spans, w);
            &&& 0 <= ts <= te <= bytes.len()
            &&& ts == 0 || is_ascii_ws_spec(bytes[ts - 1])
            &&& te == bytes.len() || is_ascii_ws_spec(bytes[te])
        }),
{
    let win = snippet_window(spans, w, bytes.len() as int);
    lemma_best_window_range(spans, w, bytes.len() as int);
    if spans.len() > 0 {
        assert(0 <= spans[0].0 < spans[0].1 <= bytes.len());
    }
    if win.0 != 0 {
        lemma_snap_left_from(bytes, win.0);
    }
    lemma_snap_right_from(bytes, win.1);
}

/// Some span lies within `start..end` when the count there is positive.
proof fn lemma_count_within_witness(spans: Seq<(int, int)>, start: int, end: int) -> (j: int)
    requires
        count_within(spans, start, end) > 0,
    ensures
        0 <= j < spans.len(),
        start <= spans[j].0,
        spans[j].1 <= end,
    decreases spans.len(),
{
    let init = spans.drop_last();
    let m = spans.last();
    if start <= m.0 && m.1 <= end {
        spans.len() - 1
    } else {
        let j = lemma_count_within_witness(init, start, end);
        assert(init[j] == spans[j]);
        j
    }
}

/// The snippet window holds a whole match; when no window of width `w`
/// holds one, it holds the first match.
pub proof fn lemma_snippet_window_holds_a_match(spans: Seq<(int, int)>, w: int, len: int)
    requires
        spans_in(spans, len),
        spans.len() > 0,
        w >= 0,
        len >= 0,
    ensures
        exists|j: int|
            0 <= j < spans.len() && snippet_window(spans, w, len).0 <= (#[trigger] spans[j]).0
                && spans[j].1 <= snippet_window(spans, w, len).1,
        window_count(spans, w, len, spec_best_window(spans, w, len).0) == 0 ==> {
            &&& snippet_window(spans, w, len).0 <= spans[0].0
            &&& spans[0].1 <= snippet_window(spans, w, len).1
        },
{
    let best = spec_best_window(spans, w, len);
    lemma_best_window_is_best(spans, w, len);
    if window_count(spans, w, len, best.0) > 0 {
        let j = lemma_count_within_witness(spans, best.0, best.1);
        assert(spans[j] == spans[j]);
    } else {
        assert(0 <= spans[0].0 < spans[0].1 <= len);
        assert(spans[0] == spans[0]);
    }
}

/// A span within `ts..te` gives a highlight.
proof fn lemma_highlights_nonempty(spans: Seq<(int, int)>, ts: int, te: int, plen: int, j: int)
    requires
        0 <= j < spans.len(),
        ts <= spans[j].0,
        spans[j].1 <= te,
    ensures
        highlights_of(spans, ts, te, plen).len() > 0,
    decreases spans.len(),
{
    let init = spans.drop_last();
    let m = spans.last();
    if !(m.0 >= ts && m.1 <= te) {
        assert(j < spans.len() - 1);
        assert(init[j] == spans[j]);
        lemma_highlights_nonempty(init, ts, te, plen, j);
    }
}

/// The best window lies in the text.
pub proof fn lemma_best_window_range(spans: Seq<(int, int)>, w: int, len: int)
    requires
        w >= 0,
        len >= 0,
    ensures
        0 <= spec_best_window(spans, w, len).0 <= spec_best_window(spans, w, len).1 <= len,
{
    lemma_best_window_is_best(spans, w, len);
}

/// The leftmost start in `0..=k` whose window holds the most spans.
spec fn leftmost_best_upto(spans: Seq<(int, int)>, w: int, len: int, k: int) -> int
    decreases k,
{
    if k <= 0 {
        0
    } else {
        let b = leftmost_best_upto(spans, w, len, k - 1);
        if window_count(spans, w, len, k) > window_count(spans, w, len, b) {
            k
        } else {
            b
        }
    }
}

proof fn lemma_leftmost_best_upto(spans: Seq<(int, int)>, w: int, len: int, k: int)
    requires
        0 <= k,
    ensures
        0 <= leftmost_best_upto(spans, w, len, k) <= k,
        forall|t: int|
            0 <= t <= k ==> #[trigger] window_count(spans, w, len, t) <= window_count(
                spans,
                w,
                len,
                leftmost_best_upto(spans, w, len, k),
            ),
        forall|t: int|
            0 <= t < leftmost_best_upto(spans, w, len, k) ==> #[trigger] window_count(
                spans,
                w,
                len,
                t,
            ) < window_count(spans, w, len, leftmost_best_upto(spans, w, len, k)),
    decreases k,
{
    if k > 0 {
        lemma_leftmost_best_upto(spans, w, len, k - 1);
    }
}

proof fn lemma_best_start_unique(spans: Seq<(int, int)>, w: int, len: int, s1: int, s2: int)
    requires
        is_best_start(spans, w, len, s1),
        is_best_start(spans, w, len, s2),
    ensures
        s1 == s2,
{
    assert(window_count(spans, w, len, s1) <= window_count(spans, w, len, s2));
    assert(window_count(spans, w, len, s2) <= window_count(spans, w, len, s1));
}

/// No window of width `w` over a text of `len` bytes holds more spans than
/// the best window, and every window that starts further left holds fewer.
/// The best window is the only one with both properties.
pub proof fn lemma_best_window_is_best(spans: Seq<(int, int)>, w: int, len: int)
    requires
        0 <= len,
    ensures
        is_best_start(spans, w, len, spec_best_window(spans, w, len).0),
        spec_best_window(spans, w, len).1 == window_end(spec_best_window(spans, w, len).0, w, len),
        forall|s: int|
            #[trigger] is_best_start(spans, w, len, s) ==> s == spec_best_window(spans, w, len).0,
{
    lemma_leftmost_best_upto(spans, w, len, len);
    let b = leftmost_best_upto(spans, w, len, len);
    assert(is_best_start(spans, w, len, b));
    let s = spec_best_window(spans, w, len).0;
    assert forall|s2: int| #[trigger] is_best_start(spans, w, len, s2) implies s2 == s by {
        lemma_best_start_unique(spans, w, len, s2, s);
    }
}

/// Among the first starts of the first `k` spans that lie at or before `t`,
/// the largest one, or 0.
spec fn floor_start(spans: Seq<(int, int)>, w: int, t: int, k: int) -> int
    decreases k,
{
    if k <= 0 {
        0
    } else {
        let f = floor_start(spans, w, t, k - 1);
        let c = first_start(spans, w, k - 1);
        if c <= t && c > f {
            c
        } else {
            f
        }
    }
}

proof fn lemma_floor_start(spans: Seq<(int, int)>, w: int, t: int, k: int)
    requires
        0 <= t,
        0 <= k <= spans.len(),
    ensures
        0 <= floor_start(spans, w, t, k) <= t,
        floor_start(spans, w, t, k) == 0 || exists|j: int|
            0 <= j < k && floor_start(spans, w, t, k) == #[trigger] first_start(spans, w, j),
        forall|j: int|
            0 <= j < k && #[trigger] first_start(spans, w, j) <= t ==> first_start(spans, w, j)
                <= floor_start(spans, w, t, k),
    decreases k,
{
    if k > 0 {
        lemma_floor_start(spans, w, t, k - 1);
        let f = floor_start(spans, w, t, k - 1);
        if f != 0 && floor_start(spans, w, t, k) == f {
            let j = choose|j: int| 0 <= j < k - 1 && f == #[trigger] first_start(spans, w, j);
            assert(0 <= j < k && floor_start(spans, w, t, k) == first_start(spans, w, j));
        }
    }
}

/// A window that holds every span that another one holds holds at least as
/// many spans.
proof fn lemma_count_within_mono(spans: Seq<(int, int)>, s1: int, e1: int, s2: int, e2: int)
    requires
        forall|i: int|
            0 <= i < spans.len() && s1 <= (#[trigger] spans[i]).0 && spans[i].1 <= e1 ==> s2
                <= spans[i].0 && spans[i].1 <= e2,
    ensures
        count_within(spans, s1, e1) <= count_within(spans, s2, e2),
    decreases spans.len(),
{
    if spans.len() > 0 {
        let init = spans.drop_last();
        assert forall|i: int|
            0 <= i < init.len() && s1 <= (#[trigger] init[i]).0 && init[i].1 <= e1 implies s2
                <= init[i].0 && init[i].1 <= e2 by {
            assert(init[i] == spans[i]);
        }
        lemma_count_within_mono(init, s1, e1, s2, e2);
        assert(spans[spans.len() - 1] == spans.last());
    }
}

/// A start that beats the start of the text and the first start of every
/// span, and is beaten by none of them that lies further left, is the best.
proof fn lemma_scan_is_best(spans: Seq<(int, int)>, w: int, len: int, b: int)
    requires
        spans_in(spans, len),
        0 <= w,
        0 <= b <= len,
        window_count(spans, w, len, 0) <= window_count(spans, w, len, b),
        0 < b ==> window_count(spans, w, len, 0) < window_count(spans, w, len, b),
        forall|j: int|
            #![trigger first_start(spans, w, j)]
            0 <= j < spans.len() ==> window_count(spans, w, len, first_start(spans, w, j))
                <= window_count(spans, w, len, b),
        forall|j: int|
            #![trigger first_start(spans, w, j)]
            0 <= j < spans.len() && first_start(spans, w, j) < b ==> window_count(
                spans,
                w,
                len,
                first_start(spans, w, j),
            ) < window_count(spans, w, len, b),
    ensures
        is_best_start(spans, w, len, b),
{
    let wb = window_count(spans, w, len, b);
    assert forall|t: int| 0 <= t <= len implies #[trigger] window_count(spans, w, len, t) <= wb && (t
        < b ==> window_count(spans, w, len, t) < wb) by {
        lemma_floor_start(spans, w, t, spans.len() as int);
        let f = floor_start(spans, w, t, spans.len() as int);
        let et = window_end(t, w, len);
        let ef = window_end(f, w, len);
        assert forall|i: int|
            0 <= i < spans.len() && t <= (#[trigger] spans[i]).0 && spans[i].1 <= et implies f
                <= spans[i].0 && spans[i].1 <= ef by {
            assert(0 <= spans[i].0 < spans[i].1 <= len);
            assert(first_start(spans, w, i) <= t);
        }
        lemma_count_within_mono(spans, t, et, f, ef);
        if f != 0 {
            let j = choose|j: int|
                0 <= j < spans.len() && f == #[trigger] first_start(spans, w, j);
            assert(window_count(spans, w, len, first_start(spans, w, j)) <= wb);
        }
    }
}

/// Each highlight of the snippet made of `pre`, the bytes `ts..te` of the
/// text and `suf` is a range between character boundaries of the snippet,
/// whose lowercase text matches a query term.
proof fn lemma_highlights_in_snippet(
    bytes: Seq<u8>,
    toks: Seq<(Seq<char>, int, int)>,
    qs: Seq<Seq<u8>>,
    ts: int,
    te: int,
    pre: Seq<char>,
    suf: Seq<char>,
)
    requires
        valid_utf8(bytes),
        tokens_in_text(bytes, toks),
        0 <= ts <= te <= bytes.len(),
        valid_utf8(bytes.subrange(ts, te)),
    ensures
        forall|i: int|
            0 <= i < highlights_of(match_spans(toks, qs), ts, te, utf8(pre).len() as int).len()
                ==> {
                let h = #[trigger] highlights_of(
                    match_spans(toks, qs),
                    ts,
                    te,
                    utf8(pre).len() as int,
                )[i];
                let sb = utf8(pre) + bytes.subrange(ts, te) + utf8(suf);
                &&& 0 <= h.0 < h.1 <= sb.len()
                &&& is_char_boundary(sb, h.0)
                &&& is_char_boundary(sb, h.1)
                &&& matches_query(
                    qs,
                    crate::tokenizer::lowercase(decode_utf8(sb.subrange(h.0, h.1))),
                )
            },
{
    let sv = match_spans(toks, qs);
    let plen = utf8(pre).len() as int;
    let hs = highlights_of(sv, ts, te, plen);
    let sub = bytes.subrange(ts, te);
    let sb = utf8(pre) + sub + utf8(suf);
    lemma_spans_match(toks, qs, bytes);
    lemma_match_spans_in(toks, qs, bytes);
    lemma_highlights_from_spans(sv, ts, te, plen);
    vstd::utf8::encode_utf8_valid_utf8(pre);
    vstd::utf8::encode_utf8_valid_utf8(suf);
    assert forall|i: int| 0 <= i < hs.len() implies {
        let h = #[trigger] hs[i];
        &&& 0 <= h.0 < h.1 <= sb.len()
        &&& is_char_boundary(sb, h.0)
        &&& is_char_boundary(sb, h.1)
        &&& matches_query(
            qs,
            crate::tokenizer::lowercase(decode_utf8(sb.subrange(h.0, h.1))),
        )
    } by {
        let j = choose|j: int|
            0 <= j < sv.len() && ts <= (#[trigger] sv[j]).0 && sv[j].1 <= te
                && #[trigger] highlights_of(sv, ts, te, plen)[i] == (
                sv[j].0 - ts + plen,
                sv[j].1 - ts + plen,
            );
        let (a, b) = sv[j];
        assert(a < b);
        assert(sb.subrange(hs[i].0, hs[i].1) =~= bytes.subrange(a, b));
        is_char_boundary_iff_not_is_continuation_byte(bytes, a);
        assert(sub[a - ts] == bytes[a]);
        crate::text::lemma_boundary_in_concat(utf8(pre), sub, utf8(suf), a - ts);
        if b < te {
            is_char_boundary_iff_not_is_continuation_byte(bytes, b);
            assert(sub[b - ts] == bytes[b]);
        }
        crate::text::lemma_boundary_in_concat(utf8(pre), sub, utf8(suf), b - ts);
    }
}

/// Extract a snippet from `text` showing as many matches of `query_terms` as
/// possible.
///
/// Returns `None` if there is no query term, the text is empty, or no token
/// of the text matches a query term; otherwise the snippet of
/// [`spec_extract`]: the `window_bytes`-wide window that holds the most
/// matches (the leftmost on ties, see [`lemma_best_window_is_best`]),
/// widened to whitespace, with the matches inside it highlighted at
/// character boundaries of the snippet.
pub fn extract(
    text: &str,
    query_terms: &[&str],
    tokenizer_config: &TokenizerConfig,
    snippet_config: &SnippetConfig,
) -> (r: Option<Snippet>)
    requires
        text.spec_bytes().len() <= isize::MAX,
    ensures
        r is None <==> spec_extract(
            text@,
            query_bytes(query_terms@),
            *tokenizer_config,
            *snippet_config,
        ) is None,
        r matches Some(s) ==> spec_extract(
            text@,
            query_bytes(query_terms@),
            *tokenizer_config,
            *snippet_config,
        ) == Some((s.text@, span_view(s.highlights@))),
        r matches Some(s) ==> s.highlights@.len() > 0,
        r matches Some(s) ==> forall|i: int|
            0 <= i < s.highlights@.len() ==> {
                let h = #[trigger] s.highlights@[i];
                &&& h.0 < h.1 <= utf8(s.text@).len()
                &&& is_char_boundary(utf8(s.text@), h.0 as int)
                &&& is_char_boundary(utf8(s.text@), h.1 as int)
                &&& matches_query(
                    query_bytes(query_terms@),
                    crate::tokenizer::lowercase(
                        decode_utf8(utf8(s.text@).subrange(h.0 as int, h.1 as int)),
                    ),
                )
            },
{
    let ghost qs = query_bytes(query_terms@);
    let ghost bytes = text.spec_bytes();
    if query_terms.len() == 0 || text.is_empty() {
        return None;
    }
    let tokens = tokenize(text, tokenizer_config);
    let spans = collect_spans(&tokens, query_terms);
    if spans.len() == 0 {
        return None;
    }
    proof {
        lemma_match_spans_in(tokens.deep_view(), qs, bytes);
        crate::text::lemma_utf8_len_bounds(text@);
    }
    let (best_start, best_end) = best_window(text.len(), &spans, snippet_config.window_bytes);
    let mut window_start = best_start;
    let mut window_end = best_end;
    if count_spans(&spans, best_start, best_end) == 0 {
        let first = spans[0];
        let quarter = snippet_config.window_bytes / 4;
        window_start = if first.0 >= quarter { first.0 - quarter } else { 0 };
        window_end = first.1;
    }
    let ghost win = snippet_window(span_view(spans@), snippet_config.window_bytes as int, bytes.len() as int);
    proof {
        let sv = span_view(spans@);
        assert(sv[0] == (spans@[0].0 as int, spans@[0].1 as int));
        assert(0 <= sv[0].0 < sv[0].1 <= bytes.len());
        assert((window_start as int, window_end as int) == win);
        lemma_snippet_window_holds_a_match(sv, snippet_config.window_bytes as int, bytes.len() as int);
    }
    let trimmed_start = snap_left(text, window_start);
    let trimmed_end = snap_right(text, window_end);
    proof {
        vstd::utf8::encode_utf8_valid_utf8(text@);
        crate::text::lemma_ascii_boundary(bytes, trimmed_start as int);
        crate::text::lemma_ascii_boundary(bytes, trimmed_end as int);
    }
    let prefix: &str = if snippet_config.use_ellipsis && trimmed_start > 0 {
        "\u{2026} "
    } else {
        ""
    };
    let suffix: &str = if snippet_config.use_ellipsis && trimmed_end < text.len() {
        " \u{2026}"
    } else {
        ""
    };
    proof {
        reveal_strlit("\u{2026} ");
        reveal_strlit(" \u{2026}");
        reveal_strlit("");
        crate::text::lemma_utf8_len_bounds(prefix@);
    }
    let body = byte_slice(text, trimmed_start, trimmed_end);
    proof {
        vstd::utf8::encode_utf8_decode_utf8(body@);
    }
    let mut snippet_text = prefix.to_owned();
    snippet_text.append(body);
    snippet_text.append(suffix);
    let prefix_len = prefix.len();
    assert forall|i: int| 0 <= i < spans@.len() implies (#[trigger] spans@[i]).0 <= spans@[i].1 by {
        assert(span_view(spans@)[i] == (spans@[i].0 as int, spans@[i].1 as int));
    }
    let highlights = shift_highlights(&spans, trimmed_start, trimmed_end, prefix_len);
    let ghost sv = span_view(spans@);
    let ghost toks = spec_tokenize(text@, *tokenizer_config);
    assert(sv == match_spans(toks, qs));
    assert((trimmed_start as int, trimmed_end as int) == snippet_bounds(bytes, sv, snippet_config.window_bytes as int));
    let ghost pre = if snippet_config.use_ellipsis && trimmed_start > 0 {
        ellipsis_before()
    } else {
        seq![]
    };
    let ghost suf = if snippet_config.use_ellipsis && trimmed_end < bytes.len() {
        ellipsis_after()
    } else {
        seq![]
    };
    assert(prefix@ == pre);
    assert(suffix@ == suf);
    assert(body@ == decode_utf8(bytes.subrange(trimmed_start as int, trimmed_end as int)));
    assert(snippet_text@ == pre + body@ + suf);
    assert(prefix_len as int == utf8(pre).len());
    proof {
        let ts = trimmed_start as int;
        let te = trimmed_end as int;
        let plen = prefix_len as int;
        let sub = bytes.subrange(ts, te);
        crate::text::lemma_utf8_concat(pre, body@);
        crate::text::lemma_utf8_concat(pre + body@, suf);
        let sb = utf8(snippet_text@);
        assert(sb == utf8(pre) + sub + utf8(suf));
        let hv = span_view(highlights@);
        let j = choose|j: int|
            0 <= j < sv.len() && win.0 <= (#[trigger] sv[j]).0 && sv[j].1 <= win.1;
        lemma_highlights_nonempty(sv, ts, te, plen, j);
        vstd::utf8::encode_utf8_valid_utf8(body@);
        lemma_highlights_in_snippet(bytes, toks, qs, ts, te, pre, suf);
        assert forall|i: int| 0 <= i < highlights@.len() implies {
            let h = #[trigger] highlights@[i];
            &&& h.0 < h.1 <= sb.len()
            &&& is_char_boundary(sb, h.0 as int)
            &&& is_char_boundary(sb, h.1 as int)
            &&& matches_query(
                qs,
                crate::tokenizer::lowercase(decode_utf8(sb.subrange(h.0 as int, h.1 as int))),
            )
        } by {
            assert(hv[i] == (highlights@[i].0 as int, highlights@[i].1 as int));
        }
    }
    Some(Snippet { text: snippet_text, highlights })
}

/// Whether `c` has the Unicode `White_Space` property, the property that
/// `char::is_whitespace` and `str::split_whitespace` go by.
pub open spec fn is_white_space(c: char) -> bool {
    let u = c as u32;
    ||| 0x9 <= u <= 0xD
    ||| u == 0x20
    ||| u == 0x85
    ||| u == 0xA0
    ||| u == 0x1680
    ||| 0x2000 <= u <= 0x200A
    ||| u == 0x2028
    ||| u == 0x2029
    ||| u == 0x202F
    ||| u == 0x205F
    ||| u == 0x3000
}

/// Whether `c` is a whitespace character (see [`is_white_space`]).
fn is_whitespace(c: char) -> (r: bool)
    ensures
        r == is_white_space(c),
{
    let u = c as u32;
    (0x9 <= u && u <= 0xD) || u == 0x20 || u == 0x85 || u == 0xA0 || u == 0x1680 || (0x2000 <= u
        && u <= 0x200A) || u == 0x2028 || u == 0x2029 || u == 0x202F || u == 0x205F || u == 0x3000
}

/// Splitting `s` at whitespace: the words completed so far and the word in
/// progress at the end of `s`.
pub open spec fn split_at_whitespace(s: Seq<char>) -> (Seq<Seq<char>>, Seq<char>)
    decreases s.len(),
{
    if s.len() == 0 {
        (seq![], seq![])
    } else {
        let (done, cur) = split_at_whitespace(s.drop_last());
        if is_white_space(s.last()) {
            if cur.len() > 0 {
                (done.push(cur), seq![])
            } else {
                (done, seq![])
            }
        } else {
            (done, cur.push(s.last()))
        }
    }
}

/// The non-empty runs of non-whitespace characters of `s`, in order.
pub open spec fn whitespace_words(s: Seq<char>) -> Seq<Seq<char>> {
    let (done, cur) = split_at_whitespace(s);
    if cur.len() > 0 {
        done.push(cur)
    } else {
        done
    }
}

/// The lowercase forms of the words.
pub open spec fn lowercase_all(ws: Seq<Seq<char>>) -> Seq<Seq<char>> {
    ws.map_values(|w: Seq<char>| lowercase(w))
}

/// The words of `query` between whitespace, lowercased: the terms whose
/// matches a snippet highlights.
pub fn highlight_terms(query: &str) -> (r: Vec<String>)
    ensures
        r@.map_values(|t: String| t@) == lowercase_all(whitespace_words(query@)),
{
    let ghost q = query@;
    let n = query.unicode_len();
    let mut out: Vec<String> = Vec::new();
    let mut start: usize = 0;
    let mut in_word = false;
    let mut i: usize = 0;
    assert(q.take(0) =~= Seq::<char>::empty());
    while i < n
        invariant
            q == query@,
            n == q.len(),
            0 <= start <= i <= n,
            out@.map_values(|t: String| t@) == lowercase_all(split_at_whitespace(q.take(i as int)).0),
            in_word <==> split_at_whitespace(q.take(i as int)).1.len() > 0,
            in_word ==> split_at_whitespace(q.take(i as int)).1 == q.subrange(start as int, i as int),
        decreases n - i,
    {
        let c = query.get_char(i);
        let ghost before = out@;
        assert(q.take(i as int + 1).drop_last() =~= q.take(i as int));
        assert(q.take(i as int + 1).last() == c);
        if is_whitespace(c) {
            if in_word {
                let word = to_lowercase(query.substring_char(start, i));
                out.push(word);
                assert(out@.map_values(|t: String| t@) =~= before.map_values(|t: String| t@).push(
                    word@,
                ));
                in_word = false;
            }
        } else {
            if !in_word {
                start = i;
                in_word = true;
            }
            assert(q.subrange(start as int, i as int + 1) =~= q.subrange(start as int, i as int).push(c));
        }
        i = i + 1;
    }
    assert(q.take(n as int) =~= q);
    if in_word {
        let ghost before = out@;
        let word = to_lowercase(query.substring_char(start, n));
        out.push(word);
        assert(out@.map_values(|t: String| t@) =~= before.map_values(|t: String| t@).push(word@));
    }
    out
}

} // verus!
