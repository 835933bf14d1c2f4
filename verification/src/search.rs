//! Query preparation for BM25 ranking.
//!
//! A query is tokenized with the engine's tokenizer; its distinct terms are
//! taken in byte order (so that repeating a term does not count it twice).
//! For each document that holds at least one of them, the scorer needs the
//! document's length and, for each query term it holds, in query-term order,
//! the term's document frequency and its frequency in the document. The
//! floating-point BM25 formula is applied to these by the caller.

use vstd::prelude::*;
use vstd::string::StringSliceAdditionalSpecFns;

use crate::index::{count_of, list_of, saturated, stored_counts, terms_of, valid_postings, with_document, DocId, Index, Posting};
use crate::text::{lemma_utf8_injective, str_eq, utf8};
use crate::tokenizer::{spec_tokenize, tokenize, TokenizerConfig};

verus! {

/// Byte-wise lexicographic order: `a` comes before `b`.
pub open spec fn bytes_lt(a: Seq<u8>, b: Seq<u8>) -> bool {
    exists|i: int| #[trigger] lt_at(a, b, i)
}

/// `a` and `b` agree on their first `i` bytes, and `a` ends there while `b`
/// goes on, or `a` has the smaller byte at `i`.
pub open spec fn lt_at(a: Seq<u8>, b: Seq<u8>, i: int) -> bool {
    &&& 0 <= i <= a.len()
    &&& i <= b.len()
    &&& forall|k: int| 0 <= k < i ==> a[k] == b[k]
    &&& ((i == a.len() && i < b.len()) || (i < a.len() && i < b.len() && a[i] < b[i]))
}

/// The order of strings: the byte order of their UTF-8 encodings.
pub open spec fn str_lt(a: Seq<char>, b: Seq<char>) -> bool {
    bytes_lt(utf8(a), utf8(b))
}

proof fn lemma_lt_witness(a: Seq<u8>, b: Seq<u8>, i: int)
    requires
        lt_at(a, b, i),
    ensures
        bytes_lt(a, b),
{
    assert(lt_at(a, b, i));
}

/// The byte order is irreflexive.
pub proof fn lemma_bytes_lt_irreflexive(a: Seq<u8>)
    ensures
        !bytes_lt(a, a),
{
}

/// The byte order is transitive.
pub proof fn lemma_bytes_lt_transitive(a: Seq<u8>, b: Seq<u8>, c: Seq<u8>)
    requires
        bytes_lt(a, b),
        bytes_lt(b, c),
    ensures
        bytes_lt(a, c),
{
    let i = choose|i: int| lt_at(a, b, i);
    let j = choose|j: int| lt_at(b, c, j);
    assert(lt_at(a, b, i));
    assert(lt_at(b, c, j));
    if i < j {
        assert(forall|k: int| 0 <= k < i ==> a[k] == b[k] && b[k] == c[k]);
        if i < a.len() {
            assert(b[i] == c[i]);
        }
        assert(lt_at(a, c, i));
        lemma_lt_witness(a, c, i);
    } else if j < i {
        assert(forall|k: int| 0 <= k < j ==> a[k] == b[k] && b[k] == c[k]);
        assert(j < b.len());
        assert(a[j] == b[j]);
        assert(lt_at(a, c, j));
        lemma_lt_witness(a, c, j);
    } else {
        assert(forall|k: int| 0 <= k < i ==> a[k] == b[k] && b[k] == c[k]);
        assert(lt_at(a, c, i));
        lemma_lt_witness(a, c, i);
    }
}

/// Appending one element adds it to the set of elements.
pub proof fn lemma_push_to_set<A>(s: Seq<A>, x: A)
    ensures
        s.push(x).to_set() == s.to_set().insert(x),
{
    assert forall|y: A| s.push(x).to_set().contains(y) == s.to_set().insert(x).contains(y) by {
        if s.push(x).contains(y) && y != x {
            let k = s.push(x).index_of(y);
            assert(s[k] == y);
        }
        if s.contains(y) {
            let k = s.index_of(y);
            assert(s.push(x)[k] == y);
        }
        if y == x {
            assert(s.push(x)[s.len() as int] == y);
        }
    }
    assert(s.push(x).to_set() =~= s.to_set().insert(x));
}

/// The byte order is total.
pub proof fn lemma_bytes_lt_total(a: Seq<u8>, b: Seq<u8>)
    requires
        a != b,
    ensures
        bytes_lt(a, b) || bytes_lt(b, a),
{
    if a.len() <= b.len() && (forall|k: int| 0 <= k < a.len() ==> a[k] == b[k]) {
        if a.len() == b.len() {
            assert(a =~= b);
        }
        lemma_lt_witness(a, b, a.len() as int);
    } else if b.len() <= a.len() && (forall|k: int| 0 <= k < b.len() ==> a[k] == b[k]) {
        if a.len() == b.len() {
            assert(a =~= b);
        }
        lemma_lt_witness(b, a, b.len() as int);
    } else {
        let k = choose|k: int| 0 <= k < a.len() && 0 <= k < b.len() && a[k] != b[k];
        lemma_first_difference(a, b, k);
    }
}

proof fn lemma_first_difference(a: Seq<u8>, b: Seq<u8>, k: int)
    requires
        0 <= k < a.len(),
        k < b.len(),
        a[k] != b[k],
    ensures
        bytes_lt(a, b) || bytes_lt(b, a),
    decreases k,
{
    if forall|m: int| 0 <= m < k ==> a[m] == b[m] {
        if a[k] < b[k] {
            lemma_lt_witness(a, b, k);
        } else {
            lemma_lt_witness(b, a, k);
        }
    } else {
        let m = choose|m: int| 0 <= m < k && a[m] != b[m];
        lemma_first_difference(a, b, m);
    }
}

/// Whether `a` comes before `b` in byte order.
fn bytes_less(a: &[u8], b: &[u8]) -> (r: bool)
    ensures
        r == bytes_lt(a@, b@),
{
    let mut i: usize = 0;
    while i < a.len() && i < b.len() && a[i] == b[i]
        invariant
            0 <= i <= a@.len(),
            i <= b@.len(),
            forall|k: int| 0 <= k < i ==> a@[k] == b@[k],
        decreases a@.len() - i,
    {
        i = i + 1;
    }
    let r = if i < a.len() && i < b.len() {
        a[i] < b[i]
    } else {
        a.len() < b.len()
    };
    proof {
        if r {
            lemma_lt_witness(a@, b@, i as int);
        } else {
            assert forall|k: int| !lt_at(a@, b@, k) by {
                if lt_at(a@, b@, k) {
                    if k > i {
                        assert(a@[i as int] == b@[i as int]);
                    }
                }
            }
        }
    }
    r
}

/// Strictly ascending in string order.
pub open spec fn strictly_sorted(s: Seq<Seq<char>>) -> bool {
    forall|i: int, j: int| 0 <= i < j < s.len() ==> str_lt(s[i], s[j])
}

/// The distinct terms of a query, in byte order: the terms of
/// [`spec_tokenize`] of the query, each once, sorted.
pub fn query_terms(query: &str, config: &TokenizerConfig) -> (r: Vec<String>)
    ensures
        strictly_sorted(crate::index::keys_view(r@)),
        crate::index::keys_view(r@).to_set() == terms_of(spec_tokenize(query@, *config)).to_set(),
{
    let tokens = tokenize(query, config);
    let ghost all = terms_of(tokens.deep_view());
    let mut out: Vec<String> = Vec::new();
    let mut i: usize = 0;
    assert(crate::index::keys_view(out@).to_set() =~= all.take(0).to_set());
    while i < tokens.len()
        invariant
            all == terms_of(tokens.deep_view()),
            0 <= i <= tokens@.len(),
            strictly_sorted(crate::index::keys_view(out@)),
            crate::index::keys_view(out@).to_set() == all.take(i as int).to_set(),
        decreases tokens@.len() - i,
    {
        let term = &tokens[i].term;
        assert(all[i as int] == term@);
        insert_sorted(&mut out, term);
        assert(all.take(i as int + 1) =~= all.take(i as int).push(term@));
        proof {
            lemma_push_to_set(all.take(i as int), term@);
        }
        i = i + 1;
    }
    assert(all.take(tokens@.len() as int) =~= all);
    out
}

/// Inserts `term` into the strictly sorted `out` unless it is there.
fn insert_sorted(out: &mut Vec<String>, term: &String)
    requires
        strictly_sorted(crate::index::keys_view(old(out)@)),
    ensures
        strictly_sorted(crate::index::keys_view(final(out)@)),
        crate::index::keys_view(final(out)@).to_set() == crate::index::keys_view(
            old(out)@,
        ).to_set().insert(term@),
{
    let ghost kv = crate::index::keys_view(out@);
    let tb = term.as_str().as_bytes();
    let mut p: usize = 0;
    while p < out.len() && bytes_less(out[p].as_str().as_bytes(), tb)
        invariant
            kv == crate::index::keys_view(out@),
            tb@ == utf8(term@),
            0 <= p <= out@.len(),
            forall|k: int| 0 <= k < p ==> str_lt(kv[k], term@),
        decreases out@.len() - p,
    {
        p = p + 1;
    }
    if p < out.len() && str_eq(out[p].as_str(), term.as_str()) {
        assert(kv[p as int] == term@);
        assert(kv.to_set() =~= kv.to_set().insert(term@));
        return;
    }
    proof {
        if p < kv.len() {
            assert(kv[p as int] != term@);
            assert(!str_lt(kv[p as int], term@));
            assert(utf8(kv[p as int]) != utf8(term@)) by {
                if utf8(kv[p as int]) == utf8(term@) {
                    lemma_utf8_injective(kv[p as int], term@);
                }
            }
            lemma_bytes_lt_total(utf8(kv[p as int]), utf8(term@));
        }
    }
    out.insert(p, term.clone());
    let ghost nk = crate::index::keys_view(out@);
    assert(nk =~= kv.insert(p as int, term@));
    assert forall|i: int, j: int| 0 <= i < j < nk.len() implies str_lt(nk[i], nk[j]) by {
        if j < p {
        } else if j == p {
        } else if i < p {
            if j > p {
                assert(nk[j] == kv[j - 1]);
                assert(str_lt(term@, kv[p as int]));
                if j - 1 > p {
                    assert(str_lt(kv[p as int], kv[j - 1]));
                    lemma_bytes_lt_transitive(utf8(term@), utf8(kv[p as int]), utf8(kv[j - 1]));
                }
                lemma_bytes_lt_transitive(utf8(kv[i]), utf8(term@), utf8(kv[j - 1]));
            }
        } else if i == p {
            assert(nk[j] == kv[j - 1]);
            if j - 1 > p {
                assert(str_lt(kv[p as int], kv[j - 1]));
                lemma_bytes_lt_transitive(utf8(term@), utf8(kv[p as int]), utf8(kv[j - 1]));
            }
        } else {
            assert(nk[i] == kv[i - 1]);
            assert(nk[j] == kv[j - 1]);
        }
    }
    assert forall|x: Seq<char>| #![auto] nk.contains(x) <==> (kv.contains(x) || x == term@) by {
        if nk.contains(x) {
            let k = nk.index_of(x);
            if k < p {
                assert(kv[k] == x);
            } else if k > p {
                assert(kv[k - 1] == x);
            }
        }
        if kv.contains(x) {
            let k = kv.index_of(x);
            if k < p {
                assert(nk[k] == x);
            } else {
                assert(nk[k + 1] == x);
            }
        }
        if x == term@ {
            assert(nk[p as int] == x);
        }
    }
    assert(nk.to_set() =~= kv.to_set().insert(term@));
}

/// What the scorer needs of one matching document.
#[derive(Debug, Clone, PartialEq, Eq)]
pub struct DocMatch {
    /// The document's internal id.
    pub doc_id: DocId,
    /// The document's length in tokens.
    pub length: u32,
    /// For each query term that the document holds, in query-term order:
    /// the term's document frequency and its frequency in the document.
    pub terms: Vec<(usize, u32)>,
}

/// The (document frequency, term frequency) pairs as integers.
pub open spec fn hits_view(h: Seq<(usize, u32)>) -> Seq<(int, u32)> {
    h.map_values(|p: (usize, u32)| (p.0 as int, p.1))
}

impl DocMatch {
    /// The id, length and hits of the match.
    pub open spec fn match_view(self) -> (int, u32, Seq<(int, u32)>) {
        (self.doc_id as int, self.length, hits_view(self.terms@))
    }
}

/// The matches as plain values.
pub open spec fn matches_view(ms: Seq<DocMatch>) -> Seq<(int, u32, Seq<(int, u32)>)> {
    ms.map_values(|m: DocMatch| m.match_view())
}

/// Whether the posting list holds a posting of document `d`.
pub open spec fn has_posting(list: Seq<Posting>, d: int) -> bool {
    exists|i: int| 0 <= i < list.len() && #[trigger] list[i].doc_id == d
}

/// The frequency recorded in the posting of document `d`.
pub open spec fn freq_in(list: Seq<Posting>, d: int) -> u32 {
    list[choose|i: int| 0 <= i < list.len() && #[trigger] list[i].doc_id == d].term_freq
}

/// For document `d`, each query term that it holds, in query order: the
/// term's document frequency and its frequency in `d`.
pub open spec fn doc_hits(
    postings: Map<Seq<char>, Seq<Posting>>,
    terms: Seq<Seq<char>>,
    d: int,
) -> Seq<(int, u32)>
    decreases terms.len(),
{
    if terms.len() == 0 {
        seq![]
    } else {
        let rest = doc_hits(postings, terms.drop_last(), d);
        let list = list_of(postings, terms.last());
        if has_posting(list, d) {
            rest.push((list.len() as int, freq_in(list, d)))
        } else {
            rest
        }
    }
}

/// The documents below `n` that hold a query term, in id order, each with
/// its length and hits.
pub open spec fn spec_matches(
    docs: Seq<(Seq<char>, u32)>,
    postings: Map<Seq<char>, Seq<Posting>>,
    terms: Seq<Seq<char>>,
    n: int,
) -> Seq<(int, u32, Seq<(int, u32)>)>
    decreases n,
{
    if n <= 0 {
        seq![]
    } else {
        let rest = spec_matches(docs, postings, terms, n - 1);
        let h = doc_hits(postings, terms, n - 1);
        if h.len() > 0 {
            rest.push((n - 1, docs[n - 1].1, h))
        } else {
            rest
        }
    }
}

/// Each hit of document `d` comes from a query term: for the hit at `i`,
/// the returned term index `k` names a query term whose posting list has a
/// posting of `d`; the hit's document frequency is the number of postings
/// in that list (one per document that holds the term), and its term
/// frequency is the one that posting records.
pub proof fn lemma_hit_is_posting(
    postings: Map<Seq<char>, Seq<Posting>>,
    terms: Seq<Seq<char>>,
    d: int,
    i: int,
) -> (k: int)
    requires
        0 <= i < doc_hits(postings, terms, d).len(),
    ensures
        0 <= k < terms.len(),
        doc_hits(postings, terms, d)[i].0 == list_of(postings, terms[k]).len(),
        exists|p: int|
            0 <= p < list_of(postings, terms[k]).len() && (#[trigger] list_of(postings, terms[k])[p]).doc_id
                == d && doc_hits(postings, terms, d)[i].1 == list_of(postings, terms[k])[p].term_freq,
    decreases terms.len(),
{
    let init = terms.drop_last();
    let rest = doc_hits(postings, init, d);
    let n = terms.len() - 1;
    let list = list_of(postings, terms.last());
    assert(terms[n] == terms.last());
    if i < rest.len() {
        let k = lemma_hit_is_posting(postings, init, d, i);
        assert(init[k] == terms[k]);
        if has_posting(list, d) {
            assert(rest.push((list.len() as int, freq_in(list, d)))[i] == rest[i]);
        }
        k
    } else {
        let p = choose|p: int| 0 <= p < list.len() && #[trigger] list[p].doc_id == d;
        assert(list[p].doc_id == d);
        n
    }
}

/// Every query term whose posting list has a posting of document `d` gives
/// `d` a hit: the returned index `i` is a hit whose document frequency is
/// the number of postings in that term's list.
pub proof fn lemma_posting_is_hit(
    postings: Map<Seq<char>, Seq<Posting>>,
    terms: Seq<Seq<char>>,
    d: int,
    k: int,
    p: int,
) -> (i: int)
    requires
        0 <= k < terms.len(),
        0 <= p < list_of(postings, terms[k]).len(),
        list_of(postings, terms[k])[p].doc_id == d,
    ensures
        0 <= i < doc_hits(postings, terms, d).len(),
        doc_hits(postings, terms, d)[i].0 == list_of(postings, terms[k]).len(),
    decreases terms.len(),
{
    let init = terms.drop_last();
    let rest = doc_hits(postings, init, d);
    let n = terms.len() - 1;
    let list = list_of(postings, terms.last());
    assert(terms[n] == terms.last());
    if k == n {
        assert(has_posting(list, d));
        rest.len() as int
    } else {
        assert(init[k] == terms[k]);
        let i = lemma_posting_is_hit(postings, init, d, k, p);
        if has_posting(list, d) {
            assert(rest.push((list.len() as int, freq_in(list, d)))[i] == rest[i]);
        }
        i
    }
}

/// A document with hits has a posting, so its id is a `DocId`.
proof fn lemma_hits_id(postings: Map<Seq<char>, Seq<Posting>>, terms: Seq<Seq<char>>, d: int)
    requires
        doc_hits(postings, terms, d).len() > 0,
    ensures
        0 <= d <= u32::MAX,
    decreases terms.len(),
{
    let list = list_of(postings, terms.last());
    if has_posting(list, d) {
        let i = choose|i: int| 0 <= i < list.len() && #[trigger] list[i].doc_id == d;
    } else {
        lemma_hits_id(postings, terms.drop_last(), d);
    }
}

impl Index {
    /// The documents that hold at least one of the query terms, in id
    /// order, each with its length and, per query term it holds (in the
    /// order of `terms`), the term's document frequency and its frequency in
    /// the document.
    pub fn match_documents(&self, terms: &Vec<String>) -> (r: Vec<DocMatch>)
        requires
            self.wf(),
        ensures
            matches_view(r@) == spec_matches(
                self.docs_view(),
                self.postings_view(),
                crate::index::keys_view(terms@),
                self.docs_view().len() as int,
            ),
    {
        let ghost tv = crate::index::keys_view(terms@);
        let ghost pv = self.postings_view();
        let n = self.doc_count();
        proof {
            self.lemma_wf_lists();
        }
        let mut acc: Vec<Vec<(usize, u32)>> = Vec::new();
        let mut d: usize = 0;
        while d < n
            invariant
                n == self.docs_view().len(),
                0 <= d <= n,
                acc@.len() == d,
                forall|e: int| 0 <= e < d ==> (#[trigger] acc@[e])@ == Seq::<(usize, u32)>::empty(),
            decreases n - d,
        {
            acc.push(Vec::new());
            d = d + 1;
        }
        let mut j: usize = 0;
        assert forall|e: int| 0 <= e < n implies hits_view((#[trigger] acc@[e])@) == doc_hits(
            pv,
            tv.take(0),
            e,
        ) by {
            assert(hits_view(acc@[e]@) =~= Seq::<(int, u32)>::empty());
        }
        while j < terms.len()
            invariant
                tv == crate::index::keys_view(terms@),
                pv == self.postings_view(),
                self.wf(),
                n == self.docs_view().len(),
                forall|t: Seq<char>|
                    #![auto]
                    pv.dom().contains(t) ==> crate::index::valid_postings(pv[t], n as int),
                0 <= j <= terms@.len(),
                acc@.len() == n,
                forall|e: int|
                    0 <= e < n ==> hits_view((#[trigger] acc@[e])@) == doc_hits(
                        pv,
                        tv.take(j as int),
                        e,
                    ),
            decreases terms@.len() - j,
        {
            let list = self.postings(terms[j].as_str());
            let ghost t = tv[j as int];
            assert(terms@[j as int]@ == t);
            let ghost l = list_of(pv, t);
            assert(list@ == l);
            assert(crate::index::valid_postings(l, n as int));
            let df = list.len();
            let mut k: usize = 0;
            let ghost base = acc@.map_values(|v: Vec<(usize, u32)>| hits_view(v@));
            while k < list.len()
                invariant
                    list@ == l,
                    crate::index::valid_postings(l, n as int),
                    df == l.len(),
                    acc@.len() == n,
                    base.len() == n,
                    0 <= k <= l.len(),
                    forall|e: int|
                        0 <= e < n ==> hits_view((#[trigger] acc@[e])@) == if exists|i: int|
                            0 <= i < k && #[trigger] l[i].doc_id == e {
                            base[e].push((df as int, freq_in(l, e)))
                        } else {
                            base[e]
                        },
                decreases l.len() - k,
            {
                let p = list[k];
                let di = p.doc_id as usize;
                assert(l[k as int].doc_id < n);
                let ghost before = acc@;
                acc[di].push((df, p.term_freq));
                proof {
                    assert(freq_in(l, di as int) == p.term_freq) by {
                        let i = choose|i: int| 0 <= i < l.len() && #[trigger] l[i].doc_id == di as int;
                        if i < k {
                            assert(l[i].doc_id < l[k as int].doc_id);
                        } else if i > k {
                            assert(l[k as int].doc_id < l[i].doc_id);
                        }
                    }
                    assert forall|e: int| 0 <= e < n implies hits_view((#[trigger] acc@[e])@) == if exists|
                        i: int,
                    | 0 <= i < k + 1 && #[trigger] l[i].doc_id == e {
                        base[e].push((df as int, freq_in(l, e)))
                    } else {
                        base[e]
                    } by {
                        if e == di {
                            assert(!exists|i: int| 0 <= i < k && #[trigger] l[i].doc_id == e) by {
                                if exists|i: int| 0 <= i < k && #[trigger] l[i].doc_id == e {
                                    let i = choose|i: int| 0 <= i < k && #[trigger] l[i].doc_id == e;
                                    assert(l[i].doc_id < l[k as int].doc_id);
                                }
                            }
                            assert(hits_view(acc@[e]@) =~= hits_view(before[e]@).push(
                                (df as int, p.term_freq),
                            ));
                        } else {
                            assert(acc@[e] == before[e]);
                            if exists|i: int| 0 <= i < k + 1 && #[trigger] l[i].doc_id == e {
                                let i = choose|i: int| 0 <= i < k + 1 && #[trigger] l[i].doc_id == e;
                                assert(i != k);
                            }
                        }
                    }
                }
                k = k + 1;
            }
            proof {
                assert(tv.take(j as int + 1).drop_last() =~= tv.take(j as int));
                assert(tv.take(j as int + 1).last() == t);
                assert forall|e: int| 0 <= e < n implies hits_view((#[trigger] acc@[e])@) == doc_hits(
                    pv,
                    tv.take(j as int + 1),
                    e,
                ) by {
                    assert(base[e] == doc_hits(pv, tv.take(j as int), e));
                    if has_posting(l, e) {
                        let i = choose|i: int| 0 <= i < l.len() && #[trigger] l[i].doc_id == e;
                        assert(exists|i2: int| 0 <= i2 < k && #[trigger] l[i2].doc_id == e);
                    }
                }
            }
            j = j + 1;
        }
        assert(tv.take(terms@.len() as int) =~= tv);
        let mut out: Vec<DocMatch> = Vec::new();
        let mut e: usize = 0;
        while e < n
            invariant
                tv == crate::index::keys_view(terms@),
                pv == self.postings_view(),
                n == self.docs_view().len(),
                0 <= e <= n,
                acc@.len() == n,
                forall|f: int|
                    e <= f < n ==> hits_view((#[trigger] acc@[f])@) == doc_hits(pv, tv, f),
                matches_view(out@) == spec_matches(self.docs_view(), pv, tv, e as int),
            decreases n - e,
        {
            assert(hits_view(acc@[e as int]@) == doc_hits(pv, tv, e as int));
            if acc[e].len() > 0 {
                proof {
                    lemma_hits_id(pv, tv, e as int);
                }
                let mut hits: Vec<(usize, u32)> = Vec::new();
                std::mem::swap(&mut hits, &mut acc[e]);
                let id = e as DocId;
                let length = match self.doc(id) {
                    Some(meta) => meta.length,
                    None => 0,
                };
                let m = DocMatch { doc_id: id, length, terms: hits };
                let ghost before = out@;
                out.push(m);
                assert(matches_view(out@) =~= matches_view(before).push(m.match_view()));
            }
            e = e + 1;
        }
        out
    }
}

/// A strictly sorted sequence has no duplicates.
pub proof fn lemma_strictly_sorted_distinct(s: Seq<Seq<char>>)
    requires
        strictly_sorted(s),
    ensures
        s.no_duplicates(),
{
    assert forall|i: int, j: int| 0 <= i < s.len() && 0 <= j < s.len() && i != j implies s[i]
        != s[j] by {
        if i < j {
            assert(str_lt(s[i], s[j]));
        } else {
            assert(str_lt(s[j], s[i]));
        }
        lemma_bytes_lt_irreflexive(utf8(s[i]));
    }
}

/// The prepared query is determined by the set of its terms: two strictly
/// sorted sequences with the same elements are equal. (So repeating a query
/// term, or reordering the query, prepares the same terms.)
pub proof fn lemma_sorted_set_unique(a: Seq<Seq<char>>, b: Seq<Seq<char>>)
    requires
        strictly_sorted(a),
        strictly_sorted(b),
        a.to_set() == b.to_set(),
    ensures
        a == b,
    decreases a.len(),
{
    if a.len() == 0 {
        if b.len() > 0 {
            assert(b.to_set().contains(b[0]));
            assert(!a.to_set().contains(b[0]));
        }
        assert(a =~= b);
    } else if b.len() == 0 {
        assert(a.to_set().contains(a[0]));
        assert(!b.to_set().contains(a[0]));
    } else {
        assert(a.to_set().contains(a[0]));
        assert(b.to_set().contains(b[0]));
        let j = b.index_of(a[0]);
        let i = a.index_of(b[0]);
        assert(b[j] == a[0]);
        assert(a[i] == b[0]);
        if a[0] != b[0] {
            assert(i > 0 && j > 0);
            assert(str_lt(a[0], a[i]));
            assert(str_lt(b[0], b[j]));
            lemma_bytes_lt_transitive(utf8(a[0]), utf8(b[0]), utf8(a[0]));
            lemma_bytes_lt_irreflexive(utf8(a[0]));
        }
        let ta = a.drop_first();
        let tb = b.drop_first();
        assert(strictly_sorted(ta)) by {
            assert forall|x: int, y: int| 0 <= x < y < ta.len() implies str_lt(ta[x], ta[y]) by {
                assert(str_lt(a[x + 1], a[y + 1]));
            }
        }
        assert(strictly_sorted(tb)) by {
            assert forall|x: int, y: int| 0 <= x < y < tb.len() implies str_lt(tb[x], tb[y]) by {
                assert(str_lt(b[x + 1], b[y + 1]));
            }
        }
        lemma_strictly_sorted_distinct(a);
        lemma_strictly_sorted_distinct(b);
        assert forall|x: Seq<char>| ta.to_set().contains(x) == tb.to_set().contains(x) by {
            if ta.contains(x) {
                let k = ta.index_of(x);
                assert(a[k + 1] == x);
                assert(a.to_set().contains(x));
                assert(b.to_set().contains(x));
                let m = b.index_of(x);
                assert(x != a[0]);
                assert(m != 0);
                assert(tb[m - 1] == x);
            }
            if tb.contains(x) {
                let k = tb.index_of(x);
                assert(b[k + 1] == x);
                assert(b.to_set().contains(x));
                assert(a.to_set().contains(x));
                let m = a.index_of(x);
                assert(x != b[0]);
                assert(m != 0);
                assert(ta[m - 1] == x);
            }
        }
        assert(ta.to_set() =~= tb.to_set());
        lemma_sorted_set_unique(ta, tb);
        assert(a =~= seq![a[0]] + ta);
        assert(b =~= seq![b[0]] + tb);
    }
}

/// A document has hits exactly when one of the query terms has a posting
/// of it.
pub proof fn lemma_doc_hits_nonempty(
    postings: Map<Seq<char>, Seq<Posting>>,
    terms: Seq<Seq<char>>,
    d: int,
)
    ensures
        doc_hits(postings, terms, d).len() > 0 <==> exists|k: int|
            0 <= k < terms.len() && has_posting(list_of(postings, #[trigger] terms[k]), d),
    decreases terms.len(),
{
    if terms.len() > 0 {
        let init = terms.drop_last();
        lemma_doc_hits_nonempty(postings, init, d);
        if exists|k: int| 0 <= k < init.len() && has_posting(list_of(postings, #[trigger] init[k]), d) {
            let k = choose|k: int| 0 <= k < init.len() && has_posting(list_of(postings, #[trigger] init[k]), d);
            assert(terms[k] == init[k]);
        }
        if exists|k: int| 0 <= k < terms.len() && has_posting(list_of(postings, #[trigger] terms[k]), d) {
            let k = choose|k: int| 0 <= k < terms.len() && has_posting(list_of(postings, #[trigger] terms[k]), d);
            if k < init.len() {
                assert(init[k] == terms[k]);
            }
        }
    }
}

/// The matches are in strictly ascending document order, below `n`, and a
/// document below `n` is among them exactly when it has hits.
pub proof fn lemma_matches_members(
    docs: Seq<(Seq<char>, u32)>,
    postings: Map<Seq<char>, Seq<Posting>>,
    terms: Seq<Seq<char>>,
    n: int,
)
    ensures
        ({
            let ms = spec_matches(docs, postings, terms, n);
            &&& forall|i: int, j: int| 0 <= i < j < ms.len() ==> ms[i].0 < ms[j].0
            &&& forall|i: int|
                0 <= i < ms.len() ==> 0 <= (#[trigger] ms[i]).0 < n && ms[i].2 == doc_hits(
                    postings,
                    terms,
                    ms[i].0,
                ) && ms[i].1 == docs[ms[i].0].1
            &&& forall|d: int|
                0 <= d < n ==> (doc_hits(postings, terms, d).len() > 0 <==> exists|i: int|
                    0 <= i < ms.len() && (#[trigger] ms[i]).0 == d)
        }),
    decreases n,
{
    if n > 0 {
        lemma_matches_members(docs, postings, terms, n - 1);
        let rest = spec_matches(docs, postings, terms, n - 1);
        let ms = spec_matches(docs, postings, terms, n);
        let h = doc_hits(postings, terms, n - 1);
        if h.len() > 0 {
            assert forall|i: int| 0 <= i < ms.len() implies 0 <= (#[trigger] ms[i]).0 < n && ms[i].2
                == doc_hits(postings, terms, ms[i].0) && ms[i].1 == docs[ms[i].0].1 by {
                if i < rest.len() {
                    assert(ms[i] == rest[i]);
                }
            }
            assert forall|i: int, j: int| 0 <= i < j < ms.len() implies ms[i].0 < ms[j].0 by {
                assert(ms[i] == rest[i]);
                if j < rest.len() {
                    assert(ms[j] == rest[j]);
                }
            }
            assert forall|d: int| 0 <= d < n implies (doc_hits(postings, terms, d).len() > 0
                <==> exists|i: int| 0 <= i < ms.len() && (#[trigger] ms[i]).0 == d) by {
                if d == n - 1 {
                    assert(ms[rest.len() as int].0 == d);
                } else {
                    if exists|i: int| 0 <= i < ms.len() && (#[trigger] ms[i]).0 == d {
                        let i = choose|i: int| 0 <= i < ms.len() && (#[trigger] ms[i]).0 == d;
                        assert(i < rest.len());
                        assert(rest[i] == ms[i]);
                    }
                    if exists|i: int| 0 <= i < rest.len() && (#[trigger] rest[i]).0 == d {
                        let i = choose|i: int| 0 <= i < rest.len() && (#[trigger] rest[i]).0 == d;
                        assert(ms[i] == rest[i]);
                    }
                }
            }
        } else {
            assert forall|d: int| 0 <= d < n implies (doc_hits(postings, terms, d).len() > 0
                <==> exists|i: int| 0 <= i < ms.len() && (#[trigger] ms[i]).0 == d) by {
                if d == n - 1 {
                    if exists|i: int| 0 <= i < ms.len() && (#[trigger] ms[i]).0 == d {
                        let i = choose|i: int| 0 <= i < ms.len() && (#[trigger] ms[i]).0 == d;
                        assert(rest[i].0 < n - 1);
                    }
                }
            }
        }
    }
}

/// Once a document is added under id `n` (with all earlier postings below
/// `n`), a term has a posting of that document exactly when it is one of
/// the document's terms, and the posting records the term's number of
/// occurrences (saturating at `u32::MAX`). With the same tokenizer at query time, a document therefore
/// matches a query exactly when they share a term.
pub proof fn lemma_added_document_postings(
    postings: Map<Seq<char>, Seq<Posting>>,
    n: u32,
    terms: Seq<Seq<char>>,
    t: Seq<char>,
)
    requires
        forall|u: Seq<char>| #![auto] postings.dom().contains(u) ==> valid_postings(postings[u], n as int),
    ensures
        has_posting(list_of(with_document(postings, stored_counts(terms), n), t), n as int)
            <==> terms.contains(t),
        terms.contains(t) ==> freq_in(list_of(with_document(postings, stored_counts(terms), n), t), n as int)
            == saturated(count_of(terms, t)),
{
    let after = with_document(postings, stored_counts(terms), n);
    let before = list_of(postings, t);
    let l = list_of(after, t);
    assert forall|i: int| 0 <= i < before.len() implies before[i].doc_id < n by {
        if postings.dom().contains(t) {
            assert(valid_postings(postings[t], n as int));
        }
    }
    if terms.contains(t) {
        assert(stored_counts(terms).dom().contains(t));
        assert(l == before.push(Posting { doc_id: n, term_freq: saturated(count_of(terms, t)) }));
        assert(l[before.len() as int].doc_id == n);
        let i = choose|i: int| 0 <= i < l.len() && #[trigger] l[i].doc_id == n as int;
        if i < before.len() {
            assert(l[i] == before[i]);
        }
    } else {
        assert(!stored_counts(terms).dom().contains(t));
        if has_posting(l, n as int) {
            let i = choose|i: int| 0 <= i < l.len() && #[trigger] l[i].doc_id == n as int;
            assert(postings.dom().contains(t));
            assert(l == postings[t]);
        }
    }
}

} // verus!
