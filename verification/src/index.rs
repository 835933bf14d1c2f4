//! Inverted index over indexed documents.
//!
//! For each indexed document the index keeps an internal numeric id (its
//! position, assigned in insertion order), the user-supplied external id and
//! the document's token count. For each term it keeps a posting list: one
//! entry per document that holds the term, with the term's frequency there,
//! in ascending document order.
//!
//! Terms and external ids are found by a linear scan of `Vec`s rather than
//! through a `HashMap`: vstd gives `HashMap` a specification only for key
//! types that obey its key model, which it states for integer keys but not
//! for `String`, so a string-keyed map would leave lookups unproved.

use vstd::prelude::*;
use vstd::string::StringSliceAdditionalSpecFns;

use crate::error::Error;
use crate::text::str_eq;
use crate::tokenizer::{spec_tokenize, tokenize, Token, TokenizerConfig};

verus! {

/// Internal compact document identifier, assigned in insertion order.
pub type DocId = u32;

/// One entry in a posting list: which document, and how many times the term
/// occurs in it.
#[derive(Debug, Clone, Copy, PartialEq, Eq, Structural)]
pub struct Posting {
    /// The internal document id this posting refers to.
    pub doc_id: DocId,
    /// How often the term appears in that document.
    pub term_freq: u32,
}

/// Per-document metadata kept alongside the inverted index.
#[derive(Debug, Clone, PartialEq, Eq)]
pub struct DocMeta {
    /// User-supplied identifier (any string).
    pub external_id: String,
    /// Token count after tokenization.
    pub length: u32,
}

impl DocMeta {
    /// The external id and length of the document.
    pub open spec fn meta_view(self) -> (Seq<char>, u32) {
        (self.external_id@, self.length)
    }
}

/// Inverted index plus the document table needed to score it.
#[derive(Debug)]
pub struct Index {
    /// The distinct terms; `lists[i]` is the posting list of `terms[i]`.
    terms: Vec<String>,
    /// The posting lists, each in ascending `doc_id` order.
    lists: Vec<Vec<Posting>>,
    /// `doc_id -> metadata`, by position.
    docs: Vec<DocMeta>,
}

/// The terms of a token list, in order.
pub open spec fn terms_of(ts: Seq<(Seq<char>, int, int)>) -> Seq<Seq<char>> {
    ts.map_values(|t: (Seq<char>, int, int)| t.0)
}

/// How many times `t` occurs in `s`.
pub open spec fn count_of(s: Seq<Seq<char>>, t: Seq<char>) -> nat
    decreases s.len(),
{
    if s.len() == 0 {
        0
    } else {
        count_of(s.drop_last(), t) + if s.last() == t {
            1nat
        } else {
            0nat
        }
    }
}

/// The number of occurrences of each term of `s`.
pub open spec fn term_counts(s: Seq<Seq<char>>) -> Map<Seq<char>, nat> {
    Map::new(|t: Seq<char>| s.contains(t), |t: Seq<char>| count_of(s, t))
}

/// The posting list of `t` in `postings`, empty when `t` is unknown.
pub open spec fn list_of(postings: Map<Seq<char>, Seq<Posting>>, t: Seq<char>) -> Seq<Posting> {
    if postings.dom().contains(t) {
        postings[t]
    } else {
        Seq::empty()
    }
}

/// The postings after document `doc_id` with term counts `counts` is
/// added: each of its terms gets one more posting at the end of its list.
pub open spec fn with_document(
    postings: Map<Seq<char>, Seq<Posting>>,
    counts: Map<Seq<char>, u32>,
    doc_id: DocId,
) -> Map<Seq<char>, Seq<Posting>> {
    Map::new(
        |t: Seq<char>| postings.dom().contains(t) || counts.dom().contains(t),
        |t: Seq<char>|
            if counts.dom().contains(t) {
                list_of(postings, t).push(Posting { doc_id, term_freq: counts[t] })
            } else {
                postings[t]
            },
    )
}

/// The number of occurrences of each term of `s`, as stored: saturating
/// at `u32::MAX`.
pub open spec fn stored_counts(s: Seq<Seq<char>>) -> Map<Seq<char>, u32> {
    Map::new(|t: Seq<char>| s.contains(t), |t: Seq<char>| saturated(count_of(s, t)))
}

/// The postings after documents with the given terms are added in turn to
/// an empty index, the `i`-th under id `i`.
pub open spec fn postings_after(docs: Seq<Seq<Seq<char>>>) -> Map<Seq<char>, Seq<Posting>>
    decreases docs.len(),
{
    if docs.len() == 0 {
        Map::empty()
    } else {
        with_document(
            postings_after(docs.drop_last()),
            stored_counts(docs.last()),
            (docs.len() - 1) as DocId,
        )
    }
}

/// One posting for each of the documents that holds `t`, in order, with the
/// number of occurrences of `t` there.
pub open spec fn postings_of_term(docs: Seq<Seq<Seq<char>>>, t: Seq<char>) -> Seq<Posting>
    decreases docs.len(),
{
    if docs.len() == 0 {
        seq![]
    } else {
        let rest = postings_of_term(docs.drop_last(), t);
        if docs.last().contains(t) {
            rest.push(
                Posting {
                    doc_id: (docs.len() - 1) as DocId,
                    term_freq: saturated(count_of(docs.last(), t)),
                },
            )
        } else {
            rest
        }
    }
}

/// After documents are added in turn to an empty index, the posting list
/// of a term has one posting for each document that holds the term, in the
/// order the documents were added, with the term's number of occurrences
/// there; so it is empty exactly when no document holds the term.
pub proof fn lemma_postings_after(docs: Seq<Seq<Seq<char>>>, t: Seq<char>)
    ensures
        list_of(postings_after(docs), t) == postings_of_term(docs, t),
        list_of(postings_after(docs), t).len() == 0 <==> forall|i: int|
            0 <= i < docs.len() ==> !(#[trigger] docs[i]).contains(t),
    decreases docs.len(),
{
    if docs.len() > 0 {
        let init = docs.drop_last();
        lemma_postings_after(init, t);
        if docs.last().contains(t) {
            assert(docs[docs.len() - 1] == docs.last());
        } else {
            let init_none = forall|i: int| 0 <= i < init.len() ==> !(#[trigger] init[i]).contains(t);
            let all_none = forall|i: int| 0 <= i < docs.len() ==> !(#[trigger] docs[i]).contains(t);
            if init_none {
                assert forall|i: int| 0 <= i < docs.len() implies !(#[trigger] docs[i]).contains(t) by {
                    if i < init.len() {
                        assert(init[i] == docs[i]);
                    } else {
                        assert(docs[i] == docs.last());
                    }
                }
            }
            if all_none {
                assert forall|i: int| 0 <= i < init.len() implies !(#[trigger] init[i]).contains(t) by {
                    assert(init[i] == docs[i]);
                }
            }
        }
    }
}

/// Adding one more document to the history adds its postings under the
/// next id, as [`Index::add_document`] does.
pub proof fn lemma_postings_after_push(docs: Seq<Seq<Seq<char>>>, terms: Seq<Seq<char>>)
    ensures
        postings_after(docs.push(terms)) == with_document(
            postings_after(docs),
            stored_counts(terms),
            docs.len() as DocId,
        ),
{
    assert(docs.push(terms).drop_last() =~= docs);
}

/// The frequency recorded for document `d` in a posting list, or 0 when
/// the list has no posting of `d`.
pub open spec fn posted_freq(list: Seq<Posting>, d: int) -> nat
    decreases list.len(),
{
    if list.len() == 0 {
        0
    } else if list.last().doc_id == d {
        list.last().term_freq as nat
    } else {
        posted_freq(list.drop_last(), d)
    }
}

/// The sum, over the terms `keys`, of the frequencies recorded for document
/// `d` in their posting lists.
pub open spec fn doc_freq_sum(postings: Map<Seq<char>, Seq<Posting>>, keys: Seq<Seq<char>>, d: int) -> nat
    decreases keys.len(),
{
    if keys.len() == 0 {
        0
    } else {
        doc_freq_sum(postings, keys.drop_last(), d) + posted_freq(list_of(postings, keys.last()), d)
    }
}

/// The sum, over the terms `keys`, of their numbers of occurrences in `s`.
pub open spec fn count_sum(s: Seq<Seq<char>>, keys: Seq<Seq<char>>) -> nat
    decreases keys.len(),
{
    if keys.len() == 0 {
        0
    } else {
        count_sum(s, keys.drop_last()) + count_of(s, keys.last())
    }
}

proof fn lemma_count_sum_push(s: Seq<Seq<char>>, x: Seq<char>, keys: Seq<Seq<char>>)
    requires
        keys.no_duplicates(),
    ensures
        count_sum(s.push(x), keys) == count_sum(s, keys) + if keys.contains(x) {
            1nat
        } else {
            0nat
        },
    decreases keys.len(),
{
    assert(s.push(x).drop_last() =~= s);
    if keys.len() > 0 {
        let init = keys.drop_last();
        let k = keys.last();
        assert(init.no_duplicates()) by {
            assert forall|a: int, b: int| 0 <= a < b < init.len() implies init[a] != init[b] by {
                assert(init[a] == keys[a]);
                assert(init[b] == keys[b]);
            }
        }
        lemma_count_sum_push(s, x, init);
        assert(keys[keys.len() - 1] == k);
        if init.contains(x) {
            let a = init.index_of(x);
            assert(keys[a] == x);
            assert(k != x);
        }
        if keys.contains(x) && !init.contains(x) {
            let a = keys.index_of(x);
            if a < init.len() {
                assert(init[a] == x);
            }
            assert(k == x);
        }
        if k == x {
            assert(keys.contains(x));
        }
        if init.contains(x) {
            let a = init.index_of(x);
            assert(keys[a] == x);
        }
    }
}

/// Summed over distinct terms that include all terms of `s`, the numbers of
/// occurrences in `s` add up to the length of `s`.
pub proof fn lemma_count_sum(s: Seq<Seq<char>>, keys: Seq<Seq<char>>)
    requires
        keys.no_duplicates(),
        forall|j: int| 0 <= j < s.len() ==> keys.contains(#[trigger] s[j]),
    ensures
        count_sum(s, keys) == s.len(),
    decreases s.len(),
{
    if s.len() == 0 {
        assert(s =~= Seq::<Seq<char>>::empty());
        lemma_count_sum_empty(keys);
    } else {
        let init = s.drop_last();
        assert forall|j: int| 0 <= j < init.len() implies keys.contains(#[trigger] init[j]) by {
            assert(init[j] == s[j]);
        }
        lemma_count_sum(init, keys);
        assert(init.push(s.last()) =~= s);
        assert(keys.contains(s[s.len() - 1]));
        lemma_count_sum_push(init, s.last(), keys);
    }
}

proof fn lemma_count_sum_empty(keys: Seq<Seq<char>>)
    ensures
        count_sum(Seq::<Seq<char>>::empty(), keys) == 0,
    decreases keys.len(),
{
    if keys.len() > 0 {
        lemma_count_sum_empty(keys.drop_last());
    }
}

/// A list without a posting of `d` records no frequency for it.
proof fn lemma_posted_freq_absent(list: Seq<Posting>, d: int)
    requires
        forall|j: int| 0 <= j < list.len() ==> (#[trigger] list[j]).doc_id != d,
    ensures
        posted_freq(list, d) == 0,
    decreases list.len(),
{
    if list.len() > 0 {
        let init = list.drop_last();
        assert forall|j: int| 0 <= j < init.len() implies (#[trigger] init[j]).doc_id != d by {
            assert(init[j] == list[j]);
        }
        assert(list[list.len() - 1] == list.last());
        lemma_posted_freq_absent(init, d);
    }
}

/// The postings of a term after the documents are added refer to them.
proof fn lemma_postings_of_term_ids(docs: Seq<Seq<Seq<char>>>, t: Seq<char>)
    requires
        docs.len() <= u32::MAX + 1,
    ensures
        forall|j: int|
            0 <= j < postings_of_term(docs, t).len() ==> (#[trigger] postings_of_term(docs, t)[j]).doc_id
                < docs.len(),
    decreases docs.len(),
{
    if docs.len() > 0 {
        let init = docs.drop_last();
        lemma_postings_of_term_ids(init, t);
        let rest = postings_of_term(init, t);
        let all = postings_of_term(docs, t);
        assert forall|j: int| 0 <= j < all.len() implies (#[trigger] all[j]).doc_id < docs.len() by {
            if j < rest.len() {
                assert(all[j] == rest[j]);
            }
        }
    }
}

/// The frequency recorded for document `i` in the posting list of `t`,
/// after the documents are added in turn.
proof fn lemma_posted_freq_after(docs: Seq<Seq<Seq<char>>>, t: Seq<char>, i: int)
    requires
        docs.len() <= u32::MAX + 1,
        0 <= i < docs.len(),
    ensures
        posted_freq(postings_of_term(docs, t), i) == if docs[i].contains(t) {
            saturated(count_of(docs[i], t)) as nat
        } else {
            0nat
        },
    decreases docs.len(),
{
    let init = docs.drop_last();
    let n = docs.len() - 1;
    let rest = postings_of_term(init, t);
    if docs.last().contains(t) {
        let p = Posting { doc_id: n as DocId, term_freq: saturated(count_of(docs.last(), t)) };
        assert(rest.push(p).drop_last() =~= rest);
    }
    if i < n {
        lemma_posted_freq_after(init, t, i);
        assert(init[i] == docs[i]);
    } else {
        assert(docs[i] == docs.last());
        if !docs.last().contains(t) {
            lemma_postings_of_term_ids(init, t);
            lemma_posted_freq_absent(rest, i);
        }
    }
}

proof fn lemma_doc_freq_sum_after(docs: Seq<Seq<Seq<char>>>, keys: Seq<Seq<char>>, i: int)
    requires
        docs.len() <= u32::MAX + 1,
        0 <= i < docs.len(),
        docs[i].len() <= u32::MAX,
    ensures
        doc_freq_sum(postings_after(docs), keys, i) == count_sum(docs[i], keys),
    decreases keys.len(),
{
    if keys.len() > 0 {
        let k = keys.last();
        lemma_doc_freq_sum_after(docs, keys.drop_last(), i);
        lemma_postings_after(docs, k);
        lemma_posted_freq_after(docs, k, i);
        lemma_count_bound(docs[i], k);
    }
}

/// After documents are added in turn to an empty index, the frequencies
/// recorded for a document add up to its number of tokens (when that number
/// fits in `u32`, so that nothing saturates), summed over any list of
/// distinct terms that includes all of the document's terms.
pub proof fn lemma_doc_freq_sum(docs: Seq<Seq<Seq<char>>>, i: int, keys: Seq<Seq<char>>)
    requires
        docs.len() <= u32::MAX + 1,
        0 <= i < docs.len(),
        docs[i].len() <= u32::MAX,
        keys.no_duplicates(),
        forall|j: int| 0 <= j < docs[i].len() ==> keys.contains(#[trigger] docs[i][j]),
    ensures
        doc_freq_sum(postings_after(docs), keys, i) == docs[i].len(),
{
    lemma_doc_freq_sum_after(docs, keys, i);
    lemma_count_sum(docs[i], keys);
}

/// After documents are added in turn to an empty index, the known terms
/// are exactly the terms of the documents.
pub proof fn lemma_postings_after_terms(docs: Seq<Seq<Seq<char>>>)
    ensures
        postings_after(docs).dom() == Set::new(
            |t: Seq<char>| exists|i: int| 0 <= i < docs.len() && (#[trigger] docs[i]).contains(t),
        ),
    decreases docs.len(),
{
    let target = Set::new(
        |t: Seq<char>| exists|i: int| 0 <= i < docs.len() && (#[trigger] docs[i]).contains(t),
    );
    if docs.len() == 0 {
        assert(postings_after(docs).dom() =~= target);
    } else {
        let init = docs.drop_last();
        lemma_postings_after_terms(init);
        assert forall|t: Seq<char>| postings_after(docs).dom().contains(t) <==> target.contains(t) by {
            if postings_after(init).dom().contains(t) {
                let i = choose|i: int| 0 <= i < init.len() && (#[trigger] init[i]).contains(t);
                assert(docs[i] == init[i]);
            }
            if docs.last().contains(t) {
                assert(docs[docs.len() - 1] == docs.last());
            }
            if target.contains(t) {
                let i = choose|i: int| 0 <= i < docs.len() && (#[trigger] docs[i]).contains(t);
                if i < init.len() {
                    assert(init[i] == docs[i]);
                } else {
                    assert(docs[i] == docs.last());
                }
            }
        }
        assert(postings_after(docs).dom() =~= target);
    }
}

/// The document table after `add_document` calls, each given as the
/// external id and the document's number of tokens, on an empty index: a
/// call whose id is already indexed adds nothing.
pub open spec fn docs_after(calls: Seq<(Seq<char>, nat)>) -> Seq<(Seq<char>, u32)>
    decreases calls.len(),
{
    if calls.len() == 0 {
        seq![]
    } else {
        let before = docs_after(calls.drop_last());
        let c = calls.last();
        if exists|i: int| 0 <= i < before.len() && #[trigger] before[i].0 == c.0 {
            before
        } else {
            before.push((c.0, saturated(c.1)))
        }
    }
}

/// The external ids given to the calls.
pub open spec fn call_ids(calls: Seq<(Seq<char>, nat)>) -> Set<Seq<char>>
    decreases calls.len(),
{
    if calls.len() == 0 {
        Set::empty()
    } else {
        call_ids(calls.drop_last()).insert(calls.last().0)
    }
}

/// After `add_document` calls on an empty index, there is one document per
/// distinct external id given, so the document count is the number of
/// distinct ids, which is the number of calls that succeeded.
pub proof fn lemma_docs_after(calls: Seq<(Seq<char>, nat)>)
    ensures
        call_ids(calls).finite(),
        docs_after(calls).len() == call_ids(calls).len(),
        forall|id: Seq<char>|
            call_ids(calls).contains(id) <==> exists|i: int|
                0 <= i < docs_after(calls).len() && #[trigger] docs_after(calls)[i].0 == id,
    decreases calls.len(),
{
    if calls.len() > 0 {
        let init = calls.drop_last();
        lemma_docs_after(init);
        let before = docs_after(init);
        let c = calls.last();
        if exists|i: int| 0 <= i < before.len() && #[trigger] before[i].0 == c.0 {
            assert(call_ids(calls) =~= call_ids(init));
        } else {
            let after = before.push((c.0, saturated(c.1)));
            assert(!call_ids(init).contains(c.0));
            assert forall|id: Seq<char>|
                call_ids(calls).contains(id) <==> exists|i: int|
                    0 <= i < after.len() && #[trigger] after[i].0 == id by {
                if id == c.0 {
                    assert(after[before.len() as int].0 == id);
                } else if call_ids(init).contains(id) {
                    let i = choose|i: int| 0 <= i < before.len() && #[trigger] before[i].0 == id;
                    assert(after[i] == before[i]);
                } else if exists|i: int| 0 <= i < after.len() && #[trigger] after[i].0 == id {
                    let i = choose|i: int| 0 <= i < after.len() && #[trigger] after[i].0 == id;
                    assert(after[i] == before[i]);
                }
            }
        }
    }
}

/// Whether each document whose stored length did not saturate has its
/// recorded frequencies add up to that length, summed over any list of
/// distinct terms that includes every known term.
pub open spec fn freq_sums_hold(
    postings: Map<Seq<char>, Seq<Posting>>,
    docs: Seq<(Seq<char>, u32)>,
) -> bool {
    forall|d: int, keys: Seq<Seq<char>>|
        0 <= d < docs.len() && docs[d].1 < u32::MAX && keys.no_duplicates() && (forall|t: Seq<char>|
            postings.dom().contains(t) ==> keys.contains(t)) ==> #[trigger] doc_freq_sum(
            postings,
            keys,
            d,
        ) == docs[d].1
}

proof fn lemma_freq_sum_other_doc(
    postings: Map<Seq<char>, Seq<Posting>>,
    counts: Map<Seq<char>, u32>,
    n: DocId,
    keys: Seq<Seq<char>>,
    d: int,
)
    requires
        d != n,
    ensures
        doc_freq_sum(with_document(postings, counts, n), keys, d) == doc_freq_sum(postings, keys, d),
    decreases keys.len(),
{
    if keys.len() > 0 {
        lemma_freq_sum_other_doc(postings, counts, n, keys.drop_last(), d);
        let k = keys.last();
        let l = list_of(postings, k);
        if counts.dom().contains(k) {
            let p = Posting { doc_id: n, term_freq: counts[k] };
            assert(l.push(p).drop_last() =~= l);
        }
    }
}

proof fn lemma_freq_sum_new_doc(
    postings: Map<Seq<char>, Seq<Posting>>,
    terms: Seq<Seq<char>>,
    n: DocId,
    keys: Seq<Seq<char>>,
)
    requires
        forall|t: Seq<char>|
            #![auto]
            postings.dom().contains(t) ==> valid_postings(postings[t], n as int),
        terms.len() <= u32::MAX,
    ensures
        doc_freq_sum(with_document(postings, stored_counts(terms), n), keys, n as int) == count_sum(
            terms,
            keys,
        ),
    decreases keys.len(),
{
    if keys.len() > 0 {
        lemma_freq_sum_new_doc(postings, terms, n, keys.drop_last());
        let k = keys.last();
        let l = list_of(postings, k);
        lemma_count_bound(terms, k);
        if terms.contains(k) {
            let p = Posting { doc_id: n, term_freq: saturated(count_of(terms, k)) };
            assert(l.push(p).drop_last() =~= l);
        } else {
            assert forall|j: int| 0 <= j < l.len() implies (#[trigger] l[j]).doc_id != n as int by {
                if postings.dom().contains(k) {
                    assert(valid_postings(postings[k], n as int));
                }
            }
            lemma_posted_freq_absent(l, n as int);
        }
    }
}

/// Adding a document keeps the frequency sums: if every earlier document's
/// recorded frequencies add up to its length, so do the new document's and
/// theirs afterwards.
pub proof fn lemma_add_keeps_freq_sums(
    postings: Map<Seq<char>, Seq<Posting>>,
    docs: Seq<(Seq<char>, u32)>,
    id: Seq<char>,
    terms: Seq<Seq<char>>,
)
    requires
        freq_sums_hold(postings, docs),
        docs.len() <= u32::MAX,
        forall|t: Seq<char>|
            #![auto]
            postings.dom().contains(t) ==> valid_postings(postings[t], docs.len() as int),
    ensures
        freq_sums_hold(
            with_document(postings, stored_counts(terms), docs.len() as DocId),
            docs.push((id, saturated(terms.len()))),
        ),
{
    let n = docs.len() as DocId;
    let after = with_document(postings, stored_counts(terms), n);
    let docs2 = docs.push((id, saturated(terms.len())));
    assert forall|d: int, keys: Seq<Seq<char>>|
        0 <= d < docs2.len() && docs2[d].1 < u32::MAX && keys.no_duplicates() && (forall|t: Seq<char>|
            after.dom().contains(t) ==> keys.contains(t)) implies #[trigger] doc_freq_sum(
        after,
        keys,
        d,
    ) == docs2[d].1 by {
        if d < docs.len() {
            lemma_freq_sum_other_doc(postings, stored_counts(terms), n, keys, d);
            assert(docs2[d] == docs[d]);
            assert forall|t: Seq<char>| postings.dom().contains(t) implies keys.contains(t) by {
                assert(after.dom().contains(t));
            }
            assert(doc_freq_sum(postings, keys, d) == docs[d].1);
        } else {
            assert(terms.len() < u32::MAX);
            lemma_freq_sum_new_doc(postings, terms, n, keys);
            assert forall|j: int| 0 <= j < terms.len() implies keys.contains(#[trigger] terms[j]) by {
                assert(terms.contains(terms[j]));
                assert(after.dom().contains(terms[j]));
            }
            lemma_count_sum(terms, keys);
        }
    }
}

/// A token count or a term count as stored: `n`, saturating at `u32::MAX`.
pub open spec fn saturated(n: nat) -> u32 {
    if n <= u32::MAX {
        n as u32
    } else {
        u32::MAX
    }
}

/// The map from the keys to the values at the same position.
pub open spec fn assoc<V>(keys: Seq<Seq<char>>, vals: Seq<V>) -> Map<Seq<char>, V> {
    Map::new(|t: Seq<char>| keys.contains(t), |t: Seq<char>| vals[keys.index_of(t)])
}

/// With distinct keys, the value of the key at `j` is the value at `j`.
pub proof fn lemma_assoc_at<V>(keys: Seq<Seq<char>>, vals: Seq<V>, j: int)
    requires
        keys.no_duplicates(),
        0 <= j < keys.len(),
    ensures
        assoc(keys, vals).dom().contains(keys[j]),
        assoc(keys, vals)[keys[j]] == vals[j],
{
    assert(keys.contains(keys[j]));
    let k = keys.index_of(keys[j]);
    assert(keys[k] == keys[j]);
}

/// Replacing the value at `j` replaces the value of its key.
pub proof fn lemma_assoc_update<V>(keys: Seq<Seq<char>>, vals: Seq<V>, j: int, v: V)
    requires
        keys.no_duplicates(),
        keys.len() == vals.len(),
        0 <= j < keys.len(),
    ensures
        assoc(keys, vals.update(j, v)) == assoc(keys, vals).insert(keys[j], v),
{
    let a = assoc(keys, vals.update(j, v));
    let b = assoc(keys, vals).insert(keys[j], v);
    assert forall|t: Seq<char>| a.dom().contains(t) implies a[t] == b[t] by {
        let k = keys.index_of(t);
        assert(keys[k] == t);
        if k != j {
            assert(keys[k] != keys[j]);
            lemma_assoc_at(keys, vals, k);
        }
    }
    assert(a =~= b);
}

/// Appending a new key adds it with its value.
pub proof fn lemma_assoc_push<V>(keys: Seq<Seq<char>>, vals: Seq<V>, t: Seq<char>, v: V)
    requires
        keys.no_duplicates(),
        keys.len() == vals.len(),
        !keys.contains(t),
    ensures
        keys.push(t).no_duplicates(),
        assoc(keys.push(t), vals.push(v)) == assoc(keys, vals).insert(t, v),
{
    let k2 = keys.push(t);
    assert forall|i: int, j: int| 0 <= i < k2.len() && 0 <= j < k2.len() && i != j implies k2[i]
        != k2[j] by {
        if i < keys.len() && j < keys.len() {
        } else if i < keys.len() {
            assert(keys[i] != t);
        } else {
            assert(keys[j] != t);
        }
    }
    let a = assoc(k2, vals.push(v));
    let b = assoc(keys, vals).insert(t, v);
    assert forall|s: Seq<char>| a.dom().contains(s) implies a[s] == b[s] by {
        if s == t {
            lemma_assoc_at(k2, vals.push(v), keys.len() as int);
        } else {
            let k = keys.index_of(s);
            assert(k2.contains(s));
            assert(keys.contains(s)) by {
                let m = k2.index_of(s);
                assert(k2[m] == s);
                assert(m < keys.len());
                assert(keys[m] == s);
            }
            lemma_assoc_at(keys, vals, k);
            assert(k2[k] == s);
            lemma_assoc_at(k2, vals.push(v), k);
        }
    }
    assert forall|s: Seq<char>| b.dom().contains(s) implies a.dom().contains(s) by {
        if s != t {
            let m = keys.index_of(s);
            assert(k2[m] == s);
        } else {
            assert(k2[keys.len() as int] == t);
        }
    }
    assert(a =~= b);
}

impl Index {
    /// The distinct terms, by position.
    pub closed spec fn term_keys(self) -> Seq<Seq<char>> {
        self.terms@.map_values(|s: String| s@)
    }

    /// The posting lists, by position.
    pub closed spec fn term_lists(self) -> Seq<Seq<Posting>> {
        self.lists@.map_values(|v: Vec<Posting>| v@)
    }

    /// The document table: external id and length of each document, by id.
    pub closed spec fn docs_view(self) -> Seq<(Seq<char>, u32)> {
        self.docs@.map_values(|d: DocMeta| d.meta_view())
    }

    /// The inverted index: the posting list of each known term.
    pub closed spec fn postings_view(self) -> Map<Seq<char>, Seq<Posting>> {
        assoc(self.term_keys(), self.term_lists())
    }

    /// Whether a document with external id `id` is indexed.
    pub open spec fn has_doc(self, id: Seq<char>) -> bool {
        exists|i: int| 0 <= i < self.docs_view().len() && #[trigger] self.docs_view()[i].0 == id
    }

    /// Well-formedness: there are at most `u32::MAX + 1` documents (ids are
    /// `u32`), terms are distinct, external ids are distinct, and
    /// every posting list is non-empty, in strictly ascending document
    /// order, refers to indexed documents only and records positive
    /// frequencies.
    pub closed spec fn wf(self) -> bool {
        &&& self.docs@.len() <= u32::MAX + 1
        &&& self.terms@.len() == self.lists@.len()
        &&& self.term_keys().no_duplicates()
        &&& forall|i: int, j: int|
            0 <= i < j < self.docs@.len() ==> self.docs@[i].external_id@
                != self.docs@[j].external_id@
        &&& forall|k: int| 0 <= k < self.lists@.len() ==> stored_list(#[trigger] self.lists@[k]@, self.docs@.len() as int)
    }

    /// Create a new empty index.
    pub fn new() -> (r: Self)
        ensures
            r.wf(),
            r.docs_view() == Seq::<(Seq<char>, u32)>::empty(),
            r.postings_view() == Map::<Seq<char>, Seq<Posting>>::empty(),
            freq_sums_hold(r.postings_view(), r.docs_view()),
    {
        let r = Index { terms: Vec::new(), lists: Vec::new(), docs: Vec::new() };
        assert(r.postings_view() =~= Map::<Seq<char>, Seq<Posting>>::empty());
        assert(r.docs_view() =~= Seq::<(Seq<char>, u32)>::empty());
        r
    }

    /// Number of documents currently in the index.
    pub fn doc_count(&self) -> (r: usize)
        ensures
            r == self.docs_view().len(),
    {
        self.docs.len()
    }

    /// Number of unique terms (vocabulary size).
    pub fn term_count(&self) -> (r: usize)
        requires
            self.wf(),
        ensures
            r == self.postings_view().dom().len(),
    {
        proof {
            self.term_keys().unique_seq_to_set();
            assert(self.postings_view().dom() =~= self.term_keys().to_set());
        }
        self.terms.len()
    }

    /// The sum of the documents' lengths (the numerator of the average
    /// document length that BM25 uses).
    pub fn total_length(&self) -> (r: u64)
        requires
            self.wf(),
        ensures
            r == sum_lengths(self.docs_view()),
    {
        let ghost dv = self.docs_view();
        let mut total: u64 = 0;
        let mut i: usize = 0;
        while i < self.docs.len()
            invariant
                dv == self.docs_view(),
                dv.len() <= u32::MAX + 1,
                0 <= i <= dv.len(),
                total == sum_lengths(dv.take(i as int)),
            decreases dv.len() - i,
        {
            proof {
                assert(dv.take(i as int + 1).drop_last() =~= dv.take(i as int));
                lemma_sum_lengths_bound(dv.take(i as int + 1));
                assert(dv.take(i as int + 1).last() == dv[i as int]);
            }
            total = total + self.docs[i].length as u64;
            i = i + 1;
        }
        assert(dv.take(dv.len() as int) =~= dv);
        total
    }

    /// Look up the metadata for an internal `doc_id`.
    pub fn doc(&self, doc_id: DocId) -> (r: Option<&DocMeta>)
        ensures
            r is Some <==> doc_id < self.docs_view().len(),
            r matches Some(d) ==> d.meta_view() == self.docs_view()[doc_id as int],
    {
        let i = doc_id as usize;
        if i < self.docs.len() {
            Some(&self.docs[i])
        } else {
            None
        }
    }

    /// Position of `term` among the terms, if known.
    fn find_term(&self, term: &str) -> (r: Option<usize>)
        requires
            self.terms@.len() == self.lists@.len(),
            self.term_keys().no_duplicates(),
        ensures
            r is None <==> !self.postings_view().dom().contains(term@),
            r matches Some(j) ==> j < self.terms@.len() && self.term_keys()[j as int] == term@,
    {
        let r = position_of(&self.terms, term);
        assert(self.term_keys() =~= keys_view(self.terms@));
        r
    }

    /// Every posting list of a well-formed index is non-empty, in strictly
    /// ascending document order, refers to indexed documents only and
    /// records positive frequencies.
    pub proof fn lemma_wf_lists(self)
        requires
            self.wf(),
        ensures
            forall|t: Seq<char>|
                #![auto]
                self.postings_view().dom().contains(t) ==> stored_list(
                    self.postings_view()[t],
                    self.docs_view().len() as int,
                ),
    {
        assert forall|t: Seq<char>|
            #![auto]
            self.postings_view().dom().contains(t) implies stored_list(
            self.postings_view()[t],
            self.docs_view().len() as int,
        ) by {
            let k = self.term_keys().index_of(t);
            lemma_assoc_at(self.term_keys(), self.term_lists(), k);
            assert(stored_list(self.lists@[k]@, self.docs@.len() as int));
        }
    }

    /// The known terms of a well-formed index are exactly those with a
    /// posting, so [`Index::term_count`] counts the terms that occur in some
    /// indexed document.
    pub proof fn lemma_terms_have_postings(self)
        requires
            self.wf(),
        ensures
            self.postings_view().dom() == Set::new(
                |t: Seq<char>| list_of(self.postings_view(), t).len() > 0,
            ),
    {
        self.lemma_wf_lists();
        assert(self.postings_view().dom() =~= Set::new(
            |t: Seq<char>| list_of(self.postings_view(), t).len() > 0,
        ));
    }

    /// Appends one posting of document `doc_id` to the list of each of the
    /// given terms, creating the lists of new terms.
    fn add_postings(&mut self, keys: &Vec<String>, counts: &Vec<u32>, doc_id: DocId)
        requires
            old(self).terms@.len() == old(self).lists@.len(),
            old(self).term_keys().no_duplicates(),
            forall|k: int|
                0 <= k < old(self).lists@.len() ==> stored_list(
                    #[trigger] old(self).lists@[k]@,
                    doc_id as int,
                ),
            keys@.len() == counts@.len(),
            keys_view(keys@).no_duplicates(),
            forall|k: int| 0 <= k < counts@.len() ==> #[trigger] counts@[k] >= 1,
        ensures
            final(self).docs == old(self).docs,
            final(self).terms@.len() == final(self).lists@.len(),
            final(self).term_keys().no_duplicates(),
            forall|k: int|
                0 <= k < final(self).lists@.len() ==> stored_list(
                    #[trigger] final(self).lists@[k]@,
                    doc_id + 1,
                ),
            final(self).postings_view() == with_document(
                old(self).postings_view(),
                assoc(keys_view(keys@), counts@),
                doc_id,
            ),
    {
        let ghost start = self.postings_view();
        let ghost kv = keys_view(keys@);
        let ghost cv = counts@;
        let mut k: usize = 0;
        proof {
            assert(assoc(kv.take(0), cv.take(0)) =~= Map::<Seq<char>, u32>::empty());
            assert(with_document(start, Map::<Seq<char>, u32>::empty(), doc_id) =~= start);
            assert forall|t: Seq<char>| #![auto] start.dom().contains(t) implies (forall|i: int|
                0 <= i < start[t].len() ==> start[t][i].doc_id < doc_id) by {
                let m = self.term_keys().index_of(t);
                lemma_assoc_at(self.term_keys(), self.term_lists(), m);
                assert(valid_postings(self.lists@[m]@, doc_id as int));
            }
        }
        while k < keys.len()
            invariant
                0 <= k <= keys@.len(),
                kv == keys_view(keys@),
                cv == counts@,
                forall|m: int| 0 <= m < counts@.len() ==> #[trigger] counts@[m] >= 1,
                keys@.len() == counts@.len(),
                kv.no_duplicates(),
                self.docs == old(self).docs,
                start == old(self).postings_view(),
                forall|t: Seq<char>|
                    #![auto]
                    start.dom().contains(t) ==> (forall|i: int|
                        0 <= i < start[t].len() ==> start[t][i].doc_id < doc_id),
                self.terms@.len() == self.lists@.len(),
                self.term_keys().no_duplicates(),
                forall|m: int|
                    0 <= m < self.lists@.len() ==> stored_list(
                        #[trigger] self.lists@[m]@,
                        doc_id + 1,
                    ),
                self.postings_view() == with_document(
                    start,
                    assoc(kv.take(k as int), cv.take(k as int)),
                    doc_id,
                ),
            decreases keys@.len() - k,
        {
            let ghost part = assoc(kv.take(k as int), cv.take(k as int));
            let ghost t = kv[k as int];
            let ghost c = cv[k as int];
            let p = Posting { doc_id, term_freq: counts[k] };
            proof {
                assert(kv.take(k as int + 1) =~= kv.take(k as int).push(t));
                assert(cv.take(k as int + 1) =~= cv.take(k as int).push(c));
                assert(kv.take(k as int).no_duplicates());
                assert(!kv.take(k as int).contains(t)) by {
                    if kv.take(k as int).contains(t) {
                        let i = kv.take(k as int).index_of(t);
                        assert(kv[i] == kv[k as int]);
                    }
                }
                lemma_assoc_push(kv.take(k as int), cv.take(k as int), t, c);
            }
            let ghost cur = self.postings_view();
            let ghost next = with_document(start, part.insert(t, c), doc_id);
            assert(!part.dom().contains(t));
            match self.find_term(keys[k].as_str()) {
                Some(j) => {
                    proof {
                        lemma_assoc_at(self.term_keys(), self.term_lists(), j as int);
                        assert(cur[t] == start[t]);
                    }
                    let ghost lb = self.term_lists();
                    self.lists[j].push(p);
                    proof {
                        assert(self.term_lists() =~= lb.update(j as int, start[t].push(p)));
                        lemma_assoc_update(self.term_keys(), lb, j as int, start[t].push(p));
                        assert(self.postings_view() =~= next);
                    }
                },
                None => {
                    proof {
                        assert(!cur.dom().contains(t));
                        assert(!start.dom().contains(t));
                        lemma_assoc_push(self.term_keys(), self.term_lists(), t, seq![p]);
                    }
                    let ghost kb = self.term_keys();
                    let ghost lb = self.term_lists();
                    let owned = keys[k].clone();
                    self.terms.push(owned);
                    let mut single: Vec<Posting> = Vec::new();
                    single.push(p);
                    assert(single@ =~= seq![p]);
                    self.lists.push(single);
                    proof {
                        assert(self.term_keys() =~= kb.push(t));
                        assert(self.term_lists() =~= lb.push(seq![p]));
                        assert(self.postings_view() =~= next);
                    }
                },
            }
            k = k + 1;
        }
        assert(kv.take(keys@.len() as int) =~= kv);
        assert(cv.take(keys@.len() as int) =~= cv);
    }

    /// Add a document to the index.
    ///
    /// Fails with [`Error::DuplicateDocId`], leaving the index unchanged, if
    /// `external_id` is already indexed. Otherwise the document gets the next
    /// internal id (the former document count), its token count is recorded,
    /// and each of its distinct terms gets one posting with its number of
    /// occurrences (both saturating at `u32::MAX`).
    pub fn add_document(&mut self, external_id: &str, text: &str, config: &TokenizerConfig) -> (r:
        Result<DocId, Error>)
        requires
            old(self).wf(),
            old(self).has_doc(external_id@) || old(self).docs_view().len() <= u32::MAX,
        ensures
            final(self).wf(),
            freq_sums_hold(old(self).postings_view(), old(self).docs_view()) ==> freq_sums_hold(
                final(self).postings_view(),
                final(self).docs_view(),
            ),
            old(self).has_doc(external_id@) ==> {
                &&& r matches Err(Error::DuplicateDocId(s)) && s@ == external_id@
                &&& *final(self) == *old(self)
            },
            !old(self).has_doc(external_id@) ==> {
                let toks = spec_tokenize(text@, *config);
                let id = old(self).docs_view().len() as DocId;
                &&& r == Ok::<DocId, Error>(id)
                &&& final(self).docs_view() == old(self).docs_view().push(
                    (external_id@, saturated(toks.len())),
                )
                &&& final(self).postings_view() == with_document(
                    old(self).postings_view(),
                    stored_counts(terms_of(toks)),
                    id,
                )
            },
    {
        let mut i: usize = 0;
        while i < self.docs.len()
            invariant
                0 <= i <= self.docs@.len(),
                *self == *old(self),
                self.wf(),
                forall|k: int| 0 <= k < i ==> self.docs_view()[k].0 != external_id@,
            decreases self.docs@.len() - i,
        {
            if str_eq(self.docs[i].external_id.as_str(), external_id) {
                assert(self.docs_view()[i as int].0 == external_id@);
                return Err(Error::DuplicateDocId(external_id.to_owned()));
            }
            i = i + 1;
        }
        assert(!self.has_doc(external_id@));
        let tokens = tokenize(text, config);
        let (keys, counts) = count_terms(&tokens);
        let doc_id = self.docs.len() as DocId;
        let length = if tokens.len() <= u32::MAX as usize {
            tokens.len() as u32
        } else {
            u32::MAX
        };
        let ghost old_docs = self.docs_view();
        let ghost old_post = self.postings_view();
        proof {
            self.lemma_wf_lists();
        }
        self.docs.push(DocMeta { external_id: external_id.to_owned(), length });
        assert(self.docs_view() =~= old_docs.push((external_id@, length)));
        self.add_postings(&keys, &counts, doc_id);
        proof {
            assert forall|a: int, b: int|
                0 <= a < b < self.docs@.len() implies self.docs@[a].external_id@
                != self.docs@[b].external_id@ by {
                if b == self.docs@.len() - 1 {
                    assert(self.docs_view()[a].0 != external_id@);
                    assert(old_docs[a] == self.docs_view()[a]);
                } else {
                    assert(old(self).docs@[a] == self.docs@[a]);
                    assert(old(self).docs@[b] == self.docs@[b]);
                }
            }
            let toks = spec_tokenize(text@, *config);
            assert(terms_of(toks).len() == toks.len());
            assert(length == saturated(toks.len()));
            if freq_sums_hold(old_post, old_docs) {
                lemma_add_keeps_freq_sums(old_post, old_docs, external_id@, terms_of(toks));
            }
        }
        Ok(doc_id)
    }

    /// Look up the posting list for a term. Returns an empty slice if the
    /// term is unknown.
    pub fn postings(&self, term: &str) -> (r: &[Posting])
        requires
            self.wf(),
        ensures
            r@ == list_of(self.postings_view(), term@),
    {
        match self.find_term(term) {
            Some(j) => {
                proof {
                    lemma_assoc_at(self.term_keys(), self.term_lists(), j as int);
                }
                self.lists[j].as_slice()
            },
            None => {
                let empty: &[Posting] = &[];
                assert(empty@ =~= Seq::<Posting>::empty());
                empty
            },
        }
    }
}

/// The characters of each string.
pub open spec fn keys_view(keys: Seq<String>) -> Seq<Seq<char>> {
    keys.map_values(|s: String| s@)
}

/// Position of `t` among `keys`, if it is there.
fn position_of(keys: &Vec<String>, t: &str) -> (r: Option<usize>)
    ensures
        r is None <==> !keys_view(keys@).contains(t@),
        r matches Some(j) ==> j < keys@.len() && keys_view(keys@)[j as int] == t@,
{
    let mut j: usize = 0;
    while j < keys.len()
        invariant
            0 <= j <= keys@.len(),
            forall|k: int| 0 <= k < j ==> keys_view(keys@)[k] != t@,
        decreases keys@.len() - j,
    {
        if str_eq(keys[j].as_str(), t) {
            assert(keys_view(keys@)[j as int] == t@);
            assert(keys_view(keys@).contains(t@));
            return Some(j);
        }
        j = j + 1;
    }
    proof {
        if keys_view(keys@).contains(t@) {
            let k = keys_view(keys@).index_of(t@);
            assert(keys_view(keys@)[k] == t@);
        }
    }
    None
}

/// A count never exceeds the length.
pub proof fn lemma_count_bound(s: Seq<Seq<char>>, t: Seq<char>)
    ensures
        count_of(s, t) <= s.len(),
        !s.contains(t) ==> count_of(s, t) == 0,
    decreases s.len(),
{
    if s.len() > 0 {
        lemma_count_bound(s.drop_last(), t);
        if !s.contains(t) {
            assert(s.last() != t);
            assert(!s.drop_last().contains(t)) by {
                if s.drop_last().contains(t) {
                    let i = s.drop_last().index_of(t);
                    assert(s[i] == t);
                }
            }
        }
    }
}

/// Counting one more element.
pub proof fn lemma_term_counts_push(s: Seq<Seq<char>>, x: Seq<char>)
    ensures
        term_counts(s.push(x)) == term_counts(s).insert(x, count_of(s, x) + 1),
{
    let a = term_counts(s.push(x));
    let b = term_counts(s).insert(x, count_of(s, x) + 1);
    assert(s.push(x).drop_last() =~= s);
    assert forall|t: Seq<char>| a.dom().contains(t) <==> b.dom().contains(t) by {
        if s.push(x).contains(t) && t != x {
            let i = s.push(x).index_of(t);
            assert(i < s.len());
            assert(s[i] == t);
        }
        if s.contains(t) {
            let i = s.index_of(t);
            assert(s.push(x)[i] == t);
        }
        if t == x {
            assert(s.push(x)[s.len() as int] == x);
        }
    }
    assert forall|t: Seq<char>| a.dom().contains(t) implies a[t] == b[t] by {
        assert(count_of(s.push(x), t) == count_of(s, t) + if x == t {
            1nat
        } else {
            0nat
        });
    }
    assert(a.dom() =~= b.dom());
    assert(a =~= b);
}

/// The number of occurrences is the multiplicity in the multiset.
proof fn lemma_count_is_multiplicity(s: Seq<Seq<char>>, t: Seq<char>)
    ensures
        count_of(s, t) == s.to_multiset().count(t),
    decreases s.len(),
{
    broadcast use vstd::seq_lib::group_to_multiset_ensures;

    if s.len() == 0 {
        assert(s.to_multiset() =~= vstd::multiset::Multiset::<Seq<char>>::empty());
    } else {
        let init = s.drop_last();
        lemma_count_is_multiplicity(init, t);
        assert(s =~= init.push(s.last()));
    }
}

/// The numbers of occurrences of a document's terms (what its postings
/// record, unless a number saturates) are the multiplicities of its terms,
/// and these add up to its number of tokens: `term_counts(s)` maps each
/// term of `s` to its count in the multiset of `s`, every other term has
/// count zero there, and the multiset has `s.len()` elements.
pub proof fn lemma_counts_are_multiplicities(s: Seq<Seq<char>>)
    ensures
        forall|t: Seq<char>|
            #![auto]
            term_counts(s).dom().contains(t) ==> term_counts(s)[t] == s.to_multiset().count(t),
        forall|t: Seq<char>|
            #![auto]
            !term_counts(s).dom().contains(t) ==> s.to_multiset().count(t) == 0,
        s.to_multiset().len() == s.len(),
{
    broadcast use vstd::seq_lib::group_to_multiset_ensures;

    assert forall|t: Seq<char>|
        #![auto]
        term_counts(s).dom().contains(t) ==> term_counts(s)[t] == s.to_multiset().count(t) by {
        lemma_count_is_multiplicity(s, t);
    }
    assert forall|t: Seq<char>|
        #![auto]
        !term_counts(s).dom().contains(t) ==> s.to_multiset().count(t) == 0 by {
        lemma_count_is_multiplicity(s, t);
        lemma_count_bound(s, t);
    }
}

/// Distinct terms of the tokens, each with its number of occurrences,
/// saturating at `u32::MAX`.
fn count_terms(tokens: &Vec<Token>) -> (r: (Vec<String>, Vec<u32>))
    ensures
        r.0@.len() == r.1@.len(),
        keys_view(r.0@).no_duplicates(),
        forall|k: int| 0 <= k < r.1@.len() ==> #[trigger] r.1@[k] >= 1,
        assoc(keys_view(r.0@), r.1@) == stored_counts(terms_of(tokens.deep_view())),
{
    let ghost all = terms_of(tokens.deep_view());
    let mut keys: Vec<String> = Vec::new();
    let mut counts: Vec<u32> = Vec::new();
    let mut i: usize = 0;
    assert(assoc(keys_view(keys@), counts@) =~= stored_counts(all.take(0)));
    while i < tokens.len()
        invariant
            all == terms_of(tokens.deep_view()),
            0 <= i <= tokens@.len(),
            keys@.len() == counts@.len(),
            keys_view(keys@).no_duplicates(),
            forall|k: int| 0 <= k < counts@.len() ==> #[trigger] counts@[k] >= 1,
            assoc(keys_view(keys@), counts@) == stored_counts(all.take(i as int)),
        decreases tokens@.len() - i,
    {
        let ghost prefix = all.take(i as int);
        let term = &tokens[i].term;
        assert(all[i as int] == term@);
        assert(all.take(i as int + 1) =~= prefix.push(term@));
        proof {
            lemma_stored_counts_push(prefix, term@);
        }
        match position_of(&keys, term.as_str()) {
            Some(j) => {
                proof {
                    lemma_assoc_at(keys_view(keys@), counts@, j as int);
                    assert(prefix.contains(term@));
                }
                let c = if counts[j] < u32::MAX { counts[j] + 1 } else { counts[j] };
                let ghost before = counts@;
                counts.set(j, c);
                proof {
                    lemma_assoc_update(keys_view(keys@), before, j as int, c);
                }
            },
            None => {
                proof {
                    assert(!assoc(keys_view(keys@), counts@).dom().contains(term@));
                    assert(!stored_counts(prefix).dom().contains(term@));
                    assert(!prefix.contains(term@));
                    lemma_count_bound(prefix, term@);
                    lemma_assoc_push(keys_view(keys@), counts@, term@, 1u32);
                }
                let owned = term.clone();
                let ghost kb = keys@;
                keys.push(owned);
                counts.push(1);
                assert(keys_view(keys@) =~= keys_view(kb).push(term@));
            },
        }
        i = i + 1;
    }
    assert(all.take(tokens@.len() as int) =~= all);
    (keys, counts)
}

/// Counting one more element, saturating.
pub proof fn lemma_stored_counts_push(s: Seq<Seq<char>>, x: Seq<char>)
    ensures
        stored_counts(s.push(x)) == stored_counts(s).insert(x, saturated(count_of(s, x) + 1)),
        stored_counts(s).dom().contains(x) ==> saturated(count_of(s, x) + 1) == if stored_counts(
            s,
        )[x] < u32::MAX {
            (stored_counts(s)[x] + 1) as u32
        } else {
            stored_counts(s)[x]
        },
{
    lemma_term_counts_push(s, x);
    let a = stored_counts(s.push(x));
    let b = stored_counts(s).insert(x, saturated(count_of(s, x) + 1));
    assert(term_counts(s.push(x)).dom() == a.dom());
    assert(term_counts(s).dom() == stored_counts(s).dom());
    assert(a.dom() =~= b.dom());
    assert forall|t: Seq<char>| a.dom().contains(t) implies a[t] == b[t] by {
        assert(term_counts(s.push(x))[t] == count_of(s.push(x), t));
    }
    assert(a =~= b);
}

impl Default for Index {
    fn default() -> (r: Self)
        ensures
            r.wf(),
            r.docs_view() == Seq::<(Seq<char>, u32)>::empty(),
            r.postings_view() == Map::<Seq<char>, Seq<Posting>>::empty(),
    {
        Index::new()
    }
}

/// The sum of the documents' lengths.
pub open spec fn sum_lengths(docs: Seq<(Seq<char>, u32)>) -> nat
    decreases docs.len(),
{
    if docs.len() == 0 {
        0
    } else {
        sum_lengths(docs.drop_last()) + docs.last().1 as nat
    }
}

/// Each length is at most `u32::MAX`, so the sum is at most that many
/// times the number of documents.
pub proof fn lemma_sum_lengths_bound(docs: Seq<(Seq<char>, u32)>)
    ensures
        sum_lengths(docs) <= docs.len() * (u32::MAX as nat),
    decreases docs.len(),
{
    if docs.len() > 0 {
        lemma_sum_lengths_bound(docs.drop_last());
        let n = docs.len() as int;
        assert((n - 1) * (u32::MAX as int) + (u32::MAX as int) == n * (u32::MAX as int)) by (nonlinear_arith);
    }
}

/// The terms of the term table parts.
pub open spec fn part_keys(parts: Seq<(String, Vec<Posting>)>) -> Seq<Seq<char>> {
    parts.map_values(|e: (String, Vec<Posting>)| e.0@)
}

/// The posting lists of the term table parts.
pub open spec fn part_lists(parts: Seq<(String, Vec<Posting>)>) -> Seq<Seq<Posting>> {
    parts.map_values(|e: (String, Vec<Posting>)| e.1@)
}

/// The document table parts as plain values.
pub open spec fn part_docs(docs: Seq<DocMeta>) -> Seq<(Seq<char>, u32)> {
    docs.map_values(|d: DocMeta| d.meta_view())
}

/// Parts that make a well-formed index: at most `u32::MAX + 1` documents,
/// distinct terms, distinct external ids, and non-empty posting lists in
/// strictly ascending order of indexed documents, with positive frequencies.
pub open spec fn parts_valid(
    keys: Seq<Seq<char>>,
    lists: Seq<Seq<Posting>>,
    docs: Seq<(Seq<char>, u32)>,
) -> bool {
    &&& docs.len() <= u32::MAX + 1
    &&& keys.no_duplicates()
    &&& forall|i: int, j: int| 0 <= i < j < docs.len() ==> docs[i].0 != docs[j].0
    &&& forall|k: int| 0 <= k < lists.len() ==> stored_list(#[trigger] lists[k], docs.len() as int)
}

/// A copy of a posting list.
fn copy_postings(list: &Vec<Posting>) -> (r: Vec<Posting>)
    ensures
        r@ == list@,
{
    let mut out: Vec<Posting> = Vec::new();
    let mut i: usize = 0;
    while i < list.len()
        invariant
            0 <= i <= list@.len(),
            out@ == list@.take(i as int),
        decreases list@.len() - i,
    {
        out.push(list[i]);
        assert(out@ =~= list@.take(i as int + 1));
        i = i + 1;
    }
    assert(list@.take(list@.len() as int) =~= list@);
    out
}

/// Whether the strings are pairwise distinct.
fn all_distinct(keys: &Vec<&str>) -> (r: bool)
    ensures
        r == keys@.map_values(|s: &str| s@).no_duplicates(),
{
    let ghost kv = keys@.map_values(|s: &str| s@);
    let mut i: usize = 0;
    while i < keys.len()
        invariant
            kv == keys@.map_values(|s: &str| s@),
            0 <= i <= keys@.len(),
            forall|a: int, b: int| 0 <= a < b < keys@.len() && a < i ==> kv[a] != kv[b],
        decreases keys@.len() - i,
    {
        let mut j: usize = i + 1;
        while j < keys.len()
            invariant
                kv == keys@.map_values(|s: &str| s@),
                0 <= i < keys@.len(),
                i + 1 <= j <= keys@.len(),
                forall|a: int, b: int| 0 <= a < b < keys@.len() && a < i ==> kv[a] != kv[b],
                forall|b: int| i < b < j ==> kv[i as int] != kv[b],
            decreases keys@.len() - j,
        {
            if str_eq(keys[i], keys[j]) {
                assert(kv[i as int] == kv[j as int]);
                return false;
            }
            j = j + 1;
        }
        i = i + 1;
    }
    true
}

/// Whether a posting list is in strictly ascending order of documents
/// below `n`, with positive frequencies.
fn check_postings(list: &Vec<Posting>, n: usize) -> (r: bool)
    ensures
        r == valid_postings(list@, n as int),
{
    let mut i: usize = 0;
    while i < list.len()
        invariant
            0 <= i <= list@.len(),
            forall|a: int| 0 <= a < i ==> list@[a].doc_id < n,
            forall|a: int| 0 <= a < i ==> list@[a].term_freq >= 1,
            forall|a: int, b: int| 0 <= a < b < i ==> list@[a].doc_id < list@[b].doc_id,
        decreases list@.len() - i,
    {
        if list[i].doc_id as usize >= n || list[i].term_freq == 0 {
            return false;
        }
        if i > 0 && list[i - 1].doc_id >= list[i].doc_id {
            return false;
        }
        i = i + 1;
    }
    true
}

impl Index {
    /// The index's contents: each term with its posting list, and the
    /// document table.
    pub fn to_parts(&self) -> (r: (Vec<(String, Vec<Posting>)>, Vec<DocMeta>))
        requires
            self.wf(),
        ensures
            parts_valid(part_keys(r.0@), part_lists(r.0@), part_docs(r.1@)),
            assoc(part_keys(r.0@), part_lists(r.0@)) == self.postings_view(),
            part_docs(r.1@) == self.docs_view(),
    {
        let mut parts: Vec<(String, Vec<Posting>)> = Vec::new();
        let mut i: usize = 0;
        while i < self.terms.len()
            invariant
                self.wf(),
                0 <= i <= self.terms@.len(),
                part_keys(parts@) == self.term_keys().take(i as int),
                part_lists(parts@) == self.term_lists().take(i as int),
            decreases self.terms@.len() - i,
        {
            let entry = (self.terms[i].clone(), copy_postings(&self.lists[i]));
            let ghost before = parts@;
            parts.push(entry);
            assert(part_keys(parts@) =~= part_keys(before).push(entry.0@));
            assert(part_lists(parts@) =~= part_lists(before).push(entry.1@));
            assert(self.term_keys().take(i as int + 1) =~= self.term_keys().take(i as int).push(
                entry.0@,
            ));
            assert(self.term_lists().take(i as int + 1) =~= self.term_lists().take(
                i as int,
            ).push(entry.1@));
            i = i + 1;
        }
        assert(self.term_keys().take(self.terms@.len() as int) =~= self.term_keys());
        assert(self.term_lists().take(self.terms@.len() as int) =~= self.term_lists());
        let mut docs: Vec<DocMeta> = Vec::new();
        let mut d: usize = 0;
        while d < self.docs.len()
            invariant
                0 <= d <= self.docs@.len(),
                part_docs(docs@) == self.docs_view().take(d as int),
            decreases self.docs@.len() - d,
        {
            let meta = DocMeta {
                external_id: self.docs[d].external_id.clone(),
                length: self.docs[d].length,
            };
            let ghost before = docs@;
            docs.push(meta);
            assert(part_docs(docs@) =~= part_docs(before).push(meta.meta_view()));
            assert(self.docs_view().take(d as int + 1) =~= self.docs_view().take(d as int).push(
                meta.meta_view(),
            ));
            d = d + 1;
        }
        assert(self.docs_view().take(self.docs@.len() as int) =~= self.docs_view());
        (parts, docs)
    }

    /// Builds an index from its contents, if they make a well-formed index
    /// (see [`parts_valid`]).
    pub fn from_parts(parts: Vec<(String, Vec<Posting>)>, docs: Vec<DocMeta>) -> (r: Option<Index>)
        ensures
            r is Some <==> parts_valid(part_keys(parts@), part_lists(parts@), part_docs(docs@)),
            r matches Some(idx) ==> {
                &&& idx.wf()
                &&& idx.postings_view() == assoc(part_keys(parts@), part_lists(parts@))
                &&& idx.docs_view() == part_docs(docs@)
            },
    {
        let ghost pk = part_keys(parts@);
        let ghost pl = part_lists(parts@);
        let ghost pd = part_docs(docs@);
        if docs.len() > u32::MAX as usize && docs.len() - 1 > u32::MAX as usize {
            return None;
        }
        let mut keys: Vec<&str> = Vec::new();
        let mut i: usize = 0;
        while i < parts.len()
            invariant
                pk == part_keys(parts@),
                0 <= i <= parts@.len(),
                keys@.map_values(|s: &str| s@) == pk.take(i as int),
            decreases parts@.len() - i,
        {
            let ghost before = keys@;
            keys.push(parts[i].0.as_str());
            assert(keys@.map_values(|s: &str| s@) =~= before.map_values(|s: &str| s@).push(
                pk[i as int],
            ));
            assert(pk.take(i as int + 1) =~= pk.take(i as int).push(pk[i as int]));
            i = i + 1;
        }
        assert(pk.take(parts@.len() as int) =~= pk);
        if !all_distinct(&keys) {
            return None;
        }
        let mut ids: Vec<&str> = Vec::new();
        let mut d: usize = 0;
        while d < docs.len()
            invariant
                pd == part_docs(docs@),
                0 <= d <= docs@.len(),
                ids@.map_values(|s: &str| s@) == pd.take(d as int).map_values(
                    |e: (Seq<char>, u32)| e.0,
                ),
            decreases docs@.len() - d,
        {
            let ghost before = ids@;
            ids.push(docs[d].external_id.as_str());
            assert(ids@.map_values(|s: &str| s@) =~= before.map_values(|s: &str| s@).push(
                pd[d as int].0,
            ));
            assert(pd.take(d as int + 1).map_values(|e: (Seq<char>, u32)| e.0) =~= pd.take(
                d as int,
            ).map_values(|e: (Seq<char>, u32)| e.0).push(pd[d as int].0));
            d = d + 1;
        }
        assert(pd.take(docs@.len() as int) =~= pd);
        let distinct_ids = all_distinct(&ids);
        if !distinct_ids {
            assert(!(forall|a: int, b: int| 0 <= a < b < pd.len() ==> pd[a].0 != pd[b].0)) by {
                let iv = ids@.map_values(|s: &str| s@);
                let (a, b) = choose|a: int, b: int|
                    0 <= a < iv.len() && 0 <= b < iv.len() && a != b && iv[a] == iv[b];
                if a < b {
                    assert(pd[a].0 == iv[a]);
                    assert(pd[b].0 == iv[b]);
                } else {
                    assert(pd[a].0 == iv[a]);
                    assert(pd[b].0 == iv[b]);
                }
            }
            return None;
        }
        let n = docs.len();
        let mut k: usize = 0;
        while k < parts.len()
            invariant
                pl == part_lists(parts@),
                n == docs@.len(),
                0 <= k <= parts@.len(),
                forall|m: int| 0 <= m < k ==> stored_list(#[trigger] pl[m], n as int),
            decreases parts@.len() - k,
        {
            if parts[k].1.len() == 0 || !check_postings(&parts[k].1, n) {
                assert(!stored_list(pl[k as int], n as int));
                return None;
            }
            k = k + 1;
        }
        assert forall|a: int, b: int| 0 <= a < b < pd.len() implies pd[a].0 != pd[b].0 by {
            let iv = ids@.map_values(|s: &str| s@);
            assert(iv[a] == pd[a].0);
            assert(iv[b] == pd[b].0);
        }
        let mut terms: Vec<String> = Vec::new();
        let mut lists: Vec<Vec<Posting>> = Vec::new();
        let mut k: usize = 0;
        while k < parts.len()
            invariant
                pk == part_keys(parts@),
                pl == part_lists(parts@),
                0 <= k <= parts@.len(),
                keys_view(terms@) == pk.take(k as int),
                lists@.map_values(|v: Vec<Posting>| v@) == pl.take(k as int),
            decreases parts@.len() - k,
        {
            let ghost kb = terms@;
            let ghost lb = lists@;
            terms.push(parts[k].0.clone());
            lists.push(copy_postings(&parts[k].1));
            assert(keys_view(terms@) =~= keys_view(kb).push(pk[k as int]));
            assert(lists@.map_values(|v: Vec<Posting>| v@) =~= lb.map_values(|v: Vec<Posting>| v@).push(pl[k as int]));
            assert(pk.take(k as int + 1) =~= pk.take(k as int).push(pk[k as int]));
            assert(pl.take(k as int + 1) =~= pl.take(k as int).push(pl[k as int]));
            k = k + 1;
        }
        assert(pk.take(parts@.len() as int) =~= pk);
        assert(pl.take(parts@.len() as int) =~= pl);
        let idx = Index { terms, lists, docs };
        assert(idx.term_keys() =~= pk);
        assert(idx.term_lists() =~= pl);
        assert forall|m: int| 0 <= m < idx.lists@.len() implies stored_list(#[trigger] idx.lists@[m]@, idx.docs@.len() as int) by {
            assert(idx.lists@[m]@ == pl[m]);
        }
        assert forall|a: int, b: int| 0 <= a < b < idx.docs@.len() implies idx.docs@[a].external_id@ != idx.docs@[b].external_id@ by {
            assert(pd[a].0 == idx.docs@[a].external_id@);
            assert(pd[b].0 == idx.docs@[b].external_id@);
        }
        Some(idx)
    }
}

/// A posting list as the index stores it: not empty, and valid (see
/// [`valid_postings`]).
pub open spec fn stored_list(list: Seq<Posting>, n: int) -> bool {
    list.len() > 0 && valid_postings(list, n)
}

/// A posting list in strictly ascending document order, each below `n`,
/// each with a positive frequency.
pub open spec fn valid_postings(list: Seq<Posting>, n: int) -> bool {
    &&& forall|i: int, j: int| 0 <= i < j < list.len() ==> list[i].doc_id < list[j].doc_id
    &&& forall|i: int| 0 <= i < list.len() ==> list[i].doc_id < n
    &&& forall|i: int| 0 <= i < list.len() ==> list[i].term_freq >= 1
}

} // verus!
