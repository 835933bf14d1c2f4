//! Unicode-aware tokenizer with optional stopword filtering.
//!
//! The input is split into words on UAX#29 word boundaries (by the
//! `unicode-segmentation` crate); each word is then filtered
//! (punctuation-only, too short) and lowercased, and English stopwords are
//! optionally dropped. Every emitted [`Token`] carries the byte range of its
//! word in the input, so that the term is the lowercase form of exactly those
//! bytes.

use unicode_segmentation::UnicodeSegmentation;
use vstd::prelude::*;
use vstd::string::StringSliceAdditionalSpecFns;
use vstd::utf8::*;
use vstd::std_specs::iter::IteratorSpec;

use crate::text::{str_eq, utf8};

verus! {

/// A single token produced by the tokenizer.
#[derive(Debug, Clone, PartialEq, Eq)]
pub struct Token {
    /// The normalized term (lowercased).
    pub term: String,
    /// Byte offset of the original word in the input string.
    pub start: usize,
    /// Byte offset *after* the original word in the input string.
    pub end: usize,
}

impl DeepView for Token {
    type V = (Seq<char>, int, int);

    open spec fn deep_view(&self) -> (Seq<char>, int, int) {
        (self.term@, self.start as int, self.end as int)
    }
}

/// Configuration for [`tokenize`].
#[derive(Debug, Clone)]
pub struct TokenizerConfig {
    /// Drop words that hold no alphanumeric character.
    pub drop_punct: bool,
    /// Drop English stopwords like "the", "is", "a".
    pub drop_stopwords: bool,
    /// Minimum byte length for a word to be kept.
    pub min_len: usize,
}

impl TokenizerConfig {
    /// The default settings: drop punctuation, drop stopwords, keep words of
    /// at least one byte.
    pub open spec fn default_spec() -> TokenizerConfig {
        TokenizerConfig { drop_punct: true, drop_stopwords: true, min_len: 1 }
    }
}

impl Default for TokenizerConfig {
    fn default() -> (r: Self)
        ensures
            r == TokenizerConfig::default_spec(),
    {
        TokenizerConfig { drop_punct: true, drop_stopwords: true, min_len: 1 }
    }
}

/// The words of `text` with their byte offsets, as `unicode_word_indices`
/// of the `unicode-segmentation` crate yields them.
pub uninterp spec fn unicode_words(text: Seq<char>) -> Seq<(usize, Seq<char>)>;

/// The lowercase mapping of `str::to_lowercase`.
pub uninterp spec fn lowercase(s: Seq<char>) -> Seq<char>;

/// The property tested by `char::is_alphanumeric`.
pub uninterp spec fn char_is_alphanumeric(c: char) -> bool;

/// `w` is a non-empty word that stands at byte offset `off` of `bytes`.
pub open spec fn word_at(bytes: Seq<u8>, off: int, w: Seq<char>) -> bool {
    &&& w.len() > 0
    &&& 0 <= off
    &&& off + utf8(w).len() <= bytes.len()
    &&& off + utf8(w).len() <= usize::MAX
    &&& bytes.subrange(off, off + utf8(w).len()) == utf8(w)
    &&& is_char_boundary(bytes, off)
    &&& is_char_boundary(bytes, off + utf8(w).len())
}

/// Each word stands at its offset in `bytes`, and the words follow each
/// other without overlapping.
pub open spec fn words_in_text(bytes: Seq<u8>, ws: Seq<(usize, Seq<char>)>) -> bool {
    &&& forall|i: int| 0 <= i < ws.len() ==> word_at(bytes, ws[i].0 as int, #[trigger] ws[i].1)
    &&& forall|i: int|
        0 <= i < ws.len() - 1 ==> #[trigger] ws[i].0 + utf8(ws[i].1).len() <= ws[i + 1].0
}

/// Calls `unicode_word_indices` (crate `unicode-segmentation`). Claimed:
/// the result is the named function [`unicode_words`] of the text; each
/// item is a non-empty slice of the text at its byte offset, so it starts
/// and ends at character boundaries of the text (the iterator yields
/// sub-slices of the input, filtered to those with an alphanumeric
/// character); the items come in order without overlap (they are taken from
/// a split of the text into consecutive segments).
#[verifier::external_body]
fn word_indices(text: &str) -> (words: Vec<(usize, &str)>)
    ensures
        words.deep_view() == unicode_words(text@),
        words_in_text(text.spec_bytes(), words.deep_view()),
{
    text.unicode_word_indices().collect()
}

/// Calls `str::to_lowercase`. Claimed: the result is the named function
/// [`lowercase`] of the input's characters.
#[verifier::external_body]
pub(crate) fn to_lowercase(s: &str) -> (r: String)
    ensures
        r@ == lowercase(s@),
{
    s.to_lowercase()
}

/// Calls `char::is_alphanumeric`. Claimed: the result is the named
/// predicate [`char_is_alphanumeric`] of the character.
#[verifier::external_body]
fn is_alphanumeric(c: char) -> (r: bool)
    ensures
        r == char_is_alphanumeric(c),
{
    c.is_alphanumeric()
}

/// The English stopwords, in byte order.
pub open spec fn stopword_list() -> Seq<Seq<char>> {
    seq![
        "a"@, "an"@, "and"@, "are"@, "as"@, "at"@, "be"@, "but"@, "by"@, "for"@, "if"@,
        "in"@, "into"@, "is"@, "it"@, "no"@, "not"@, "of"@, "on"@, "or"@, "such"@, "that"@,
        "the"@, "their"@, "then"@, "there"@, "these"@, "they"@, "this"@, "to"@, "was"@,
        "will"@, "with"@,
    ]
}

/// A small, deliberately short English stopword list, sorted.
pub fn stopwords() -> (r: [&'static str; 33])
    ensures
        forall|i: int| 0 <= i < 33 ==> (#[trigger] r@[i])@ == stopword_list()[i],
{
    [
        "a", "an", "and", "are", "as", "at", "be", "but", "by", "for", "if", "in", "into", "is",
        "it", "no", "not", "of", "on", "or", "such", "that", "the", "their", "then", "there",
        "these", "they", "this", "to", "was", "will", "with",
    ]
}

/// Whether `t` is one of the stopwords.
pub open spec fn is_stopword_spec(t: Seq<char>) -> bool {
    stopword_list().contains(t)
}

/// Whether `w` holds at least one alphanumeric character.
pub open spec fn is_wordlike_spec(w: Seq<char>) -> bool {
    exists|i: int| 0 <= i < w.len() && char_is_alphanumeric(#[trigger] w[i])
}

fn is_stopword(term: &str) -> (r: bool)
    ensures
        r == is_stopword_spec(term@),
{
    let list = stopwords();
    let mut i: usize = 0;
    while i < 33
        invariant
            0 <= i <= 33,
            forall|j: int| 0 <= j < 33 ==> (#[trigger] list@[j])@ == stopword_list()[j],
            forall|j: int| 0 <= j < i ==> stopword_list()[j] != term@,
        decreases 33 - i,
    {
        if str_eq(list[i], term) {
            assert(stopword_list()[i as int] == term@);
            return true;
        }
        i = i + 1;
    }
    proof {
        if stopword_list().contains(term@) {
            let j = choose|j: int| 0 <= j < stopword_list().len() && stopword_list()[j] == term@;
            assert(stopword_list()[j] != term@);
        }
    }
    false
}

fn is_wordlike(s: &str) -> (r: bool)
    ensures
        r == is_wordlike_spec(s@),
{
    let mut it = s.chars();
    let ghost all = s@;
    let ghost mut k: int = 0;
    loop
        invariant
            it.remaining() == all.skip(k),
            all == s@,
            0 <= k <= all.len(),
            forall|j: int| 0 <= j < k ==> !char_is_alphanumeric(#[trigger] all[j]),
            it.obeys_prophetic_iter_laws(),
        decreases all.len() - k,
    {
        match it.next() {
            Some(c) => {
                assert(all.skip(k)[0] == all[k]);
                if is_alphanumeric(c) {
                    return true;
                }
                assert(all.skip(k).drop_first() =~= all.skip(k + 1));
                proof {
                    k = k + 1;
                }
            },
            None => {
                assert(k == all.len());
                return false;
            },
        }
    }
}

/// Whether the word `w` survives the filters of `cfg`.
pub open spec fn keeps_word(w: Seq<char>, cfg: TokenizerConfig) -> bool {
    &&& !(cfg.drop_punct && !is_wordlike_spec(w))
    &&& utf8(w).len() >= cfg.min_len
    &&& !(cfg.drop_stopwords && is_stopword_spec(lowercase(w)))
}

/// The tokens of a word list: the kept words, lowercased, with their byte
/// ranges.
pub open spec fn tokens_of_words(ws: Seq<(usize, Seq<char>)>, cfg: TokenizerConfig) -> Seq<
    (Seq<char>, int, int),
>
    decreases ws.len(),
{
    if ws.len() == 0 {
        seq![]
    } else {
        let rest = tokens_of_words(ws.drop_last(), cfg);
        let w = ws.last();
        if keeps_word(w.1, cfg) {
            rest.push((lowercase(w.1), w.0 as int, w.0 + utf8(w.1).len()))
        } else {
            rest
        }
    }
}

/// The tokens of `text` under `cfg`.
pub open spec fn spec_tokenize(text: Seq<char>, cfg: TokenizerConfig) -> Seq<(Seq<char>, int, int)> {
    tokens_of_words(unicode_words(text), cfg)
}

/// Every token's byte range lies in `bytes`, starts and ends at character
/// boundaries, and its term is the lowercase form of those bytes; tokens
/// come in document order without overlap.
pub open spec fn tokens_in_text(bytes: Seq<u8>, ts: Seq<(Seq<char>, int, int)>) -> bool {
    &&& forall|i: int|
        0 <= i < ts.len() ==> {
            &&& 0 <= (#[trigger] ts[i]).1 < ts[i].2 <= bytes.len()
            &&& is_char_boundary(bytes, ts[i].1)
            &&& is_char_boundary(bytes, ts[i].2)
            &&& ts[i].0 == lowercase(decode_utf8(bytes.subrange(ts[i].1, ts[i].2)))
        }
    &&& forall|i: int, j: int| 0 <= i < j < ts.len() ==> (#[trigger] ts[i]).2 <= (#[trigger] ts[j]).1
}

/// The tokens but the last of a list that lies in the text lie in it too.
pub proof fn lemma_tokens_in_text_init(bytes: Seq<u8>, ts: Seq<(Seq<char>, int, int)>)
    requires
        tokens_in_text(bytes, ts),
        ts.len() > 0,
    ensures
        tokens_in_text(bytes, ts.drop_last()),
{
    let init = ts.drop_last();
    assert forall|i: int| 0 <= i < init.len() implies {
        &&& 0 <= (#[trigger] init[i]).1 < init[i].2 <= bytes.len()
        &&& is_char_boundary(bytes, init[i].1)
        &&& is_char_boundary(bytes, init[i].2)
        &&& init[i].0 == lowercase(decode_utf8(bytes.subrange(init[i].1, init[i].2)))
    } by {
        assert(init[i] == ts[i]);
    }
    assert forall|i: int, j: int| 0 <= i < j < init.len() implies (#[trigger] init[i]).2 <= (
    #[trigger] init[j]).1 by {
        assert(init[i] == ts[i]);
        assert(init[j] == ts[j]);
    }
}

/// The tokens of a placed word list lie in the text (see [`tokens_in_text`])
/// and there are no more of them than words.
pub proof fn lemma_tokens_of_words_in_text(
    bytes: Seq<u8>,
    ws: Seq<(usize, Seq<char>)>,
    cfg: TokenizerConfig,
)
    requires
        words_in_text(bytes, ws),
    ensures
        tokens_in_text(bytes, tokens_of_words(ws, cfg)),
        tokens_of_words(ws, cfg).len() <= ws.len(),
        ws.len() > 0 ==> forall|i: int|
            0 <= i < tokens_of_words(ws, cfg).len() ==> (#[trigger] tokens_of_words(ws, cfg)[i]).2
                <= ws.last().0 + utf8(ws.last().1).len(),
    decreases ws.len(),
{
    if ws.len() > 0 {
        let init = ws.drop_last();
        assert(words_in_text(bytes, init)) by {
            assert forall|i: int| 0 <= i < init.len() implies word_at(
                bytes,
                init[i].0 as int,
                #[trigger] init[i].1,
            ) by {
                assert(init[i] == ws[i]);
            }
            assert forall|i: int| 0 <= i < init.len() - 1 implies #[trigger] init[i].0 + utf8(
                init[i].1,
            ).len() <= init[i + 1].0 by {
                assert(init[i] == ws[i]);
                assert(init[i + 1] == ws[i + 1]);
            }
        }
        lemma_tokens_of_words_in_text(bytes, init, cfg);
        let rest = tokens_of_words(init, cfg);
        let w = ws.last();
        let n = ws.len() - 1;
        assert(word_at(bytes, ws[n].0 as int, ws[n].1));
        if init.len() > 0 {
            assert(ws[n - 1] == init.last());
            assert(ws[n - 1].0 + utf8(ws[n - 1].1).len() <= ws[n].0);
        }
        if keeps_word(w.1, cfg) {
            let t = (lowercase(w.1), w.0 as int, w.0 + utf8(w.1).len());
            assert(utf8(w.1).len() > 0) by {
                vstd::utf8::encode_utf8_first_scalar(w.1);
                lemma_encode_nonempty(w.1);
            }
            assert(decode_utf8(bytes.subrange(t.1, t.2)) == w.1) by {
                vstd::utf8::encode_utf8_decode_utf8(w.1);
            }
            let all = rest.push(t);
            assert forall|i: int, j: int| 0 <= i < j < all.len() implies (#[trigger] all[i]).2 <= (
            #[trigger] all[j]).1 by {
                if j == all.len() - 1 {
                    assert(all[i] == rest[i]);
                } else {
                    assert(all[i] == rest[i]);
                    assert(all[j] == rest[j]);
                }
            }
            assert forall|i: int| 0 <= i < all.len() implies {
                &&& 0 <= (#[trigger] all[i]).1 < all[i].2 <= bytes.len()
                &&& is_char_boundary(bytes, all[i].1)
                &&& is_char_boundary(bytes, all[i].2)
                &&& all[i].0 == lowercase(decode_utf8(bytes.subrange(all[i].1, all[i].2)))
            } by {
                if i < rest.len() {
                    assert(all[i] == rest[i]);
                }
            }
        }
    }
}

/// A non-empty character sequence has a non-empty encoding.
pub proof fn lemma_encode_nonempty(w: Seq<char>)
    requires
        w.len() > 0,
    ensures
        utf8(w).len() > 0,
{
    crate::text::lemma_utf8_len_bounds(w);
}

/// One more word extends the token list by at most its own token.
proof fn lemma_tokens_step(ws: Seq<(usize, Seq<char>)>, i: int, cfg: TokenizerConfig)
    requires
        0 <= i < ws.len(),
    ensures
        tokens_of_words(ws.take(i + 1), cfg) == if keeps_word(ws[i].1, cfg) {
            tokens_of_words(ws.take(i), cfg).push(
                (lowercase(ws[i].1), ws[i].0 as int, ws[i].0 + utf8(ws[i].1).len()),
            )
        } else {
            tokens_of_words(ws.take(i), cfg)
        },
{
    assert(ws.take(i + 1).drop_last() =~= ws.take(i));
    assert(ws.take(i + 1).last() == ws[i]);
}

/// The words of a text are no more than its bytes.
pub proof fn lemma_word_count_bound(text: &str)
    requires
        words_in_text(text.spec_bytes(), unicode_words(text@)),
    ensures
        unicode_words(text@).len() <= text.spec_bytes().len(),
{
    let ws = unicode_words(text@);
    let bytes = text.spec_bytes();
    if ws.len() > 0 {
        assert forall|i: int| 0 <= i < ws.len() implies ws[i].0 >= i by {
            lemma_word_offset_grows(bytes, ws, i);
        }
        let n = ws.len() - 1;
        assert(word_at(bytes, ws[n].0 as int, ws[n].1));
        lemma_encode_nonempty(ws[n].1);
    }
}

proof fn lemma_word_offset_grows(bytes: Seq<u8>, ws: Seq<(usize, Seq<char>)>, i: int)
    requires
        words_in_text(bytes, ws),
        0 <= i < ws.len(),
    ensures
        ws[i].0 >= i,
    decreases i,
{
    if i > 0 {
        lemma_word_offset_grows(bytes, ws, i - 1);
        assert(word_at(bytes, ws[i - 1].0 as int, ws[i - 1].1));
        lemma_encode_nonempty(ws[i - 1].1);
        assert(ws[i - 1].0 + utf8(ws[i - 1].1).len() <= ws[i].0);
    }
}

/// The tokens of a text whose words are placed in it lie in it, and there
/// are no more of them than words, nor than bytes.
proof fn lemma_tokenize_facts(input: &str, cfg: TokenizerConfig)
    requires
        words_in_text(input.spec_bytes(), unicode_words(input@)),
    ensures
        tokens_in_text(input.spec_bytes(), spec_tokenize(input@, cfg)),
        spec_tokenize(input@, cfg).len() <= unicode_words(input@).len(),
        spec_tokenize(input@, cfg).len() <= input.spec_bytes().len(),
{
    lemma_tokens_of_words_in_text(input.spec_bytes(), unicode_words(input@), cfg);
    lemma_word_count_bound(input);
}

/// `cfg` with stopword dropping set to `drop`.
pub open spec fn with_stopword_dropping(cfg: TokenizerConfig, drop: bool) -> TokenizerConfig {
    TokenizerConfig { drop_punct: cfg.drop_punct, drop_stopwords: drop, min_len: cfg.min_len }
}

/// The tokens whose term is not a stopword, in order.
pub open spec fn without_stopwords(ts: Seq<(Seq<char>, int, int)>) -> Seq<(Seq<char>, int, int)>
    decreases ts.len(),
{
    if ts.len() == 0 {
        seq![]
    } else {
        let rest = without_stopwords(ts.drop_last());
        if is_stopword_spec(ts.last().0) {
            rest
        } else {
            rest.push(ts.last())
        }
    }
}

proof fn lemma_tokens_of_words_stopwords(ws: Seq<(usize, Seq<char>)>, cfg: TokenizerConfig)
    ensures
        tokens_of_words(ws, with_stopword_dropping(cfg, true)) == without_stopwords(
            tokens_of_words(ws, with_stopword_dropping(cfg, false)),
        ),
    decreases ws.len(),
{
    let on = with_stopword_dropping(cfg, true);
    let off = with_stopword_dropping(cfg, false);
    if ws.len() > 0 {
        lemma_tokens_of_words_stopwords(ws.drop_last(), cfg);
        let rest = tokens_of_words(ws.drop_last(), off);
        let rest_on = tokens_of_words(ws.drop_last(), on);
        let w = ws.last();
        if keeps_word(w.1, off) {
            let tok = (lowercase(w.1), w.0 as int, w.0 + utf8(w.1).len());
            assert(tokens_of_words(ws, off) == rest.push(tok));
            assert(rest.push(tok).drop_last() =~= rest);
            if is_stopword_spec(tok.0) {
                assert(!keeps_word(w.1, on));
                assert(tokens_of_words(ws, on) == rest_on);
            } else {
                assert(keeps_word(w.1, on));
                assert(tokens_of_words(ws, on) == rest_on.push(tok));
            }
        } else {
            assert(!keeps_word(w.1, on));
            assert(tokens_of_words(ws, on) == rest_on);
        }
    }
}

/// With stopword dropping on, the tokens of a text are its tokens with
/// stopword dropping off, less those whose term is a stopword, in the same
/// order.
pub proof fn lemma_stopword_filter(text: Seq<char>, cfg: TokenizerConfig)
    ensures
        spec_tokenize(text, with_stopword_dropping(cfg, true)) == without_stopwords(
            spec_tokenize(text, with_stopword_dropping(cfg, false)),
        ),
{
    lemma_tokens_of_words_stopwords(unicode_words(text), cfg);
}

proof fn lemma_kept_word_has_token(ws: Seq<(usize, Seq<char>)>, cfg: TokenizerConfig, k: int)
    requires
        0 <= k < ws.len(),
        keeps_word(ws[k].1, cfg),
    ensures
        tokens_of_words(ws, cfg).contains(
            (lowercase(ws[k].1), ws[k].0 as int, ws[k].0 + utf8(ws[k].1).len()),
        ),
    decreases ws.len(),
{
    let init = ws.drop_last();
    let rest = tokens_of_words(init, cfg);
    let w = ws.last();
    let tok = (lowercase(ws[k].1), ws[k].0 as int, ws[k].0 + utf8(ws[k].1).len());
    if k == ws.len() - 1 {
        assert(ws[k] == w);
        assert(rest.push(tok)[rest.len() as int] == tok);
    } else {
        assert(init[k] == ws[k]);
        lemma_kept_word_has_token(init, cfg, k);
        let m = rest.index_of(tok);
        if keeps_word(w.1, cfg) {
            let t = (lowercase(w.1), w.0 as int, w.0 + utf8(w.1).len());
            assert(rest.push(t)[m] == tok);
        }
    }
}

/// A word of the text that holds at least one alphanumeric character, is
/// long enough and (when stopwords are dropped) is not a stopword once
/// lowercased yields a token: its lowercase form with its byte range. In
/// particular, punctuation inside a word (as in "don't" or "3.14") does not
/// make the tokenizer drop it.
pub proof fn lemma_wordlike_word_is_kept(text: Seq<char>, cfg: TokenizerConfig, k: int)
    requires
        0 <= k < unicode_words(text).len(),
        exists|i: int|
            0 <= i < unicode_words(text)[k].1.len() && char_is_alphanumeric(
                #[trigger] unicode_words(text)[k].1[i],
            ),
        utf8(unicode_words(text)[k].1).len() >= cfg.min_len,
        !(cfg.drop_stopwords && stopword_list().contains(lowercase(unicode_words(text)[k].1))),
    ensures
        spec_tokenize(text, cfg).contains(
            (
                lowercase(unicode_words(text)[k].1),
                unicode_words(text)[k].0 as int,
                unicode_words(text)[k].0 + utf8(unicode_words(text)[k].1).len(),
            ),
        ),
{
    lemma_kept_word_has_token(unicode_words(text), cfg, k);
}

proof fn lemma_token_from_word(ws: Seq<(usize, Seq<char>)>, cfg: TokenizerConfig, i: int)
    requires
        0 <= i < tokens_of_words(ws, cfg).len(),
    ensures
        exists|k: int|
            0 <= k < ws.len() && tokens_of_words(ws, cfg)[i] == (
                lowercase((#[trigger] ws[k]).1),
                ws[k].0 as int,
                ws[k].0 + utf8(ws[k].1).len(),
            ) && utf8(ws[k].1).len() >= cfg.min_len && (cfg.drop_punct ==> exists|c: int|
                0 <= c < ws[k].1.len() && char_is_alphanumeric(#[trigger] ws[k].1[c])) && !(
            cfg.drop_stopwords && stopword_list().contains(lowercase(ws[k].1))),
    decreases ws.len(),
{
    let init = ws.drop_last();
    let rest = tokens_of_words(init, cfg);
    let n = ws.len() - 1;
    if i < rest.len() {
        lemma_token_from_word(init, cfg, i);
        let k = choose|k: int|
            0 <= k < init.len() && rest[i] == (
                lowercase((#[trigger] init[k]).1),
                init[k].0 as int,
                init[k].0 + utf8(init[k].1).len(),
            ) && utf8(init[k].1).len() >= cfg.min_len && (cfg.drop_punct ==> exists|c: int|
                0 <= c < init[k].1.len() && char_is_alphanumeric(#[trigger] init[k].1[c])) && !(
            cfg.drop_stopwords && stopword_list().contains(lowercase(init[k].1)));
        assert(init[k] == ws[k]);
        if keeps_word(ws.last().1, cfg) {
            let t = (lowercase(ws.last().1), ws.last().0 as int, ws.last().0 + utf8(ws.last().1).len());
            assert(rest.push(t)[i] == rest[i]);
        }
    } else {
        assert(ws[n] == ws.last());
    }
}

/// Every token comes from a word of the text: it is the word's lowercase
/// form with the word's byte range; the word is long enough, is not a
/// dropped stopword, and (when punctuation is dropped) holds an
/// alphanumeric character.
pub proof fn lemma_token_is_kept_word(text: Seq<char>, cfg: TokenizerConfig, i: int)
    requires
        0 <= i < spec_tokenize(text, cfg).len(),
    ensures
        exists|k: int|
            0 <= k < unicode_words(text).len() && spec_tokenize(text, cfg)[i] == (
                lowercase((#[trigger] unicode_words(text)[k]).1),
                unicode_words(text)[k].0 as int,
                unicode_words(text)[k].0 + utf8(unicode_words(text)[k].1).len(),
            ) && utf8(unicode_words(text)[k].1).len() >= cfg.min_len && (cfg.drop_punct
                ==> exists|c: int|
                0 <= c < unicode_words(text)[k].1.len() && char_is_alphanumeric(
                    #[trigger] unicode_words(text)[k].1[c],
                )) && !(cfg.drop_stopwords && stopword_list().contains(
                lowercase(unicode_words(text)[k].1),
            )),
{
    lemma_token_from_word(unicode_words(text), cfg, i);
}

/// A placed word ends within the text.
proof fn lemma_word_end(bytes: Seq<u8>, ws: Seq<(usize, Seq<char>)>, i: int)
    requires
        words_in_text(bytes, ws),
        0 <= i < ws.len(),
    ensures
        ws[i].0 + utf8(ws[i].1).len() <= bytes.len(),
        ws[i].0 + utf8(ws[i].1).len() <= usize::MAX,
{
    assert(word_at(bytes, ws[i].0 as int, ws[i].1));
}

/// Tokenize `input` according to `config`.
///
/// The tokens are those of [`spec_tokenize`]: the words of the input that
/// pass the filters, lowercased, in document order, each with the byte
/// range of its word in the input.
pub fn tokenize(input: &str, config: &TokenizerConfig) -> (r: Vec<Token>)
    ensures
        r.deep_view() == spec_tokenize(input@, *config),
        tokens_in_text(input.spec_bytes(), r.deep_view()),
        r.len() <= unicode_words(input@).len(),
        r.len() <= input.spec_bytes().len(),
{
    let words = word_indices(input);
    let ghost ws = words.deep_view();
    let mut out: Vec<Token> = Vec::new();
    let mut i: usize = 0;
    while i < words.len()
        invariant
            ws == words.deep_view(),
            ws == unicode_words(input@),
            words_in_text(input.spec_bytes(), ws),
            0 <= i <= words.len(),
            out.deep_view() == tokens_of_words(ws.take(i as int), *config),
        decreases words.len() - i,
    {
        let (start, word) = words[i];
        assert(ws[i as int] == (start, word@));
        proof {
            lemma_tokens_step(ws, i as int, *config);
        }
        proof {
            lemma_word_end(input.spec_bytes(), ws, i as int);
        }
        let keep_punct = !(config.drop_punct && !is_wordlike(word));
        if keep_punct && word.len() >= config.min_len {
            let term = to_lowercase(word);
            if !(config.drop_stopwords && is_stopword(term.as_str())) {
                let end = start + word.len();
                let tok = Token { term, start, end };
                let ghost before = out.deep_view();
                out.push(tok);
                assert(out.deep_view() =~= before.push(tok.deep_view()));
            }
        }
        i = i + 1;
    }
    assert(ws.take(words.len() as int) =~= ws);
    proof {
        lemma_tokenize_facts(input, *config);
    }
    out
}

/// Tokenize using the default configuration.
pub fn tokenize_default(input: &str) -> (r: Vec<Token>)
    ensures
        r.deep_view() == spec_tokenize(input@, TokenizerConfig::default_spec()),
        tokens_in_text(input.spec_bytes(), r.deep_view()),
{
    let config = TokenizerConfig::default();
    tokenize(input, &config)
}

} // verus!
