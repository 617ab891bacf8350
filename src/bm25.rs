use vstd::prelude::*;
use vstd::string::StringExecFns;
use crate::text::{chars_of, is_ws, is_ws_exec, lower_of, lowercase, string_of};

verus! {

/// What `char::is_alphanumeric` says of `c`.
pub uninterp spec fn alphanumeric(c: char) -> bool;

/// Relies on `char::is_alphanumeric`, which depends on the character alone.
#[verifier::external_body]
fn is_alphanumeric(c: char) -> (r: bool)
    ensures
        r == alphanumeric(c),
{
    c.is_alphanumeric()
}

/// Splitting into words, one character at a time: the finished words and
/// the word being read.
pub open spec fn words_state(s: Seq<char>) -> (Seq<Seq<char>>, Seq<char>)
    decreases s.len(),
{
    if s.len() == 0 {
        (Seq::empty(), Seq::empty())
    } else {
        let (done, cur) = words_state(s.drop_last());
        let c = s.last();
        if is_ws(c) {
            (if cur.len() > 0 { done.push(cur) } else { done }, Seq::empty())
        } else {
            (done, cur.push(c))
        }
    }
}

/// The maximal runs of non-whitespace characters of `s`.
pub open spec fn words(s: Seq<char>) -> Seq<Seq<char>> {
    let (done, cur) = words_state(s);
    if cur.len() > 0 { done.push(cur) } else { done }
}

pub open spec fn strip_front(w: Seq<char>) -> Seq<char>
    decreases w.len(),
{
    if w.len() > 0 && !alphanumeric(w[0]) { strip_front(w.drop_first()) } else { w }
}

pub open spec fn strip_back(w: Seq<char>) -> Seq<char>
    decreases w.len(),
{
    if w.len() > 0 && !alphanumeric(w.last()) { strip_back(w.drop_last()) } else { w }
}

/// A word without the non-alphanumeric characters at its ends.
pub open spec fn strip_word(w: Seq<char>) -> Seq<char> {
    strip_back(strip_front(w))
}

/// The stripped words of `ws` that are not empty.
pub open spec fn kept_tokens(ws: Seq<Seq<char>>) -> Seq<Seq<char>>
    decreases ws.len(),
{
    if ws.len() == 0 {
        Seq::empty()
    } else {
        let rest = kept_tokens(ws.drop_last());
        let t = strip_word(ws.last());
        if t.len() > 0 { rest.push(t) } else { rest }
    }
}

/// The tokens of a text: its lowercase form split at whitespace, each word
/// stripped of non-alphanumeric characters at its ends, empty ones dropped.
pub open spec fn tokens_of(s: Seq<char>) -> Seq<Seq<char>> {
    kept_tokens(words(lower_of(s)))
}

/// The words of `v`.
fn split_words(v: &Vec<char>) -> (r: Vec<Vec<char>>)
    ensures
        r@.len() == words(v@).len(),
        forall|k: int| 0 <= k < r@.len() ==> (#[trigger] r@[k])@ == words(v@)[k],
{
    let mut done: Vec<Vec<char>> = Vec::new();
    let mut cur: Vec<char> = Vec::new();
    let mut i: usize = 0;
    while i < v.len()
        invariant
            i <= v@.len(),
            done@.len() == words_state(v@.take(i as int)).0.len(),
            forall|k: int| 0 <= k < done@.len() ==> (#[trigger] done@[k])@ == words_state(v@.take(i as int)).0[k],
            cur@ == words_state(v@.take(i as int)).1,
        decreases v@.len() - i,
    {
        assert(v@.take(i + 1).drop_last() == v@.take(i as int));
        assert(v@.take(i + 1).last() == v@[i as int]);
        if is_ws_exec(v[i]) {
            if cur.len() > 0 {
                let w = cur;
                done.push(w);
            }
            cur = Vec::new();
        } else {
            cur.push(v[i]);
        }
        i = i + 1;
    }
    assert(v@.take(v@.len() as int) == v@);
    if cur.len() > 0 {
        done.push(cur);
    }
    done
}

/// `w` without the non-alphanumeric characters at its ends.
fn strip(w: &Vec<char>) -> (r: Vec<char>)
    ensures
        r@ == strip_word(w@),
{
    let n = w.len();
    let mut a: usize = 0;
    assert(w@.subrange(0, n as int) == w@);
    while a < n && !is_alphanumeric(w[a])
        invariant
            a <= n == w@.len(),
            strip_front(w@) == strip_front(w@.subrange(a as int, n as int)),
        decreases n - a,
    {
        assert(w@.subrange(a as int, n as int).drop_first() == w@.subrange(a + 1, n as int));
        a = a + 1;
    }
    assert(strip_front(w@) == w@.subrange(a as int, n as int));
    let ghost f = w@.subrange(a as int, n as int);
    let mut b: usize = n;
    while b > a && !is_alphanumeric(w[b - 1])
        invariant
            a <= b <= n == w@.len(),
            f == w@.subrange(a as int, n as int),
            strip_back(f) == strip_back(w@.subrange(a as int, b as int)),
        decreases b - a,
    {
        assert(w@.subrange(a as int, b as int).drop_last() == w@.subrange(a as int, b - 1));
        b = b - 1;
    }
    assert(strip_back(f) == w@.subrange(a as int, b as int));
    let mut out: Vec<char> = Vec::new();
    let mut k = a;
    while k < b
        invariant
            a <= k <= b <= w@.len(),
            out@ == w@.subrange(a as int, k as int),
        decreases b - k,
    {
        out.push(w[k]);
        assert(w@.subrange(a as int, k + 1) == w@.subrange(a as int, k as int).push(w@[k as int]));
        k = k + 1;
    }
    out
}

/// The tokens of `text` (see `tokens_of`).
pub fn tokenize(text: &str) -> (r: Vec<String>)
    ensures
        r@.len() == tokens_of(text@).len(),
        forall|k: int| 0 <= k < r@.len() ==> (#[trigger] r@[k])@ == tokens_of(text@)[k],
{
    let lowered = lowercase(text);
    let v = chars_of(lowered.as_str());
    let ws = split_words(&v);
    let ghost wv = words(v@);
    let mut out: Vec<String> = Vec::new();
    let mut i: usize = 0;
    while i < ws.len()
        invariant
            i <= ws@.len(),
            ws@.len() == wv.len(),
            forall|k: int| 0 <= k < ws@.len() ==> (#[trigger] ws@[k])@ == wv[k],
            out@.len() == kept_tokens(wv.take(i as int)).len(),
            forall|k: int| 0 <= k < out@.len() ==> (#[trigger] out@[k])@ == kept_tokens(wv.take(i as int))[k],
        decreases ws@.len() - i,
    {
        assert(wv.take(i + 1).drop_last() == wv.take(i as int));
        assert(wv.take(i + 1).last() == wv[i as int]);
        let t = strip(&ws[i]);
        if t.len() > 0 {
            let n = t.len();
            let s = string_of(&t, 0, n);
            assert(t@.subrange(0, n as int) == t@);
            out.push(s);
        }
        i = i + 1;
    }
    assert(wv.take(wv.len() as int) == wv);
    out
}

/// Occurrences of the token `t` in the token list `ts`.
pub open spec fn term_count(ts: Seq<Seq<char>>, t: Seq<char>) -> nat
    decreases ts.len(),
{
    if ts.len() == 0 { 0 } else { term_count(ts.drop_last(), t) + if ts.last() == t { 1nat } else { 0nat } }
}

/// Number of the documents (token lists) of `docs` holding the token `t`.
pub open spec fn doc_freq(docs: Seq<Seq<Seq<char>>>, t: Seq<char>) -> nat
    decreases docs.len(),
{
    if docs.len() == 0 { 0 } else { doc_freq(docs.drop_last(), t) + if term_count(docs.last(), t) > 0 { 1nat } else { 0nat } }
}

/// The ratio `(n - df + 0.5) / (df + 0.5)` under the logarithm of the
/// inverse document frequency is below one, so the IDF is negative.
pub open spec fn idf_negative(n: int, df: int) -> bool {
    2 * (n - df) + 1 < 2 * df + 1
}

pub open spec fn token_view(v: Seq<String>) -> Seq<Seq<char>> {
    v.map_values(|s: String| s@)
}

/// The per-document token counts a BM25 ranking needs: for each document
/// its id and tokens, from which term frequencies, document frequencies
/// and lengths are read.
pub struct BM25Index {
    ids: Vec<String>,
    docs: Vec<Vec<String>>,
}

impl BM25Index {
    /// The token lists of the documents, in the order they were added.
    pub closed spec fn view_docs(&self) -> Seq<Seq<Seq<char>>> {
        self.docs@.map_values(|d: Vec<String>| token_view(d@))
    }

    pub closed spec fn view_ids(&self) -> Seq<String> {
        self.ids@
    }

    pub open spec fn wf(&self) -> bool {
        self.view_ids().len() == self.view_docs().len()
    }

    pub fn new() -> (r: BM25Index)
        ensures
            r.wf(),
            r.view_docs().len() == 0,
    {
        BM25Index { ids: Vec::new(), docs: Vec::new() }
    }

    /// Adds a document with its tokens (see `tokens_of`).
    pub fn add_document(&mut self, doc_id: &str, content: &str)
        requires
            old(self).wf(),
        ensures
            final(self).wf(),
            final(self).view_docs() == old(self).view_docs().push(tokens_of(content@)),
            final(self).view_ids().len() == old(self).view_ids().len() + 1,
            final(self).view_ids().last()@ == doc_id@,
    {
        let tokens = tokenize(content);
        let ghost old_docs = self.docs@;
        self.ids.push(String::from_str(doc_id));
        self.docs.push(tokens);
        proof {
            assert(token_view(self.docs@.last()@) =~= tokens_of(content@));
            assert(self.view_docs() =~= old(self).view_docs().push(tokens_of(content@)));
        }
    }

    pub fn doc_count(&self) -> (r: usize)
        ensures
            r == self.view_docs().len(),
    {
        self.docs.len()
    }

    /// The id of document `i`.
    pub fn doc_id(&self, i: usize) -> (r: &String)
        requires
            self.wf(),
            i < self.view_docs().len(),
        ensures
            *r == self.view_ids()[i as int],
    {
        &self.ids[i]
    }

    /// Number of tokens of document `i`.
    pub fn doc_length(&self, i: usize) -> (r: usize)
        requires
            i < self.view_docs().len(),
        ensures
            r == self.view_docs()[i as int].len(),
    {
        self.docs[i].len()
    }

    /// Occurrences of `token` in document `i`.
    pub fn term_frequency(&self, i: usize, token: &String) -> (r: usize)
        requires
            i < self.view_docs().len(),
        ensures
            r == term_count(self.view_docs()[i as int], token@),
    {
        let d = &self.docs[i];
        let ghost tv = token_view(d@);
        assert(tv == self.view_docs()[i as int]);
        let mut count: usize = 0;
        let mut k: usize = 0;
        while k < d.len()
            invariant
                k <= d@.len(),
                tv == token_view(d@),
                count == term_count(tv.take(k as int), token@),
                count <= k,
            decreases d@.len() - k,
        {
            assert(tv.take(k + 1).drop_last() == tv.take(k as int));
            if d[k] == *token {
                count = count + 1;
            }
            k = k + 1;
        }
        assert(tv.take(d@.len() as int) == tv);
        count
    }

    /// Number of documents holding `token`.
    pub fn document_frequency(&self, token: &String) -> (r: usize)
        ensures
            r == doc_freq(self.view_docs(), token@),
    {
        let ghost dv = self.view_docs();
        let mut count: usize = 0;
        let mut i: usize = 0;
        while i < self.docs.len()
            invariant
                i <= self.docs@.len(),
                dv == self.view_docs(),
                dv.len() == self.docs@.len(),
                count == doc_freq(dv.take(i as int), token@),
                count <= i,
            decreases self.docs@.len() - i,
        {
            assert(dv.take(i + 1).drop_last() == dv.take(i as int));
            assert(dv.take(i + 1).last() == dv[i as int]);
            if self.term_frequency(i, token) > 0 {
                count = count + 1;
            }
            i = i + 1;
        }
        assert(dv.take(dv.len() as int) == dv);
        count
    }
}

/// BM25 at its extremes: a query token that no document holds occurs in
/// none, so it adds nothing to any score; a token that every document of a
/// non-empty index holds has a document frequency equal to the number of
/// documents, and so a negative inverse document frequency.
pub proof fn lemma_bm25_extreme_tokens(docs: Seq<Seq<Seq<char>>>, t: Seq<char>)
    ensures
        doc_freq(docs, t) == 0 ==> forall|i: int| 0 <= i < docs.len() ==> term_count(#[trigger] docs[i], t) == 0,
        docs.len() > 0 && (forall|i: int| 0 <= i < docs.len() ==> term_count(#[trigger] docs[i], t) > 0)
            ==> doc_freq(docs, t) == docs.len() && idf_negative(docs.len() as int, doc_freq(docs, t) as int),
    decreases docs.len(),
{
    if docs.len() > 0 {
        lemma_bm25_extreme_tokens(docs.drop_last(), t);
        let rest = docs.drop_last();
        assert forall|i: int| 0 <= i < rest.len() implies #[trigger] rest[i] == docs[i] by {}
        if doc_freq(docs, t) == 0 {
            assert forall|i: int| 0 <= i < docs.len() implies term_count(#[trigger] docs[i], t) == 0 by {
                if i < rest.len() {
                    assert(rest[i] == docs[i]);
                }
            }
        }
        if forall|i: int| 0 <= i < docs.len() ==> term_count(#[trigger] docs[i], t) > 0 {
            assert(term_count(docs[docs.len() - 1], t) > 0);
            assert forall|i: int| 0 <= i < rest.len() implies term_count(#[trigger] rest[i], t) > 0 by {
                assert(rest[i] == docs[i]);
            }
        }
    }
}

} // verus!
