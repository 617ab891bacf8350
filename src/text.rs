use vstd::prelude::*;
use vstd::std_specs::iter::IteratorSpec;
use std::collections::hash_map::DefaultHasher;
use std::hash::Hasher;
use vstd::std_specs::hash::DefaultHasherAdditionalSpecFns;

verus! {

broadcast use vstd::string::group_string_axioms;

/// Whether `needle` occurs in `hay` at position `i`.
pub open spec fn occurs_at(hay: Seq<char>, needle: Seq<char>, i: int) -> bool {
    0 <= i && i + needle.len() <= hay.len() && hay.subrange(i, i + needle.len()) == needle
}

/// Whether `needle` occurs anywhere in `hay`.
pub open spec fn has_substring(hay: Seq<char>, needle: Seq<char>) -> bool {
    exists|i: int| occurs_at(hay, needle, i)
}

/// The characters of `s`.
pub fn chars_of(s: &str) -> (r: Vec<char>)
    ensures
        r@ == s@,
{
    let mut it = s.chars();
    let mut out: Vec<char> = Vec::new();
    loop
        invariant
            out@ + it.remaining() == s@,
            it.obeys_prophetic_iter_laws(),
            it.decrease() is Some,
        decreases it.decrease()->0,
    {
        let ghost prev = it;
        match it.next() {
            Some(c) => {
                out.push(c);
                assert(out@ + it.remaining() == s@) by {
                    assert(prev.remaining() == seq![c] + it.remaining());
                }
            },
            None => {
                return out;
            },
        }
    }
}

/// Relies on `String::push`: appends one character.
#[verifier::external_body]
pub(crate) fn push_char(s: &mut String, c: char)
    ensures
        final(s)@ == old(s)@.push(c),
{
    s.push(c)
}

/// A string of the characters `v[lo..hi]`.
pub fn string_of(v: &Vec<char>, lo: usize, hi: usize) -> (r: String)
    requires
        lo <= hi <= v@.len(),
    ensures
        r@ == v@.subrange(lo as int, hi as int),
{
    let mut s = String::new();
    let mut i = lo;
    while i < hi
        invariant
            lo <= i <= hi <= v@.len(),
            s@ == v@.subrange(lo as int, i as int),
        decreases hi - i,
    {
        push_char(&mut s, v[i]);
        assert(v@.subrange(lo as int, i + 1) == v@.subrange(lo as int, i as int).push(v@[i as int]));
        i = i + 1;
    }
    s
}

/// Whether `needle` occurs in `hay` at position `i`.
pub fn occurs_at_exec(hay: &Vec<char>, needle: &Vec<char>, i: usize) -> (r: bool)
    ensures
        r == occurs_at(hay@, needle@, i as int),
{
    if i > hay.len() || needle.len() > hay.len() - i {
        return false;
    }
    let mut k: usize = 0;
    while k < needle.len()
        invariant
            i + needle@.len() <= hay@.len(),
            hay@.len() <= usize::MAX,
            k <= needle@.len(),
            forall|m: int| 0 <= m < k ==> hay@[i + m] == needle@[m],
        decreases needle@.len() - k,
    {
        if hay[i + k] != needle[k] {
            assert(hay@.subrange(i as int, i + needle@.len())[k as int] != needle@[k as int]);
            return false;
        }
        k = k + 1;
    }
    assert(hay@.subrange(i as int, i + needle@.len()) =~= needle@);
    true
}

/// Whether `needle` occurs anywhere in `hay`.
pub fn contains_chars(hay: &Vec<char>, needle: &Vec<char>) -> (r: bool)
    ensures
        r == has_substring(hay@, needle@),
{
    let mut i: usize = 0;
    while i < hay.len()
        invariant
            i <= hay@.len(),
            forall|m: int| 0 <= m < i ==> !occurs_at(hay@, needle@, m),
        decreases hay@.len() - i,
    {
        if occurs_at_exec(hay, needle, i) {
            return true;
        }
        i = i + 1;
    }
    let last = occurs_at_exec(hay, needle, i);
    assert(!last ==> forall|m: int| !occurs_at(hay@, needle@, m));
    last
}

/// Whether the string `needle` occurs in the string `hay`.
pub fn str_contains(hay: &str, needle: &str) -> (r: bool)
    ensures
        r == has_substring(hay@, needle@),
{
    let h = chars_of(hay);
    let n = chars_of(needle);
    contains_chars(&h, &n)
}

/// Unicode `White_Space`, the characters that `char::is_whitespace` accepts.
pub open spec fn is_ws(c: char) -> bool {
    ||| '\u{9}' <= c <= '\u{d}'
    ||| c == ' ' || c == '\u{85}' || c == '\u{a0}' || c == '\u{1680}'
    ||| '\u{2000}' <= c <= '\u{200a}'
    ||| c == '\u{2028}' || c == '\u{2029}' || c == '\u{202f}' || c == '\u{205f}' || c == '\u{3000}'
}

pub fn is_ws_exec(c: char) -> (r: bool)
    ensures
        r == is_ws(c),
{
    ('\u{9}' <= c && c <= '\u{d}') || c == ' ' || c == '\u{85}' || c == '\u{a0}' || c == '\u{1680}'
        || ('\u{2000}' <= c && c <= '\u{200a}') || c == '\u{2028}' || c == '\u{2029}'
        || c == '\u{202f}' || c == '\u{205f}' || c == '\u{3000}'
}

/// `s` has no whitespace at either end.
pub open spec fn is_trimmed(s: Seq<char>) -> bool {
    s.len() > 0 ==> !is_ws(s[0]) && !is_ws(s[s.len() - 1])
}

/// `v[a..b]` is `v[lo..hi]` without the whitespace at its ends.
pub open spec fn trims_to(v: Seq<char>, lo: int, hi: int, a: int, b: int) -> bool {
    &&& lo <= a <= b <= hi
    &&& forall|i: int| lo <= i < a ==> is_ws(#[trigger] v[i])
    &&& forall|i: int| b <= i < hi ==> is_ws(#[trigger] v[i])
    &&& a < b ==> !is_ws(v[a]) && !is_ws(v[b - 1])
}

/// `s` without the whitespace at its start.
pub open spec fn trim_start(s: Seq<char>) -> Seq<char>
    decreases s.len(),
{
    if s.len() > 0 && is_ws(s[0]) { trim_start(s.drop_first()) } else { s }
}

/// `s` without the whitespace at its end.
pub open spec fn trim_end(s: Seq<char>) -> Seq<char>
    decreases s.len(),
{
    if s.len() > 0 && is_ws(s.last()) { trim_end(s.drop_last()) } else { s }
}

/// `s` without the whitespace at its ends.
pub open spec fn trim(s: Seq<char>) -> Seq<char> {
    trim_end(trim_start(s))
}

proof fn lemma_trim_start_at(v: Seq<char>, lo: int, a: int, hi: int)
    requires
        0 <= lo <= a <= hi <= v.len(),
        forall|i: int| lo <= i < a ==> is_ws(#[trigger] v[i]),
        a < hi ==> !is_ws(v[a]),
    ensures
        trim_start(v.subrange(lo, hi)) == v.subrange(a, hi),
    decreases a - lo,
{
    if lo < a {
        assert(v.subrange(lo, hi).drop_first() == v.subrange(lo + 1, hi));
        lemma_trim_start_at(v, lo + 1, a, hi);
    }
}

proof fn lemma_trim_end_at(v: Seq<char>, a: int, b: int, hi: int)
    requires
        0 <= a <= b <= hi <= v.len(),
        forall|i: int| b <= i < hi ==> is_ws(#[trigger] v[i]),
        a < b ==> !is_ws(v[b - 1]),
    ensures
        trim_end(v.subrange(a, hi)) == v.subrange(a, b),
    decreases hi - b,
{
    if b < hi {
        assert(v.subrange(a, hi).drop_last() == v.subrange(a, hi - 1));
        lemma_trim_end_at(v, a, b, hi - 1);
    }
}

/// The bounds `trim_range` finds are those of `trim`.
pub proof fn lemma_trims_to_trim(v: Seq<char>, lo: int, hi: int, a: int, b: int)
    requires
        0 <= lo,
        hi <= v.len(),
        trims_to(v, lo, hi, a, b),
    ensures
        trim(v.subrange(lo, hi)) == v.subrange(a, b),
{
    if a < b {
        lemma_trim_start_at(v, lo, a, hi);
        lemma_trim_end_at(v, a, b, hi);
    } else {
        assert forall|i: int| lo <= i < hi implies is_ws(#[trigger] v[i]) by {
            if i >= a {
                assert(i >= b);
            }
        }
        lemma_trim_start_at(v, lo, hi, hi);
        assert(v.subrange(hi, hi).len() == 0);
        assert(v.subrange(a, b) =~= v.subrange(hi, hi));
    }
}

/// Bounds of `v[lo..hi]` without the whitespace at its ends.
pub fn trim_range(v: &Vec<char>, lo: usize, hi: usize) -> (r: (usize, usize))
    requires
        lo <= hi <= v@.len(),
    ensures
        trims_to(v@, lo as int, hi as int, r.0 as int, r.1 as int),
{
    let mut a = lo;
    while a < hi && is_ws_exec(v[a])
        invariant
            lo <= a <= hi <= v@.len(),
            forall|i: int| lo <= i < a ==> is_ws(#[trigger] v@[i]),
        decreases hi - a,
    {
        a = a + 1;
    }
    let mut b = hi;
    while b > a && is_ws_exec(v[b - 1])
        invariant
            lo <= a <= b <= hi <= v@.len(),
            a < hi ==> !is_ws(v@[a as int]),
            forall|i: int| b <= i < hi ==> is_ws(#[trigger] v@[i]),
        decreases b - a,
    {
        b = b - 1;
    }
    (a, b)
}

/// Collapsing whitespace, one character at a time: the text produced so
/// far, and whether a gap is pending before the next word.
pub open spec fn collapse_state(s: Seq<char>) -> (Seq<char>, bool)
    decreases s.len(),
{
    if s.len() == 0 {
        (Seq::empty(), false)
    } else {
        let (out, gap) = collapse_state(s.drop_last());
        let c = s.last();
        if is_ws(c) {
            (out, out.len() > 0)
        } else if gap {
            (out.push(' ').push(c), false)
        } else {
            (out.push(c), false)
        }
    }
}

/// The words of `s` joined by single spaces.
pub open spec fn collapse_ws(s: Seq<char>) -> Seq<char> {
    collapse_state(s).0
}

/// The words of `v[lo..hi]` joined by single spaces.
pub fn collapse_ws_exec(v: &Vec<char>, lo: usize, hi: usize) -> (r: Vec<char>)
    requires
        lo <= hi <= v@.len(),
    ensures
        r@ == collapse_ws(v@.subrange(lo as int, hi as int)),
{
    let mut out: Vec<char> = Vec::new();
    let mut gap = false;
    let mut i = lo;
    while i < hi
        invariant
            lo <= i <= hi <= v@.len(),
            (out@, gap) == collapse_state(v@.subrange(lo as int, i as int)),
        decreases hi - i,
    {
        assert(v@.subrange(lo as int, i + 1).drop_last() == v@.subrange(lo as int, i as int));
        let c = v[i];
        if is_ws_exec(c) {
            gap = out.len() > 0;
        } else {
            if gap {
                out.push(' ');
            }
            out.push(c);
            gap = false;
        }
        i = i + 1;
    }
    out
}

/// What `str::to_lowercase` returns for `s`.
pub uninterp spec fn lower_of(s: Seq<char>) -> Seq<char>;

/// Relies on `str::to_lowercase`: the lowercase form of the text, which
/// depends on its characters alone; the empty text stays empty.
#[verifier::external_body]
pub(crate) fn lowercase(s: &str) -> (r: String)
    ensures
        r@ == lower_of(s@),
        s@.len() == 0 ==> r@.len() == 0,
{
    s.to_lowercase()
}

/// The 64-bit fingerprint of a text: `DefaultHasher` over its UTF-8 bytes.
pub open spec fn fingerprint(s: Seq<char>) -> u64 {
    DefaultHasher::spec_finish(seq![vstd::utf8::encode_utf8(s)])
}

/// The text a chunk is fingerprinted by: its words, lowercased, joined by
/// single spaces.
pub open spec fn content_key(s: Seq<char>) -> Seq<char> {
    lower_of(collapse_ws(s))
}

/// Fingerprint of the words of `v[lo..hi]`, lowercased and joined by single
/// spaces.
pub fn content_fingerprint(v: &Vec<char>, lo: usize, hi: usize) -> (r: u64)
    requires
        lo <= hi <= v@.len(),
    ensures
        r == fingerprint(content_key(v@.subrange(lo as int, hi as int))),
{
    let words = collapse_ws_exec(v, lo, hi);
    let len = words.len();
    let joined = string_of(&words, 0, len);
    assert(words@.subrange(0, len as int) == words@);
    let lowered = lowercase(joined.as_str());
    let mut hasher = DefaultHasher::new();
    hasher.write(lowered.as_str().as_bytes());
    hasher.finish()
}

} // verus!
