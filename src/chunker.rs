use vstd::prelude::*;
use std::collections::HashSet;
use crate::chunking::{opt_view, contains_code, has_code_marker, line_ranges, paragraph_ranges};
use crate::text::{
    chars_of, contains_chars, content_fingerprint, content_key, fingerprint, has_substring, is_ws,
    lower_of, lowercase, string_of, trim_range, trims_to, trim, lemma_trims_to_trim,
};

verus! {

broadcast use vstd::std_specs::hash::group_hash_axioms;

/// What `char::is_alphabetic` says of `c` (the Unicode `Alphabetic`
/// property).
pub uninterp spec fn alphabetic(c: char) -> bool;

/// Relies on `char::is_alphabetic`, which depends on the character alone.
#[verifier::external_body]
fn is_alphabetic(c: char) -> (r: bool)
    ensures
        r == alphabetic(c),
{
    c.is_alphabetic()
}

/// ASCII punctuation, as `char::is_ascii_punctuation` has it.
pub open spec fn is_punct(c: char) -> bool {
    ('!' <= c <= '/') || (':' <= c <= '@') || ('[' <= c <= '`') || ('{' <= c <= '~')
}

fn is_punct_exec(c: char) -> (r: bool)
    ensures
        r == is_punct(c),
{
    ('!' <= c && c <= '/') || (':' <= c && c <= '@') || ('[' <= c && c <= '`') || ('{' <= c && c <= '~')
}

/// Number of characters of `s` for which `p` holds.
pub open spec fn count_where(s: Seq<char>, p: spec_fn(char) -> bool) -> nat
    decreases s.len(),
{
    if s.len() == 0 { 0 } else { count_where(s.drop_last(), p) + if p(s.last()) { 1nat } else { 0nat } }
}

/// The pieces of `s` between line feeds.
pub open spec fn split_lines(s: Seq<char>) -> Seq<Seq<char>>
    decreases s.len(),
{
    if s.len() == 0 {
        seq![Seq::<char>::empty()]
    } else {
        let p = split_lines(s.drop_last());
        if s.last() == '\n' {
            p.push(Seq::<char>::empty())
        } else {
            p.update(p.len() - 1, p.last().push(s.last()))
        }
    }
}

/// A line without the carriage return that ended it.
pub open spec fn strip_cr(l: Seq<char>) -> Seq<char> {
    if l.len() > 0 && l.last() == '\r' { l.drop_last() } else { l }
}

/// Number of the first `n` lines that differ from every line before them.
pub open spec fn distinct_lines(ls: Seq<Seq<char>>, n: int) -> nat
    decreases n,
{
    if n <= 0 {
        0
    } else {
        distinct_lines(ls, n - 1) + if (exists|j: int| 0 <= j < n - 1 && #[trigger] ls[j] == ls[n - 1]) { 0nat } else { 1nat }
    }
}

/// Phrases that mark site navigation rather than content.
pub open spec fn nav_phrase(s: Seq<char>) -> bool {
    ||| has_substring(s, "skip to"@)
    ||| has_substring(s, "toggle"@)
    ||| has_substring(s, "menu"@)
    ||| has_substring(s, "navigation"@)
    ||| has_substring(s, "breadcrumb"@)
    ||| has_substring(s, "| next |"@)
    ||| has_substring(s, "| previous |"@)
    ||| has_substring(s, "| index |"@)
    ||| has_substring(s, "table of contents"@)
}

/// Whether the trimmed text `t` is worth keeping: at least `min` characters,
/// at least a third of them alphabetic, no navigation phrase once
/// lowercased, no more ASCII punctuation than letters, and, over several
/// lines, at least half of the lines distinct.
pub open spec fn quality_trimmed(t: Seq<char>, min: nat) -> bool {
    let alpha = count_where(t, |c: char| alphabetic(c));
    let lines = split_lines(t).map_values(|l: Seq<char>| strip_cr(l));
    &&& t.len() >= min
    &&& alpha >= t.len() / 3
    &&& !nav_phrase(lower_of(t))
    &&& count_where(t, |c: char| is_punct(c)) <= alpha
    &&& lines.len() > 1 ==> distinct_lines(lines, lines.len() as int) >= lines.len() / 2
}

/// `quality_trimmed` of `s` without the whitespace at its ends.
pub open spec fn is_quality(s: Seq<char>, min: nat) -> bool {
    exists|a: int, b: int| trims_to(s, 0, s.len() as int, a, b) && quality_trimmed(s.subrange(a, b), min)
}

/// The trimmed form of `v[lo..hi]` is unique: no two trims.
proof fn lemma_trim_unique(v: Seq<char>, lo: int, hi: int, a: int, b: int, a2: int, b2: int)
    requires
        trims_to(v, lo, hi, a, b),
        trims_to(v, lo, hi, a2, b2),
    ensures
        a < b ==> a == a2 && b == b2,
        a == b ==> a2 == b2,
{
    if a < b {
        if a2 < a {
            assert(is_ws(v[a2]));
        }
        if a < a2 {
            assert(is_ws(v[a]));
        }
        if b2 > b {
            assert(is_ws(v[b2 - 1]));
        }
        if b2 < b {
            assert(is_ws(v[b - 1]));
        }
    } else {
        if a2 < b2 {
            assert(is_ws(v[a2]));
        }
    }
}

fn count_alpha_punct(v: &Vec<char>) -> (r: (usize, usize))
    ensures
        r.0 == count_where(v@, |c: char| alphabetic(c)),
        r.1 == count_where(v@, |c: char| is_punct(c)),
{
    let mut alpha: usize = 0;
    let mut punct: usize = 0;
    let mut i: usize = 0;
    while i < v.len()
        invariant
            i <= v@.len(),
            alpha == count_where(v@.take(i as int), |c: char| alphabetic(c)),
            punct == count_where(v@.take(i as int), |c: char| is_punct(c)),
            alpha <= i,
            punct <= i,
        decreases v@.len() - i,
    {
        assert(v@.take(i + 1).drop_last() == v@.take(i as int));
        if is_alphabetic(v[i]) {
            alpha = alpha + 1;
        }
        if is_punct_exec(v[i]) {
            punct = punct + 1;
        }
        i = i + 1;
    }
    assert(v@.take(v@.len() as int) == v@);
    (alpha, punct)
}

/// The lines of `v`, as `split_lines` and `strip_cr` make them.
fn lines_of(v: &Vec<char>) -> (r: Vec<Vec<char>>)
    ensures
        r@.len() == split_lines(v@).len(),
        forall|k: int| 0 <= k < r@.len() ==> (#[trigger] r@[k])@ == strip_cr(split_lines(v@)[k]),
{
    let mut done: Vec<Vec<char>> = Vec::new();
    let mut cur: Vec<char> = Vec::new();
    let mut i: usize = 0;
    proof { lemma_split_lines_nonempty(v@.take(0)); }
    while i < v.len()
        invariant
            i <= v@.len(),
            split_lines(v@.take(i as int)).len() == done@.len() + 1,
            forall|k: int| 0 <= k < done@.len() ==> (#[trigger] done@[k])@ == split_lines(v@.take(i as int))[k],
            cur@ == split_lines(v@.take(i as int)).last(),
        decreases v@.len() - i,
    {
        assert(v@.take(i + 1).drop_last() == v@.take(i as int));
        assert(v@.take(i + 1).last() == v@[i as int]);
        if v[i] == '\n' {
            let finished = cur;
            done.push(finished);
            cur = Vec::new();
        } else {
            cur.push(v[i]);
        }
        i = i + 1;
    }
    assert(v@.take(v@.len() as int) == v@);
    done.push(cur);
    let mut out: Vec<Vec<char>> = Vec::new();
    let mut k: usize = 0;
    while k < done.len()
        invariant
            k <= done@.len(),
            done@.len() == split_lines(v@).len(),
            forall|m: int| 0 <= m < done@.len() ==> (#[trigger] done@[m])@ == split_lines(v@)[m],
            out@.len() == k,
            forall|m: int| 0 <= m < k ==> (#[trigger] out@[m])@ == strip_cr(split_lines(v@)[m]),
        decreases done@.len() - k,
    {
        let l = &done[k];
        let n = l.len();
        let mut c: Vec<char> = Vec::new();
        let end = if n > 0 && l[n - 1] == '\r' { n - 1 } else { n };
        let mut m: usize = 0;
        while m < end
            invariant
                m <= end <= n == l@.len(),
                c@ == l@.take(m as int),
            decreases end - m,
        {
            c.push(l[m]);
            assert(l@.take(m + 1) == l@.take(m as int).push(l@[m as int]));
            m = m + 1;
        }
        assert(c@ == strip_cr(l@)) by {
            if n > 0 && l@.last() == '\r' {
                assert(l@.take(end as int) == l@.drop_last());
            } else {
                assert(l@.take(n as int) == l@);
            }
        }
        out.push(c);
        k = k + 1;
    }
    out
}

proof fn lemma_split_lines_nonempty(s: Seq<char>)
    ensures
        split_lines(s).len() >= 1,
    decreases s.len(),
{
    if s.len() > 0 {
        lemma_split_lines_nonempty(s.drop_last());
    }
}

fn same_chars(a: &Vec<char>, b: &Vec<char>) -> (r: bool)
    ensures
        r == (a@ == b@),
{
    if a.len() != b.len() {
        return false;
    }
    let mut i: usize = 0;
    while i < a.len()
        invariant
            a@.len() == b@.len(),
            i <= a@.len(),
            forall|k: int| 0 <= k < i ==> a@[k] == b@[k],
        decreases a@.len() - i,
    {
        if a[i] != b[i] {
            return false;
        }
        i = i + 1;
    }
    assert(a@ =~= b@);
    true
}

fn count_distinct(ls: &Vec<Vec<char>>, Ghost(view): Ghost<Seq<Seq<char>>>) -> (r: usize)
    requires
        view.len() == ls@.len(),
        forall|k: int| 0 <= k < ls@.len() ==> (#[trigger] ls@[k])@ == view[k],
    ensures
        r == distinct_lines(view, view.len() as int),
{
    let mut count: usize = 0;
    let mut i: usize = 0;
    while i < ls.len()
        invariant
            i <= ls@.len(),
            view.len() == ls@.len(),
            forall|k: int| 0 <= k < ls@.len() ==> (#[trigger] ls@[k])@ == view[k],
            count == distinct_lines(view, i as int),
            count <= i,
        decreases ls@.len() - i,
    {
        let mut seen_before = false;
        let mut j: usize = 0;
        while j < i
            invariant
                j <= i < ls@.len(),
                view.len() == ls@.len(),
                forall|k: int| 0 <= k < ls@.len() ==> (#[trigger] ls@[k])@ == view[k],
                seen_before == exists|m: int| 0 <= m < j && #[trigger] view[m] == view[i as int],
            decreases i - j,
        {
            if same_chars(&ls[j], &ls[i]) {
                seen_before = true;
            }
            j = j + 1;
        }
        if !seen_before {
            count = count + 1;
        }
        i = i + 1;
    }
    count
}

fn has_nav_phrase(v: &Vec<char>) -> (r: bool)
    ensures
        r == nav_phrase(v@),
{
    contains_chars(v, &chars_of("skip to")) || contains_chars(v, &chars_of("toggle"))
        || contains_chars(v, &chars_of("menu")) || contains_chars(v, &chars_of("navigation"))
        || contains_chars(v, &chars_of("breadcrumb")) || contains_chars(v, &chars_of("| next |"))
        || contains_chars(v, &chars_of("| previous |")) || contains_chars(v, &chars_of("| index |"))
        || contains_chars(v, &chars_of("table of contents"))
}

/// Whether `v[lo..hi]`, trimmed, is worth keeping (see `quality_trimmed`).
pub fn quality_range(v: &Vec<char>, lo: usize, hi: usize, min: usize) -> (r: bool)
    requires
        lo <= hi <= v@.len(),
    ensures
        r == exists|a: int, b: int| trims_to(v@, lo as int, hi as int, a, b)
            && quality_trimmed(v@.subrange(a, b), min as nat),
{
    let (a, b) = trim_range(v, lo, hi);
    let ghost t = v@.subrange(a as int, b as int);
    let mut tv: Vec<char> = Vec::new();
    let mut k = a;
    while k < b
        invariant
            a <= k <= b <= v@.len(),
            tv@ == v@.subrange(a as int, k as int),
        decreases b - k,
    {
        tv.push(v[k]);
        assert(v@.subrange(a as int, k + 1) == v@.subrange(a as int, k as int).push(v@[k as int]));
        k = k + 1;
    }
    let r = quality_chars(&tv, min);
    proof {
        assert forall|a2: int, b2: int| trims_to(v@, lo as int, hi as int, a2, b2)
            implies v@.subrange(a2, b2) == t by {
            lemma_trim_unique(v@, lo as int, hi as int, a as int, b as int, a2, b2);
            if a == b {
                assert(v@.subrange(a2, b2) =~= t);
            }
        }
    }
    r
}

/// `quality_trimmed` of the characters `t`.
fn quality_chars(t: &Vec<char>, min: usize) -> (r: bool)
    ensures
        r == quality_trimmed(t@, min as nat),
{
    let n = t.len();
    if n < min {
        return false;
    }
    let (alpha, punct) = count_alpha_punct(t);
    if alpha < n / 3 {
        return false;
    }
    let s = string_of(t, 0, n);
    assert(t@.subrange(0, n as int) == t@);
    let lower = lowercase(s.as_str());
    let lv = chars_of(lower.as_str());
    if has_nav_phrase(&lv) {
        return false;
    }
    if punct > alpha {
        return false;
    }
    let lines = lines_of(t);
    let ghost view = split_lines(t@).map_values(|l: Seq<char>| strip_cr(l));
    if lines.len() > 1 {
        let distinct = count_distinct(&lines, Ghost(view));
        if distinct < lines.len() / 2 {
            return false;
        }
    }
    true
}

/// Number of `#` that open `l`.
pub open spec fn leading_hashes(l: Seq<char>) -> nat
    decreases l.len(),
{
    if l.len() == 0 || l[0] != '#' { 0 } else { 1 + leading_hashes(l.drop_first()) }
}

/// `leading_hashes` counts the run of `#` that opens `l`.
pub proof fn lemma_leading_hashes(l: Seq<char>, k: int)
    requires
        0 <= k <= l.len(),
        forall|m: int| 0 <= m < k ==> l[m] == '#',
        k == l.len() || l[k] != '#',
    ensures
        leading_hashes(l) == k,
    decreases k,
{
    if k > 0 {
        let t = l.drop_first();
        assert forall|m: int| 0 <= m < k - 1 implies t[m] == '#' by {
            assert(t[m] == l[m + 1]);
        }
        if k - 1 < t.len() {
            assert(t[k - 1] == l[k]);
        }
        lemma_leading_hashes(t, k - 1);
    }
}

/// End of the whitespace run of `l` that starts at `i`.
pub open spec fn ws_run_end(l: Seq<char>, i: int) -> int
    decreases l.len() - i,
{
    if i < 0 || i >= l.len() || !is_ws(l[i]) { i } else { ws_run_end(l, i + 1) }
}

/// A Markdown header line of level one to three: its `#` marks, whitespace,
/// and at least one more character.
pub open spec fn is_header_line(l: Seq<char>) -> bool {
    let h = leading_hashes(l) as int;
    1 <= h <= 3 && h + 2 <= l.len() && is_ws(l[h])
}

/// The title of a header line: what follows its whitespace run, or the
/// last character when only whitespace follows the marks.
pub open spec fn header_title(l: Seq<char>) -> Seq<char> {
    let w = ws_run_end(l, leading_hashes(l) as int);
    if w >= l.len() { l.subrange(l.len() - 1, l.len() as int) } else { l.subrange(w, l.len() as int) }
}

/// Relies on `regex::Regex::captures` with the pattern `^#{1,3}\s+(.+)$`
/// on a single line (`\s` is Unicode whitespace, `.` any character but a
/// line feed, the repetitions greedy): it matches a header line, and its
/// group is the title.
#[verifier::external_body]
fn header_capture(line: &str) -> (r: Option<String>)
    requires
        !line@.contains('\n'),
    ensures
        r is Some == is_header_line(line@),
        r is Some ==> r->0@ == header_title(line@),
{
    let re = regex::Regex::new(r"^#{1,3}\s+(.+)$").unwrap();
    re.captures(line).and_then(|c| c.get(1)).map(|m| m.as_str().to_string())
}

/// The title of the header line `v[lo..hi]`, if it is one.
fn header_of_line(v: &Vec<char>, lo: usize, hi: usize) -> (r: Option<String>)
    requires
        lo <= hi <= v@.len(),
        !v@.subrange(lo as int, hi as int).contains('\n'),
    ensures
        r is Some == is_header_line(v@.subrange(lo as int, hi as int)),
        r is Some ==> r->0@ == header_title(v@.subrange(lo as int, hi as int)),
{
    let line = string_of(v, lo, hi);
    header_capture(line.as_str())
}

/// A passage produced by the crawler's chunker.
#[derive(Debug, Clone)]
pub struct DocumentChunk {
    pub content: String,
    pub start_char: usize,
    pub end_char: usize,
    pub has_code: bool,
    pub heading_context: Option<String>,
}

impl DocumentChunk {
    /// A copy with the same fields.
    pub fn copy(&self) -> (r: DocumentChunk)
        ensures
            r.content@ == self.content@,
            r.start_char == self.start_char,
            r.end_char == self.end_char,
            r.has_code == self.has_code,
            r.heading_context is Some == self.heading_context is Some,
            r.heading_context is Some ==> r.heading_context->0@ == self.heading_context->0@,
    {
        let heading_context = match &self.heading_context {
            Some(h) => Some(h.clone()),
            None => None,
        };
        DocumentChunk {
            content: self.content.clone(),
            start_char: self.start_char,
            end_char: self.end_char,
            has_code: self.has_code,
            heading_context,
        }
    }
}

/// The text, code flag and heading path of a passage.
pub open spec fn passage_view(c: DocumentChunk) -> (Seq<char>, bool, Option<Seq<char>>) {
    (c.content@, c.has_code, crate::chunking::opt_view(c.heading_context))
}

pub open spec fn passage_views(cs: Seq<DocumentChunk>) -> Seq<(Seq<char>, bool, Option<Seq<char>>)> {
    cs.map_values(|c: DocumentChunk| passage_view(c))
}

/// Keeping, in turn, the passages worth keeping (at least `min`
/// characters, see `is_quality`) whose fingerprint was not seen, starting
/// from the seen fingerprints `seen`: the passages kept and the
/// fingerprints seen after.
pub open spec fn filter_dedup(cs: Seq<(Seq<char>, bool, Option<Seq<char>>)>, min: nat, seen: Set<u64>)
    -> (Seq<(Seq<char>, bool, Option<Seq<char>>)>, Set<u64>)
    decreases cs.len(),
{
    if cs.len() == 0 {
        (Seq::empty(), seen)
    } else {
        let (out, s) = filter_dedup(cs.drop_last(), min, seen);
        let c = cs.last();
        let h = fingerprint(content_key(c.0));
        if is_quality(c.0, min) && !s.contains(h) { (out.push(c), s.insert(h)) } else { (out, s) }
    }
}

/// Lines `from..to` (spans into `v`) joined by line feeds.
pub open spec fn join_spans(v: Seq<char>, spans: Seq<(usize, usize)>, from: int, to: int) -> Seq<char>
    decreases to - from,
{
    if to <= from {
        Seq::empty()
    } else if to == from + 1 {
        v.subrange(spans[from].0 as int, spans[from].1 as int)
    } else {
        join_spans(v, spans, from, to - 1) + seq!['\n'] + v.subrange(spans[to - 1].0 as int, spans[to - 1].1 as int)
    }
}

/// Only whitespace and punctuation.
pub open spec fn all_filler(t: Seq<char>) -> bool {
    forall|i: int| 0 <= i < t.len() ==> is_ws(#[trigger] t[i]) || is_punct(t[i])
}

/// Context carried from the passage `prev` into the next one: its last
/// `want` lines, trimmed, when that has more than twenty characters and not
/// only whitespace and punctuation.
pub open spec fn overlap_context(prev: Seq<char>, want: int) -> Option<Seq<char>> {
    let spans = crate::chunking::split_lines_from(prev, 0, 0);
    let take = if want < spans.len() { want } else { spans.len() as int };
    if take <= 0 {
        None
    } else {
        let t = trim(join_spans(prev, spans, spans.len() - take, spans.len() as int));
        if t.len() > 20 && !all_filler(t) { Some(t) } else { None }
    }
}

/// Context carried from the passage `next` into the one before: its first
/// three lines, trimmed, when that has more than twenty characters.
pub open spec fn forward_context(next: Seq<char>) -> Option<Seq<char>> {
    let spans = crate::chunking::split_lines_from(next, 0, 0);
    let take = if 3 < spans.len() { 3 } else { spans.len() as int };
    if take == 0 {
        None
    } else {
        let t = trim(join_spans(next, spans, 0, take));
        if t.len() > 20 { Some(t) } else { None }
    }
}

pub open spec fn ends_with_seq(c: Seq<char>, tail: Seq<char>) -> bool {
    tail.len() <= c.len() && c.subrange(c.len() - tail.len(), c.len() as int) == tail
}

/// A passage that reads as if it went on.
pub open spec fn needs_forward(c: Seq<char>) -> bool {
    ||| ends_with_seq(c, ":"@)
    ||| ends_with_seq(c, "following"@)
    ||| ends_with_seq(c, "example"@)
    ||| ends_with_seq(c, "see"@)
    ||| has_substring(c, "continued"@)
    ||| has_substring(c, "next section"@)
}

/// The `i`-th passage text with the context of its neighbours.
pub open spec fn enriched(cs: Seq<Seq<char>>, i: int, want: int) -> Seq<char> {
    let c = cs[i];
    let e1 = if i > 0 {
        match overlap_context(cs[i - 1], want) {
            Some(o) => "..."@ + o + "\n\n"@ + c,
            None => c,
        }
    } else {
        c
    };
    if i + 1 < cs.len() && needs_forward(c) {
        match forward_context(cs[i + 1]) {
            Some(f) => e1 + "\n\n"@ + f + "..."@,
            None => e1,
        }
    } else {
        e1
    }
}

/// The passages with neighbour context, when there are two or more.
pub open spec fn with_overlap(ps: Seq<(Seq<char>, bool, Option<Seq<char>>)>, want: int) -> Seq<(Seq<char>, bool, Option<Seq<char>>)> {
    if ps.len() < 2 {
        ps
    } else {
        Seq::new(ps.len(), |i: int| (enriched(ps.map_values(|p: (Seq<char>, bool, Option<Seq<char>>)| p.0), i, want), ps[i].1, ps[i].2))
    }
}

/// The title of the first header line among the lines `spans` of `v`
/// from the `q`-th on.
pub open spec fn first_title_from(v: Seq<char>, spans: Seq<(usize, usize)>, q: int) -> Option<Seq<char>>
    decreases spans.len() - q,
{
    if q < 0 || q >= spans.len() {
        None
    } else {
        let l = v.subrange(spans[q].0 as int, spans[q].1 as int);
        if is_header_line(l) { Some(header_title(l)) } else { first_title_from(v, spans, q + 1) }
    }
}

/// The title of the first header line of `v`.
pub open spec fn first_title(v: Seq<char>) -> Option<Seq<char>> {
    first_title_from(v, crate::chunking::split_lines_from(v, 0, 0), 0)
}

/// A passage of the text `c`, before any context is added.
pub open spec fn passage_of(c: Seq<char>) -> (Seq<char>, bool, Option<Seq<char>>) {
    (c, has_code_marker(c), first_title(c))
}

/// Gathering the paragraphs `pars` of a long section `sec`: the passages
/// closed so far (those worth keeping) and the text being gathered. A
/// non-blank paragraph closes the gathered text first when their token
/// estimates together pass `size`; each paragraph is followed by a blank
/// line.
pub open spec fn gather_section(sec: Seq<char>, pars: Seq<(usize, usize)>, size: int, min: nat)
    -> (Seq<(Seq<char>, bool, Option<Seq<char>>)>, Seq<char>)
    decreases pars.len(),
{
    if pars.len() == 0 {
        (Seq::empty(), Seq::empty())
    } else {
        let (out, cur) = gather_section(sec, pars.drop_last(), size, min);
        let lo = pars.last().0 as int;
        let hi = pars.last().1 as int;
        let p = sec.subrange(lo, hi);
        if trim(p).len() == 0 {
            (out, cur)
        } else {
            let flush = crate::chunking::sat_add((cur.len() / 4) as int, (hi - lo) / 4) > size && cur.len() > 0;
            let out1 = if flush && is_quality(cur, min) { out.push(passage_of(cur)) } else { out };
            let cur1 = if flush { Seq::<char>::empty() } else { cur };
            (out1, cur1 + p + seq!['\n', '\n'])
        }
    }
}

/// The passages of one section: the whole section when its token estimate
/// is within `size`, else its paragraphs gathered; only those worth keeping.
pub open spec fn section_passages(sec: Seq<char>, size: int, min: nat) -> Seq<(Seq<char>, bool, Option<Seq<char>>)> {
    if sec.len() / 4 <= size {
        if is_quality(sec, min) { seq![passage_of(sec)] } else { Seq::empty() }
    } else {
        let (out, cur) = gather_section(sec, crate::chunking::split_pieces(sec, 0, 0), size, min);
        if cur.len() > 0 && is_quality(cur, min) { out.push(passage_of(cur)) } else { out }
    }
}

/// Reading the lines `spans` of `v` for headers: the sections closed so far
/// and where the open one starts.
pub open spec fn sections_state(v: Seq<char>, spans: Seq<(usize, usize)>) -> (Seq<(usize, usize)>, int)
    decreases spans.len(),
{
    if spans.len() == 0 {
        (Seq::empty(), 0)
    } else {
        let (secs, last) = sections_state(v, spans.drop_last());
        let lo = spans.last().0 as int;
        let hi = spans.last().1 as int;
        if is_header_line(v.subrange(lo, hi)) {
            let secs1 = if lo > last && trim(v.subrange(last, lo)).len() > 0 { secs.push((last as usize, lo as usize)) } else { secs };
            (secs1, lo)
        } else {
            (secs, last)
        }
    }
}

/// The sections of `v`: each header line starts one, the text before the
/// first header is one, blank ones are dropped.
pub open spec fn header_sections(v: Seq<char>) -> Seq<(usize, usize)> {
    let (secs, last) = sections_state(v, crate::chunking::split_lines_from(v, 0, 0));
    let secs2 = if last < v.len() && trim(v.subrange(last, v.len() as int)).len() > 0 {
        secs.push((last as usize, v.len() as usize))
    } else {
        secs
    };
    if secs2.len() == 0 && trim(v).len() > 0 { seq![(0usize, v.len() as usize)] } else { secs2 }
}

/// The passages of the sections `secs` of `v`, in order.
pub open spec fn all_passages(v: Seq<char>, secs: Seq<(usize, usize)>, size: int, min: nat) -> Seq<(Seq<char>, bool, Option<Seq<char>>)>
    decreases secs.len(),
{
    if secs.len() == 0 {
        Seq::empty()
    } else {
        all_passages(v, secs.drop_last(), size, min)
            + section_passages(v.subrange(secs.last().0 as int, secs.last().1 as int), size, min)
    }
}

/// Whether `out` is what one call kept when the seen fingerprints went from
/// `before` to `after`: passages worth keeping, with fingerprints new to
/// `before` and distinct, all of them added to `after`.
pub open spec fn kept(out: Seq<DocumentChunk>, min: nat, before: Set<u64>, after: Set<u64>) -> bool {
    &&& forall|a: int| 0 <= a < out.len() ==> {
        &&& is_quality((#[trigger] out[a]).content@, min)
        &&& !before.contains(fingerprint(content_key(out[a].content@)))
    }
    &&& forall|a: int, b: int| 0 <= a < b < out.len()
        ==> fingerprint(content_key((#[trigger] out[a]).content@)) != fingerprint(content_key((#[trigger] out[b]).content@))
    &&& forall|h: u64| #[trigger] after.contains(h) <==> (before.contains(h)
        || exists|a: int| 0 <= a < out.len() && fingerprint(content_key((#[trigger] out[a]).content@)) == h)
}

/// Splits crawled pages into passages worth keeping, skipping any whose
/// fingerprint (of its lowercased words) was seen before, possibly in an
/// earlier session.
pub struct TextChunker {
    chunk_size: usize,
    overlap: usize,
    min_chunk_size: usize,
    seen_content_hashes: HashSet<u64>,
}

impl TextChunker {
    pub closed spec fn seen(&self) -> Set<u64> {
        self.seen_content_hashes@
    }

    pub closed spec fn spec_min_chunk_size(&self) -> nat {
        self.min_chunk_size as nat
    }

    /// Token budget of one passage.
    pub closed spec fn spec_chunk_size(&self) -> int {
        self.chunk_size as int
    }

    /// Characters of context carried between passages (a line per ten).
    pub closed spec fn spec_overlap(&self) -> int {
        self.overlap as int
    }

    /// What `chunk_text` keeps of `text`, and the fingerprints seen after:
    /// the passages of its sections, with neighbour context, filtered and
    /// deduplicated.
    pub open spec fn spec_chunks(&self, text: Seq<char>) -> (Seq<(Seq<char>, bool, Option<Seq<char>>)>, Set<u64>) {
        filter_dedup(
            with_overlap(all_passages(text, header_sections(text), self.spec_chunk_size(), self.spec_min_chunk_size()),
                self.spec_overlap() / 10),
            self.spec_min_chunk_size(),
            self.seen(),
        )
    }

    /// Chunks of about 1500 tokens, 200 characters of overlap, at least 100
    /// characters, nothing seen yet.
    pub fn new() -> (r: TextChunker)
        ensures
            r.seen() == Set::<u64>::empty(),
            r.spec_min_chunk_size() == 100,
            r.spec_chunk_size() == 1500,
            r.spec_overlap() == 200,
    {
        TextChunker { chunk_size: 1500, overlap: 200, min_chunk_size: 100, seen_content_hashes: HashSet::new() }
    }

    /// As `new`, with the fingerprints of an earlier session seen.
    pub fn with_persistent_deduplication(existing_hashes: HashSet<u64>) -> (r: TextChunker)
        ensures
            r.seen() == existing_hashes@,
            r.spec_min_chunk_size() == 100,
            r.spec_chunk_size() == 1500,
            r.spec_overlap() == 200,
    {
        TextChunker { chunk_size: 1500, overlap: 200, min_chunk_size: 100, seen_content_hashes: existing_hashes }
    }

    /// The fingerprints seen, to carry into a later session.
    pub fn get_seen_hashes(&self) -> (r: &HashSet<u64>)
        ensures
            r@ == self.seen(),
    {
        &self.seen_content_hashes
    }

    /// Whether `content`, trimmed, is worth keeping.
    pub fn is_quality_content(&self, content: &str) -> (r: bool)
        ensures
            r == is_quality(content@, self.spec_min_chunk_size()),
    {
        let v = chars_of(content);
        let n = v.len();
        let r = quality_range(&v, 0, n, self.min_chunk_size);
        r
    }

    /// Rough token count: a token per four characters.
    pub fn estimate_tokens(&self, v: &Vec<char>) -> (r: usize)
        ensures
            r == v@.len() / 4,
    {
        v.len() / 4
    }

    /// Keeps the passages worth keeping whose fingerprint was not seen, and
    /// remembers their fingerprints.
    fn deduplicate_and_filter(&mut self, chunks: Vec<DocumentChunk>) -> (r: Vec<DocumentChunk>)
        ensures
            kept(r@, old(self).spec_min_chunk_size(), old(self).seen(), final(self).seen()),
            final(self).spec_min_chunk_size() == old(self).spec_min_chunk_size(),
            final(self).spec_chunk_size() == old(self).spec_chunk_size(),
            final(self).spec_overlap() == old(self).spec_overlap(),
            chunks@.len() == 0 ==> r@.len() == 0 && final(self).seen() == old(self).seen(),
            (passage_views(r@), final(self).seen())
                == filter_dedup(passage_views(chunks@), old(self).spec_min_chunk_size(), old(self).seen()),
    {
        let ghost before = self.seen();
        let ghost pv = passage_views(chunks@);
        let mut out: Vec<DocumentChunk> = Vec::new();
        assert(passage_views(out@) =~= Seq::<(Seq<char>, bool, Option<Seq<char>>)>::empty());
        let mut i: usize = 0;
        while i < chunks.len()
            invariant
                i <= chunks@.len(),
                self.min_chunk_size == old(self).min_chunk_size,
                self.chunk_size == old(self).chunk_size,
                self.overlap == old(self).overlap,
                kept(out@, self.min_chunk_size as nat, before, self.seen_content_hashes@),
                before == old(self).seen(),
                i == 0 ==> out@.len() == 0 && self.seen_content_hashes@ == before,
                pv == passage_views(chunks@),
                (passage_views(out@), self.seen_content_hashes@) == filter_dedup(pv.take(i as int), self.min_chunk_size as nat, before),
            decreases chunks@.len() - i,
        {
            let chunk = &chunks[i];
            assert(pv.take(i + 1).drop_last() == pv.take(i as int));
            assert(pv.take(i + 1).last() == passage_view(*chunk));
            let ghost out0 = out@;
            if self.is_quality_content(chunk.content.as_str()) {
                let v = chars_of(chunk.content.as_str());
                let n = v.len();
                let hash = content_fingerprint(&v, 0, n);
                assert(v@.subrange(0, n as int) == v@);
                if !self.seen_content_hashes.contains(&hash) {
                    let ghost old_out = out@;
                    let ghost old_seen = self.seen_content_hashes@;
                    self.seen_content_hashes.insert(hash);
                    out.push(chunk.copy());
                    assert(passage_views(out@) =~= passage_views(out0).push(passage_view(*chunk)));
                    proof {
                        assert(out@.last().content@ == chunk.content@);
                        assert forall|h: u64| #[trigger] self.seen_content_hashes@.contains(h) <==> (before.contains(h)
                            || exists|a: int| 0 <= a < out@.len() && fingerprint(content_key((#[trigger] out@[a]).content@)) == h) by {
                            assert(fingerprint(content_key(out@[out@.len() - 1].content@)) == hash);
                            assert(old_seen.contains(h) == (before.contains(h)
                                || exists|a: int| 0 <= a < old_out.len() && fingerprint(content_key((#[trigger] old_out[a]).content@)) == h));
                            if exists|a: int| 0 <= a < old_out.len() && fingerprint(content_key((#[trigger] old_out[a]).content@)) == h {
                                let a = choose|a: int| 0 <= a < old_out.len() && fingerprint(content_key((#[trigger] old_out[a]).content@)) == h;
                                assert(out@[a] == old_out[a]);
                            }
                            if exists|a: int| 0 <= a < out@.len() && fingerprint(content_key((#[trigger] out@[a]).content@)) == h {
                                let a = choose|a: int| 0 <= a < out@.len() && fingerprint(content_key((#[trigger] out@[a]).content@)) == h;
                                if a < old_out.len() {
                                    assert(old_out[a] == out@[a]);
                                }
                            }
                        }
                        assert forall|a: int, b: int| 0 <= a < b < out@.len()
                            implies fingerprint(content_key((#[trigger] out@[a]).content@)) != fingerprint(content_key((#[trigger] out@[b]).content@)) by {
                            assert(out@[a] == old_out[a]);
                            if b < old_out.len() {
                                assert(out@[b] == old_out[b]);
                            } else {
                                assert(old_seen.contains(fingerprint(content_key(old_out[a].content@))));
                            }
                        }
                        assert forall|a: int| 0 <= a < out@.len() implies {
                            &&& is_quality((#[trigger] out@[a]).content@, self.min_chunk_size as nat)
                            &&& !before.contains(fingerprint(content_key(out@[a].content@)))
                        } by {
                            if a < old_out.len() {
                                assert(out@[a] == old_out[a]);
                            }
                        }
                    }
                }
            }
            i = i + 1;
        }
        assert(pv.take(chunks@.len() as int) == pv);
        out
    }

    /// Splits `text` into sections at its header lines, cuts long sections
    /// at paragraphs, enriches neighbouring passages with context, and keeps
    /// the passages worth keeping whose fingerprint is new.
    pub fn chunk_text(&mut self, text: &str) -> (r: Vec<DocumentChunk>)
        ensures
            kept(r@, old(self).spec_min_chunk_size(), old(self).seen(), final(self).seen()),
            final(self).spec_min_chunk_size() == old(self).spec_min_chunk_size(),
            final(self).spec_chunk_size() == old(self).spec_chunk_size(),
            final(self).spec_overlap() == old(self).spec_overlap(),
            text@.len() == 0 ==> r@.len() == 0 && final(self).seen() == old(self).seen(),
            (passage_views(r@), final(self).seen()) == old(self).spec_chunks(text@),
    {
        let v = chars_of(text);
        let sections = split_by_headers(&v);
        let mut chunks: Vec<DocumentChunk> = Vec::new();
        let mut i: usize = 0;
        while i < sections.len()
            invariant
                i <= sections@.len(),
                forall|q: int| 0 <= q < sections@.len() ==> (#[trigger] sections@[q]).0 <= sections@[q].1 <= v@.len(),
                v@.len() == 0 ==> sections@.len() == 0,
                v@.len() == 0 ==> chunks@.len() == 0,
                sections@ == header_sections(v@),
                passage_views(chunks@) == all_passages(v@, sections@.take(i as int), self.chunk_size as int, self.min_chunk_size as nat),
            decreases sections@.len() - i,
        {
            let (lo, hi) = sections[i];
            assert(sections@.take(i + 1).drop_last() == sections@.take(i as int));
            assert(sections@.take(i + 1).last() == sections@[i as int]);
            let sec = slice_of(&v, lo, hi);
            let ghost c0 = chunks@;
            let mut part = self.chunk_section(&sec);
            let ghost pt = part@;
            chunks.append(&mut part);
            assert(passage_views(chunks@) =~= passage_views(c0) + passage_views(pt));
            i = i + 1;
        }
        assert(sections@.take(sections@.len() as int) == sections@);
        let chunks = self.add_overlap(chunks);
        self.deduplicate_and_filter(chunks)
    }

    /// One passage for a section that fits, else passages gathered from its
    /// paragraphs; only those worth keeping.
    fn chunk_section(&self, sec: &Vec<char>) -> (r: Vec<DocumentChunk>)
        ensures
            passage_views(r@) == section_passages(sec@, self.chunk_size as int, self.min_chunk_size as nat),
    {
        let mut out: Vec<DocumentChunk> = Vec::new();
        let n = sec.len();
        let ghost size = self.chunk_size as int;
        let ghost min = self.min_chunk_size as nat;
        if self.estimate_tokens(sec) <= self.chunk_size {
            let chunk = make_chunk(sec);
            if self.is_quality_content(chunk.content.as_str()) {
                out.push(chunk);
                assert(passage_views(out@) =~= seq![passage_of(sec@)]);
            } else {
                assert(passage_views(out@) =~= Seq::<(Seq<char>, bool, Option<Seq<char>>)>::empty());
            }
            return out;
        }
        let paragraphs = paragraph_ranges(sec);
        let mut cur: Vec<char> = Vec::new();
        assert(passage_views(out@) =~= Seq::<(Seq<char>, bool, Option<Seq<char>>)>::empty());
        let mut p: usize = 0;
        while p < paragraphs.len()
            invariant
                n == sec@.len(),
                size == self.chunk_size as int,
                min == self.min_chunk_size as nat,
                paragraphs@ == crate::chunking::split_pieces(sec@, 0, 0),
                p <= paragraphs@.len(),
                forall|q: int| 0 <= q < paragraphs@.len() ==> (#[trigger] paragraphs@[q]).0 <= paragraphs@[q].1 <= n,
                (passage_views(out@), cur@) == gather_section(sec@, paragraphs@.take(p as int), size, min),
            decreases paragraphs@.len() - p,
        {
            let (lo, hi) = paragraphs[p];
            assert(paragraphs@.take(p + 1).drop_last() == paragraphs@.take(p as int));
            assert(paragraphs@.take(p + 1).last() == paragraphs@[p as int]);
            let ghost piece = sec@.subrange(lo as int, hi as int);
            let ghost out0 = passage_views(out@);
            let ghost cur0 = cur@;
            let (a, b) = trim_range(sec, lo, hi);
            proof { lemma_trims_to_trim(sec@, lo as int, hi as int, a as int, b as int); }
            if a < b {
                let para_tokens = (hi - lo) / 4;
                let cur_tokens = self.estimate_tokens(&cur);
                let flush = cur_tokens.saturating_add(para_tokens) > self.chunk_size && cur.len() > 0;
                if flush {
                    let chunk = make_chunk(&cur);
                    if self.is_quality_content(chunk.content.as_str()) {
                        let ghost o = out@;
                        out.push(chunk);
                        assert(passage_views(out@) =~= passage_views(o).push(passage_of(cur0)));
                    }
                    cur = Vec::new();
                }
                let ghost cur1 = cur@;
                let mut k = lo;
                while k < hi
                    invariant
                        lo <= k <= hi <= n,
                        n == sec@.len(),
                        cur@ == cur1 + sec@.subrange(lo as int, k as int),
                    decreases hi - k,
                {
                    cur.push(sec[k]);
                    assert(sec@.subrange(lo as int, k + 1) == sec@.subrange(lo as int, k as int).push(sec@[k as int]));
                    k = k + 1;
                }
                cur.push('\n');
                cur.push('\n');
                assert(cur@ =~= cur1 + piece + seq!['\n', '\n']);
            }
            p = p + 1;
        }
        assert(paragraphs@.take(paragraphs@.len() as int) == paragraphs@);
        if cur.len() > 0 {
            let chunk = make_chunk(&cur);
            if self.is_quality_content(chunk.content.as_str()) {
                let ghost o = out@;
                out.push(chunk);
                assert(passage_views(out@) =~= passage_views(o).push(passage_of(cur@)));
            }
        }
        out
    }

    /// Each passage of several gets the last lines of the one before it as
    /// leading context, and, when it ends mid-thought, the first lines of
    /// the one after it.
    fn add_overlap(&self, chunks: Vec<DocumentChunk>) -> (r: Vec<DocumentChunk>)
        ensures
            r@.len() == chunks@.len(),
            passage_views(r@) == with_overlap(passage_views(chunks@), (self.overlap / 10) as int),
    {
        let n = chunks.len();
        if n < 2 {
            return chunks;
        }
        let ghost want = (self.overlap / 10) as int;
        let ghost ps = passage_views(chunks@);
        let ghost cs = ps.map_values(|p: (Seq<char>, bool, Option<Seq<char>>)| p.0);
        let mut out: Vec<DocumentChunk> = Vec::new();
        let mut i: usize = 0;
        while i < n
            invariant
                n == chunks@.len(),
                n >= 2,
                i <= n,
                out@.len() == i,
                want == (self.overlap / 10) as int,
                ps == passage_views(chunks@),
                cs == ps.map_values(|p: (Seq<char>, bool, Option<Seq<char>>)| p.0),
                forall|k: int| 0 <= k < i ==> passage_view(#[trigger] out@[k]) == with_overlap(ps, want)[k],
            decreases n - i,
        {
            assert(cs[i as int] == chunks@[i as int].content@);
            let mut enhanced = chunks[i].copy();
            if i > 0 {
                assert(cs[i - 1] == chunks@[i - 1].content@);
                match self.extract_overlap_context(&chunks[i - 1]) {
                    Some(context) => {
                        let mut t = chars_of("...");
                        append_chars(&mut t, &context);
                        append_chars(&mut t, &chars_of("\n\n"));
                        append_chars(&mut t, &chars_of(enhanced.content.as_str()));
                        let len = t.len();
                        assert(t@.subrange(0, len as int) == t@);
                        enhanced.content = string_of(&t, 0, len);
                    },
                    None => {},
                }
            }
            let ghost e1 = enhanced.content@;
            if i + 1 < n && needs_forward_context(&chunks[i]) {
                assert(cs[i + 1] == chunks@[i + 1].content@);
                match extract_forward_context(&chunks[i + 1]) {
                    Some(context) => {
                        let mut t = chars_of(enhanced.content.as_str());
                        append_chars(&mut t, &chars_of("\n\n"));
                        append_chars(&mut t, &context);
                        append_chars(&mut t, &chars_of("..."));
                        let len = t.len();
                        assert(t@.subrange(0, len as int) == t@);
                        enhanced.content = string_of(&t, 0, len);
                    },
                    None => {},
                }
            }
            assert(enhanced.content@ == enriched(cs, i as int, want));
            assert(passage_view(enhanced) == with_overlap(ps, want)[i as int]);
            let ghost out0 = out@;
            out.push(enhanced);
            assert forall|k: int| 0 <= k < i + 1 implies passage_view(#[trigger] out@[k]) == with_overlap(ps, want)[k] by {
                if k < i {
                    assert(out@[k] == out0[k]);
                }
            }
            i = i + 1;
        }
        assert(passage_views(out@) =~= with_overlap(ps, want));
        out
    }

    /// The last lines of the passage before (one per ten characters of
    /// overlap), trimmed, when they hold more than twenty characters that
    /// are not all whitespace or punctuation.
    fn extract_overlap_context(&self, prev: &DocumentChunk) -> (r: Option<Vec<char>>)
        ensures
            match r {
                Some(t) => overlap_context(prev.content@, (self.overlap / 10) as int) == Some(t@),
                None => overlap_context(prev.content@, (self.overlap / 10) as int) is None,
            },
    {
        let v = chars_of(prev.content.as_str());
        let lines = line_ranges(&v);
        let want = self.overlap / 10;
        let take = if want < lines.len() { want } else { lines.len() };
        if take == 0 {
            return None;
        }
        let joined = join_lines(&v, &lines, lines.len() - take, lines.len());
        let len = joined.len();
        let (a, b) = trim_range(&joined, 0, len);
        proof {
            lemma_trims_to_trim(joined@, 0, len as int, a as int, b as int);
            assert(joined@.subrange(0, len as int) == joined@);
        }
        let ghost t = joined@.subrange(a as int, b as int);
        if b - a > 20 {
            let mut k = a;
            let mut filler = true;
            while k < b
                invariant
                    a <= k <= b <= joined@.len(),
                    t == joined@.subrange(a as int, b as int),
                    filler == forall|m: int| 0 <= m < k - a ==> is_ws(#[trigger] t[m]) || is_punct(t[m]),
                decreases b - k,
            {
                assert(t[k - a] == joined@[k as int]);
                if !crate::text::is_ws_exec(joined[k]) && !is_punct_exec(joined[k]) {
                    filler = false;
                }
                k = k + 1;
            }
            if !filler {
                return Some(slice_of(&joined, a, b));
            }
        }
        None
    }
}

/// The characters `v[lo..hi]`.
fn slice_of(v: &Vec<char>, lo: usize, hi: usize) -> (r: Vec<char>)
    requires
        lo <= hi <= v@.len(),
    ensures
        r@ == v@.subrange(lo as int, hi as int),
{
    let mut out: Vec<char> = Vec::new();
    let mut k = lo;
    while k < hi
        invariant
            lo <= k <= hi <= v@.len(),
            out@ == v@.subrange(lo as int, k as int),
        decreases hi - k,
    {
        out.push(v[k]);
        assert(v@.subrange(lo as int, k + 1) == v@.subrange(lo as int, k as int).push(v@[k as int]));
        k = k + 1;
    }
    out
}

fn append_chars(t: &mut Vec<char>, more: &Vec<char>)
    ensures
        final(t)@ == old(t)@ + more@,
{
    let mut k: usize = 0;
    while k < more.len()
        invariant
            k <= more@.len(),
            t@ == old(t)@ + more@.take(k as int),
        decreases more@.len() - k,
    {
        t.push(more[k]);
        assert(more@.take(k + 1) == more@.take(k as int).push(more@[k as int]));
        k = k + 1;
    }
    assert(more@.take(more@.len() as int) == more@);
}

/// Lines `from..to` of `v`, joined by line feeds.
fn join_lines(v: &Vec<char>, lines: &Vec<(usize, usize)>, from: usize, to: usize) -> (r: Vec<char>)
    requires
        from <= to <= lines@.len(),
        forall|q: int| 0 <= q < lines@.len() ==> (#[trigger] lines@[q]).0 <= lines@[q].1 <= v@.len(),
    ensures
        r@ == join_spans(v@, lines@, from as int, to as int),
{
    let mut out: Vec<char> = Vec::new();
    let mut q = from;
    while q < to
        invariant
            from <= q <= to <= lines@.len(),
            forall|m: int| 0 <= m < lines@.len() ==> (#[trigger] lines@[m]).0 <= lines@[m].1 <= v@.len(),
            out@ == join_spans(v@, lines@, from as int, q as int),
        decreases to - q,
    {
        let ghost before = out@;
        if q > from {
            out.push('\n');
        }
        let (lo, hi) = lines[q];
        let piece = slice_of(v, lo, hi);
        append_chars(&mut out, &piece);
        proof {
            if q == from {
                assert(out@ =~= v@.subrange(lo as int, hi as int));
            } else {
                assert(out@ =~= before + seq!['\n'] + v@.subrange(lo as int, hi as int));
            }
        }
        q = q + 1;
    }
    out
}

/// Whether a passage ends as if it went on: with a colon, `following`,
/// `example` or `see`, or it mentions `continued` or `next section`.
fn needs_forward_context(chunk: &DocumentChunk) -> (r: bool)
    ensures
        r == needs_forward(chunk.content@),
{
    let v = chars_of(chunk.content.as_str());
    ends_with(&v, &chars_of(":")) || ends_with(&v, &chars_of("following"))
        || ends_with(&v, &chars_of("example")) || ends_with(&v, &chars_of("see"))
        || contains_chars(&v, &chars_of("continued")) || contains_chars(&v, &chars_of("next section"))
}

fn ends_with(v: &Vec<char>, tail: &Vec<char>) -> (r: bool)
    ensures
        r == (tail@.len() <= v@.len() && v@.subrange(v@.len() - tail@.len(), v@.len() as int) == tail@),
{
    if tail.len() > v.len() {
        return false;
    }
    let start = v.len() - tail.len();
    crate::text::occurs_at_exec(v, tail, start)
}

/// The first three lines of the passage after, trimmed, when they hold
/// more than twenty characters.
fn extract_forward_context(next: &DocumentChunk) -> (r: Option<Vec<char>>)
    ensures
        match r {
            Some(t) => forward_context(next.content@) == Some(t@),
            None => forward_context(next.content@) is None,
        },
{
    let v = chars_of(next.content.as_str());
    let lines = line_ranges(&v);
    let take = if 3 < lines.len() { 3 } else { lines.len() };
    if take == 0 {
        return None;
    }
    let joined = join_lines(&v, &lines, 0, take);
    let len = joined.len();
    let (a, b) = trim_range(&joined, 0, len);
    proof {
        lemma_trims_to_trim(joined@, 0, len as int, a as int, b as int);
        assert(joined@.subrange(0, len as int) == joined@);
    }
    if b - a > 20 {
        Some(slice_of(&joined, a, b))
    } else {
        None
    }
}

/// A passage of the whole of `v`, with its code flag and first heading.
fn make_chunk(v: &Vec<char>) -> (r: DocumentChunk)
    ensures
        r.content@ == v@,
        r.has_code == has_code_marker(v@),
        passage_view(r) == passage_of(v@),
{
    let n = v.len();
    let content = string_of(v, 0, n);
    assert(v@.subrange(0, n as int) == v@);
    DocumentChunk {
        content,
        start_char: 0,
        end_char: n,
        has_code: contains_code(v),
        heading_context: first_heading(v),
    }
}

/// The title of the first header line of `v`, if any.
fn first_heading(v: &Vec<char>) -> (r: Option<String>)
    ensures
        opt_view(r) == first_title(v@),
{
    let lines = line_ranges(v);
    let mut q: usize = 0;
    while q < lines.len()
        invariant
            q <= lines@.len(),
            lines@ == crate::chunking::split_lines_from(v@, 0, 0),
            forall|m: int| 0 <= m < lines@.len() ==> (#[trigger] lines@[m]).0 <= lines@[m].1 <= v@.len(),
            forall|m: int, k: int| #![trigger lines@[m], v@[k]] 0 <= m < lines@.len() && lines@[m].0 <= k < lines@[m].1 ==> v@[k] != '\n',
            first_title(v@) == first_title_from(v@, lines@, q as int),
        decreases lines@.len() - q,
    {
        let (lo, hi) = lines[q];
        proof { lemma_no_line_feed(v@, lines@[q as int].0 as int, lines@[q as int].1 as int); }
        match header_of_line(v, lo, hi) {
            Some(t) => { return Some(t); },
            None => {},
        }
        q = q + 1;
    }
    None
}

proof fn lemma_no_line_feed(v: Seq<char>, lo: int, hi: int)
    requires
        0 <= lo <= hi <= v.len(),
        forall|k: int| lo <= k < hi ==> v[k] != '\n',
    ensures
        !v.subrange(lo, hi).contains('\n'),
{
    if v.subrange(lo, hi).contains('\n') {
        let w = choose|w: int| 0 <= w < hi - lo && v.subrange(lo, hi)[w] == '\n';
        assert(v[lo + w] == '\n');
    }
}

/// Sections of `v`: each header line starts one; text before the first
/// header is a section of its own; blank sections are dropped.
fn split_by_headers(v: &Vec<char>) -> (r: Vec<(usize, usize)>)
    ensures
        forall|q: int| 0 <= q < r@.len() ==> (#[trigger] r@[q]).0 <= r@[q].1 <= v@.len(),
        v@.len() == 0 ==> r@.len() == 0,
        r@ == header_sections(v@),
{
    let n = v.len();
    let lines = line_ranges(v);
    let mut out: Vec<(usize, usize)> = Vec::new();
    let mut last: usize = 0;
    let mut q: usize = 0;
    while q < lines.len()
        invariant
            n == v@.len(),
            q <= lines@.len(),
            last <= n,
            n == 0 ==> lines@.len() == 0,
            forall|m: int| 0 <= m < lines@.len() ==> (#[trigger] lines@[m]).0 <= lines@[m].1 <= v@.len(),
            forall|m: int, k: int| #![trigger lines@[m], v@[k]] 0 <= m < lines@.len() && lines@[m].0 <= k < lines@[m].1 ==> v@[k] != '\n',
            forall|m: int| 0 <= m < out@.len() ==> (#[trigger] out@[m]).0 <= out@[m].1 <= v@.len(),
            n == 0 ==> out@.len() == 0,
            lines@ == crate::chunking::split_lines_from(v@, 0, 0),
            (out@, last as int) == sections_state(v@, lines@.take(q as int)),
        decreases lines@.len() - q,
    {
        let (lo, hi) = lines[q];
        assert(lines@.take(q + 1).drop_last() == lines@.take(q as int));
        assert(lines@.take(q + 1).last() == lines@[q as int]);
        proof { lemma_no_line_feed(v@, lines@[q as int].0 as int, lines@[q as int].1 as int); }
        if header_of_line(v, lo, hi).is_some() {
            if lo > last {
                let (a, b) = trim_range(v, last, lo);
                proof { lemma_trims_to_trim(v@, last as int, lo as int, a as int, b as int); }
                if a < b {
                    out.push((last, lo));
                }
            }
            last = lo;
        }
        q = q + 1;
    }
    assert(lines@.take(lines@.len() as int) == lines@);
    if last < n {
        let (a, b) = trim_range(v, last, n);
        proof { lemma_trims_to_trim(v@, last as int, n as int, a as int, b as int); }
        if a < b {
            out.push((last, n));
        }
    }
    if out.len() == 0 {
        let (a, b) = trim_range(v, 0, n);
        proof {
            lemma_trims_to_trim(v@, 0, n as int, a as int, b as int);
            assert(v@.subrange(0, n as int) == v@);
        }
        if a < b {
            out.push((0, n));
        }
    }
    out
}

proof fn lemma_kept_seen_grows(outs: Seq<Seq<DocumentChunk>>, min: nat, seens: Seq<Set<u64>>, i: int, j: int)
    requires
        seens.len() == outs.len() + 1,
        forall|c: int| 0 <= c < outs.len() ==> kept(#[trigger] outs[c], min, seens[c], seens[c + 1]),
        0 <= i <= j < seens.len(),
    ensures
        seens[i].subset_of(seens[j]),
    decreases j - i,
{
    if i < j {
        lemma_kept_seen_grows(outs, min, seens, i, j - 1);
        assert(kept(outs[j - 1], min, seens[j - 1], seens[j]));
    }
}

/// Fingerprints stay unique over a crawler chunker's whole lifetime: for
/// any run of calls, each starting from what the one before left (the
/// first from the fingerprints it was made with), no passage kept in the
/// run has a fingerprint seen at the start, no two share one, and all are
/// seen at the end.
pub proof fn lemma_kept_unique_over_lifetime(outs: Seq<Seq<DocumentChunk>>, min: nat, seens: Seq<Set<u64>>)
    requires
        seens.len() == outs.len() + 1,
        forall|c: int| 0 <= c < outs.len() ==> kept(#[trigger] outs[c], min, seens[c], seens[c + 1]),
    ensures
        forall|i: int, a: int| 0 <= i < outs.len() && 0 <= a < outs[i].len() ==> {
            &&& !seens[0].contains(fingerprint(content_key((#[trigger] outs[i][a]).content@)))
            &&& seens.last().contains(fingerprint(content_key(outs[i][a].content@)))
        },
        forall|i: int, a: int, j: int, b: int| 0 <= i < outs.len() && 0 <= a < outs[i].len()
            && 0 <= j < outs.len() && 0 <= b < outs[j].len() && (i != j || a != b)
            ==> fingerprint(content_key((#[trigger] outs[i][a]).content@))
                != fingerprint(content_key((#[trigger] outs[j][b]).content@)),
{
    assert forall|i: int, a: int| 0 <= i < outs.len() && 0 <= a < outs[i].len() implies {
        &&& !seens[0].contains(fingerprint(content_key((#[trigger] outs[i][a]).content@)))
        &&& seens.last().contains(fingerprint(content_key(outs[i][a].content@)))
    } by {
        assert(kept(outs[i], min, seens[i], seens[i + 1]));
        lemma_kept_seen_grows(outs, min, seens, 0, i);
        lemma_kept_seen_grows(outs, min, seens, i + 1, outs.len() as int);
        assert(seens[i + 1].contains(fingerprint(content_key(outs[i][a].content@))));
    }
    assert forall|i: int, a: int, j: int, b: int| 0 <= i < outs.len() && 0 <= a < outs[i].len()
        && 0 <= j < outs.len() && 0 <= b < outs[j].len() && (i != j || a != b)
        implies fingerprint(content_key((#[trigger] outs[i][a]).content@))
            != fingerprint(content_key((#[trigger] outs[j][b]).content@)) by {
        assert(kept(outs[i], min, seens[i], seens[i + 1]));
        assert(kept(outs[j], min, seens[j], seens[j + 1]));
        if i < j {
            lemma_kept_seen_grows(outs, min, seens, i + 1, j);
            assert(seens[i + 1].contains(fingerprint(content_key(outs[i][a].content@))));
        } else if j < i {
            lemma_kept_seen_grows(outs, min, seens, j + 1, i);
            assert(seens[j + 1].contains(fingerprint(content_key(outs[j][b].content@))));
        } else if a < b {
            assert(fingerprint(content_key(outs[i][a].content@)) != fingerprint(content_key(outs[i][b].content@)));
        } else {
            assert(fingerprint(content_key(outs[i][b].content@)) != fingerprint(content_key(outs[i][a].content@)));
        }
    }
}

} // verus!
