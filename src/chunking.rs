use vstd::prelude::*;
use std::collections::HashSet;
use crate::text::{
    lemma_trims_to_trim, trim, occurs_at, trims_to, chars_of, contains_chars, content_fingerprint, content_key, fingerprint, has_substring,
    is_trimmed, is_ws, string_of, trim_range,
};

verus! {

broadcast use vstd::std_specs::hash::group_hash_axioms;

/// How a text is split into chunks.
#[derive(Debug, Clone, Copy, PartialEq, Eq, Structural)]
pub enum ChunkingStrategy {
    /// Slices of at most `chunk_size` characters, ended at a sentence end
    /// where the slice has one, each starting `overlap` characters before
    /// the end of the previous one.
    FixedSizeOverlap { chunk_size: usize, overlap: usize },
    /// Blank-line separated paragraphs gathered up to `max_size` characters.
    SemanticBoundaries { max_size: usize, min_size: usize },
    /// Sections under Markdown headings, each carrying its heading path.
    HeadingBased { max_size: usize, min_size: usize },
}

impl ChunkingStrategy {
    /// Slices of 1000 characters overlapping by 200.
    pub fn default() -> (r: ChunkingStrategy)
        ensures
            r == (ChunkingStrategy::FixedSizeOverlap { chunk_size: 1000, overlap: 200 }),
    {
        ChunkingStrategy::FixedSizeOverlap { chunk_size: 1000, overlap: 200 }
    }
}

/// A passage of a text, with its heading and fingerprint.
#[derive(Debug, Clone)]
pub struct Chunk {
    pub content: String,
    pub heading: Option<String>,
    /// The path of headings above the chunk, joined by ` > `.
    pub heading_context: Option<String>,
    pub has_code: bool,
    /// Index of the chunk among those returned by one call.
    pub position: usize,
    /// Fingerprint of the content's words, lowercased (see `content_key`).
    pub content_hash: u64,
}

/// Markers that make a passage count as code.
pub open spec fn has_code_marker(s: Seq<char>) -> bool {
    ||| has_substring(s, "```"@)
    ||| has_substring(s, "    "@)
    ||| has_substring(s, "\t"@)
    ||| has_substring(s, "function"@)
    ||| has_substring(s, "class"@)
    ||| has_substring(s, "def "@)
    ||| has_substring(s, "const "@)
    ||| has_substring(s, "let "@)
    ||| has_substring(s, "var "@)
}

/// Whether the text holds a code marker.
pub fn contains_code(v: &Vec<char>) -> (r: bool)
    ensures
        r == has_code_marker(v@),
{
    contains_chars(v, &chars_of("```")) || contains_chars(v, &chars_of("    "))
        || contains_chars(v, &chars_of("\t")) || contains_chars(v, &chars_of("function"))
        || contains_chars(v, &chars_of("class")) || contains_chars(v, &chars_of("def "))
        || contains_chars(v, &chars_of("const ")) || contains_chars(v, &chars_of("let "))
        || contains_chars(v, &chars_of("var "))
}

/// The fingerprint a chunk with content `s` carries.
pub open spec fn chunk_fingerprint(s: Seq<char>) -> u64 {
    fingerprint(content_key(s))
}

/// A chunk as the chunker makes it: trimmed non-empty content, its code
/// flag and its fingerprint.
pub open spec fn well_formed_chunk(c: Chunk) -> bool {
    &&& c.content@.len() > 0
    &&& is_trimmed(c.content@)
    &&& c.has_code == has_code_marker(c.content@)
    &&& c.content_hash == chunk_fingerprint(c.content@)
}

/// `out` is what one call emitted when the seen fingerprints went from
/// `before` to `after`: well-formed chunks at their positions, with
/// fingerprints new to `before` and distinct from each other, and `after`
/// is `before` with those fingerprints added.
pub open spec fn emitted(out: Seq<Chunk>, before: Set<u64>, after: Set<u64>) -> bool {
    &&& forall|a: int| 0 <= a < out.len() ==> {
        &&& well_formed_chunk(#[trigger] out[a])
        &&& out[a].position == a
        &&& !before.contains(out[a].content_hash)
    }
    &&& forall|a: int, b: int| 0 <= a < b < out.len()
        ==> (#[trigger] out[a]).content_hash != (#[trigger] out[b]).content_hash
    &&& forall|h: u64| #[trigger] after.contains(h) <==> (before.contains(h)
        || exists|a: int| 0 <= a < out.len() && (#[trigger] out[a]).content_hash == h)
}

/// What emitting the candidate chunks `cands` (text, heading, heading
/// path) in turn yields, starting from the seen fingerprints `seen`: each
/// candidate's text is trimmed, and kept unless it is blank or its
/// fingerprint was seen; gives the kept chunks and the fingerprints seen.
pub open spec fn dedup(
    cands: Seq<(Seq<char>, Option<Seq<char>>, Option<Seq<char>>)>,
    seen: Set<u64>,
) -> (Seq<(Seq<char>, Option<Seq<char>>, Option<Seq<char>>)>, Set<u64>)
    decreases cands.len(),
{
    if cands.len() == 0 {
        (Seq::empty(), seen)
    } else {
        let (out, s) = dedup(cands.drop_last(), seen);
        let c = cands.last();
        let t = trim(c.0);
        let h = chunk_fingerprint(t);
        if t.len() == 0 || s.contains(h) { (out, s) } else { (out.push((t, c.1, c.2)), s.insert(h)) }
    }
}

/// The text, heading and heading path of each chunk.
pub open spec fn chunk_views(r: Seq<Chunk>) -> Seq<(Seq<char>, Option<Seq<char>>, Option<Seq<char>>)> {
    r.map_values(|c: Chunk| (c.content@, opt_view(c.heading), opt_view(c.heading_context)))
}

/// The characters of an optional string.
pub open spec fn opt_view(o: Option<String>) -> Option<Seq<char>> {
    match o {
        Some(s) => Some(s@),
        None => None,
    }
}

/// A sentence end: `.`, `!`, `?` or a line feed.
pub open spec fn is_sentence_end(c: char) -> bool {
    c == '.' || c == '!' || c == '?' || c == '\n'
}

/// The position just after the last sentence end in `v[lo..k]`, if any.
pub open spec fn last_sentence_end(v: Seq<char>, lo: int, k: int) -> Option<int>
    decreases k - lo,
{
    if k <= lo {
        None
    } else if is_sentence_end(v[k - 1]) {
        Some(k)
    } else {
        last_sentence_end(v, lo, k - 1)
    }
}

/// End of the slice that starts at `start`: the end of the text when it
/// is within `size`, else just after the last sentence end within `size`
/// characters, else `size` characters on.
pub open spec fn slice_end(v: Seq<char>, start: int, size: int) -> int {
    if start + size >= v.len() {
        v.len() as int
    } else {
        match last_sentence_end(v, start, start + size) {
            Some(k) => k,
            None => start + size,
        }
    }
}

/// Start of the slice after `v[start..end]`: `overlap` characters before
/// `end`, but after `start`.
pub open spec fn next_slice_start(v: Seq<char>, start: int, end: int, overlap: int) -> int {
    if end == v.len() {
        end
    } else if end > overlap && end - overlap > start {
        end - overlap
    } else {
        start + 1
    }
}

/// The slices from `start` on, as candidate chunks without heading.
pub open spec fn slices_from(v: Seq<char>, size: int, overlap: int, start: int) -> Seq<(Seq<char>, Option<Seq<char>>, Option<Seq<char>>)>
    decreases v.len() - start,
{
    if start < 0 || start >= v.len() || size < 0 {
        Seq::empty()
    } else {
        let end = slice_end(v, start, size);
        let next = next_slice_start(v, start, end, overlap);
        if start < next <= v.len() {
            seq![(v.subrange(start, end), None::<Seq<char>>, None::<Seq<char>>)] + slices_from(v, size, overlap, next)
        } else {
            Seq::empty()
        }
    }
}

/// The candidate chunks of the fixed-size strategy: the whole text when it
/// is within `size`, else its slices.
pub open spec fn fixed_candidates(v: Seq<char>, size: int, overlap: int) -> Seq<(Seq<char>, Option<Seq<char>>, Option<Seq<char>>)> {
    if v.len() <= size {
        seq![(v, None::<Seq<char>>, None::<Seq<char>>)]
    } else {
        slices_from(v, size, overlap, 0)
    }
}

/// `a + b`, saturating at `usize::MAX`.
pub open spec fn sat_add(a: int, b: int) -> int {
    if a + b > usize::MAX { usize::MAX as int } else { a + b }
}

/// Gathering the paragraphs `pars` of `v`: the candidate chunks closed so
/// far and the chunk being gathered. A non-blank paragraph closes the
/// gathered chunk first when adding it would pass `max` characters and the
/// chunk has `min`; a paragraph of `max` characters or more closes the
/// chunk it ends.
pub open spec fn gather_paragraphs(v: Seq<char>, pars: Seq<(usize, usize)>, max: int, min: int)
    -> (Seq<(Seq<char>, Option<Seq<char>>, Option<Seq<char>>)>, Seq<char>)
    decreases pars.len(),
{
    if pars.len() == 0 {
        (Seq::empty(), Seq::empty())
    } else {
        let (cands, cur) = gather_paragraphs(v, pars.drop_last(), max, min);
        let lo = pars.last().0 as int;
        let hi = pars.last().1 as int;
        let p = v.subrange(lo, hi);
        if trim(p).len() == 0 {
            (cands, cur)
        } else {
            let plen = hi - lo;
            let flush = cur.len() > 0 && sat_add(sat_add(cur.len() as int, plen), 2) > max && cur.len() >= min;
            let c1 = if flush { cands.push((cur, None::<Seq<char>>, None::<Seq<char>>)) } else { cands };
            let cur1 = if flush { Seq::<char>::empty() } else { cur };
            let cur2 = if cur1.len() > 0 { cur1 + seq!['\n', '\n'] + p } else { p };
            if plen >= max {
                (c1.push((cur2, None::<Seq<char>>, None::<Seq<char>>)), Seq::<char>::empty())
            } else {
                (c1, cur2)
            }
        }
    }
}

/// The candidate chunks of the paragraph strategy.
pub open spec fn semantic_candidates(v: Seq<char>, max: int, min: int) -> Seq<(Seq<char>, Option<Seq<char>>, Option<Seq<char>>)> {
    let (cands, cur) = gather_paragraphs(v, split_pieces(v, 0, 0), max, min);
    if cur.len() > 0 && cur.len() >= min { cands.push((cur, None::<Seq<char>>, None::<Seq<char>>)) } else { cands }
}

/// Reading the lines `lines` of `v` under headings: the candidate chunks
/// closed so far, the chunk being gathered, its heading, its heading path
/// and the stack of headings. A heading line closes the gathered chunk
/// (when it has `min` characters), cuts the stack below its level, pushes
/// its title and starts a chunk with itself; another line closes the
/// gathered chunk first when adding it would pass `max` characters and the
/// chunk has `min`, the next chunk then having the path but no heading.
pub open spec fn heading_state(v: Seq<char>, lines: Seq<(usize, usize)>, max: int, min: int)
    -> (Seq<(Seq<char>, Option<Seq<char>>, Option<Seq<char>>)>, Seq<char>, Option<Seq<char>>, Option<Seq<char>>, Seq<Seq<char>>)
    decreases lines.len(),
{
    if lines.len() == 0 {
        (Seq::empty(), Seq::empty(), None, None, Seq::empty())
    } else {
        let (cands, cur, h, ctx, st) = heading_state(v, lines.drop_last(), max, min);
        let lo = lines.last().0 as int;
        let hi = lines.last().1 as int;
        let line = v.subrange(lo, hi);
        let t = trim(line);
        let level = spec_heading_level(t);
        if level > 0 {
            let title = spec_heading_text(t, level as int);
            let c1 = if cur.len() > 0 && cur.len() >= min { cands.push((cur, h, ctx)) } else { cands };
            let kept = if st.len() < level { st.len() as int } else { level - 1 };
            let st2 = st.take(kept).push(title);
            (c1, t.push('\n'), Some(title), Some(join_headings(st2)), st2)
        } else {
            let flush = cur.len() > 0 && sat_add(sat_add(cur.len() as int, hi - lo), 1) > max && cur.len() >= min;
            let c1 = if flush { cands.push((cur, h, ctx)) } else { cands };
            let cur1 = if flush { Seq::<char>::empty() } else { cur };
            let h1 = if flush { None } else { h };
            let cur2 = if cur1.len() > 0 { cur1.push('\n') + line } else { line };
            (c1, cur2, h1, ctx, st)
        }
    }
}

/// The candidate chunks of the heading strategy.
pub open spec fn heading_candidates(v: Seq<char>, max: int, min: int) -> Seq<(Seq<char>, Option<Seq<char>>, Option<Seq<char>>)> {
    let (cands, cur, h, ctx, st) = heading_state(v, split_lines_from(v, 0, 0), max, min);
    if cur.len() > 0 && cur.len() >= min { cands.push((cur, h, ctx)) } else { cands }
}

/// `c` occurs in `v` and has at most `max` characters.
pub open spec fn is_slice_within(v: Seq<char>, c: Seq<char>, max: int) -> bool {
    has_substring(v, c) && c.len() <= max
}

/// Splits texts into chunks, never emitting two chunks with the same
/// fingerprint over its lifetime.
pub struct EnhancedChunker {
    strategy: ChunkingStrategy,
    seen_content_hashes: HashSet<u64>,
}

impl EnhancedChunker {
    /// The fingerprints of every chunk emitted since the last clearing.
    pub closed spec fn seen(&self) -> Set<u64> {
        self.seen_content_hashes@
    }

    pub closed spec fn spec_strategy(&self) -> ChunkingStrategy {
        self.strategy
    }

    pub fn new(strategy: ChunkingStrategy) -> (r: EnhancedChunker)
        ensures
            r.spec_strategy() == strategy,
            r.seen() == Set::<u64>::empty(),
    {
        EnhancedChunker { strategy, seen_content_hashes: HashSet::new() }
    }

    pub fn with_strategy(self, strategy: ChunkingStrategy) -> (r: EnhancedChunker)
        ensures
            r.spec_strategy() == strategy,
            r.seen() == self.seen(),
    {
        EnhancedChunker { strategy, seen_content_hashes: self.seen_content_hashes }
    }

    pub fn strategy(&self) -> (r: ChunkingStrategy)
        ensures
            r == self.spec_strategy(),
    {
        self.strategy
    }

    pub fn set_strategy(&mut self, strategy: ChunkingStrategy)
        ensures
            final(self).spec_strategy() == strategy,
            final(self).seen() == old(self).seen(),
    {
        self.strategy = strategy;
    }

    /// Forgets every fingerprint seen.
    pub fn clear_deduplication_cache(&mut self)
        ensures
            final(self).spec_strategy() == old(self).spec_strategy(),
            final(self).seen() == Set::<u64>::empty(),
    {
        self.seen_content_hashes.clear();
    }

    /// Emits `v[lo..hi]`, trimmed, as the next chunk of `out`, unless it is
    /// blank or its fingerprint was seen.
    fn emit(
        &mut self,
        v: &Vec<char>,
        lo: usize,
        hi: usize,
        heading: &Option<String>,
        context: &Option<String>,
        out: &mut Vec<Chunk>,
        Ghost(before): Ghost<Set<u64>>,
    )
        requires
            lo <= hi <= v@.len(),
            emitted(old(out)@, before, old(self).seen()),
        ensures
            emitted(final(out)@, before, final(self).seen()),
            final(self).spec_strategy() == old(self).spec_strategy(),
            final(out)@.len() >= old(out)@.len(),
            final(out)@.len() <= old(out)@.len() + 1,
            (forall|i: int| lo <= i < hi ==> is_ws(#[trigger] v@[i])) ==> final(out)@ == old(out)@
                && final(self).seen() == old(self).seen(),
            forall|k: int| 0 <= k < old(out)@.len() ==> final(out)@[k] == old(out)@[k],
            ({
                let t = trim(v@.subrange(lo as int, hi as int));
                let h = chunk_fingerprint(t);
                if t.len() == 0 || old(self).seen().contains(h) {
                    final(out)@ == old(out)@ && final(self).seen() == old(self).seen()
                } else {
                    &&& chunk_views(final(out)@) == chunk_views(old(out)@).push((t, opt_view(*heading), opt_view(*context)))
                    &&& final(self).seen() == old(self).seen().insert(h)
                }
            }),
            final(out)@.len() == old(out)@.len() + 1 ==> {
                &&& exists|a: int, b: int| trims_to(v@, lo as int, hi as int, a, b)
                    && (#[trigger] final(out)@.last().content@) == v@.subrange(a, b)
                &&& final(out)@.last().heading == *heading
                &&& final(out)@.last().heading_context == *context
            },
    {
        let (a, b) = trim_range(v, lo, hi);
        proof { lemma_trims_to_trim(v@, lo as int, hi as int, a as int, b as int); }
        if a == b {
            return;
        }
        assert(!is_ws(v@[a as int]));
        let hash = content_fingerprint(v, a, b);
        if self.seen_content_hashes.contains(&hash) {
            return;
        }
        self.seen_content_hashes.insert(hash);
        let content = string_of(v, a, b);
        let ghost piece = v@.subrange(a as int, b as int);
        let mut body: Vec<char> = Vec::new();
        let mut k = a;
        while k < b
            invariant
                a <= k <= b <= v@.len(),
                body@ == v@.subrange(a as int, k as int),
            decreases b - k,
        {
            body.push(v[k]);
            assert(v@.subrange(a as int, k + 1) == v@.subrange(a as int, k as int).push(v@[k as int]));
            k = k + 1;
        }
        let has_code = contains_code(&body);
        let position = out.len();
        assert(is_trimmed(piece));
        let heading_copy = match heading {
            Some(h) => Some(h.clone()),
            None => None,
        };
        let context_copy = match context {
            Some(h) => Some(h.clone()),
            None => None,
        };
        let ghost old_out = out@;
        out.push(Chunk { content, heading: heading_copy, heading_context: context_copy, has_code, position, content_hash: hash });
        assert(trims_to(v@, lo as int, hi as int, a as int, b as int) && out@.last().content@ == v@.subrange(a as int, b as int));
        assert(chunk_views(out@) =~= chunk_views(old_out).push((piece, opt_view(*heading), opt_view(*context))));
        assert forall|h: u64| #[trigger] self.seen_content_hashes@.contains(h) <==> (before.contains(h)
            || exists|i: int| 0 <= i < out@.len() && (#[trigger] out@[i]).content_hash == h) by {
            assert(out@[out@.len() - 1].content_hash == hash);
            assert(old(self).seen_content_hashes@.contains(h) == (before.contains(h)
                || exists|i: int| 0 <= i < old_out.len() && (#[trigger] old_out[i]).content_hash == h));
            if exists|i: int| 0 <= i < old_out.len() && (#[trigger] old_out[i]).content_hash == h {
                let i = choose|i: int| 0 <= i < old_out.len() && (#[trigger] old_out[i]).content_hash == h;
                assert(out@[i] == old_out[i]);
            }
            if exists|i: int| 0 <= i < out@.len() && (#[trigger] out@[i]).content_hash == h {
                let i = choose|i: int| 0 <= i < out@.len() && (#[trigger] out@[i]).content_hash == h;
                if i < old_out.len() {
                    assert(old_out[i] == out@[i]);
                }
            }
        }
        assert forall|i: int, j: int| 0 <= i < j < out@.len()
            implies (#[trigger] out@[i]).content_hash != (#[trigger] out@[j]).content_hash by {
            if j == out@.len() - 1 {
                assert(old_out[i] == out@[i]);
                assert(old(self).seen_content_hashes@.contains(old_out[i].content_hash));
            } else {
                assert(old_out[i] == out@[i]);
                assert(old_out[j] == out@[j]);
            }
        }
        assert forall|i: int| 0 <= i < out@.len() implies {
            &&& well_formed_chunk(#[trigger] out@[i])
            &&& out@[i].position == i
            &&& !before.contains(out@[i].content_hash)
        } by {
            if i < old_out.len() {
                assert(old_out[i] == out@[i]);
            }
        }
    }

    /// Splits `text` into chunks by the current strategy, skipping chunks
    /// whose fingerprint was seen before, and remembers the new ones.
    pub fn chunk_text(&mut self, text: &str) -> (r: Vec<Chunk>)
        ensures
            emitted(r@, old(self).seen(), final(self).seen()),
            old(self).spec_strategy() matches ChunkingStrategy::HeadingBased { max_size, min_size }
                ==> (chunk_views(r@), final(self).seen())
                    == dedup(heading_candidates(text@, max_size as int, min_size as int), old(self).seen()),
            old(self).spec_strategy() matches ChunkingStrategy::SemanticBoundaries { max_size, min_size }
                ==> (chunk_views(r@), final(self).seen())
                    == dedup(semantic_candidates(text@, max_size as int, min_size as int), old(self).seen()),
            old(self).spec_strategy() matches ChunkingStrategy::FixedSizeOverlap { chunk_size, overlap } ==> {
                &&& forall|a: int| 0 <= a < r@.len() ==> is_slice_within(text@, (#[trigger] r@[a]).content@, chunk_size as int)
                &&& (chunk_views(r@), final(self).seen())
                    == dedup(fixed_candidates(text@, chunk_size as int, overlap as int), old(self).seen())
            },
            final(self).spec_strategy() == old(self).spec_strategy(),
            text@.len() == 0 ==> r@.len() == 0 && final(self).seen() == old(self).seen(),
    {
        let v = chars_of(text);
        match self.strategy {
            ChunkingStrategy::FixedSizeOverlap { chunk_size, overlap } => self.chunk_fixed_size(&v, chunk_size, overlap),
            ChunkingStrategy::SemanticBoundaries { max_size, min_size } => self.chunk_semantic_boundaries(&v, max_size, min_size),
            ChunkingStrategy::HeadingBased { max_size, min_size } => self.chunk_heading_based(&v, max_size, min_size),
        }
    }

    /// Slices of at most `chunk_size` characters, each ended after the last
    /// sentence end (`.`, `!`, `?` or a line break) in its window when there
    /// is one; the next slice starts `overlap` characters before the end of
    /// the previous one, and always after its start.
    fn chunk_fixed_size(&mut self, v: &Vec<char>, chunk_size: usize, overlap: usize) -> (r: Vec<Chunk>)
        ensures
            emitted(r@, old(self).seen(), final(self).seen()),
            forall|a: int| 0 <= a < r@.len() ==> is_slice_within(v@, (#[trigger] r@[a]).content@, chunk_size as int),
            final(self).spec_strategy() == old(self).spec_strategy(),
            v@.len() == 0 ==> r@.len() == 0 && final(self).seen() == old(self).seen(),
            (chunk_views(r@), final(self).seen()) == dedup(fixed_candidates(v@, chunk_size as int, overlap as int), old(self).seen()),
    {
        let ghost before = self.seen();
        let mut out: Vec<Chunk> = Vec::new();
        let n = v.len();
        if n <= chunk_size {
            self.emit(v, 0, n, &None, &None, &mut out, Ghost(before));
            proof {
                let c = seq![(v@, None::<Seq<char>>, None::<Seq<char>>)];
                assert(c.drop_last() =~= Seq::<(Seq<char>, Option<Seq<char>>, Option<Seq<char>>)>::empty());
                assert(v@.subrange(0, n as int) == v@);
                assert(chunk_views(Seq::<Chunk>::empty()) =~= Seq::<(Seq<char>, Option<Seq<char>>, Option<Seq<char>>)>::empty());
                assert(dedup(c.drop_last(), before) == (Seq::<(Seq<char>, Option<Seq<char>>, Option<Seq<char>>)>::empty(), before));
                assert(c.last() == (v@, None::<Seq<char>>, None::<Seq<char>>));
                assert(fixed_candidates(v@, chunk_size as int, overlap as int) == c);
                if out@.len() == 1 {
                    let (a, b) = choose|a: int, b: int| trims_to(v@, 0, n as int, a, b)
                        && (#[trigger] out@.last().content@) == v@.subrange(a, b);
                    assert(occurs_at(v@, out@[0].content@, a));
                }
            }
            return out;
        }
        let mut start: usize = 0;
        let ghost mut cands = Seq::<(Seq<char>, Option<Seq<char>>, Option<Seq<char>>)>::empty();
        assert(chunk_views(out@) =~= Seq::<(Seq<char>, Option<Seq<char>>, Option<Seq<char>>)>::empty());
        while start < n
            invariant
                n == v@.len(),
                n > chunk_size,
                start <= n,
                cands + slices_from(v@, chunk_size as int, overlap as int, start as int)
                    == slices_from(v@, chunk_size as int, overlap as int, 0),
                (chunk_views(out@), self.seen()) == dedup(cands, before),
                emitted(out@, before, self.seen()),
                self.spec_strategy() == old(self).spec_strategy(),
                forall|a: int| 0 <= a < out@.len() ==> is_slice_within(v@, (#[trigger] out@[a]).content@, chunk_size as int),
            decreases n - start,
        {
            let end = if chunk_size >= n - start {
                n
            } else {
                let window_end = start + chunk_size;
                let mut e = window_end;
                let mut k = window_end;
                while k > start
                    invariant_except_break
                        e == window_end,
                    invariant
                        start <= k <= window_end,
                        window_end <= n == v@.len(),
                        start <= e <= window_end,
                        last_sentence_end(v@, start as int, window_end as int) == last_sentence_end(v@, start as int, k as int),
                    ensures
                        e == match last_sentence_end(v@, start as int, window_end as int) {
                            Some(x) => x,
                            None => window_end as int,
                        },
                    decreases k,
                {
                    let c = v[k - 1];
                    if c == '.' || c == '!' || c == '?' || c == '\n' {
                        e = k;
                        break;
                    }
                    k = k - 1;
                }
                assert(e == match last_sentence_end(v@, start as int, window_end as int) {
                    Some(x) => x,
                    None => window_end as int,
                });
                e
            };
            assert(end == slice_end(v@, start as int, chunk_size as int));
            let ghost prev = out@;
            let ghost cand = (v@.subrange(start as int, end as int), None::<Seq<char>>, None::<Seq<char>>);
            self.emit(v, start, end, &None, &None, &mut out, Ghost(before));
            proof {
                let old_cands = cands;
                cands = cands.push(cand);
                assert(cands.drop_last() == old_cands);
                assert(cands.last() == cand);
            }
            proof {
                assert forall|a: int| 0 <= a < out@.len() implies is_slice_within(v@, (#[trigger] out@[a]).content@, chunk_size as int) by {
                    if a < prev.len() {
                        assert(out@[a] == prev[a]);
                    } else {
                        let (x, y) = choose|x: int, y: int| trims_to(v@, start as int, end as int, x, y)
                            && (#[trigger] out@.last().content@) == v@.subrange(x, y);
                        assert(occurs_at(v@, out@[a].content@, x));
                    }
                }
            }
            let next = if end == n {
                end
            } else if end > overlap && end - overlap > start {
                end - overlap
            } else {
                start + 1
            };
            proof {
                let rest = slices_from(v@, chunk_size as int, overlap as int, start as int);
                assert(next as int == next_slice_start(v@, start as int, end as int, overlap as int));
                assert(rest == seq![cand] + slices_from(v@, chunk_size as int, overlap as int, next as int));
                assert(cands + slices_from(v@, chunk_size as int, overlap as int, next as int)
                    =~= cands.drop_last() + rest);
            }
            start = next;
        }
        proof {
            assert(slices_from(v@, chunk_size as int, overlap as int, n as int) =~= Seq::<(Seq<char>, Option<Seq<char>>, Option<Seq<char>>)>::empty());
            assert(cands =~= slices_from(v@, chunk_size as int, overlap as int, 0));
        }
        out
    }

    /// Blank-line separated paragraphs, gathered while the chunk stays
    /// within `max_size` characters; a full chunk is emitted once it has
    /// `min_size` characters, and a paragraph of `max_size` or more closes
    /// its chunk at once.
    fn chunk_semantic_boundaries(&mut self, v: &Vec<char>, max_size: usize, min_size: usize) -> (r: Vec<Chunk>)
        ensures
            emitted(r@, old(self).seen(), final(self).seen()),
            final(self).spec_strategy() == old(self).spec_strategy(),
            v@.len() == 0 ==> r@.len() == 0 && final(self).seen() == old(self).seen(),
            (chunk_views(r@), final(self).seen())
                == dedup(semantic_candidates(v@, max_size as int, min_size as int), old(self).seen()),
    {
        let ghost before = self.seen();
        let mut out: Vec<Chunk> = Vec::new();
        let paragraphs = paragraph_ranges(v);
        let mut cur: Vec<char> = Vec::new();
        let ghost mut cands = Seq::<(Seq<char>, Option<Seq<char>>, Option<Seq<char>>)>::empty();
        assert(chunk_views(out@) =~= Seq::<(Seq<char>, Option<Seq<char>>, Option<Seq<char>>)>::empty());
        let mut p: usize = 0;
        while p < paragraphs.len()
            invariant
                forall|q: int| 0 <= q < paragraphs@.len()
                    ==> (#[trigger] paragraphs@[q]).0 <= paragraphs@[q].1 <= v@.len(),
                paragraphs@ == split_pieces(v@, 0, 0),
                p <= paragraphs@.len(),
                v@.len() == 0 ==> forall|q: int| 0 <= q < paragraphs@.len() ==> (#[trigger] paragraphs@[q]).0 == paragraphs@[q].1,
                v@.len() == 0 ==> cur@.len() == 0 && out@.len() == 0 && self.seen() == before,
                (cands, cur@) == gather_paragraphs(v@, paragraphs@.take(p as int), max_size as int, min_size as int),
                (chunk_views(out@), self.seen()) == dedup(cands, before),
                emitted(out@, before, self.seen()),
                self.spec_strategy() == old(self).spec_strategy(),
            decreases paragraphs@.len() - p,
        {
            let (lo, hi) = paragraphs[p];
            assert(paragraphs@.take(p + 1).drop_last() == paragraphs@.take(p as int));
            assert(paragraphs@.take(p + 1).last() == paragraphs@[p as int]);
            let ghost piece = v@.subrange(lo as int, hi as int);
            let ghost c0 = cands;
            let ghost cur0 = cur@;
            let (a, b) = trim_range(v, lo, hi);
            proof { lemma_trims_to_trim(v@, lo as int, hi as int, a as int, b as int); }
            if a < b {
                let plen = hi - lo;
                let flush = cur.len() > 0 && cur.len().saturating_add(plen).saturating_add(2) > max_size && cur.len() >= min_size;
                assert(flush == (cur0.len() > 0 && sat_add(sat_add(cur0.len() as int, plen as int), 2) > max_size && cur0.len() >= min_size));
                if flush {
                    let clen = cur.len();
                    assert(cur@.subrange(0, clen as int) == cur@);
                    let ghost old_out_1 = out@;
                    let ghost seen_1 = self.seen();
                    self.emit(&cur, 0, clen, &None, &None, &mut out, Ghost(before));
                    proof {
                        cands = cands.push((cur@, None::<Seq<char>>, None::<Seq<char>>));
                        assert(cands.drop_last() == c0);
                        assert(cands.last() == (cur0, None::<Seq<char>>, None::<Seq<char>>));
                        assert(dedup(c0, before) == (chunk_views(old_out_1), seen_1));
                        assert((chunk_views(out@), self.seen()) == dedup(cands, before));
                    }
                    cur = Vec::new();
                }
                let ghost c1 = cands;
                let ghost cur1 = cur@;
                assert(c1 == if flush { c0.push((cur0, None::<Seq<char>>, None::<Seq<char>>)) } else { c0 });
                assert(cur1 == if flush { Seq::<char>::empty() } else { cur0 });
                if cur.len() > 0 {
                    cur.push('\n');
                    cur.push('\n');
                }
                let ghost base = cur@;
                assert(base == if cur1.len() > 0 { cur1 + seq!['\n', '\n'] } else { cur1 });
                let mut k = lo;
                while k < hi
                    invariant
                        lo <= k <= hi <= v@.len(),
                        cur@ == base + v@.subrange(lo as int, k as int),
                    decreases hi - k,
                {
                    cur.push(v[k]);
                    assert(v@.subrange(lo as int, k + 1) == v@.subrange(lo as int, k as int).push(v@[k as int]));
                    k = k + 1;
                }
                let ghost cur2 = cur@;
                assert(cur2 == if cur1.len() > 0 { cur1 + seq!['\n', '\n'] + piece } else { piece }) by {
                    if cur1.len() == 0 {
                        assert(base.len() == 0);
                        assert(cur2 =~= piece);
                    }
                }
                if plen >= max_size {
                    let clen = cur.len();
                    assert(cur@.subrange(0, clen as int) == cur@);
                    let ghost old_out_2 = out@;
                    let ghost seen_2 = self.seen();
                    assert((chunk_views(out@), self.seen()) == dedup(c1, before));
                    self.emit(&cur, 0, clen, &None, &None, &mut out, Ghost(before));
                    proof {
                        cands = cands.push((cur@, None::<Seq<char>>, None::<Seq<char>>));
                        assert(cands.drop_last() == c1);
                        assert(cands.last() == (cur2, None::<Seq<char>>, None::<Seq<char>>));
                        assert(dedup(c1, before) == (chunk_views(old_out_2), seen_2));
                        assert((chunk_views(out@), self.seen()) == dedup(cands, before));
                    }
                    cur = Vec::new();
                }
                assert((cands, cur@) == gather_paragraphs(v@, paragraphs@.take(p + 1), max_size as int, min_size as int));
            } else {
                assert(trim(piece).len() == 0);
            }
            p = p + 1;
        }
        assert(paragraphs@.take(paragraphs@.len() as int) == paragraphs@);
        if cur.len() > 0 && cur.len() >= min_size {
            let clen = cur.len();
            assert(cur@.subrange(0, clen as int) == cur@);
            self.emit(&cur, 0, clen, &None, &None, &mut out, Ghost(before));
            proof {
                let old_cands = cands;
                cands = cands.push((cur@, None::<Seq<char>>, None::<Seq<char>>));
                assert(cands.drop_last() == old_cands);
                assert(cands.last() == (cur@, None::<Seq<char>>, None::<Seq<char>>));
            }
        }
        assert(cands == semantic_candidates(v@, max_size as int, min_size as int));
        out
    }

    /// Sections under Markdown headings: a heading closes the chunk before
    /// it (when that has `min_size` characters) and starts a new one that
    /// carries the heading and the path of headings above it; a section
    /// longer than `max_size` characters continues in chunks that keep the
    /// path but not the heading.
    fn chunk_heading_based(&mut self, v: &Vec<char>, max_size: usize, min_size: usize) -> (r: Vec<Chunk>)
        ensures
            emitted(r@, old(self).seen(), final(self).seen()),
            final(self).spec_strategy() == old(self).spec_strategy(),
            v@.len() == 0 ==> r@.len() == 0 && final(self).seen() == old(self).seen(),
            (chunk_views(r@), final(self).seen())
                == dedup(heading_candidates(v@, max_size as int, min_size as int), old(self).seen()),
    {
        let ghost before = self.seen();
        let mut out: Vec<Chunk> = Vec::new();
        let lines = line_ranges(v);
        let mut cur: Vec<char> = Vec::new();
        let mut heading: Option<String> = None;
        let mut context: Option<String> = None;
        let mut stack: Vec<Vec<char>> = Vec::new();
        let ghost mut cands = Seq::<(Seq<char>, Option<Seq<char>>, Option<Seq<char>>)>::empty();
        assert(chunk_views(out@) =~= Seq::<(Seq<char>, Option<Seq<char>>, Option<Seq<char>>)>::empty());
        assert(stack_view(stack@) =~= Seq::<Seq<char>>::empty());
        let mut p: usize = 0;
        while p < lines.len()
            invariant
                forall|q: int| 0 <= q < lines@.len()
                    ==> (#[trigger] lines@[q]).0 <= lines@[q].1 <= v@.len(),
                lines@ == split_lines_from(v@, 0, 0),
                p <= lines@.len(),
                v@.len() == 0 ==> lines@.len() == 0,
                v@.len() == 0 ==> cur@.len() == 0 && out@.len() == 0 && self.seen() == before,
                (cands, cur@, opt_view(heading), opt_view(context), stack_view(stack@))
                    == heading_state(v@, lines@.take(p as int), max_size as int, min_size as int),
                (chunk_views(out@), self.seen()) == dedup(cands, before),
                emitted(out@, before, self.seen()),
                self.spec_strategy() == old(self).spec_strategy(),
            decreases lines@.len() - p,
        {
            let (lo, hi) = lines[p];
            assert(lines@.take(p + 1).drop_last() == lines@.take(p as int));
            assert(lines@.take(p + 1).last() == lines@[p as int]);
            let ghost line = v@.subrange(lo as int, hi as int);
            let ghost c0 = cands;
            let ghost cur0 = cur@;
            let ghost h0 = opt_view(heading);
            let ghost ctx0 = opt_view(context);
            let ghost st0 = stack_view(stack@);
            let (a, b) = trim_range(v, lo, hi);
            proof { lemma_trims_to_trim(v@, lo as int, hi as int, a as int, b as int); }
            let ghost t = v@.subrange(a as int, b as int);
            let level = heading_level(v, a, b);
            if level > 0 {
                let title = heading_text(v, a, b, level);
                if cur.len() > 0 && cur.len() >= min_size {
                    let clen = cur.len();
                    assert(cur@.subrange(0, clen as int) == cur@);
                    self.emit(&cur, 0, clen, &heading, &context, &mut out, Ghost(before));
                    proof {
                        cands = cands.push((cur0, h0, ctx0));
                        assert(cands.drop_last() == c0);
                        assert(cands.last() == (cur0, h0, ctx0));
                    }
                }
                let ghost kept: int = if st0.len() < level { st0.len() as int } else { level - 1 };
                while stack.len() >= level
                    invariant
                        level > 0,
                        stack@.len() <= st0.len(),
                        stack@.len() >= kept,
                        kept == if st0.len() < level { st0.len() as int } else { level - 1 },
                        stack_view(stack@) == st0.take(stack@.len() as int),
                    decreases stack@.len(),
                {
                    let ghost sv = stack_view(stack@);
                    stack.pop();
                    assert(stack_view(stack@) =~= sv.drop_last());
                }
                assert(stack@.len() == kept);
                let title_len = title.len();
                let title_text = string_of(&title, 0, title_len);
                assert(title@.subrange(0, title_len as int) == title@);
                let ghost tv = title@;
                let ghost sv1 = stack_view(stack@);
                stack.push(title);
                assert(stack_view(stack@) =~= sv1.push(tv));
                context = Some(join_path(&stack));
                heading = Some(title_text);
                cur = Vec::new();
                let mut k = a;
                while k < b
                    invariant
                        a <= k <= b <= v@.len(),
                        cur@ == v@.subrange(a as int, k as int),
                    decreases b - k,
                {
                    cur.push(v[k]);
                    assert(v@.subrange(a as int, k + 1) == v@.subrange(a as int, k as int).push(v@[k as int]));
                    k = k + 1;
                }
                cur.push('\n');
                assert((cands, cur@, opt_view(heading), opt_view(context), stack_view(stack@))
                    == heading_state(v@, lines@.take(p + 1), max_size as int, min_size as int));
            } else {
                let line_len = hi - lo;
                let flush = cur.len() > 0 && cur.len().saturating_add(line_len).saturating_add(1) > max_size && cur.len() >= min_size;
                if flush {
                    let clen = cur.len();
                    assert(cur@.subrange(0, clen as int) == cur@);
                    self.emit(&cur, 0, clen, &heading, &context, &mut out, Ghost(before));
                    proof {
                        cands = cands.push((cur0, h0, ctx0));
                        assert(cands.drop_last() == c0);
                        assert(cands.last() == (cur0, h0, ctx0));
                    }
                    cur = Vec::new();
                    heading = None;
                }
                let ghost cur1 = cur@;
                if cur.len() > 0 {
                    cur.push('\n');
                }
                let ghost base = cur@;
                let mut k = lo;
                while k < hi
                    invariant
                        lo <= k <= hi <= v@.len(),
                        cur@ == base + v@.subrange(lo as int, k as int),
                    decreases hi - k,
                {
                    cur.push(v[k]);
                    assert(v@.subrange(lo as int, k + 1) == v@.subrange(lo as int, k as int).push(v@[k as int]));
                    k = k + 1;
                }
                assert(cur@ == if cur1.len() > 0 { cur1.push('\n') + line } else { line }) by {
                    if cur1.len() == 0 {
                        assert(cur@ =~= line);
                    }
                }
                assert((cands, cur@, opt_view(heading), opt_view(context), stack_view(stack@))
                    == heading_state(v@, lines@.take(p + 1), max_size as int, min_size as int));
            }
            p = p + 1;
        }
        assert(lines@.take(lines@.len() as int) == lines@);
        if cur.len() > 0 && cur.len() >= min_size {
            let clen = cur.len();
            assert(cur@.subrange(0, clen as int) == cur@);
            let ghost c0 = cands;
            let ghost entry = (cur@, opt_view(heading), opt_view(context));
            self.emit(&cur, 0, clen, &heading, &context, &mut out, Ghost(before));
            proof {
                cands = cands.push(entry);
                assert(cands.drop_last() == c0);
                assert(cands.last() == entry);
            }
        }
        assert(cands == heading_candidates(v@, max_size as int, min_size as int));
        out
    }
}

/// Headings joined by ` > `.
pub open spec fn join_headings(st: Seq<Seq<char>>) -> Seq<char>
    decreases st.len(),
{
    if st.len() == 0 {
        Seq::empty()
    } else if st.len() == 1 {
        st[0]
    } else {
        join_headings(st.drop_last()) + seq![' ', '>', ' '] + st.last()
    }
}

/// The characters of each heading of a stack.
pub open spec fn stack_view(st: Seq<Vec<char>>) -> Seq<Seq<char>> {
    st.map_values(|p: Vec<char>| p@)
}

fn join_path(stack: &Vec<Vec<char>>) -> (r: String)
    ensures
        r@ == join_headings(stack_view(stack@)),
{
    let ghost sv = stack_view(stack@);
    let mut joined: Vec<char> = Vec::new();
    let mut i: usize = 0;
    while i < stack.len()
        invariant
            i <= stack@.len(),
            sv == stack_view(stack@),
            joined@ == join_headings(sv.take(i as int)),
        decreases stack@.len() - i,
    {
        assert(sv.take(i + 1).drop_last() == sv.take(i as int));
        assert(sv.take(i + 1).last() == stack@[i as int]@);
        let ghost before = joined@;
        if i > 0 {
            joined.push(' ');
            joined.push('>');
            joined.push(' ');
        }
        let ghost mid = joined@;
        let part = &stack[i];
        let mut k: usize = 0;
        while k < part.len()
            invariant
                k <= part@.len(),
                joined@ == mid + part@.take(k as int),
            decreases part@.len() - k,
        {
            joined.push(part[k]);
            assert(part@.take(k + 1) == part@.take(k as int).push(part@[k as int]));
            k = k + 1;
        }
        assert(part@.take(part@.len() as int) == part@);
        proof {
            if i == 0 {
                assert(before.len() == 0);
                assert(joined@ =~= part@);
            } else {
                assert(mid =~= before + seq![' ', '>', ' ']);
            }
        }
        i = i + 1;
    }
    assert(sv.take(stack@.len() as int) == sv);
    let n = joined.len();
    assert(joined@.subrange(0, n as int) == joined@);
    string_of(&joined, 0, n)
}

/// The lines of `v`: split at each line feed, a carriage return before it
/// dropped, with no empty line after a final line feed.
pub open spec fn split_lines_from(v: Seq<char>, start: int, i: int) -> Seq<(usize, usize)>
    decreases v.len() - i,
{
    if i < 0 || i >= v.len() {
        if start < v.len() { seq![(start as usize, v.len() as usize)] } else { Seq::empty() }
    } else if v[i] == '\n' {
        let end = if i > start && v[i - 1] == '\r' { i - 1 } else { i };
        seq![(start as usize, end as usize)] + split_lines_from(v, i + 1, i + 1)
    } else {
        split_lines_from(v, start, i + 1)
    }
}

pub fn line_ranges(v: &Vec<char>) -> (r: Vec<(usize, usize)>)
    ensures
        r@ == split_lines_from(v@, 0, 0),
        forall|q: int| 0 <= q < r@.len() ==> (#[trigger] r@[q]).0 <= r@[q].1 <= v@.len(),
        forall|q: int, k: int| #![trigger r@[q], v@[k]] 0 <= q < r@.len() && r@[q].0 <= k < r@[q].1 ==> v@[k] != '\n',
        v@.len() == 0 ==> r@.len() == 0,
{
    let mut out: Vec<(usize, usize)> = Vec::new();
    let n = v.len();
    let mut start: usize = 0;
    let mut i: usize = 0;
    while i < n
        invariant
            n == v@.len(),
            start <= i <= n,
            n == 0 ==> out@.len() == 0,
            forall|q: int| 0 <= q < out@.len() ==> (#[trigger] out@[q]).0 <= out@[q].1 <= v@.len(),
            forall|q: int, k: int| #![trigger out@[q], v@[k]] 0 <= q < out@.len() && out@[q].0 <= k < out@[q].1 ==> v@[k] != '\n',
            forall|k: int| start <= k < i ==> v@[k] != '\n',
            out@ + split_lines_from(v@, start as int, i as int) == split_lines_from(v@, 0, 0),
        decreases n - i,
    {
        if v[i] == '\n' {
            let end = if i > start && v[i - 1] == '\r' { i - 1 } else { i };
            let ghost old_out = out@;
            out.push((start, end));
            assert(out@ + split_lines_from(v@, i + 1, i + 1) =~= old_out + split_lines_from(v@, start as int, i as int));
            start = i + 1;
        }
        i = i + 1;
    }
    let ghost old_out = out@;
    if start < n {
        out.push((start, n));
    }
    assert(out@ =~= old_out + split_lines_from(v@, start as int, i as int));
    out
}

/// The pieces of `v` between blank lines (`\n\n`, read left to right),
/// from the piece starting at `start` and the search position `i` on.
pub open spec fn split_pieces(v: Seq<char>, start: int, i: int) -> Seq<(usize, usize)>
    decreases v.len() - i,
{
    if i < 0 || i >= v.len() {
        seq![(start as usize, v.len() as usize)]
    } else if i + 1 < v.len() && v[i] == '\n' && v[i + 1] == '\n' {
        seq![(start as usize, i as usize)] + split_pieces(v, i + 2, i + 2)
    } else {
        split_pieces(v, start, i + 1)
    }
}

/// The pieces of `v` between occurrences of a blank line (`\n\n`).
pub fn paragraph_ranges(v: &Vec<char>) -> (r: Vec<(usize, usize)>)
    ensures
        r@ == split_pieces(v@, 0, 0),
        forall|q: int| 0 <= q < r@.len() ==> (#[trigger] r@[q]).0 <= r@[q].1 <= v@.len(),
        v@.len() == 0 ==> forall|q: int| 0 <= q < r@.len() ==> (#[trigger] r@[q]).0 == r@[q].1,
{
    let mut out: Vec<(usize, usize)> = Vec::new();
    let n = v.len();
    let mut start: usize = 0;
    let mut i: usize = 0;
    while i < n
        invariant
            n == v@.len(),
            start <= i <= n,
            forall|q: int| 0 <= q < out@.len() ==> (#[trigger] out@[q]).0 <= out@[q].1 <= v@.len(),
            out@ + split_pieces(v@, start as int, i as int) == split_pieces(v@, 0, 0),
        decreases n - i,
    {
        if i + 1 < n && v[i] == '\n' && v[i + 1] == '\n' {
            let ghost old_out = out@;
            out.push((start, i));
            assert(out@ + split_pieces(v@, i + 2, i + 2) =~= old_out + split_pieces(v@, start as int, i as int));
            start = i + 2;
            i = i + 2;
        } else {
            i = i + 1;
        }
    }
    let ghost old_out = out@;
    out.push((start, n));
    assert(out@ =~= old_out + split_pieces(v@, start as int, i as int));
    out
}

/// Level of a Markdown heading line `v[a..b]` (already trimmed): the number
/// of leading `#` (one to six) when a space follows them; 1 or 2 for a
/// line of at least three `=` or `-` (1 when it holds a `=`); else 0.
pub fn heading_level(v: &Vec<char>, a: usize, b: usize) -> (r: usize)
    requires
        a <= b <= v@.len(),
    ensures
        r == spec_heading_level(v@.subrange(a as int, b as int)),
{
    let ghost l = v@.subrange(a as int, b as int);
    if a < b && v[a] == '#' {
        let mut level: usize = 0;
        while a + level < b && v[a + level] == '#'
            invariant
                a + level <= b <= v@.len(),
                l == v@.subrange(a as int, b as int),
                forall|k: int| 0 <= k < level ==> l[k] == '#',
            decreases b - a - level,
        {
            level = level + 1;
        }
        proof { crate::chunker::lemma_leading_hashes(l, level as int); }
        if level > 0 && level <= 6 && b - a > level && v[a + level] == ' ' {
            return level;
        }
    }
    let mut all_rule = true;
    let mut has_eq = false;
    let mut k = a;
    while k < b
        invariant
            a <= k <= b <= v@.len(),
            l == v@.subrange(a as int, b as int),
            all_rule == forall|m: int| 0 <= m < k - a ==> is_rule_char(#[trigger] l[m]),
            has_eq == exists|m: int| 0 <= m < k - a && #[trigger] l[m] == '=',
        decreases b - k,
    {
        assert(l[k - a] == v@[k as int]);
        if v[k] == '=' {
            has_eq = true;
        } else if v[k] != '-' {
            all_rule = false;
        }
        k = k + 1;
    }
    proof {
        if has_eq {
            let m = choose|m: int| 0 <= m < k - a && #[trigger] l[m] == '=';
            assert(l.contains('='));
        }
        if l.contains('=') {
            let m = choose|m: int| 0 <= m < l.len() && l[m] == '=';
            assert(l[m] == '=');
        }
    }
    if all_rule && b - a >= 3 {
        if has_eq { 1 } else { 2 }
    } else {
        0
    }
}

/// A character of an underline: `=` or `-`.
pub open spec fn is_rule_char(c: char) -> bool {
    c == '=' || c == '-'
}

/// Level of a trimmed heading line: the number of leading `#` (one to six)
/// when a space follows them; for a line of at least three `=` or `-`, 1
/// when it holds a `=` and 2 otherwise; else 0.
pub open spec fn spec_heading_level(l: Seq<char>) -> nat {
    let h = crate::chunker::leading_hashes(l);
    if l.len() > 0 && l[0] == '#' && 1 <= h <= 6 && l.len() > h && l[h as int] == ' ' {
        h
    } else if (forall|i: int| 0 <= i < l.len() ==> is_rule_char(#[trigger] l[i])) && l.len() >= 3 {
        if l.contains('=') { 1 } else { 2 }
    } else {
        0
    }
}

/// Text of a trimmed heading line of level `level`: what follows the `#`
/// marks and their space, trimmed; nothing for an underline; else the line.
pub open spec fn spec_heading_text(l: Seq<char>, level: int) -> Seq<char> {
    if level > 0 && l.len() > 0 && l[0] == '#' {
        let from = if l.len() > level { level + 1 } else { l.len() as int };
        trim(l.subrange(from, l.len() as int))
    } else if forall|i: int| 0 <= i < l.len() ==> is_rule_char(#[trigger] l[i]) {
        Seq::empty()
    } else {
        l
    }
}

/// Text of the heading line `v[a..b]` of level `level`: what follows the
/// `#` marks and their space, trimmed; nothing for an underline.
pub fn heading_text(v: &Vec<char>, a: usize, b: usize, level: usize) -> (r: Vec<char>)
    requires
        a <= b <= v@.len(),
    ensures
        r@ == spec_heading_text(v@.subrange(a as int, b as int), level as int),
{
    let ghost l = v@.subrange(a as int, b as int);
    if level > 0 && a < b && v[a] == '#' {
        let from = if b - a > level { a + level + 1 } else { b };
        let (x, y) = trim_range(v, from, b);
        proof {
            lemma_trims_to_trim(v@, from as int, b as int, x as int, y as int);
            assert(v@.subrange(from as int, b as int) == l.subrange(from - a, l.len() as int));
        }
        let mut t: Vec<char> = Vec::new();
        let mut k = x;
        while k < y
            invariant
                x <= k <= y <= v@.len(),
                t@ == v@.subrange(x as int, k as int),
            decreases y - k,
        {
            t.push(v[k]);
            assert(v@.subrange(x as int, k + 1) == v@.subrange(x as int, k as int).push(v@[k as int]));
            k = k + 1;
        }
        t
    } else {
        let mut all_rule = true;
        let mut k = a;
        while k < b
            invariant
                a <= k <= b <= v@.len(),
                l == v@.subrange(a as int, b as int),
                all_rule == forall|m: int| 0 <= m < k - a ==> is_rule_char(#[trigger] l[m]),
            decreases b - k,
        {
            assert(l[k - a] == v@[k as int]);
            if v[k] != '=' && v[k] != '-' {
                all_rule = false;
            }
            k = k + 1;
        }
        let mut t: Vec<char> = Vec::new();
        if !all_rule {
            let mut k = a;
            while k < b
                invariant
                    a <= k <= b <= v@.len(),
                    t@ == v@.subrange(a as int, k as int),
                decreases b - k,
            {
                t.push(v[k]);
                assert(v@.subrange(a as int, k + 1) == v@.subrange(a as int, k as int).push(v@[k as int]));
                k = k + 1;
            }
        } else {
            assert(t@ =~= Seq::<char>::empty());
        }
        t
    }
}

/// The seen fingerprints only grow over a run of calls.
proof fn lemma_seen_grows(outs: Seq<Seq<Chunk>>, seens: Seq<Set<u64>>, i: int, j: int)
    requires
        seens.len() == outs.len() + 1,
        forall|c: int| 0 <= c < outs.len() ==> emitted(#[trigger] outs[c], seens[c], seens[c + 1]),
        0 <= i <= j < seens.len(),
    ensures
        seens[i].subset_of(seens[j]),
    decreases j - i,
{
    if i < j {
        lemma_seen_grows(outs, seens, i, j - 1);
        assert(emitted(outs[j - 1], seens[j - 1], seens[j]));
    }
}

/// Fingerprints stay unique over a chunker's whole lifetime: for any run
/// of calls, each starting from the fingerprints the one before left
/// (the first from those of a new or cleared chunker), no two chunks
/// emitted in the run, in one call or in two, share a fingerprint, none
/// was seen at the start, and all are seen at the end.
pub proof fn lemma_fingerprints_unique_over_lifetime(outs: Seq<Seq<Chunk>>, seens: Seq<Set<u64>>)
    requires
        seens.len() == outs.len() + 1,
        forall|c: int| 0 <= c < outs.len() ==> emitted(#[trigger] outs[c], seens[c], seens[c + 1]),
    ensures
        forall|i: int, a: int| 0 <= i < outs.len() && 0 <= a < outs[i].len() ==> {
            &&& well_formed_chunk(#[trigger] outs[i][a])
            &&& !seens[0].contains(outs[i][a].content_hash)
            &&& seens.last().contains(outs[i][a].content_hash)
        },
        forall|i: int, a: int, j: int, b: int| 0 <= i < outs.len() && 0 <= a < outs[i].len()
            && 0 <= j < outs.len() && 0 <= b < outs[j].len() && (i != j || a != b)
            ==> (#[trigger] outs[i][a]).content_hash != (#[trigger] outs[j][b]).content_hash,
{
    assert forall|i: int, a: int| 0 <= i < outs.len() && 0 <= a < outs[i].len() implies {
        &&& well_formed_chunk(#[trigger] outs[i][a])
        &&& !seens[0].contains(outs[i][a].content_hash)
        &&& seens.last().contains(outs[i][a].content_hash)
    } by {
        assert(emitted(outs[i], seens[i], seens[i + 1]));
        lemma_seen_grows(outs, seens, 0, i);
        lemma_seen_grows(outs, seens, i + 1, outs.len() as int);
        assert(seens[i + 1].contains(outs[i][a].content_hash));
    }
    assert forall|i: int, a: int, j: int, b: int| 0 <= i < outs.len() && 0 <= a < outs[i].len()
        && 0 <= j < outs.len() && 0 <= b < outs[j].len() && (i != j || a != b)
        implies (#[trigger] outs[i][a]).content_hash != (#[trigger] outs[j][b]).content_hash by {
        assert(emitted(outs[i], seens[i], seens[i + 1]));
        assert(emitted(outs[j], seens[j], seens[j + 1]));
        if i < j {
            lemma_seen_grows(outs, seens, i + 1, j);
            assert(seens[i + 1].contains(outs[i][a].content_hash));
        } else if j < i {
            lemma_seen_grows(outs, seens, j + 1, i);
            assert(seens[j + 1].contains(outs[j][b].content_hash));
        } else if a < b {
            assert(outs[i][a].content_hash != outs[i][b].content_hash);
        } else {
            assert(outs[i][b].content_hash != outs[i][a].content_hash);
        }
    }
}

} // verus!
