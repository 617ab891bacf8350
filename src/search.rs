use vstd::prelude::*;
use crate::store::VectorStorage;
use crate::text::{has_substring, str_contains};
use crate::types::{ContentType, VectorEntry};

verus! {

/// The rank of a score given as the bits of a 32-bit float: a larger float
/// has a larger rank (negative values have their bits reversed, the others
/// get the sign bit set), so ranks order scores as the floats do.
pub open spec fn spec_score_rank(bits: u32) -> u32 {
    if bits >= 0x8000_0000 { (0xFFFF_FFFFu32 - bits) as u32 } else { (bits + 0x8000_0000u32) as u32 }
}

pub fn score_rank(bits: u32) -> (r: u32)
    ensures
        r == spec_score_rank(bits),
{
    if bits >= 0x8000_0000 { 0xFFFF_FFFF - bits } else { bits + 0x8000_0000 }
}

/// Candidate `a` ranks before candidate `b`: a higher rank, or an equal rank
/// and an earlier position.
pub open spec fn ranks_before(ranks: Seq<u64>, a: int, b: int) -> bool {
    ranks[a] > ranks[b] || (ranks[a] == ranks[b] && a < b)
}

/// Number of positions `i < n` with `eligible[i]`.
pub open spec fn count_eligible(eligible: Seq<bool>, n: int) -> nat
    decreases n,
{
    if n <= 0 { 0 } else { count_eligible(eligible, n - 1) + if eligible[n - 1] { 1nat } else { 0nat } }
}

pub open spec fn min_int(a: int, b: int) -> int {
    if a <= b { a } else { b }
}

/// `sel` lists, best first, the `min(k, m)` best of the `m` eligible
/// positions: distinct eligible positions, ordered by `ranks_before`, each
/// ranking before every eligible position left out.
pub open spec fn is_top_k(ranks: Seq<u64>, eligible: Seq<bool>, k: int, sel: Seq<usize>) -> bool {
    &&& sel.len() == min_int(k, count_eligible(eligible, eligible.len() as int) as int)
    &&& forall|a: int| 0 <= a < sel.len() ==> (#[trigger] sel[a]) < ranks.len() && eligible[sel[a] as int]
    &&& forall|a: int, b: int| 0 <= a < b < sel.len() ==> ranks_before(ranks, #[trigger] sel[a] as int, #[trigger] sel[b] as int)
    &&& forall|a: int, c: int| 0 <= a < sel.len() && 0 <= c < ranks.len() && eligible[c] && !sel.contains(c as usize)
        ==> #[trigger] ranks_before(ranks, sel[a] as int, c)
}

proof fn lemma_count_bound(s: Seq<bool>, n: int)
    requires
        0 <= n <= s.len(),
    ensures
        count_eligible(s, n) <= n,
    decreases n,
{
    if n > 0 {
        lemma_count_bound(s, n - 1);
    }
}

/// Clearing one set position lowers the count by one.
proof fn lemma_count_clear(s: Seq<bool>, p: int, n: int)
    requires
        0 <= p < s.len(),
        0 <= n <= s.len(),
        s[p],
    ensures
        count_eligible(s.update(p, false), n) == if n > p { count_eligible(s, n) - 1 } else { count_eligible(s, n) as int },
    decreases n,
{
    if n > 0 {
        lemma_count_clear(s, p, n - 1);
    }
}

/// With no position set below `n` the count is zero.
proof fn lemma_count_none(s: Seq<bool>, n: int)
    requires
        0 <= n <= s.len(),
        forall|i: int| 0 <= i < n ==> !s[i],
    ensures
        count_eligible(s, n) == 0,
    decreases n,
{
    if n > 0 {
        lemma_count_none(s, n - 1);
    }
}

/// The `k` best eligible positions, best first (see `is_top_k`).
pub fn top_k(ranks: &Vec<u64>, eligible: &Vec<bool>, k: usize) -> (sel: Vec<usize>)
    requires
        eligible@.len() == ranks@.len(),
    ensures
        is_top_k(ranks@, eligible@, k as int, sel@),
{
    let n = ranks.len();
    let mut avail: Vec<bool> = eligible.clone();
    let mut sel: Vec<usize> = Vec::new();
    proof { lemma_count_bound(eligible@, n as int); }
    let mut exhausted = false;
    while sel.len() < k && !exhausted
        invariant
            exhausted ==> count_eligible(avail@, n as int) == 0,
            n == ranks@.len(),
            eligible@.len() == n,
            avail@.len() == n,
            sel@.len() <= k,
            count_eligible(avail@, n as int) + sel@.len() == count_eligible(eligible@, n as int),
            forall|i: int| 0 <= i < n ==> (avail@[i] <==> (eligible@[i] && !sel@.contains(i as usize))),
            forall|a: int| 0 <= a < sel@.len() ==> (#[trigger] sel@[a]) < n && eligible@[sel@[a] as int],
            forall|a: int, b: int| 0 <= a < b < sel@.len()
                ==> ranks_before(ranks@, #[trigger] sel@[a] as int, #[trigger] sel@[b] as int),
            forall|a: int, c: int| 0 <= a < sel@.len() && 0 <= c < n && avail@[c]
                ==> #[trigger] ranks_before(ranks@, sel@[a] as int, c),
        decreases k - sel@.len() + if exhausted { 0int } else { 1int },
    {
        // find the best available position
        let mut best: Option<usize> = None;
        let mut i: usize = 0;
        while i < n
            invariant
                n == ranks@.len(),
                avail@.len() == n,
                i <= n,
                match best {
                    Some(b) => b < i && avail@[b as int]
                        && forall|c: int| 0 <= c < i && avail@[c] && c != b ==> ranks_before(ranks@, b as int, c),
                    None => forall|c: int| 0 <= c < i ==> !avail@[c],
                },
            decreases n - i,
        {
            if avail[i] {
                match best {
                    Some(b) => {
                        if ranks[i] > ranks[b] {
                            best = Some(i);
                        }
                    },
                    None => {
                        best = Some(i);
                    },
                }
            }
            i = i + 1;
        }
        match best {
            Some(b) => {
                let ghost old_avail = avail@;
                let ghost old_sel = sel@;
                proof { lemma_count_clear(avail@, b as int, n as int); }
                avail.set(b, false);
                sel.push(b);
                assert forall|c: int| 0 <= c < n implies (avail@[c] <==> (eligible@[c] && !sel@.contains(c as usize))) by {
                    if c == b as int {
                        assert(sel@[sel@.len() - 1] == b);
                    } else {
                        if sel@.contains(c as usize) {
                            let w = choose|w: int| 0 <= w < sel@.len() && sel@[w] == c as usize;
                            assert(w < old_sel.len());
                            assert(old_sel.contains(c as usize));
                        }
                        if old_sel.contains(c as usize) {
                            let w = choose|w: int| 0 <= w < old_sel.len() && old_sel[w] == c as usize;
                            assert(sel@[w] == c as usize);
                        }
                    }
                }
                assert forall|a: int, c: int| 0 <= a < sel@.len() && 0 <= c < n && avail@[c]
                    implies #[trigger] ranks_before(ranks@, sel@[a] as int, c) by {
                    assert(old_avail[c]);
                    if a < old_sel.len() {
                        assert(sel@[a] == old_sel[a]);
                    }
                }
                assert forall|a: int, a2: int| 0 <= a < a2 < sel@.len()
                    implies ranks_before(ranks@, #[trigger] sel@[a] as int, #[trigger] sel@[a2] as int) by {
                    assert(sel@[a] == old_sel[a]);
                    if a2 < old_sel.len() {
                        assert(sel@[a2] == old_sel[a2]);
                    }
                }
            },
            None => {
                proof { lemma_count_none(avail@, n as int); }
                exhausted = true;
            },
        }
    }
    assert forall|a: int, c: int| 0 <= a < sel@.len() && 0 <= c < n && eligible@[c] && !sel@.contains(c as usize)
        implies #[trigger] ranks_before(ranks@, sel@[a] as int, c) by {
        assert(avail@[c]);
    }
    sel
}

/// Filters and size of a search.
#[derive(Debug, Clone)]
pub struct SearchOptions {
    /// Most results to return.
    pub limit: usize,
    /// Lowest score kept, as the bits of a 32-bit float.
    pub min_score: Option<u32>,
    /// Keep only documents whose url contains this text.
    pub source_filter: Option<String>,
    /// Keep only documents of this content type.
    pub content_type_filter: Option<ContentType>,
}

impl SearchOptions {
    /// Ten results, no filter.
    pub fn new() -> (r: SearchOptions)
        ensures
            r.limit == 10,
            r.min_score is None,
            r.source_filter is None,
            r.content_type_filter is None,
    {
        SearchOptions { limit: 10, min_score: None, source_filter: None, content_type_filter: None }
    }
}

/// One ranked result: the entry's id, its position in the store, and its
/// score as the bits of a 32-bit float.
#[derive(Debug, Clone)]
pub struct SearchHit {
    pub id: String,
    pub position: usize,
    pub score: u32,
}

/// Whether an entry with score `score` passes the filters of `o`.
pub open spec fn passes_filters(e: VectorEntry, score: u32, o: SearchOptions) -> bool {
    &&& match o.source_filter {
        Some(f) => has_substring(e.document.url@, f@),
        None => true,
    }
    &&& match o.content_type_filter {
        Some(t) => e.document.metadata.content_type == t,
        None => true,
    }
    &&& match o.min_score {
        Some(m) => spec_score_rank(score) >= spec_score_rank(m),
        None => true,
    }
}

pub open spec fn ranks_of(scores: Seq<u32>) -> Seq<u64> {
    scores.map_values(|b: u32| spec_score_rank(b) as u64)
}

pub open spec fn eligible_of(entries: Seq<VectorEntry>, scores: Seq<u32>, o: SearchOptions) -> Seq<bool> {
    Seq::new(entries.len(), |i: int| passes_filters(entries[i], scores[i], o))
}

pub open spec fn positions_of(hits: Seq<SearchHit>) -> Seq<usize> {
    hits.map_values(|h: SearchHit| h.position)
}

/// Whether `hits` is the answer of a search with `o` over `entries` scored
/// by `scores`: the `limit` best entries passing the filters, highest score
/// first, earlier entries first among equal scores.
pub open spec fn is_search_answer(entries: Seq<VectorEntry>, scores: Seq<u32>, o: SearchOptions, hits: Seq<SearchHit>) -> bool {
    &&& is_top_k(ranks_of(scores), eligible_of(entries, scores, o), o.limit as int, positions_of(hits))
    &&& forall|a: int| 0 <= a < hits.len() ==> {
        &&& (#[trigger] hits[a]).id@ == entries[hits[a].position as int].id@
        &&& hits[a].score == scores[hits[a].position as int]
    }
}

/// Ranks the stored entries given the score of each (`scores[i]` for the
/// `i`-th entry, as the bits of a 32-bit float): the `limit` best of those
/// passing the filters, highest score first, earlier entries first among
/// equal scores.
pub fn search_documents(storage: &VectorStorage, scores: &Vec<u32>, options: &SearchOptions) -> (r: Vec<SearchHit>)
    requires
        scores@.len() == storage.view_entries().len(),
    ensures
        is_search_answer(storage.view_entries(), scores@, *options, r@),
{
    let entries = storage.get_entries();
    let n = entries.len();
    let mut ranks: Vec<u64> = Vec::new();
    let mut eligible: Vec<bool> = Vec::new();
    let mut i: usize = 0;
    while i < n
        invariant
            n == entries@.len(),
            entries@ == storage.view_entries(),
            scores@.len() == n,
            i <= n,
            ranks@ == ranks_of(scores@).take(i as int),
            eligible@ == eligible_of(entries@, scores@, *options).take(i as int),
        decreases n - i,
    {
        let e = &entries[i];
        let mut ok = true;
        match &options.source_filter {
            Some(f) => {
                if !str_contains(e.document.url.as_str(), f.as_str()) {
                    ok = false;
                }
            },
            None => {},
        }
        match options.content_type_filter {
            Some(t) => {
                if e.document.metadata.content_type != t {
                    ok = false;
                }
            },
            None => {},
        }
        let rank = score_rank(scores[i]);
        match options.min_score {
            Some(m) => {
                if rank < score_rank(m) {
                    ok = false;
                }
            },
            None => {},
        }
        ranks.push(rank as u64);
        eligible.push(ok);
        assert(ranks@ =~= ranks_of(scores@).take(i + 1));
        assert(eligible@ =~= eligible_of(entries@, scores@, *options).take(i + 1));
        i = i + 1;
    }
    assert(ranks@ =~= ranks_of(scores@));
    assert(eligible@ =~= eligible_of(entries@, scores@, *options));
    let sel = top_k(&ranks, &eligible, options.limit);
    let mut hits: Vec<SearchHit> = Vec::new();
    let mut a: usize = 0;
    while a < sel.len()
        invariant
            n == entries@.len(),
            entries@ == storage.view_entries(),
            is_top_k(ranks@, eligible@, options.limit as int, sel@),
            ranks@.len() == n,
            scores@.len() == n,
            a <= sel@.len(),
            hits@.len() == a,
            forall|b: int| 0 <= b < a ==> (#[trigger] hits@[b]).position == sel@[b]
                && hits@[b].id@ == entries@[sel@[b] as int].id@
                && hits@[b].score == scores@[sel@[b] as int],
        decreases sel@.len() - a,
    {
        let p = sel[a];
        hits.push(SearchHit { id: entries[p].id.clone(), position: p, score: scores[p] });
        a = a + 1;
    }
    assert(positions_of(hits@) =~= sel@);
    hits
}

/// A search answer holds exactly `min(limit, m)` hits, `m` being the number
/// of entries that pass the filters, with scores in non-increasing order.
pub proof fn lemma_search_answer_shape(entries: Seq<VectorEntry>, scores: Seq<u32>, o: SearchOptions, hits: Seq<SearchHit>)
    requires
        scores.len() == entries.len(),
        is_search_answer(entries, scores, o, hits),
    ensures
        hits.len() == min_int(o.limit as int, count_eligible(eligible_of(entries, scores, o), entries.len() as int) as int),
        forall|a: int, b: int| 0 <= a < b < hits.len()
            ==> spec_score_rank((#[trigger] hits[a]).score) >= spec_score_rank((#[trigger] hits[b]).score),
{
    let sel = positions_of(hits);
    assert forall|a: int, b: int| 0 <= a < b < hits.len()
        implies spec_score_rank((#[trigger] hits[a]).score) >= spec_score_rank((#[trigger] hits[b]).score) by {
        assert(sel[a] == hits[a].position && sel[b] == hits[b].position);
        assert(ranks_before(ranks_of(scores), sel[a] as int, sel[b] as int));
    }
}

/// Every position eligible.
pub open spec fn all_of(n: nat) -> Seq<bool> {
    Seq::new(n, |i: int| true)
}

/// Hybrid order: combined score first, then vector score.
pub open spec fn hybrid_ranks(combined: Seq<u32>, vector: Seq<u32>) -> Seq<u64> {
    Seq::new(combined.len(), |i: int| ((spec_score_rank(combined[i]) as u64) * 0x1_0000_0000u64 + spec_score_rank(vector[i]) as u64) as u64)
}

/// How many candidates each ranking contributes: three times the limit.
pub open spec fn pool_size(limit: usize) -> int {
    if limit <= usize::MAX / 3 { 3 * limit } else { usize::MAX as int }
}

/// The candidates of a hybrid search: the pool of best entries by vector
/// score among those that pass the filters, and those of the pool of best
/// entries by keyword score (taken among all entries) that pass them.
pub open spec fn hybrid_candidates(
    entries: Seq<VectorEntry>,
    vector: Seq<u32>,
    keyword: Seq<u32>,
    o: SearchOptions,
    by_vector: Seq<usize>,
    by_keyword: Seq<usize>,
) -> Seq<bool> {
    Seq::new(entries.len(), |i: int| by_vector.contains(i as usize)
        || (by_keyword.contains(i as usize) && passes_filters(entries[i], vector[i], o)))
}

/// Fuses vector and keyword rankings of the stored entries. `vector[i]`,
/// `keyword[i]` and `combined[i]` are the vector score, the BM25 score and
/// the weighted combination of the `i`-th entry (bits of 32-bit floats).
/// Candidates are the `3 * limit` best entries by vector score among those
/// that pass the filters, and those of the `3 * limit` best entries by
/// keyword score, taken among all entries, that pass the filters; the
/// `limit` best candidates are returned, by combined score, then vector
/// score, then insertion order.
pub fn hybrid_rank(
    storage: &VectorStorage,
    vector: &Vec<u32>,
    keyword: &Vec<u32>,
    combined: &Vec<u32>,
    options: &SearchOptions,
) -> (r: Vec<usize>)
    requires
        vector@.len() == storage.view_entries().len(),
        keyword@.len() == storage.view_entries().len(),
        combined@.len() == storage.view_entries().len(),
    ensures
        exists|by_vector: Seq<usize>, by_keyword: Seq<usize>| {
            &&& is_top_k(ranks_of(vector@), eligible_of(storage.view_entries(), vector@, *options), pool_size(options.limit), by_vector)
            &&& is_top_k(ranks_of(keyword@), all_of(keyword@.len()), pool_size(options.limit), by_keyword)
            &&& is_top_k(hybrid_ranks(combined@, vector@),
                hybrid_candidates(storage.view_entries(), vector@, keyword@, *options, by_vector, by_keyword),
                options.limit as int, r@)
        },
{
    let entries = storage.get_entries();
    let n = entries.len();
    let pool: usize = if options.limit <= usize::MAX / 3 { 3 * options.limit } else { usize::MAX };
    let source_filter = match &options.source_filter {
        Some(f) => Some(f.clone()),
        None => None,
    };
    let pooled = SearchOptions {
        limit: pool,
        min_score: options.min_score,
        source_filter,
        content_type_filter: options.content_type_filter,
    };
    assert(forall|e: VectorEntry, b: u32| passes_filters(e, b, pooled) == passes_filters(e, b, *options));
    assert(eligible_of(entries@, vector@, pooled) =~= eligible_of(entries@, vector@, *options));
    let vhits = search_documents(storage, vector, &pooled);
    let ghost by_vector = positions_of(vhits@);
    let mut kranks: Vec<u64> = Vec::new();
    let mut kpos: Vec<bool> = Vec::new();
    let mut hranks: Vec<u64> = Vec::new();
    let mut i: usize = 0;
    while i < n
        invariant
            n == entries@.len(),
            keyword@.len() == n,
            vector@.len() == n,
            combined@.len() == n,
            i <= n,
            kranks@ == ranks_of(keyword@).take(i as int),
            kpos@ == all_of(keyword@.len()).take(i as int),
            hranks@ == hybrid_ranks(combined@, vector@).take(i as int),
        decreases n - i,
    {
        kranks.push(score_rank(keyword[i]) as u64);
        kpos.push(true);
        let c = score_rank(combined[i]) as u64;
        let v = score_rank(vector[i]) as u64;
        assert(c * 0x1_0000_0000u64 + v <= u64::MAX) by (nonlinear_arith)
            requires c <= 0xFFFF_FFFFu64, v <= 0xFFFF_FFFFu64;
        hranks.push(c * 0x1_0000_0000u64 + v);
        assert(kranks@ =~= ranks_of(keyword@).take(i + 1));
        assert(kpos@ =~= all_of(keyword@.len()).take(i + 1));
        assert(hranks@ =~= hybrid_ranks(combined@, vector@).take(i + 1));
        i = i + 1;
    }
    assert(kranks@ =~= ranks_of(keyword@));
    assert(kpos@ =~= all_of(keyword@.len()));
    assert(hranks@ =~= hybrid_ranks(combined@, vector@));
    let ksel = top_k(&kranks, &kpos, pool);
    let mut in_vector: Vec<bool> = Vec::new();
    let mut in_keyword: Vec<bool> = Vec::new();
    let mut j: usize = 0;
    while j < n
        invariant
            n == entries@.len(),
            j <= n,
            in_vector@.len() == j,
            in_keyword@.len() == j,
            forall|p: int| 0 <= p < j ==> !(#[trigger] in_vector@[p]),
            forall|p: int| 0 <= p < j ==> !(#[trigger] in_keyword@[p]),
        decreases n - j,
    {
        in_vector.push(false);
        in_keyword.push(false);
        j = j + 1;
    }
    assert forall|b: int| 0 <= b < vhits@.len() implies (#[trigger] vhits@[b]).position < n by {
        assert(positions_of(vhits@)[b] == vhits@[b].position);
    }
    let mut a: usize = 0;
    while a < vhits.len()
        invariant
            n == entries@.len(),
            in_vector@.len() == n,
            in_keyword@.len() == n,
            forall|p: int| 0 <= p < n ==> !(#[trigger] in_keyword@[p]),
            a <= vhits@.len(),
            forall|b: int| 0 <= b < vhits@.len() ==> (#[trigger] vhits@[b]).position < n,
            forall|p: int| 0 <= p < n ==> (in_vector@[p] <==> exists|b: int| 0 <= b < a && (#[trigger] vhits@[b]).position == p),
        decreases vhits@.len() - a,
    {
        let p = vhits[a].position;
        in_vector.set(p, true);
        a = a + 1;
    }
    let mut a: usize = 0;
    while a < ksel.len()
        invariant
            n == entries@.len(),
            in_keyword@.len() == n,
            a <= ksel@.len(),
            forall|b: int| 0 <= b < ksel@.len() ==> (#[trigger] ksel@[b]) < n,
            forall|p: int| 0 <= p < n ==> (in_keyword@[p] <==> exists|b: int| 0 <= b < a && (#[trigger] ksel@[b]) == p),
        decreases ksel@.len() - a,
    {
        let p = ksel[a];
        in_keyword.set(p, true);
        a = a + 1;
    }
    let mut cand: Vec<bool> = Vec::new();
    let mut k: usize = 0;
    while k < n
        invariant
            n == entries@.len(),
            vector@.len() == n,
            k <= n,
            in_vector@.len() == n,
            in_keyword@.len() == n,
            cand@.len() == k,
            forall|p: int| 0 <= p < k ==> (#[trigger] cand@[p] <==> (in_vector@[p]
                || (in_keyword@[p] && passes_filters(entries@[p], vector@[p], *options)))),
        decreases n - k,
    {
        let e = &entries[k];
        let mut ok = in_vector[k];
        if !ok && in_keyword[k] {
            let mut pass = true;
            match &options.source_filter {
                Some(f) => {
                    if !str_contains(e.document.url.as_str(), f.as_str()) {
                        pass = false;
                    }
                },
                None => {},
            }
            match options.content_type_filter {
                Some(t) => {
                    if e.document.metadata.content_type != t {
                        pass = false;
                    }
                },
                None => {},
            }
            match options.min_score {
                Some(m) => {
                    if score_rank(vector[k]) < score_rank(m) {
                        pass = false;
                    }
                },
                None => {},
            }
            ok = pass;
        }
        cand.push(ok);
        k = k + 1;
    }
    proof {
        assert forall|p: int| 0 <= p < n implies (in_vector@[p] <==> by_vector.contains(p as usize)) by {
            if in_vector@[p] {
                let b = choose|b: int| 0 <= b < vhits@.len() && (#[trigger] vhits@[b]).position == p;
                assert(by_vector[b] == p as usize);
            }
            if by_vector.contains(p as usize) {
                let b = choose|b: int| 0 <= b < by_vector.len() && by_vector[b] == p as usize;
                assert(vhits@[b].position == p);
            }
        }
        assert forall|p: int| 0 <= p < n implies (in_keyword@[p] <==> ksel@.contains(p as usize)) by {
            if ksel@.contains(p as usize) {
                let b = choose|b: int| 0 <= b < ksel@.len() && ksel@[b] == p as usize;
                assert(ksel@[b] == p);
            }
        }
        assert(cand@ =~= hybrid_candidates(entries@, vector@, keyword@, *options, by_vector, ksel@));
    }
    let r = top_k(&hranks, &cand, options.limit);
    r
}

} // verus!
