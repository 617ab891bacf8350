use vstd::prelude::*;
use crate::types::{Document, Vector, VectorEntry};
use crate::protocol::{DocSource, ListDocsResponse};
use vstd::string::StringExecFns;

verus! {

/// Why a change to the store was refused.
#[derive(Debug, Clone, Copy, PartialEq, Eq, Structural)]
pub enum StoreError {
    /// The vector's length differs from the store's dimension.
    DimensionMismatch { expected: usize, found: usize },
    /// An entry with the same id is already stored.
    DuplicateId,
    /// An entry's key differs from its document's id.
    InconsistentId,
    /// The persisted data has another format version.
    VersionMismatch { expected: u32, found: u32 },
}

/// Version of the persisted format.
pub const STORAGE_VERSION: u32 = 1;

/// Seconds in one day.
pub const SECONDS_PER_DAY: u64 = 86400;

/// The entries of `s` for which `keep` holds, in the order they have in `s`.
pub open spec fn retained(s: Seq<VectorEntry>, keep: spec_fn(VectorEntry) -> bool) -> Seq<VectorEntry>
    decreases s.len(),
{
    if s.len() == 0 {
        Seq::empty()
    } else {
        let rest = retained(s.drop_last(), keep);
        if keep(s.last()) { rest.push(s.last()) } else { rest }
    }
}

/// Whether some entry of `s` has the id `id`.
pub open spec fn has_id(s: Seq<VectorEntry>, id: Seq<char>) -> bool {
    exists|i: int| 0 <= i < s.len() && (#[trigger] s[i]).id@ == id
}

/// The moment before which documents count as expired: `days` days before
/// `now`, or the epoch when that would lie before it.
pub open spec fn age_cutoff(now: u64, days: u64) -> int {
    if days * SECONDS_PER_DAY > now { 0 } else { now - days * SECONDS_PER_DAY }
}

/// The source an entry is listed under: its document's url, or `local`
/// when the url is empty.
pub open spec fn source_key(e: VectorEntry) -> Seq<char> {
    if e.document.url@.len() == 0 { "local"@ } else { e.document.url@ }
}

/// Number of entries of `s` listed under the source `key`.
pub open spec fn count_key(s: Seq<VectorEntry>, key: Seq<char>) -> nat
    decreases s.len(),
{
    if s.len() == 0 {
        0
    } else {
        count_key(s.drop_last(), key) + if source_key(s.last()) == key { 1nat } else { 0nat }
    }
}

/// Every count of `count_key` is at most the number of entries.
pub proof fn lemma_count_key_bound(s: Seq<VectorEntry>, key: Seq<char>)
    ensures
        count_key(s, key) <= s.len(),
    decreases s.len(),
{
    if s.len() > 0 {
        lemma_count_key_bound(s.drop_last(), key);
    }
}

/// Position of the source listed under `key`, if any.
fn find_source(sources: &Vec<DocSource>, key: &String) -> (r: Option<usize>)
    ensures
        match r {
            Some(a) => a < sources@.len() && sources@[a as int].url@ == key@,
            None => forall|b: int| 0 <= b < sources@.len() ==> (#[trigger] sources@[b]).url@ != key@,
        },
{
    let mut a: usize = 0;
    while a < sources.len()
        invariant
            a <= sources@.len(),
            forall|b: int| 0 <= b < a ==> (#[trigger] sources@[b]).url@ != key@,
        decreases sources@.len() - a,
    {
        if sources[a].url == *key {
            return Some(a);
        }
        a = a + 1;
    }
    None
}

/// Number of entries of `s` for which `keep` is false.
pub open spec fn count_dropped(s: Seq<VectorEntry>, keep: spec_fn(VectorEntry) -> bool) -> nat
    decreases s.len(),
{
    if s.len() == 0 { 0 } else { count_dropped(s.drop_last(), keep) + if keep(s.last()) { 0nat } else { 1nat } }
}

/// What `retained` keeps and what it drops make up the whole sequence.
pub proof fn lemma_retained_and_dropped(s: Seq<VectorEntry>, keep: spec_fn(VectorEntry) -> bool)
    ensures
        retained(s, keep).len() + count_dropped(s, keep) == s.len(),
    decreases s.len(),
{
    if s.len() > 0 {
        lemma_retained_and_dropped(s.drop_last(), keep);
    }
}

/// A keyed collection of documents with their embeddings, all of one
/// dimension, in insertion order.
pub struct VectorStorage {
    dimension: usize,
    entries: Vec<VectorEntry>,
    modified: bool,
}

impl VectorStorage {
    /// The stored entries, in insertion order.
    pub closed spec fn view_entries(&self) -> Seq<VectorEntry> {
        self.entries@
    }

    /// The dimension every stored vector has.
    pub closed spec fn spec_dimension(&self) -> nat {
        self.dimension as nat
    }

    pub closed spec fn spec_modified(&self) -> bool {
        self.modified
    }

    /// Every vector has the store's dimension, every entry is keyed by its
    /// document's id, and no two entries share an id.
    pub open spec fn wf(&self) -> bool {
        &&& forall|i: int| 0 <= i < self.view_entries().len()
            ==> (#[trigger] self.view_entries()[i]).vector.bits@.len() == self.spec_dimension()
        &&& forall|i: int| 0 <= i < self.view_entries().len()
            ==> (#[trigger] self.view_entries()[i]).id@ == self.view_entries()[i].document.id@
        &&& forall|i: int, j: int| 0 <= i < j < self.view_entries().len()
            ==> (#[trigger] self.view_entries()[i]).id@ != (#[trigger] self.view_entries()[j]).id@
    }

    /// An empty store for vectors of `dimension` components.
    pub fn new(dimension: usize) -> (r: VectorStorage)
        ensures
            r.wf(),
            r.view_entries() == Seq::<VectorEntry>::empty(),
            r.spec_dimension() == dimension,
            !r.spec_modified(),
    {
        VectorStorage { dimension, entries: Vec::new(), modified: false }
    }

    pub fn dimension(&self) -> (r: usize)
        ensures
            r == self.spec_dimension(),
    {
        self.dimension
    }

    pub fn document_count(&self) -> (r: usize)
        ensures
            r == self.view_entries().len(),
    {
        self.entries.len()
    }

    /// Whether the entries changed since the store was made or loaded.
    pub fn is_modified(&self) -> (r: bool)
        ensures
            r == self.spec_modified(),
    {
        self.modified
    }

    /// The stored entries, in insertion order.
    pub fn get_entries(&self) -> (r: &[VectorEntry])
        ensures
            r@ == self.view_entries(),
    {
        self.entries.as_slice()
    }

    /// Position of the entry with id `id`, if any.
    fn find(&self, id: &String) -> (r: Option<usize>)
        ensures
            match r {
                Some(i) => i < self.view_entries().len() && self.view_entries()[i as int].id@ == id@,
                None => !has_id(self.view_entries(), id@),
            },
    {
        let mut i: usize = 0;
        while i < self.entries.len()
            invariant
                i <= self.entries@.len(),
                forall|k: int| 0 <= k < i ==> (#[trigger] self.entries@[k]).id@ != id@,
            decreases self.entries@.len() - i,
        {
            if self.entries[i].id == *id {
                return Some(i);
            }
            i = i + 1;
        }
        None
    }

    /// Whether an entry with id `id` is stored.
    pub fn contains(&self, id: &String) -> (r: bool)
        ensures
            r == has_id(self.view_entries(), id@),
    {
        self.find(id).is_some()
    }

    /// The document stored under `id`, if any.
    pub fn get_document(&self, id: &String) -> (r: Option<&Document>)
        requires
            self.wf(),
        ensures
            match r {
                Some(d) => exists|i: int| 0 <= i < self.view_entries().len()
                    && self.view_entries()[i].id@ == id@
                    && *d == (#[trigger] self.view_entries()[i]).document,
                None => !has_id(self.view_entries(), id@),
            },
    {
        match self.find(id) {
            Some(i) => Some(&self.entries[i].document),
            None => None,
        }
    }

    /// Stores `document` with its embedding under the document's id.
    /// Fails, leaving the store as it was, when the vector's length is not
    /// the store's dimension, or when the id is already stored.
    pub fn add_document(&mut self, document: Document, vector: Vec<u32>, indexed_at: u64) -> (r: Result<String, StoreError>)
        requires
            old(self).wf(),
        ensures
            final(self).wf(),
            final(self).spec_dimension() == old(self).spec_dimension(),
            vector@.len() != old(self).spec_dimension() ==> r == Err::<String, StoreError>(
                StoreError::DimensionMismatch { expected: old(self).spec_dimension() as usize, found: vector@.len() as usize },
            ),
            vector@.len() == old(self).spec_dimension() && has_id(old(self).view_entries(), document.id@)
                ==> r == Err::<String, StoreError>(StoreError::DuplicateId),
            r is Err ==> final(self).view_entries() == old(self).view_entries()
                && final(self).spec_modified() == old(self).spec_modified(),
            vector@.len() == old(self).spec_dimension() && !has_id(old(self).view_entries(), document.id@)
                ==> {
                &&& r == Ok::<String, StoreError>(document.id)
                &&& final(self).view_entries() == old(self).view_entries().push(
                    VectorEntry { id: document.id, document, vector: Vector { bits: vector }, indexed_at },
                )
                &&& final(self).spec_modified()
            },
    {
        if vector.len() != self.dimension {
            return Err(StoreError::DimensionMismatch { expected: self.dimension, found: vector.len() });
        }
        if self.contains(&document.id) {
            return Err(StoreError::DuplicateId);
        }
        let id = document.id.clone();
        let key = document.id.clone();
        let entry = VectorEntry { id: key, document, vector: Vector { bits: vector }, indexed_at };
        self.entries.push(entry);
        self.modified = true;
        Ok(id)
    }

    /// Removes every entry for which `keep` is false, keeping the order of
    /// the others; returns how many were removed.
    fn retain_entries(&mut self, Ghost(keep): Ghost<spec_fn(VectorEntry) -> bool>, url: &String, now_cutoff: u64, by_source: bool) -> (r: usize)
        requires
            old(self).wf(),
            forall|e: VectorEntry| #[trigger] keep(e) == if by_source {
                e.document.url@ != url@
            } else {
                e.updated_at() > now_cutoff
            },
        ensures
            final(self).wf(),
            final(self).spec_dimension() == old(self).spec_dimension(),
            final(self).view_entries() == retained(old(self).view_entries(), keep),
            r == old(self).view_entries().len() - final(self).view_entries().len(),
            final(self).spec_modified() == (old(self).spec_modified() || r > 0),
    {
        let ghost orig = self.entries@;
        let n = self.entries.len();
        let mut i: usize = 0;
        let mut j: usize = 0;
        while j < n
            invariant
                0 <= i <= j <= n,
                n == orig.len(),
                orig == old(self).entries@,
                self.dimension == old(self).dimension,
                self.modified == old(self).modified,
                self.entries@ == retained(orig.take(j as int), keep) + orig.skip(j as int),
                retained(orig.take(j as int), keep).len() == i,
                forall|a: int| 0 <= a < self.entries@.len()
                    ==> (#[trigger] self.entries@[a]).vector.bits@.len() == self.dimension
                    && self.entries@[a].id@ == self.entries@[a].document.id@,
                forall|a: int, b: int| 0 <= a < b < self.entries@.len()
                    ==> (#[trigger] self.entries@[a]).id@ != (#[trigger] self.entries@[b]).id@,
                forall|e: VectorEntry| #[trigger] keep(e) == if by_source {
                    e.document.url@ != url@
                } else {
                    e.updated_at() > now_cutoff
                },
            decreases orig.len() - j,
        {
            assert(orig.take(j as int + 1).drop_last() == orig.take(j as int));
            assert(orig.skip(j as int)[0] == orig[j as int]);
            let k = if by_source {
                self.entries[i].document.url != *url
            } else {
                let e = &self.entries[i];
                let t = match e.document.metadata.last_updated {
                    Some(t) => t,
                    None => e.indexed_at,
                };
                t > now_cutoff
            };
            proof {
                assert(self.entries@[i as int] == orig[j as int]);
            }
            if k {
                i = i + 1;
                assert(self.entries@ == retained(orig.take(j as int + 1), keep) + orig.skip(j as int + 1));
            } else {
                let _removed = self.entries.remove(i);
                assert(self.entries@ == retained(orig.take(j as int + 1), keep) + orig.skip(j as int + 1));
            }
            j = j + 1;
        }
        assert(orig.take(orig.len() as int) == orig);
        assert(self.entries@ == retained(orig, keep));
        let removed = n - self.entries.len();
        if removed > 0 {
            self.modified = true;
        }
        removed
    }

    /// Removes every entry whose document comes from `source_url`; returns
    /// how many were removed.
    pub fn remove_documents_by_source(&mut self, source_url: &String) -> (r: usize)
        requires
            old(self).wf(),
        ensures
            final(self).wf(),
            final(self).spec_dimension() == old(self).spec_dimension(),
            final(self).view_entries() == retained(old(self).view_entries(), |e: VectorEntry| e.document.url@ != source_url@),
            r == old(self).view_entries().len() - final(self).view_entries().len(),
    {
        let ghost keep = |e: VectorEntry| e.document.url@ != source_url@;
        self.retain_entries(Ghost(keep), source_url, 0, true)
    }

    /// Removes every entry last updated at or before `max_age_days` days
    /// before `now` (the epoch, when that would lie before it); returns how
    /// many were removed.
    pub fn remove_documents_by_age(&mut self, now: u64, max_age_days: u64) -> (r: usize)
        requires
            old(self).wf(),
        ensures
            final(self).wf(),
            final(self).spec_dimension() == old(self).spec_dimension(),
            final(self).view_entries() == retained(old(self).view_entries(),
                |e: VectorEntry| e.updated_at() > age_cutoff(now, max_age_days)),
            r == old(self).view_entries().len() - final(self).view_entries().len(),
    {
        let cutoff: u64 = match max_age_days.checked_mul(SECONDS_PER_DAY) {
            Some(span) => if span > now { 0 } else { now - span },
            None => 0,
        };
        assert(cutoff == age_cutoff(now, max_age_days));
        let ghost keep = |e: VectorEntry| e.updated_at() > age_cutoff(now, max_age_days);
        let empty = String::new();
        self.retain_entries(Ghost(keep), &empty, cutoff, false)
    }

    /// The sources of the stored documents, each once, in the order of their
    /// first entry, each with the number of entries listed under it.
    pub fn list_sources(&self) -> (r: ListDocsResponse)
        ensures
            r.total_documents == self.view_entries().len(),
            r.last_updated is None,
            forall|a: int, b: int| 0 <= a < b < r.sources@.len()
                ==> (#[trigger] r.sources@[a]).url@ != (#[trigger] r.sources@[b]).url@,
            forall|a: int| 0 <= a < r.sources@.len() ==> {
                &&& (#[trigger] r.sources@[a]).document_count == count_key(self.view_entries(), r.sources@[a].url@)
                &&& r.sources@[a].last_crawled is None
                &&& r.sources@[a].document_count > 0
            },
            forall|i: int| 0 <= i < self.view_entries().len() ==> exists|a: int| 0 <= a < r.sources@.len()
                && (#[trigger] r.sources@[a]).url@ == source_key(#[trigger] self.view_entries()[i]),
    {
        let mut sources: Vec<DocSource> = Vec::new();
        let n = self.entries.len();
        let ghost es = self.entries@;
        let mut i: usize = 0;
        while i < n
            invariant
                n == es.len(),
                es == self.entries@,
                i <= n,
                forall|a: int, b: int| 0 <= a < b < sources@.len()
                    ==> (#[trigger] sources@[a]).url@ != (#[trigger] sources@[b]).url@,
                forall|a: int| 0 <= a < sources@.len() ==> {
                    &&& (#[trigger] sources@[a]).document_count == count_key(es.take(i as int), sources@[a].url@)
                    &&& sources@[a].last_crawled is None
                    &&& sources@[a].document_count > 0
                },
                forall|k: int| 0 <= k < i ==> exists|a: int| 0 <= a < sources@.len()
                    && (#[trigger] sources@[a]).url@ == source_key(#[trigger] es[k]),
                forall|key: Seq<char>| count_key(es.take(i as int), key) > 0 ==> exists|a: int|
                    0 <= a < sources@.len() && (#[trigger] sources@[a]).url@ == key,
            decreases n - i,
        {
            let ghost before = sources@;
            assert(es.take(i as int + 1).drop_last() == es.take(i as int));
            assert(es.take(i as int + 1).last() == es[i as int]);
            proof { lemma_count_key_bound(es.take(i as int), source_key(es[i as int])); }
            let e = &self.entries[i];
            let key = if e.document.url.as_str().unicode_len() == 0 {
                String::from_str("local")
            } else {
                e.document.url.clone()
            };
            assert(key@ == source_key(es[i as int]));
            let found = find_source(&sources, &key);
            let ghost pos: int;
            match found {
                Some(a) => {
                    let c = sources[a].document_count;
                    let src = DocSource { url: sources[a].url.clone(), document_count: c + 1, last_crawled: None };
                    sources.set(a, src);
                    proof { pos = a as int; }
                },
                None => {
                    assert(count_key(es.take(i as int), key@) == 0);
                    sources.push(DocSource { url: key, document_count: 1, last_crawled: None });
                    proof { pos = sources@.len() - 1; }
                },
            }
            assert(sources@[pos].url@ == source_key(es[i as int]));
            assert forall|k2: Seq<char>| #[trigger] count_key(es.take(i as int + 1), k2) > 0 implies exists|a: int|
                0 <= a < sources@.len() && (#[trigger] sources@[a]).url@ == k2 by {
                if count_key(es.take(i as int), k2) > 0 {
                    let a0 = choose|a: int| 0 <= a < before.len() && (#[trigger] before[a]).url@ == k2;
                    assert(sources@[a0].url@ == k2);
                } else {
                    assert(sources@[pos].url@ == k2);
                }
            }
            assert forall|k: int| 0 <= k < i + 1 implies exists|a: int| 0 <= a < sources@.len()
                && (#[trigger] sources@[a]).url@ == source_key(#[trigger] es[k]) by {
                if k < i {
                    let a0 = choose|a: int| 0 <= a < before.len() && (#[trigger] before[a]).url@ == source_key(es[k]);
                    assert(sources@[a0].url@ == source_key(es[k]));
                } else {
                    assert(k == i);
                    assert(sources@[pos].url@ == source_key(es[k]));
                }
            }
            i = i + 1;
        }
        assert(es.take(n as int) == es);
        ListDocsResponse { sources, total_documents: n, last_updated: None }
    }

    /// How many entries the removal with `keep` (as `retain_entries` takes
    /// it) would drop, without removing them.
    fn count_matching(&self, Ghost(keep): Ghost<spec_fn(VectorEntry) -> bool>, url: &String, cutoff: u64, by_source: bool) -> (r: usize)
        requires
            forall|e: VectorEntry| #[trigger] keep(e) == if by_source {
                e.document.url@ != url@
            } else {
                e.updated_at() > cutoff
            },
        ensures
            r == count_dropped(self.view_entries(), keep),
    {
        let ghost es = self.entries@;
        let mut count: usize = 0;
        let mut i: usize = 0;
        while i < self.entries.len()
            invariant
                es == self.entries@,
                i <= es.len(),
                count == count_dropped(es.take(i as int), keep),
                count <= i,
                forall|e: VectorEntry| #[trigger] keep(e) == if by_source {
                    e.document.url@ != url@
                } else {
                    e.updated_at() > cutoff
                },
            decreases es.len() - i,
        {
            assert(es.take(i + 1).drop_last() == es.take(i as int));
            assert(es.take(i + 1).last() == es[i as int]);
            let e = &self.entries[i];
            let k = if by_source {
                e.document.url != *url
            } else {
                let t = match e.document.metadata.last_updated {
                    Some(t) => t,
                    None => e.indexed_at,
                };
                t > cutoff
            };
            if !k {
                count = count + 1;
            }
            i = i + 1;
        }
        assert(es.take(es.len() as int) == es);
        count
    }

    /// How many entries `remove_documents_by_source` would remove.
    pub fn count_by_source(&self, source_url: &String) -> (r: usize)
        ensures
            r == count_dropped(self.view_entries(), |e: VectorEntry| e.document.url@ != source_url@),
    {
        let ghost keep = |e: VectorEntry| e.document.url@ != source_url@;
        self.count_matching(Ghost(keep), source_url, 0, true)
    }

    /// How many entries `remove_documents_by_age` would remove.
    pub fn count_by_age(&self, now: u64, max_age_days: u64) -> (r: usize)
        ensures
            r == count_dropped(self.view_entries(), |e: VectorEntry| e.updated_at() > age_cutoff(now, max_age_days)),
    {
        let cutoff: u64 = match max_age_days.checked_mul(SECONDS_PER_DAY) {
            Some(span) => if span > now { 0 } else { now - span },
            None => 0,
        };
        assert(cutoff == age_cutoff(now, max_age_days));
        let ghost keep = |e: VectorEntry| e.updated_at() > age_cutoff(now, max_age_days);
        let empty = String::new();
        self.count_matching(Ghost(keep), &empty, cutoff, false)
    }

    /// A store over `entries`, as read back from persisted data of format
    /// `version`. Refused when the version is not `STORAGE_VERSION`, else
    /// when an entry's vector is not of `dimension` components, else when an
    /// entry's key is not its document's id, else when two entries share an
    /// id.
    pub fn restore(version: u32, dimension: usize, entries: Vec<VectorEntry>) -> (r: Result<VectorStorage, StoreError>)
        ensures
            version != STORAGE_VERSION ==> r == Err::<VectorStorage, StoreError>(
                StoreError::VersionMismatch { expected: STORAGE_VERSION, found: version }),
            version == STORAGE_VERSION ==> match r {
                Ok(s) => {
                    &&& s.wf()
                    &&& s.view_entries() == entries@
                    &&& s.spec_dimension() == dimension
                    &&& !s.spec_modified()
                },
                Err(e) => {
                    ||| (e is DimensionMismatch && exists|i: int| 0 <= i < entries@.len()
                        && (#[trigger] entries@[i]).vector.bits@.len() != dimension)
                    ||| (e is InconsistentId && exists|i: int| 0 <= i < entries@.len()
                        && (#[trigger] entries@[i]).id@ != entries@[i].document.id@)
                    ||| (e is DuplicateId && exists|i: int, j: int| 0 <= i < j < entries@.len()
                        && (#[trigger] entries@[i]).id@ == (#[trigger] entries@[j]).id@)
                },
            },
    {
        if version != STORAGE_VERSION {
            return Err(StoreError::VersionMismatch { expected: STORAGE_VERSION, found: version });
        }
        let n = entries.len();
        let mut i: usize = 0;
        while i < n
            invariant
                n == entries@.len(),
                version == STORAGE_VERSION,
                i <= n,
                forall|k: int| 0 <= k < i ==> (#[trigger] entries@[k]).vector.bits@.len() == dimension
                    && entries@[k].id@ == entries@[k].document.id@,
                forall|a: int, b: int| 0 <= a < b < i ==> (#[trigger] entries@[a]).id@ != (#[trigger] entries@[b]).id@,
            decreases n - i,
        {
            let e = &entries[i];
            if e.vector.bits.len() != dimension {
                let found = e.vector.bits.len();
                return Err(StoreError::DimensionMismatch { expected: dimension, found });
            }
            if e.id != e.document.id {
                return Err(StoreError::InconsistentId);
            }
            let mut k: usize = 0;
            while k < i
                invariant
                    n == entries@.len(),
                    version == STORAGE_VERSION,
                    k <= i < n,
                    forall|m: int| 0 <= m < k ==> (#[trigger] entries@[m]).id@ != entries@[i as int].id@,
                decreases i - k,
            {
                if entries[k].id == entries[i].id {
                    return Err(StoreError::DuplicateId);
                }
                k = k + 1;
            }
            i = i + 1;
        }
        let r = VectorStorage { dimension, entries, modified: false };
        Ok(r)
    }

    /// Removes every entry.
    pub fn clear(&mut self)
        ensures
            final(self).wf(),
            final(self).spec_dimension() == old(self).spec_dimension(),
            final(self).view_entries() == Seq::<VectorEntry>::empty(),
            final(self).spec_modified(),
    {
        self.entries.clear();
        self.modified = true;
    }
}

/// Every stored entry's vector has the store's dimension, and no two stored
/// entries share an id.
pub proof fn lemma_stored_entries_are_consistent(s: VectorStorage)
    requires
        s.wf(),
    ensures
        forall|i: int| 0 <= i < s.view_entries().len()
            ==> (#[trigger] s.view_entries()[i]).vector.bits@.len() == s.spec_dimension(),
        forall|i: int, j: int| 0 <= i < s.view_entries().len() && 0 <= j < s.view_entries().len() && i != j
            ==> (#[trigger] s.view_entries()[i]).id@ != (#[trigger] s.view_entries()[j]).id@,
{
    assert forall|i: int, j: int| 0 <= i < s.view_entries().len() && 0 <= j < s.view_entries().len() && i != j
        implies (#[trigger] s.view_entries()[i]).id@ != (#[trigger] s.view_entries()[j]).id@ by {
        if j < i {
            assert(s.view_entries()[j].id@ != s.view_entries()[i].id@);
        }
    }
}

/// What a store holds reads back: its entries, under the current format
/// version and its dimension, meet none of the conditions on which
/// `restore` refuses them, so `restore` gives back a store with the same
/// entries.
pub proof fn lemma_restore_accepts_stored(s: VectorStorage)
    requires
        s.wf(),
    ensures
        !(exists|i: int| 0 <= i < s.view_entries().len()
            && (#[trigger] s.view_entries()[i]).vector.bits@.len() != s.spec_dimension()),
        !(exists|i: int| 0 <= i < s.view_entries().len()
            && (#[trigger] s.view_entries()[i]).id@ != s.view_entries()[i].document.id@),
        !(exists|i: int, j: int| 0 <= i < j < s.view_entries().len()
            && (#[trigger] s.view_entries()[i]).id@ == (#[trigger] s.view_entries()[j]).id@),
{
}

} // verus!
