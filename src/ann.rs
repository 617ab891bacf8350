use vstd::prelude::*;
use crate::search::{all_of, count_eligible, is_top_k, top_k};
use crate::store::VectorStorage;

verus! {

/// Highest level a node may be given.
pub const MAX_LEVEL: usize = 10;

/// Parameters of the graph index.
#[derive(Debug, Clone, Copy, PartialEq, Eq, Structural)]
pub struct HnswParams {
    /// Most neighbours of a node on each level above the ground level.
    pub max_connections: usize,
    /// Most neighbours of a node on the ground level.
    pub max_connections_level0: usize,
    /// Beam width while inserting.
    pub ef_construction: usize,
    /// Beam width while searching (at least the number of results asked).
    pub ef_search: usize,
    /// Cosine distance (else squared Euclidean distance).
    pub use_cosine: bool,
}

impl HnswParams {
    /// 16 neighbours (32 on the ground level), beams of 100 and 50, cosine.
    pub fn default() -> (r: HnswParams)
        ensures
            r == (HnswParams {
                max_connections: 16,
                max_connections_level0: 32,
                ef_construction: 100,
                ef_search: 50,
                use_cosine: true,
            }),
    {
        HnswParams { max_connections: 16, max_connections_level0: 32, ef_construction: 100, ef_search: 50, use_cosine: true }
    }
}

/// Most neighbours a node keeps on `level`.
pub open spec fn cap(p: HnswParams, level: int) -> int {
    if level == 0 { p.max_connections_level0 as int } else { p.max_connections as int }
}

/// The neighbour lists of one node, one per level from 0 to its own level.
#[derive(Debug, Clone)]
pub struct HnswConnections {
    pub connections: Vec<Vec<usize>>,
}

impl HnswConnections {
    /// Empty lists for levels `0..=max_level`.
    pub fn new(max_level: usize) -> (r: HnswConnections)
        requires
            max_level < usize::MAX,
        ensures
            r.connections@.len() == max_level + 1,
            forall|l: int| 0 <= l <= max_level ==> (#[trigger] r.connections@[l])@.len() == 0,
    {
        let mut connections: Vec<Vec<usize>> = Vec::new();
        let mut i: usize = 0;
        while i <= max_level
            invariant
                i <= max_level + 1,
                max_level < usize::MAX,
                connections@.len() == i,
                forall|l: int| 0 <= l < i ==> (#[trigger] connections@[l])@.len() == 0,
            decreases max_level + 1 - i,
        {
            connections.push(Vec::new());
            i = i + 1;
        }
        HnswConnections { connections }
    }

    /// The neighbours on `layer`, if the node reaches that level.
    pub fn get_layer_connections(&self, layer: usize) -> (r: Option<&Vec<usize>>)
        ensures
            layer < self.connections@.len() ==> r == Some(&self.connections@[layer as int]),
            layer >= self.connections@.len() ==> r is None,
    {
        if layer < self.connections.len() {
            Some(&self.connections[layer])
        } else {
            None
        }
    }

    /// Adds `id` to the neighbours on `layer` unless it is there; fails when
    /// the node does not reach that level.
    pub fn add_connection(&mut self, layer: usize, id: usize) -> (r: Result<(), ()>)
        ensures
            layer >= old(self).connections@.len() ==> r is Err && final(self).connections@ == old(self).connections@,
            layer < old(self).connections@.len() ==> {
                &&& r is Ok
                &&& final(self).connections@.len() == old(self).connections@.len()
                &&& forall|l: int| 0 <= l < old(self).connections@.len() && l != layer
                    ==> (#[trigger] final(self).connections@[l]) == old(self).connections@[l]
                &&& if old(self).connections@[layer as int]@.contains(id) {
                    final(self).connections@[layer as int]@ == old(self).connections@[layer as int]@
                } else {
                    final(self).connections@[layer as int]@ == old(self).connections@[layer as int]@.push(id)
                }
            },
    {
        if layer >= self.connections.len() {
            return Err(());
        }
        let mut k: usize = 0;
        let n = self.connections[layer].len();
        while k < n
            invariant
                layer < self.connections@.len(),
                n == self.connections@[layer as int]@.len(),
                k <= n,
                self.connections@ == old(self).connections@,
                forall|m: int| 0 <= m < k ==> self.connections@[layer as int]@[m] != id,
            decreases n - k,
        {
            if self.connections[layer][k] == id {
                return Ok(());
            }
            k = k + 1;
        }
        self.connections[layer].push(id);
        Ok(())
    }
}

/// Why an insertion into the index was refused.
#[derive(Debug, Clone, Copy, PartialEq, Eq, Structural)]
pub enum IndexError {
    /// A node with the same id is already indexed.
    DuplicateId,
}

/// Every neighbour list of every node is within its level's cap and names
/// nodes that reach that level.
pub open spec fn valid_links(levels: Seq<usize>, links: Seq<HnswConnections>, p: HnswParams) -> bool {
    &&& links.len() == levels.len()
    &&& forall|i: int| 0 <= i < levels.len() ==> (#[trigger] levels[i]) <= MAX_LEVEL
        && links[i].connections@.len() == levels[i] + 1
    &&& forall|i: int, l: int| 0 <= i < levels.len() && 0 <= l <= levels[i]
        ==> (#[trigger] links[i].connections@[l])@.len() <= cap(p, l)
    &&& forall|i: int, l: int, k: int| 0 <= i < levels.len() && 0 <= l <= levels[i]
        && 0 <= k < links[i].connections@[l]@.len()
        ==> (#[trigger] links[i].connections@[l]@[k]) < levels.len()
            && levels[links[i].connections@[l]@[k] as int] >= l
}

/// A node and its distance (as an order-preserving rank) to the query.
pub open spec fn sorted_by_distance(r: Seq<(usize, u32)>) -> bool {
    forall|a: int, b: int| 0 <= a < b < r.len() ==> (#[trigger] r[a]).1 <= (#[trigger] r[b]).1
}

/// The nodes of `r` are distinct, indexed, and reach `level`.
pub open spec fn nodes_reach(r: Seq<(usize, u32)>, levels: Seq<usize>, level: int) -> bool {
    &&& forall|a: int| 0 <= a < r.len() ==> (#[trigger] r[a]).0 < levels.len() && levels[r[a].0 as int] >= level
    &&& forall|a: int, b: int| 0 <= a < b < r.len() ==> (#[trigger] r[a]).0 != (#[trigger] r[b]).0
}

proof fn lemma_count_set(s: Seq<bool>, p: int, n: int)
    requires
        0 <= p < s.len(),
        0 <= n <= s.len(),
        !s[p],
    ensures
        count_eligible(s.update(p, true), n) == if n > p { count_eligible(s, n) + 1 } else { count_eligible(s, n) + 0 },
    decreases n,
{
    if n > 0 {
        lemma_count_set(s, p, n - 1);
    }
}

proof fn lemma_count_le(s: Seq<bool>, n: int)
    requires
        0 <= n <= s.len(),
    ensures
        count_eligible(s, n) <= n,
    decreases n,
{
    if n > 0 {
        lemma_count_le(s, n - 1);
    }
}

/// The entries of `v` ordered by distance, nearer first, earlier first
/// among equal distances.
fn sort_by_distance(
    v: Vec<(usize, u32)>,
    Ghost(levels): Ghost<Seq<usize>>,
    Ghost(level): Ghost<int>,
    Ghost(p): Ghost<spec_fn((usize, u32)) -> bool>,
) -> (r: Vec<(usize, u32)>)
    requires
        nodes_reach(v@, levels, level),
        forall|a: int| 0 <= a < v@.len() ==> p(#[trigger] v@[a]),
    ensures
        r@.len() == v@.len(),
        sorted_by_distance(r@),
        nodes_reach(r@, levels, level),
        forall|a: int| 0 <= a < r@.len() ==> p(#[trigger] r@[a]),
{
    let mut rest = v;
    let mut out: Vec<(usize, u32)> = Vec::new();
    let ghost total = rest@.len();
    while rest.len() > 0
        invariant
            out@.len() + rest@.len() == total,
            sorted_by_distance(out@),
            nodes_reach(out@, levels, level),
            nodes_reach(rest@, levels, level),
            forall|a: int| 0 <= a < out@.len() ==> p(#[trigger] out@[a]),
            forall|a: int| 0 <= a < rest@.len() ==> p(#[trigger] rest@[a]),
            forall|a: int, b: int| 0 <= a < out@.len() && 0 <= b < rest@.len()
                ==> (#[trigger] out@[a]).1 <= (#[trigger] rest@[b]).1 && out@[a].0 != rest@[b].0,
        decreases rest@.len(),
    {
        let mut best: usize = 0;
        let mut k: usize = 1;
        while k < rest.len()
            invariant
                0 <= best < rest@.len(),
                1 <= k <= rest@.len(),
                forall|m: int| 0 <= m < k ==> rest@[best as int].1 <= (#[trigger] rest@[m]).1,
            decreases rest@.len() - k,
        {
            if rest[k].1 < rest[best].1 {
                best = k;
            }
            k = k + 1;
        }
        let ghost old_rest = rest@;
        let ghost old_out = out@;
        let item = rest.remove(best);
        out.push(item);
        assert forall|a: int, b: int| 0 <= a < rest@.len() && 0 <= b < rest@.len() && a < b
            implies (#[trigger] rest@[a]).0 != (#[trigger] rest@[b]).0 by {
            let a0 = if a < best { a } else { a + 1 };
            let b0 = if b < best { b } else { b + 1 };
            assert(rest@[a] == old_rest[a0] && rest@[b] == old_rest[b0]);
        }
        assert forall|a: int, b: int| 0 <= a < out@.len() && 0 <= b < rest@.len()
            implies (#[trigger] out@[a]).1 <= (#[trigger] rest@[b]).1 && out@[a].0 != rest@[b].0 by {
            let b0 = if b < best { b } else { b + 1 };
            assert(rest@[b] == old_rest[b0]);
            if a < old_out.len() {
                assert(out@[a] == old_out[a]);
            }
        }
        assert forall|a: int, b: int| 0 <= a < b < out@.len()
            implies (#[trigger] out@[a]).1 <= (#[trigger] out@[b]).1 by {
            assert(out@[a] == old_out[a]);
            if b < old_out.len() {
                assert(out@[b] == old_out[b]);
            }
        }
        assert forall|a: int, b: int| 0 <= a < b < out@.len()
            implies (#[trigger] out@[a]).0 != (#[trigger] out@[b]).0 by {
            assert(out@[a] == old_out[a]);
            if b < old_out.len() {
                assert(out@[b] == old_out[b]);
            }
        }
        assert forall|a: int| 0 <= a < rest@.len() implies (#[trigger] rest@[a]).0 < levels.len()
            && levels[rest@[a].0 as int] >= level && p(rest@[a]) by {
            let a0 = if a < best { a } else { a + 1 };
            assert(rest@[a] == old_rest[a0]);
        }
        assert forall|a: int| 0 <= a < out@.len() implies (#[trigger] out@[a]).0 < levels.len()
            && levels[out@[a].0 as int] >= level && p(out@[a]) by {
            if a < old_out.len() {
                assert(out@[a] == old_out[a]);
            }
        }
    }
    out
}

/// Nearness ranks of distances: a nearer node has a higher rank.
pub open spec fn nearness(ds: Seq<u32>) -> Seq<u64> {
    ds.map_values(|x: u32| (0xFFFF_FFFFu32 - x) as u64)
}

/// How the list `old` of node `u` on a level takes in the new node `n`,
/// `d` being `dist(n, u)`: unchanged when `n` is on it; `n` appended when
/// the list has room below `cap`; else the `cap` nearest to `u` of `n`
/// and the old neighbours (by `dist(x, u)`), nearer first, `n` and then
/// the earlier ones first among equals.
pub open spec fn back_linked<F: Fn(usize, usize) -> u32>(old: Seq<usize>, new: Seq<usize>, n: usize, u: usize, d: u32, cap: int, dist: &F) -> bool {
    if old.contains(n) {
        new == old
    } else if old.len() < cap {
        new == old.push(n)
    } else {
        exists|ds: Seq<u32>, sel: Seq<usize>| {
            &&& ds.len() == old.len() + 1
            &&& ds[0] == d
            &&& (forall|k: int| 0 <= k < old.len() ==> dist.ensures((#[trigger] old[k], u), ds[k + 1]))
            &&& is_top_k(nearness(ds), all_of(ds.len()), cap, sel)
            &&& new == sel.map_values(|p: usize| (seq![n] + old)[p as int])
        }
    }
}

/// `list` is in non-decreasing order of the distances `ds` from `x`, each
/// what `dist` gives.
pub open spec fn ordered_from<F: Fn(usize, usize) -> u32>(list: Seq<usize>, x: usize, dist: &F, ds: Seq<u32>) -> bool {
    &&& ds.len() == list.len()
    &&& forall|k: int| 0 <= k < list.len() ==> dist.ensures((x, #[trigger] list[k]), ds[k])
    &&& forall|a: int, b: int| 0 <= a < b < ds.len() ==> #[trigger] ds[a] <= #[trigger] ds[b]
}

/// Node `n` joined level `l` going from `before` to `after`: its list there
/// holds at most the level's cap of other, distinct nodes (at least one
/// when the cap allows), nearer first, and each of them took `n` in as
/// `back_linked` says.
pub open spec fn joined_level<F: Fn(usize, usize) -> u32>(before: HnswIndex, after: HnswIndex, n: usize, l: int, dist: &F) -> bool {
    let list = after.neighbors(n as int, l);
    let c = cap(after.spec_params(), l);
    &&& list.len() <= c
    &&& (c > 0 ==> list.len() >= 1)
    &&& forall|k: int| 0 <= k < list.len() ==> #[trigger] list[k] != n
    &&& forall|a: int, b: int| 0 <= a < b < list.len() ==> #[trigger] list[a] != #[trigger] list[b]
    &&& exists|ds: Seq<u32>| {
        &&& ordered_from(list, n, dist, ds)
        &&& forall|k: int| 0 <= k < list.len() ==> back_linked(before.neighbors(#[trigger] list[k] as int, l),
            after.neighbors(list[k] as int, l), n, list[k], ds[k], c, dist)
    }
}

/// What inserting the node `id` at level `level` (capped at `MAX_LEVEL`)
/// into `before` makes of it: the node is appended; when the index was not
/// empty, on every level up to the lower of its level and the top level
/// it joined as `joined_level` says; its lists above that are empty; the
/// entry point's level becomes its level when higher; and no other list
/// changes.
pub open spec fn added<F: Fn(usize, usize) -> u32>(before: HnswIndex, after: HnswIndex, id: String, level: usize, dist: &F) -> bool {
    let n = before.view_ids().len();
    let lv = if level <= MAX_LEVEL { level } else { MAX_LEVEL };
    let top: int = if n == 0 { -1 } else if lv < before.spec_max_level() { lv as int } else { before.spec_max_level() as int };
    &&& after.wf()
    &&& after.view_ids() == before.view_ids().push(id)
    &&& after.view_levels() == before.view_levels().push(lv)
    &&& after.spec_params() == before.spec_params()
    &&& after.spec_dimension() == before.spec_dimension()
    &&& after.spec_max_level() == if n == 0 || lv > before.spec_max_level() { lv } else { before.spec_max_level() }
    &&& forall|l: int| 0 <= l <= top ==> #[trigger] joined_level(before, after, n as usize, l, dist)
    &&& forall|l: int| top < l <= lv ==> (#[trigger] after.neighbors(n as int, l)).len() == 0
    &&& forall|i: int, l: int| 0 <= i < n && 0 <= l <= before.view_levels()[i]
        && !(l <= top && after.neighbors(n as int, l).contains(i as usize))
        ==> #[trigger] after.neighbors(i, l) == before.neighbors(i, l)
}

/// `joined_level` reads only the lists on its level.
proof fn lemma_joined_level_frame<F: Fn(usize, usize) -> u32>(before: HnswIndex, a: HnswIndex, b: HnswIndex, n: usize, l: int, dist: &F)
    requires
        a.wf(),
        a.view_levels() == b.view_levels(),
        a.spec_params() == b.spec_params(),
        n < a.view_levels().len(),
        0 <= l <= a.view_levels()[n as int],
        forall|i: int| 0 <= i < a.view_levels().len() && l <= a.view_levels()[i] ==> #[trigger] b.neighbors(i, l) == a.neighbors(i, l),
        joined_level(before, a, n, l, dist),
    ensures
        joined_level(before, b, n, l, dist),
{
    let list = a.neighbors(n as int, l);
    assert(b.neighbors(n as int, l) == list);
    let c = cap(a.spec_params(), l);
    let ds = choose|ds: Seq<u32>| {
        &&& ordered_from(list, n, dist, ds)
        &&& forall|k: int| 0 <= k < list.len() ==> back_linked(before.neighbors(#[trigger] list[k] as int, l),
            a.neighbors(list[k] as int, l), n, list[k], ds[k], c, dist)
    };
    assert forall|k: int| 0 <= k < list.len() implies back_linked(before.neighbors(#[trigger] list[k] as int, l),
        b.neighbors(list[k] as int, l), n, list[k], ds[k], c, dist) by {
        a.lemma_link_valid(n as int, l, k);
        assert(b.neighbors(list[k] as int, l) == a.neighbors(list[k] as int, l));
    }
}

/// `joined_level` reads the earlier lists only of the new node's neighbours.
proof fn lemma_joined_level_before<F: Fn(usize, usize) -> u32>(b1: HnswIndex, b2: HnswIndex, after: HnswIndex, n: usize, l: int, dist: &F)
    requires
        after.wf(),
        n < after.view_levels().len(),
        0 <= l <= after.view_levels()[n as int],
        joined_level(b1, after, n, l, dist),
        after.view_levels().len() == n + 1,
        b2.view_levels().len() == n,
        forall|u: int| 0 <= u < n && l <= b2.view_levels()[u] ==> #[trigger] b1.neighbors(u, l) == b2.neighbors(u, l),
        forall|u: int| 0 <= u < n ==> b2.view_levels()[u] == after.view_levels()[u],
    ensures
        joined_level(b2, after, n, l, dist),
{
    let list = after.neighbors(n as int, l);
    let c = cap(after.spec_params(), l);
    let ds = choose|ds: Seq<u32>| {
        &&& ordered_from(list, n, dist, ds)
        &&& forall|k: int| 0 <= k < list.len() ==> back_linked(b1.neighbors(#[trigger] list[k] as int, l),
            after.neighbors(list[k] as int, l), n, list[k], ds[k], c, dist)
    };
    assert forall|k: int| 0 <= k < list.len() implies back_linked(b2.neighbors(#[trigger] list[k] as int, l),
        after.neighbors(list[k] as int, l), n, list[k], ds[k], c, dist) by {
        after.lemma_link_valid(n as int, l, k);
        assert(list[k] != n);
        assert(b2.view_levels()[list[k] as int] == after.view_levels()[list[k] as int]);
        assert(b1.neighbors(list[k] as int, l) == b2.neighbors(list[k] as int, l));
    }
}

/// `linked_at` reads only the lists on its level.
proof fn lemma_linked_at_frame(a: HnswIndex, b: HnswIndex, l: int, x: usize)
    requires
        a.view_levels() == b.view_levels(),
        forall|i: int| 0 <= i < a.view_levels().len() && l <= a.view_levels()[i] ==> #[trigger] b.neighbors(i, l) == a.neighbors(i, l),
        !a.linked_at(l, x),
    ensures
        !b.linked_at(l, x),
{
    if b.linked_at(l, x) {
        let (i, k) = choose|i: int, k: int| 0 <= i < b.view_levels().len() && l <= b.view_levels()[i]
            && 0 <= k < b.neighbors(i, l).len() && #[trigger] b.neighbors(i, l)[k] == x;
        assert(a.neighbors(i, l)[k] == x);
    }
}

/// Counts describing the graph.
#[derive(Debug, Clone)]
pub struct HnswStats {
    pub node_count: usize,
    pub max_level: usize,
    pub dimension: usize,
    pub entry_point: Option<String>,
    pub connections_per_level: Vec<usize>,
    pub max_connections_per_level: Vec<usize>,
}

/// A hierarchical navigable small-world graph over the stored vectors.
/// Nodes are numbered in insertion order; distances are asked of the
/// caller, as ranks that order them (smaller is nearer).
pub struct HnswIndex {
    ids: Vec<String>,
    levels: Vec<usize>,
    links: Vec<HnswConnections>,
    entry_point: Option<usize>,
    max_level: usize,
    params: HnswParams,
    dimension: usize,
}

impl HnswIndex {
    /// The ids of the nodes, in insertion order.
    pub closed spec fn view_ids(&self) -> Seq<String> {
        self.ids@
    }

    /// The level of each node.
    pub closed spec fn view_levels(&self) -> Seq<usize> {
        self.levels@
    }

    pub closed spec fn spec_params(&self) -> HnswParams {
        self.params
    }

    /// The neighbours of node `i` on level `l`.
    pub closed spec fn neighbors(&self, i: int, l: int) -> Seq<usize> {
        self.links@[i].connections@[l]@
    }

    /// Whether some node's list on `level` holds `x`.
    pub open spec fn linked_at(&self, level: int, x: usize) -> bool {
        exists|i: int, k: int| 0 <= i < self.view_levels().len() && level <= self.view_levels()[i]
            && 0 <= k < self.neighbors(i, level).len() && #[trigger] self.neighbors(i, level)[k] == x
    }

    /// An entry of a list names a node that reaches the list's level.
    pub proof fn lemma_link_valid(&self, i: int, l: int, k: int)
        requires
            self.wf(),
            0 <= i < self.view_levels().len(),
            0 <= l <= self.view_levels()[i],
            0 <= k < self.neighbors(i, l).len(),
        ensures
            self.neighbors(i, l)[k] < self.view_levels().len(),
            self.view_levels()[self.neighbors(i, l)[k] as int] >= l,
    {
        assert(self.links@[i].connections@[l]@[k] == self.neighbors(i, l)[k]);
    }

    /// The level of the entry point, the highest of all nodes.
    pub closed spec fn spec_max_level(&self) -> usize {
        self.max_level
    }

    pub closed spec fn spec_dimension(&self) -> nat {
        self.dimension as nat
    }

    pub closed spec fn inner_wf(&self) -> bool {
        &&& self.ids@.len() == self.levels@.len()
        &&& valid_links(self.levels@, self.links@, self.params)
        &&& self.max_level <= MAX_LEVEL
        &&& (self.levels@.len() == 0 <==> self.entry_point is None)
        &&& match self.entry_point {
            Some(e) => e < self.levels@.len() && self.levels@[e as int] == self.max_level,
            None => true,
        }
    }

    /// The graph is consistent and no two nodes share an id.
    pub open spec fn wf(&self) -> bool {
        &&& self.inner_wf()
        &&& forall|a: int, b: int| 0 <= a < b < self.view_ids().len()
            ==> (#[trigger] self.view_ids()[a])@ != (#[trigger] self.view_ids()[b])@
    }

    /// An empty index over vectors of `dimension` components.
    pub fn new(dimension: usize, params: HnswParams) -> (r: HnswIndex)
        ensures
            r.wf(),
            r.view_ids().len() == 0,
            r.spec_params() == params,
            r.spec_dimension() == dimension,
    {
        HnswIndex {
            ids: Vec::new(),
            levels: Vec::new(),
            links: Vec::new(),
            entry_point: None,
            max_level: 0,
            params,
            dimension,
        }
    }

    pub fn len(&self) -> (r: usize)
        ensures
            r == self.view_ids().len(),
    {
        self.ids.len()
    }

    pub fn is_empty(&self) -> (r: bool)
        ensures
            r == (self.view_ids().len() == 0),
    {
        self.ids.len() == 0
    }

    pub fn dimension(&self) -> (r: usize)
        ensures
            r == self.spec_dimension(),
    {
        self.dimension
    }

    /// The id of node `i`.
    pub fn node_id(&self, i: usize) -> (r: &String)
        requires
            i < self.view_ids().len(),
        ensures
            *r == self.view_ids()[i as int],
    {
        &self.ids[i]
    }

    /// The ids of the nodes, in insertion order.
    pub fn node_ids(&self) -> (r: Vec<String>)
        ensures
            r@.len() == self.view_ids().len(),
            forall|i: int| 0 <= i < r@.len() ==> (#[trigger] r@[i])@ == self.view_ids()[i]@,
    {
        let mut out: Vec<String> = Vec::new();
        let mut i: usize = 0;
        while i < self.ids.len()
            invariant
                i <= self.ids@.len(),
                out@.len() == i,
                forall|k: int| 0 <= k < i ==> (#[trigger] out@[k])@ == self.ids@[k]@,
            decreases self.ids@.len() - i,
        {
            out.push(self.ids[i].clone());
            i = i + 1;
        }
        out
    }

    /// Moves from `start` to a nearer neighbour on `level` as long as one
    /// is nearer to the query.
    fn greedy<G: Fn(usize) -> u32>(&self, qd: &G, start: usize, start_d: u32, level: usize) -> (r: (usize, u32))
        requires
            self.inner_wf(),
            start < self.levels@.len(),
            self.levels@[start as int] >= level,
            forall|j: usize| qd.requires((j,)),
            qd.ensures((start,), start_d),
        ensures
            r.0 < self.levels@.len(),
            self.levels@[r.0 as int] >= level,
            qd.ensures((r.0,), r.1),
            r.0 == start || self.linked_at(level as int, r.0),
    {
        let mut cur = start;
        let mut cur_d = start_d;
        loop
            invariant
                self.inner_wf(),
                cur < self.levels@.len(),
                self.levels@[cur as int] >= level,
                forall|j: usize| qd.requires((j,)),
                qd.ensures((cur,), cur_d),
                cur == start || self.linked_at(level as int, cur),
            decreases cur_d,
        {
            let nb = &self.links[cur].connections[level];
            let mut best = cur;
            let mut best_d = cur_d;
            let mut k: usize = 0;
            while k < nb.len()
                invariant
                    self.inner_wf(),
                    cur < self.levels@.len(),
                    self.levels@[cur as int] >= level,
                    *nb == self.links@[cur as int].connections@[level as int],
                    k <= nb@.len(),
                    best < self.levels@.len(),
                    self.levels@[best as int] >= level,
                    best_d <= cur_d,
                    best != cur ==> best_d < cur_d,
                    forall|j: usize| qd.requires((j,)),
                    qd.ensures((cur,), cur_d),
                    qd.ensures((best,), best_d),
                    best == cur || self.linked_at(level as int, best),
                decreases nb@.len() - k,
            {
                let j = nb[k];
                assert(j == self.links@[cur as int].connections@[level as int]@[k as int]);
                assert(self.neighbors(cur as int, level as int)[k as int] == j);
                let d = qd(j);
                if d < best_d {
                    best = j;
                    best_d = d;
                }
                k = k + 1;
            }
            if best == cur {
                return (cur, cur_d);
            }
            cur = best;
            cur_d = best_d;
        }
    }

    /// An index over every entry of `storage`, node `i` being entry `i`,
    /// inserted in order at level `levels[i]` (capped at `MAX_LEVEL`);
    /// `dist(a, b)` ranks the distance between entries `a` and `b`.
    pub fn build<F: Fn(usize, usize) -> u32>(storage: &VectorStorage, params: HnswParams, levels: &Vec<usize>, dist: &F) -> (r: HnswIndex)
        requires
            storage.wf(),
            levels@.len() == storage.view_entries().len(),
            forall|a: usize, b: usize| dist.requires((a, b)),
        ensures
            r.wf(),
            r.spec_params() == params,
            r.spec_dimension() == storage.spec_dimension(),
            r.view_ids().len() == storage.view_entries().len(),
            forall|i: int| 0 <= i < r.view_ids().len() ==> (#[trigger] r.view_ids()[i])@ == storage.view_entries()[i].id@,
            exists|states: Seq<HnswIndex>| {
                &&& states.len() == storage.view_entries().len() + 1
                &&& states[0].wf() && states[0].view_ids().len() == 0
                &&& states[0].spec_params() == params && states[0].spec_dimension() == storage.spec_dimension()
                &&& states.last() == r
                &&& forall|i: int| 0 <= i < storage.view_entries().len() ==> #[trigger] added(states[i], states[i + 1],
                    storage.view_entries()[i].id, levels@[i], dist)
            },
    {
        let entries = storage.get_entries();
        let n = entries.len();
        let mut index = HnswIndex::new(storage.dimension(), params);
        let ghost mut states = seq![index];
        let mut i: usize = 0;
        while i < n
            invariant
                storage.wf(),
                n == entries@.len(),
                entries@ == storage.view_entries(),
                levels@.len() == n,
                i <= n,
                index.wf(),
                index.spec_params() == params,
                index.spec_dimension() == storage.spec_dimension(),
                index.view_ids().len() == i,
                forall|k: int| 0 <= k < i ==> (#[trigger] index.view_ids()[k])@ == entries@[k].id@,
                forall|a: usize, b: usize| dist.requires((a, b)),
                states.len() == i + 1,
                states.last() == index,
                states[0].wf() && states[0].view_ids().len() == 0,
                states[0].spec_params() == params && states[0].spec_dimension() == storage.spec_dimension(),
                forall|a: int| 0 <= a < i ==> #[trigger] added(states[a], states[a + 1], entries@[a].id, levels@[a], dist),
            decreases n - i,
        {
            let id = entries[i].id.clone();
            proof {
                assert forall|k: int| 0 <= k < index.view_ids().len() implies (#[trigger] index.view_ids()[k])@ != id@ by {
                    assert(entries@[k].id@ != entries@[i as int].id@);
                }
            }
            let ghost before = index.view_ids();
            let ghost prev_states = states;
            let _ = index.add(id, levels[i], dist);
            proof {
                states = states.push(index);
                assert forall|a: int| 0 <= a < i + 1 implies #[trigger] added(states[a], states[a + 1], entries@[a].id, levels@[a], dist) by {
                    if a < i {
                        assert(states[a] == prev_states[a] && states[a + 1] == prev_states[a + 1]);
                    } else {
                        assert(states[a] == prev_states.last());
                    }
                }
            }
            assert forall|k: int| 0 <= k < i + 1 implies (#[trigger] index.view_ids()[k])@ == entries@[k].id@ by {
                if k < i {
                    assert(index.view_ids()[k] == before[k]);
                }
            }
            i = i + 1;
        }
        assert(states.len() == storage.view_entries().len() + 1);
        index
    }

    /// Whether a node with id `id` is indexed.
    pub fn contains(&self, id: &String) -> (r: bool)
        ensures
            r == exists|i: int| 0 <= i < self.view_ids().len() && (#[trigger] self.view_ids()[i])@ == id@,
    {
        let mut i: usize = 0;
        while i < self.ids.len()
            invariant
                i <= self.ids@.len(),
                forall|k: int| 0 <= k < i ==> (#[trigger] self.ids@[k])@ != id@,
            decreases self.ids@.len() - i,
        {
            if self.ids[i] == *id {
                assert(self.view_ids()[i as int]@ == id@);
                return true;
            }
            i = i + 1;
        }
        false
    }

    /// Indexes a node with id `id` at level `level` (at most `MAX_LEVEL`).
    /// `dist(a, b)` ranks the distance between nodes `a` and `b`, the new
    /// node being the last. Above its level the new node only guides a
    /// greedy descent; on each lower level a beam search from there finds
    /// its neighbours, which take it in (see `added`). Fails, leaving the
    /// index as it was, when the id is already indexed.
    pub fn add<F: Fn(usize, usize) -> u32>(&mut self, id: String, level: usize, dist: &F) -> (r: Result<(), IndexError>)
        requires
            old(self).wf(),
            old(self).view_ids().len() < usize::MAX,
            forall|a: usize, b: usize| dist.requires((a, b)),
        ensures
            (exists|i: int| 0 <= i < old(self).view_ids().len() && (#[trigger] old(self).view_ids()[i])@ == id@)
                ==> r == Err::<(), IndexError>(IndexError::DuplicateId) && *final(self) == *old(self),
            !(exists|i: int| 0 <= i < old(self).view_ids().len() && (#[trigger] old(self).view_ids()[i])@ == id@)
                ==> r is Ok && added(*old(self), *final(self), id, level, dist),
            final(self).wf(),
    {
        if self.contains(&id) {
            return Err(IndexError::DuplicateId);
        }
        let ghost idg = id;
        let level = if level <= MAX_LEVEL { level } else { MAX_LEVEL };
        let n = self.ids.len();
        let ghost old_ids = self.ids@;
        self.ids.push(id);
        self.levels.push(level);
        self.links.push(HnswConnections::new(level));
        let ghost new_ids = self.ids@;
        let ghost new_levels = self.levels@;
        proof {
            assert forall|a: int, b: int| 0 <= a < b < self.view_ids().len()
                implies (#[trigger] self.view_ids()[a])@ != (#[trigger] self.view_ids()[b])@ by {
                assert(self.ids@[a] == old_ids[a]);
                if b < old_ids.len() {
                    assert(self.ids@[b] == old_ids[b]);
                }
            }
            self.lemma_push_keeps_links(n as int);
            assert forall|i: int, l2: int| 0 <= i < n && 0 <= l2 <= old(self).view_levels()[i]
                implies #[trigger] self.neighbors(i, l2) == old(self).neighbors(i, l2) by {
                assert(self.links@[i] == old(self).links@[i]);
            }
            assert forall|l2: int| 0 <= l2 <= level implies (#[trigger] self.neighbors(n as int, l2)).len() == 0 by {}
            assert forall|l2: int| 0 <= l2 implies !#[trigger] self.linked_at(l2, n) by {
                if self.linked_at(l2, n) {
                    let (i, k) = choose|i: int, k: int| 0 <= i < self.view_levels().len() && l2 <= self.view_levels()[i]
                        && 0 <= k < self.neighbors(i, l2).len() && #[trigger] self.neighbors(i, l2)[k] == n;
                    if i < n {
                        assert(self.levels@[i] == old(self).levels@[i]);
                        old(self).lemma_link_valid(i, l2, k);
                    }
                }
            }
        }
        let e = match self.entry_point {
            Some(e) => e,
            None => {
                self.entry_point = Some(n);
                self.max_level = level;
                proof {
                    assert forall|l2: int| 0 <= l2 <= level implies (#[trigger] self.neighbors(n as int, l2)).len() == 0 by {}
                    assert(self.view_ids() == old(self).view_ids().push(idg));
                }
                return Ok(());
            },
        };
        let qd = |j: usize| -> (r: u32)
            requires
                dist.requires((n, j)),
            ensures
                dist.ensures((n, j), r),
            {
                dist(n, j)
            };
        let mut cur = e;
        let mut cur_d = qd(e);
        let top = if level < self.max_level { level } else { self.max_level };
        let ghost pushed = *self;
        let mut l = self.max_level;
        while l > level
            invariant
                *self == pushed,
                self.inner_wf(),
                l >= top,
                top == if level < self.max_level { level } else { self.max_level },
                self.levels@.len() == n + 1,
                self.levels@[n as int] == level,
                cur < self.levels@.len(),
                cur != n,
                self.levels@[cur as int] >= l,
                forall|l2: int| 0 <= l2 ==> !#[trigger] self.linked_at(l2, n),
                forall|j: usize| qd.requires((j,)),
                qd.ensures((cur,), cur_d),
            decreases l,
        {
            let (c, d) = self.greedy(&qd, cur, cur_d, l);
            assert(l - 1 <= self.levels@[c as int]);
            assert(!self.linked_at(l as int, n));
            cur = c;
            cur_d = d;
            l = l - 1;
        }
        let mut l = top + 1;
        while l > 0
            invariant
                self.wf(),
                self.levels@.len() == n + 1,
                self.ids@ == new_ids,
                self.levels@ == new_levels,
                new_ids == old(self).view_ids().push(idg),
                new_levels == old(self).view_levels().push(level),
                self.levels@[n as int] == level,
                n == old(self).view_ids().len(),
                old(self).view_levels().len() == n,
                self.entry_point == Some(e),
                l <= top + 1,
                top <= level,
                top <= self.max_level,
                top == if level < old(self).max_level { level } else { old(self).max_level },
                cur < self.levels@.len(),
                cur != n,
                self.levels@[cur as int] + 1 >= l,
                self.params == old(self).params,
                self.dimension == old(self).dimension,
                self.max_level == old(self).max_level,
                forall|j: usize| qd.requires((j,)),
                forall|j: usize, d: u32| qd.ensures((j,), d) ==> dist.ensures((n, j), d),
                qd.ensures((cur,), cur_d),
                forall|a: usize, b: usize| dist.requires((a, b)),
                forall|l2: int| l <= l2 <= top ==> #[trigger] joined_level(*old(self), *self, n, l2, dist),
                forall|l2: int| (l2 < l || top < l2) && 0 <= l2 <= level ==> (#[trigger] self.neighbors(n as int, l2)).len() == 0,
                forall|i: int, l2: int| 0 <= i < n && 0 <= l2 <= old(self).view_levels()[i]
                    && !(l <= l2 <= top && self.neighbors(n as int, l2).contains(i as usize))
                    ==> #[trigger] self.neighbors(i, l2) == old(self).neighbors(i, l2),
                forall|l2: int| 0 <= l2 < l ==> !#[trigger] self.linked_at(l2, n),
            decreases l,
        {
            l = l - 1;
            let ghost prev = *self;
            assert(!self.linked_at(l as int, n));
            let (c, d) = self.link_level(n, l, cur, cur_d, &qd, dist);
            proof {
                // the level just done, against the index before the insertion
                assert forall|u: int| 0 <= u < n && l <= old(self).view_levels()[u]
                    implies #[trigger] prev.neighbors(u, l as int) == old(self).neighbors(u, l as int) by {
                    assert(prev.levels@[u] == old(self).levels@[u]);
                }
                lemma_joined_level_before(prev, *old(self), *self, n, l as int, dist);
                assert forall|l2: int| l + 1 <= l2 <= top implies #[trigger] joined_level(*old(self), *self, n, l2, dist) by {
                    assert forall|i: int| 0 <= i < prev.view_levels().len() && l2 <= prev.view_levels()[i]
                        implies #[trigger] self.neighbors(i, l2) == prev.neighbors(i, l2) by {}
                    lemma_joined_level_frame(*old(self), prev, *self, n, l2, dist);
                }
                assert forall|l2: int| 0 <= l2 < l implies !#[trigger] self.linked_at(l2, n) by {
                    assert forall|i: int| 0 <= i < prev.view_levels().len() && l2 <= prev.view_levels()[i]
                        implies #[trigger] self.neighbors(i, l2) == prev.neighbors(i, l2) by {}
                    lemma_linked_at_frame(prev, *self, l2, n);
                }
                assert forall|l2: int| (l2 < l || top < l2) && 0 <= l2 <= level
                    implies (#[trigger] self.neighbors(n as int, l2)).len() == 0 by {
                    assert(self.neighbors(n as int, l2) == prev.neighbors(n as int, l2));
                }
                assert forall|i: int, l2: int| 0 <= i < n && 0 <= l2 <= old(self).view_levels()[i]
                    && !(l <= l2 <= top && self.neighbors(n as int, l2).contains(i as usize))
                    implies #[trigger] self.neighbors(i, l2) == old(self).neighbors(i, l2) by {
                    assert(self.levels@[i] == old(self).levels@[i]);
                    if l2 != l && l2 <= top {
                        assert(self.neighbors(n as int, l2) == prev.neighbors(n as int, l2));
                    }
                    assert(self.neighbors(i, l2) == prev.neighbors(i, l2));
                }
            }
            cur = c;
            cur_d = d;
        }
        let ghost done = *self;
        if level > self.max_level {
            self.entry_point = Some(n);
            self.max_level = level;
        }
        proof {
            assert forall|l2: int| 0 <= l2 <= top implies #[trigger] joined_level(*old(self), *self, n, l2, dist) by {
                assert(joined_level(*old(self), done, n, l2, dist));
                lemma_joined_level_frame(*old(self), done, *self, n, l2, dist);
            }
            assert(self.view_ids() == old(self).view_ids().push(idg));
            assert forall|l2: int| top < l2 <= level implies (#[trigger] self.neighbors(n as int, l2)).len() == 0 by {
                assert(self.neighbors(n as int, l2) == done.neighbors(n as int, l2));
            }
            assert forall|i: int, l2: int| 0 <= i < n && 0 <= l2 <= old(self).view_levels()[i]
                && !(l2 <= top && self.neighbors(n as int, l2).contains(i as usize))
                implies #[trigger] self.neighbors(i, l2) == old(self).neighbors(i, l2) by {
                assert(self.neighbors(i, l2) == done.neighbors(i, l2));
                if l2 <= top {
                    assert(self.neighbors(n as int, l2) == done.neighbors(n as int, l2));
                }
            }
        }
        Ok(())
    }

    /// Links the new node `n` on `level`: a beam search from `cur` finds
    /// its nearest nodes, the first of them (up to the level's cap) become
    /// its list, and each takes it in (see `joined_level`). Gives the
    /// nearest node found, where the search of the next level starts.
    fn link_level<F: Fn(usize, usize) -> u32, G: Fn(usize) -> u32>(
        &mut self,
        n: usize,
        l: usize,
        cur: usize,
        cur_d: u32,
        qd: &G,
        dist: &F,
    ) -> (r: (usize, u32))
        requires
            old(self).wf(),
            n + 1 == old(self).levels@.len(),
            l <= old(self).levels@[n as int],
            cur < n,
            old(self).levels@[cur as int] >= l,
            !old(self).linked_at(l as int, n),
            forall|j: usize| qd.requires((j,)),
            forall|j: usize, d: u32| qd.ensures((j,), d) ==> dist.ensures((n, j), d),
            qd.ensures((cur,), cur_d),
            forall|a: usize, b: usize| dist.requires((a, b)),
        ensures
            final(self).wf(),
            final(self).ids@ == old(self).ids@,
            final(self).levels@ == old(self).levels@,
            final(self).entry_point == old(self).entry_point,
            final(self).max_level == old(self).max_level,
            final(self).params == old(self).params,
            final(self).dimension == old(self).dimension,
            joined_level(*old(self), *final(self), n, l as int, dist),
            forall|i: int, l2: int| 0 <= i < old(self).levels@.len() && 0 <= l2 <= old(self).levels@[i]
                && (l2 != l || (i != n && !final(self).neighbors(n as int, l as int).contains(i as usize)))
                ==> #[trigger] final(self).neighbors(i, l2) == old(self).neighbors(i, l2),
            r.0 < n,
            old(self).levels@[r.0 as int] + 1 >= l,
            qd.ensures((r.0,), r.1),
    {
        let ef = if l == 0 { self.params.ef_construction.saturating_add(self.params.ef_construction) } else { self.params.ef_construction };
        let nearest = self.beam(qd, cur, cur_d, ef, l);
        proof {
            assert forall|a: int| 0 <= a < nearest@.len() implies (#[trigger] nearest@[a]).0 != n by {}
        }
        let mc = if l == 0 { self.params.max_connections_level0 } else { self.params.max_connections };
        let take = if mc < nearest.len() { mc } else { nearest.len() };
        let mut chosen: Vec<usize> = Vec::new();
        let mut k: usize = 0;
        while k < take
            invariant
                take <= nearest@.len(),
                k <= take,
                chosen@.len() == k,
                nodes_reach(nearest@, self.levels@, l as int),
                forall|a: int| 0 <= a < k ==> (#[trigger] chosen@[a]) == nearest@[a].0,
            decreases take - k,
        {
            chosen.push(nearest[k].0);
            k = k + 1;
        }
        let ghost ch = chosen@;
        self.set_links(n, l, chosen);
        let ghost ls = *self;
        let mut k: usize = 0;
        while k < take
            invariant
                self.wf(),
                self.levels@ == old(self).levels@,
                self.ids@ == old(self).ids@,
                self.entry_point == old(self).entry_point,
                self.max_level == old(self).max_level,
                self.params == old(self).params,
                self.dimension == old(self).dimension,
                n + 1 == self.levels@.len(),
                l <= self.levels@[n as int],
                k <= take,
                take <= nearest@.len(),
                ch.len() == take,
                forall|a: int| 0 <= a < take ==> (#[trigger] ch[a]) == nearest@[a].0,
                nodes_reach(nearest@, self.levels@, l as int),
                forall|a: int| 0 <= a < nearest@.len() ==> (#[trigger] nearest@[a]).0 != n,
                mc == cap(self.params, l as int),
                forall|a: usize, b: usize| dist.requires((a, b)),
                self.neighbors(n as int, l as int) == ch,
                forall|a: int| 0 <= a < k ==> back_linked(old(self).neighbors(#[trigger] ch[a] as int, l as int),
                    self.neighbors(ch[a] as int, l as int), n, ch[a], nearest@[a].1, mc as int, dist),
                forall|i: int, l2: int| 0 <= i < n + 1 && 0 <= l2 <= self.levels@[i]
                    && (l2 != l || !ch.take(k as int).contains(i as usize))
                    ==> #[trigger] self.neighbors(i, l2) == ls.neighbors(i, l2),
                forall|i: int, l2: int| 0 <= i < n + 1 && 0 <= l2 <= self.levels@[i] && (i != n || l2 != l)
                    ==> #[trigger] ls.neighbors(i, l2) == old(self).neighbors(i, l2),
                ls.view_levels() == self.view_levels(),
            decreases take - k,
        {
            let (j, d) = nearest[k];
            proof {
                assert(j == ch[k as int]);
                assert(!ch.take(k as int).contains(j)) by {
                    if ch.take(k as int).contains(j) {
                        let b = choose|b: int| 0 <= b < k && ch.take(k as int)[b] == j;
                        assert(ch[b] == nearest@[b].0);
                    }
                }
                assert(self.neighbors(j as int, l as int) == ls.neighbors(j as int, l as int));
                assert(ls.neighbors(j as int, l as int) == old(self).neighbors(j as int, l as int));
            }
            let ghost before = *self;
            self.connect_back(j, n, l, mc, d, dist);
            proof {
                assert forall|a: int| 0 <= a < k + 1 implies back_linked(old(self).neighbors(#[trigger] ch[a] as int, l as int),
                    self.neighbors(ch[a] as int, l as int), n, ch[a], nearest@[a].1, mc as int, dist) by {
                    if a < k {
                        assert(ch[a] != j);
                        assert(self.neighbors(ch[a] as int, l as int) == before.neighbors(ch[a] as int, l as int));
                    }
                }
                assert forall|i: int, l2: int| 0 <= i < n + 1 && 0 <= l2 <= self.levels@[i]
                    && (l2 != l || !ch.take(k + 1).contains(i as usize))
                    implies #[trigger] self.neighbors(i, l2) == ls.neighbors(i, l2) by {
                    if l2 == l && ch.take(k as int).contains(i as usize) {
                        let b = choose|b: int| 0 <= b < k && ch.take(k as int)[b] == i as usize;
                        assert(ch.take(k + 1)[b] == i as usize);
                    }
                    if i != j || l2 != l {
                        assert(self.neighbors(i, l2) == before.neighbors(i, l2));
                    } else {
                        assert(ch.take(k + 1)[k as int] == j);
                    }
                }
                assert(self.neighbors(n as int, l as int) == before.neighbors(n as int, l as int));
            }
            k = k + 1;
        }
        proof {
            assert(ch.take(take as int) == ch);
            let ds = Seq::new(take as nat, |a: int| nearest@[a].1);
            assert(ordered_from(ch, n, dist, ds)) by {
                assert forall|a: int| 0 <= a < ch.len() implies dist.ensures((n, #[trigger] ch[a]), ds[a]) by {
                    assert(qd.ensures((nearest@[a].0,), nearest@[a].1));
                }
            }
            assert forall|a: int| 0 <= a < ch.len() implies back_linked(old(self).neighbors(#[trigger] ch[a] as int, l as int),
                self.neighbors(ch[a] as int, l as int), n, ch[a], ds[a], mc as int, dist) by {}
            assert(joined_level(*old(self), *self, n, l as int, dist));
            assert forall|i: int, l2: int| 0 <= i < old(self).levels@.len() && 0 <= l2 <= old(self).levels@[i]
                && (l2 != l || (i != n && !self.neighbors(n as int, l as int).contains(i as usize)))
                implies #[trigger] self.neighbors(i, l2) == old(self).neighbors(i, l2) by {
                assert(self.neighbors(i, l2) == ls.neighbors(i, l2));
            }
        }
        if nearest.len() > 0 {
            (nearest[0].0, nearest[0].1)
        } else {
            (cur, cur_d)
        }
    }

    proof fn lemma_push_keeps_links(&self, n: int)
        requires
            n + 1 == self.levels@.len(),
            self.ids@.len() == self.levels@.len(),
            self.links@.len() == self.levels@.len(),
            valid_links(self.levels@.drop_last(), self.links@.drop_last(), self.params),
            self.levels@[n] <= MAX_LEVEL,
            self.links@[n].connections@.len() == self.levels@[n] + 1,
            forall|l: int| 0 <= l <= self.levels@[n] ==> (#[trigger] self.links@[n].connections@[l])@.len() == 0,
        ensures
            valid_links(self.levels@, self.links@, self.params),
    {
        let lv = self.levels@;
        let lk = self.links@;
        assert forall|i: int, l: int, k: int| 0 <= i < lv.len() && 0 <= l <= lv[i]
            && 0 <= k < lk[i].connections@[l]@.len()
            implies (#[trigger] lk[i].connections@[l]@[k]) < lv.len()
                && lv[lk[i].connections@[l]@[k] as int] >= l by {
            if i < n {
                assert(lk.drop_last()[i] == lk[i]);
                assert(lv.drop_last()[i] == lv[i]);
                let j = lk[i].connections@[l]@[k];
                assert(lv.drop_last()[j as int] == lv[j as int]);
            }
        }
        assert forall|i: int, l: int| 0 <= i < lv.len() && 0 <= l <= lv[i]
            implies (#[trigger] lk[i].connections@[l])@.len() <= cap(self.params, l) by {
            if i < n {
                assert(lk.drop_last()[i] == lk[i]);
                assert(lv.drop_last()[i] == lv[i]);
            }
        }
        assert forall|i: int| 0 <= i < lv.len() implies (#[trigger] lv[i]) <= MAX_LEVEL
            && lk[i].connections@.len() == lv[i] + 1 by {
            if i < n {
                assert(lk.drop_last()[i] == lk[i]);
                assert(lv.drop_last()[i] == lv[i]);
            }
        }
    }

    /// Makes `list` the neighbours of node `i` on `level`.
    fn set_links(&mut self, i: usize, level: usize, list: Vec<usize>)
        requires
            old(self).wf(),
            i < old(self).levels@.len(),
            level <= old(self).levels@[i as int],
            list@.len() <= cap(old(self).params, level as int),
            forall|k: int| 0 <= k < list@.len() ==> (#[trigger] list@[k]) < old(self).levels@.len()
                && old(self).levels@[list@[k] as int] >= level,
        ensures
            final(self).neighbors(i as int, level as int) == list@,
            forall|a: int, l: int| 0 <= a < old(self).levels@.len() && 0 <= l <= old(self).levels@[a] && (a != i || l != level)
                ==> #[trigger] final(self).neighbors(a, l) == old(self).neighbors(a, l),
            final(self).wf(),
            final(self).ids@ == old(self).ids@,
            final(self).levels@ == old(self).levels@,
            final(self).entry_point == old(self).entry_point,
            final(self).max_level == old(self).max_level,
            final(self).params == old(self).params,
            final(self).dimension == old(self).dimension,
    {
        let ghost old_links = self.links@;
        self.links[i].connections.set(level, list);
        proof {
            assert forall|a: int, l: int| 0 <= a < old(self).levels@.len() && 0 <= l <= old(self).levels@[a] && (a != i || l != level)
                implies #[trigger] self.neighbors(a, l) == old(self).neighbors(a, l) by {
                if a != i {
                    assert(self.links@[a] == old_links[a]);
                } else {
                    assert(self.links@[a].connections@[l] == old_links[a].connections@[l]);
                }
            }
            assert(self.view_ids() == old(self).view_ids());
            let lv = self.levels@;
            let lk = self.links@;
            assert forall|a: int, l: int, k: int| 0 <= a < lv.len() && 0 <= l <= lv[a]
                && 0 <= k < lk[a].connections@[l]@.len()
                implies (#[trigger] lk[a].connections@[l]@[k]) < lv.len()
                    && lv[lk[a].connections@[l]@[k] as int] >= l by {
                if a != i || l != level {
                    assert(lk[a].connections@[l] == old_links[a].connections@[l]);
                }
            }
            assert forall|a: int, l: int| 0 <= a < lv.len() && 0 <= l <= lv[a]
                implies (#[trigger] lk[a].connections@[l])@.len() <= cap(self.params, l) by {
                if a != i || l != level {
                    assert(lk[a].connections@[l] == old_links[a].connections@[l]);
                }
            }
            assert forall|a: int| 0 <= a < lv.len() implies (#[trigger] lv[a]) <= MAX_LEVEL
                && lk[a].connections@.len() == lv[a] + 1 by {
                if a != i {
                    assert(lk[a] == old_links[a]);
                }
            }
        }
    }

    /// Makes the list of node `j` on `level` take in the new node `n`, `d`
    /// being `dist(n, j)` (see `back_linked`).
    fn connect_back<F: Fn(usize, usize) -> u32>(&mut self, j: usize, n: usize, level: usize, mc: usize, d: u32, dist: &F)
        requires
            old(self).wf(),
            j < old(self).levels@.len(),
            n < old(self).levels@.len(),
            level <= old(self).levels@[j as int],
            level <= old(self).levels@[n as int],
            mc == cap(old(self).params, level as int),
            forall|a: usize, b: usize| dist.requires((a, b)),
        ensures
            final(self).wf(),
            final(self).ids@ == old(self).ids@,
            final(self).levels@ == old(self).levels@,
            final(self).entry_point == old(self).entry_point,
            final(self).max_level == old(self).max_level,
            final(self).params == old(self).params,
            final(self).dimension == old(self).dimension,
            back_linked(old(self).neighbors(j as int, level as int), final(self).neighbors(j as int, level as int),
                n, j, d, mc as int, dist),
            forall|a: int, l: int| 0 <= a < old(self).levels@.len() && 0 <= l <= old(self).levels@[a] && (a != j || l != level)
                ==> #[trigger] final(self).neighbors(a, l) == old(self).neighbors(a, l),
    {
        let ghost cur = self.neighbors(j as int, level as int);
        let current = &self.links[j].connections[level];
        let len = current.len();
        assert(current@ == cur);
        let mut k: usize = 0;
        while k < len
            invariant
                *self == *old(self),
                self.wf(),
                j < self.levels@.len(),
                level <= self.levels@[j as int],
                *current == self.links@[j as int].connections@[level as int],
                len == current@.len(),
                k <= len,
                current@ == cur,
                forall|m: int| 0 <= m < k ==> current@[m] != n,
            decreases len - k,
        {
            if current[k] == n {
                assert(cur[k as int] == n);
                assert(cur.contains(n));
                return;
            }
            k = k + 1;
        }
        assert(!cur.contains(n));
        let ghost lv = self.levels@;
        proof {
            assert forall|a: int| 0 <= a < len implies (#[trigger] current@[a]) < lv.len() && lv[current@[a] as int] >= level by {
                assert(current@[a] == self.links@[j as int].connections@[level as int]@[a]);
            }
        }
        if len < mc {
            let mut list: Vec<usize> = Vec::new();
            let mut k: usize = 0;
            while k < len
                invariant
                    len == current@.len(),
                    k <= len,
                    list@ == current@.take(k as int),
                decreases len - k,
            {
                list.push(current[k]);
                assert(current@.take(k + 1) == current@.take(k as int).push(current@[k as int]));
                k = k + 1;
            }
            assert(current@.take(len as int) == current@);
            list.push(n);
            self.set_links(j, level, list);
        } else {
            let mut cand: Vec<usize> = vec![n];
            let mut ds: Vec<u32> = vec![d];
            let first_rank = (0xFFFF_FFFFu32 - d) as u64;
            let mut ranks: Vec<u64> = vec![first_rank];
            let mut every: Vec<bool> = vec![true];
            let mut k: usize = 0;
            while k < len
                invariant
                    len == current@.len(),
                    current@ == cur,
                    k <= len,
                    cand@ == seq![n] + cur.take(k as int),
                    ds@.len() == k + 1,
                    ds@[0] == d,
                    forall|m: int| 0 <= m < k ==> dist.ensures((#[trigger] cur[m], j), ds@[m + 1]),
                    ranks@ == nearness(ds@),
                    every@ == all_of(ds@.len()),
                    forall|a: usize, b: usize| dist.requires((a, b)),
                decreases len - k,
            {
                let x = current[k];
                let dx = dist(x, j);
                cand.push(x);
                ds.push(dx);
                ranks.push((0xFFFF_FFFFu32 - dx) as u64);
                every.push(true);
                assert(cur.take(k + 1) == cur.take(k as int).push(cur[k as int]));
                assert(ranks@ =~= nearness(ds@));
                assert(every@ =~= all_of(ds@.len()));
                k = k + 1;
            }
            assert(cur.take(len as int) == cur);
            let sel = top_k(&ranks, &every, mc);
            let mut list: Vec<usize> = Vec::new();
            let mut a: usize = 0;
            while a < sel.len()
                invariant
                    a <= sel@.len(),
                    cand@ == seq![n] + cur,
                    forall|b: int| 0 <= b < sel@.len() ==> (#[trigger] sel@[b]) < cand@.len(),
                    list@ == sel@.take(a as int).map_values(|p: usize| (seq![n] + cur)[p as int]),
                decreases sel@.len() - a,
            {
                list.push(cand[sel[a]]);
                assert(sel@.take(a + 1).map_values(|p: usize| (seq![n] + cur)[p as int])
                    =~= sel@.take(a as int).map_values(|p: usize| (seq![n] + cur)[p as int]).push((seq![n] + cur)[sel@[a as int] as int]));
                a = a + 1;
            }
            assert(sel@.take(sel@.len() as int) == sel@);
            proof {
                assert forall|b: int| 0 <= b < list@.len() implies (#[trigger] list@[b]) < lv.len() && lv[list@[b] as int] >= level by {
                    let p = sel@[b] as int;
                    if p > 0 {
                        assert((seq![n] + cur)[p] == cur[p - 1]);
                    }
                }
                assert(list@.len() <= mc);
                assert(back_linked(cur, list@, n, j, d, mc as int, dist)) by {
                    assert(ds@.len() == cur.len() + 1);
                }
            }
            self.set_links(j, level, list);
        }
    }

    /// The `k` nodes nearest to a query, nearer first, each with its
    /// distance: `qd(j)` ranks the distance from the query to node `j`.
    /// Descends greedily from the entry point to the ground level, then
    /// searches it with a beam of `max(ef_search, k)`; when the beam finds
    /// fewer than `k` nodes, every node is ranked instead. So there are
    /// `min(k, n)` results.
    pub fn search<G: Fn(usize) -> u32>(&self, qd: &G, k: usize) -> (r: Vec<(usize, u32)>)
        requires
            self.wf(),
            forall|j: usize| qd.requires((j,)),
        ensures
            r@.len() == if k < self.view_ids().len() { k as int } else { self.view_ids().len() as int },
            sorted_by_distance(r@),
            nodes_reach(r@, self.view_levels(), 0),
            forall|a: int| 0 <= a < r@.len() ==> qd.ensures(((#[trigger] r@[a]).0,), r@[a].1),
    {
        let n = self.levels.len();
        if k == 0 {
            return Vec::new();
        }
        let e = match self.entry_point {
            Some(e) => e,
            None => { return Vec::new(); },
        };
        let mut cur = e;
        let mut cur_d = qd(e);
        let mut l = self.max_level;
        while l > 0
            invariant
                self.inner_wf(),
                cur < self.levels@.len(),
                self.levels@[cur as int] >= l,
                forall|j: usize| qd.requires((j,)),
                qd.ensures((cur,), cur_d),
            decreases l,
        {
            let (c, d) = self.greedy(qd, cur, cur_d, l);
            cur = c;
            cur_d = d;
            l = l - 1;
        }
        let ef = if self.params.ef_search > k { self.params.ef_search } else { k };
        let found = self.beam(qd, cur, cur_d, ef, 0);
        let ghost lv = self.levels@;
        let ghost p = |x: (usize, u32)| qd.ensures((x.0,), x.1);
        let nearest = if found.len() >= k && k <= n {
            found
        } else {
            let mut every: Vec<(usize, u32)> = Vec::new();
            let mut j: usize = 0;
            while j < n
                invariant
                    j <= n,
                    n == lv.len(),
                    every@.len() == j,
                    forall|a: int| 0 <= a < j ==> (#[trigger] every@[a]).0 == a,
                    forall|a: int| 0 <= a < every@.len() ==> qd.ensures(((#[trigger] every@[a]).0,), every@[a].1),
                    forall|x: usize| qd.requires((x,)),
                decreases n - j,
            {
                let dj = qd(j);
                let ghost before = every@;
                every.push((j, dj));
                assert forall|a: int| 0 <= a < every@.len() implies qd.ensures(((#[trigger] every@[a]).0,), every@[a].1) by {
                    if a < before.len() {
                        assert(every@[a] == before[a]);
                    }
                }
                j = j + 1;
            }
            assert(nodes_reach(every@, lv, 0)) by {
                assert forall|a: int, b: int| 0 <= a < b < every@.len() implies (#[trigger] every@[a]).0 != (#[trigger] every@[b]).0 by {}
            }
            sort_by_distance(every, Ghost(lv), Ghost(0), Ghost(p))
        };
        let take = if k < nearest.len() { k } else { nearest.len() };
        let mut out: Vec<(usize, u32)> = Vec::new();
        let mut m: usize = 0;
        while m < take
            invariant
                take <= nearest@.len(),
                m <= take,
                out@ == nearest@.take(m as int),
            decreases take - m,
        {
            out.push(nearest[m]);
            assert(nearest@.take(m + 1) == nearest@.take(m as int).push(nearest@[m as int]));
            m = m + 1;
        }
        assert(sorted_by_distance(out@));
        assert forall|a: int, b: int| 0 <= a < b < out@.len() implies (#[trigger] out@[a]).0 != (#[trigger] out@[b]).0 by {
            assert(out@[a] == nearest@[a] && out@[b] == nearest@[b]);
        }
        assert forall|a: int| 0 <= a < out@.len() implies qd.ensures(((#[trigger] out@[a]).0,), out@[a].1) by {
            assert(out@[a] == nearest@[a]);
            assert(p(nearest@[a]));
        }
        out
    }

    /// Counts of the graph: nodes, top level, and per level the total and
    /// largest number of neighbour links.
    pub fn stats(&self) -> (r: HnswStats)
        requires
            self.wf(),
        ensures
            r.node_count == self.view_ids().len(),
            r.dimension == self.spec_dimension(),
            r.connections_per_level@.len() == r.max_level + 1,
            r.max_connections_per_level@.len() == r.max_level + 1,
    {
        let top = self.max_level;
        let mut total: Vec<usize> = Vec::new();
        let mut most: Vec<usize> = Vec::new();
        let mut l: usize = 0;
        while l <= top
            invariant
                top <= MAX_LEVEL,
                l <= top + 1,
                total@.len() == l,
                most@.len() == l,
            decreases top + 1 - l,
        {
            total.push(0);
            most.push(0);
            l = l + 1;
        }
        let mut i: usize = 0;
        while i < self.links.len()
            invariant
                self.inner_wf(),
                total@.len() == top + 1,
                most@.len() == top + 1,
                i <= self.links@.len(),
            decreases self.links@.len() - i,
        {
            let node = &self.links[i];
            let mut l: usize = 0;
            while l < node.connections.len() && l <= top
                invariant
                    total@.len() == top + 1,
                    most@.len() == top + 1,
                decreases node.connections@.len() - l,
            {
                let c = node.connections[l].len();
                total.set(l, total[l].saturating_add(c));
                if c > most[l] {
                    most.set(l, c);
                }
                l = l + 1;
            }
            i = i + 1;
        }
        let entry_point = match self.entry_point {
            Some(e) => Some(self.ids[e].clone()),
            None => None,
        };
        HnswStats {
            node_count: self.ids.len(),
            max_level: top,
            dimension: self.dimension,
            entry_point,
            connections_per_level: total,
            max_connections_per_level: most,
        }
    }

    /// Beam search on `level` from `entry`: keeps the `ef` nearest nodes
    /// met (at least one), visiting each node once, and stops when the
    /// nearest unexplored node is farther than the farthest kept one.
    /// Returned nearer first.
    fn beam<G: Fn(usize) -> u32>(&self, qd: &G, entry: usize, entry_d: u32, ef: usize, level: usize) -> (r: Vec<(usize, u32)>)
        requires
            self.inner_wf(),
            entry < self.levels@.len(),
            self.levels@[entry as int] >= level,
            forall|j: usize| qd.requires((j,)),
            qd.ensures((entry,), entry_d),
        ensures
            forall|a: int| 0 <= a < r@.len() ==> qd.ensures(((#[trigger] r@[a]).0,), r@[a].1)
                && (r@[a].0 == entry || self.linked_at(level as int, r@[a].0)),
            r@.len() >= 1,
            r@.len() <= if ef > 0 { ef as int } else { 1 },
            sorted_by_distance(r@),
            nodes_reach(r@, self.levels@, level as int),
    {
        let n = self.levels.len();
        let ghost lv = self.levels@;
        let mut visited: Vec<bool> = Vec::new();
        let mut i: usize = 0;
        while i < n
            invariant
                i <= n,
                visited@.len() == i,
                forall|k: int| 0 <= k < i ==> !(#[trigger] visited@[k]),
            decreases n - i,
        {
            visited.push(false);
            i = i + 1;
        }
        proof {
            lemma_count_set(visited@, entry as int, n as int);
            lemma_count_le(visited@, n as int);
        }
        visited.set(entry, true);
        let mut cands: Vec<(usize, u32)> = vec![(entry, entry_d)];
        let mut results: Vec<(usize, u32)> = vec![(entry, entry_d)];
        proof { lemma_count_le(visited@, n as int); }
        while cands.len() > 0
            invariant
                self.inner_wf(),
                n == self.levels@.len(),
                lv == self.levels@,
                visited@.len() == n,
                count_eligible(visited@, n as int) <= n,
                results@.len() >= 1,
                results@.len() <= if ef > 0 { ef as int } else { 1 },
                nodes_reach(results@, lv, level as int),
                forall|a: int| 0 <= a < cands@.len() ==> (#[trigger] cands@[a]).0 < n && lv[cands@[a].0 as int] >= level,
                forall|a: int| 0 <= a < results@.len() ==> visited@[(#[trigger] results@[a]).0 as int],
                forall|j: usize| qd.requires((j,)),
                forall|a: int| 0 <= a < results@.len() ==> qd.ensures(((#[trigger] results@[a]).0,), results@[a].1)
                    && (results@[a].0 == entry || self.linked_at(level as int, results@[a].0)),
            decreases (n - count_eligible(visited@, n as int)) + cands@.len(),
        {
            // the nearest unexplored node, the earliest among equals
            let mut ci: usize = 0;
            let mut k: usize = 1;
            while k < cands.len()
                invariant
                    0 <= ci < cands@.len(),
                    1 <= k <= cands@.len(),
                decreases cands@.len() - k,
            {
                if cands[k].1 < cands[ci].1 {
                    ci = k;
                }
                k = k + 1;
            }
            let (c, cd) = cands.remove(ci);
            let worst = farthest(&results);
            if cd > results[worst].1 {
                break;
            }
            let nb = &self.links[c].connections[level];
            let ghost measure0 = (n - count_eligible(visited@, n as int)) + cands@.len();
            let mut m: usize = 0;
            while m < nb.len()
                invariant
                    self.inner_wf(),
                    n == self.levels@.len(),
                    lv == self.levels@,
                    c < n,
                    lv[c as int] >= level,
                    *nb == self.links@[c as int].connections@[level as int],
                    m <= nb@.len(),
                    visited@.len() == n,
                    count_eligible(visited@, n as int) <= n,
                    results@.len() >= 1,
                    results@.len() <= if ef > 0 { ef as int } else { 1 },
                    nodes_reach(results@, lv, level as int),
                    forall|a: int| 0 <= a < cands@.len() ==> (#[trigger] cands@[a]).0 < n && lv[cands@[a].0 as int] >= level,
                    forall|a: int| 0 <= a < results@.len() ==> visited@[(#[trigger] results@[a]).0 as int],
                    forall|j: usize| qd.requires((j,)),
                    (n - count_eligible(visited@, n as int)) + cands@.len() <= measure0,
                    forall|a: int| 0 <= a < results@.len() ==> qd.ensures(((#[trigger] results@[a]).0,), results@[a].1)
                        && (results@[a].0 == entry || self.linked_at(level as int, results@[a].0)),
                decreases nb@.len() - m,
            {
                let j = nb[m];
                assert(j == self.links@[c as int].connections@[level as int]@[m as int]);
                assert(self.neighbors(c as int, level as int)[m as int] == j);
                assert(self.linked_at(level as int, j));
                if !visited[j] {
                    proof {
                        lemma_count_set(visited@, j as int, n as int);
                        lemma_count_le(visited@.update(j as int, true), n as int);
                    }
                    visited.set(j, true);
                    let d = qd(j);
                    let w = farthest(&results);
                    if results.len() < ef || d < results[w].1 {
                        cands.push((j, d));
                        let ghost before = results@;
                        results.push((j, d));
                        assert forall|a: int, b: int| 0 <= a < b < results@.len()
                            implies (#[trigger] results@[a]).0 != (#[trigger] results@[b]).0 by {
                            assert(results@[a] == before[a]);
                            if b < before.len() {
                                assert(results@[b] == before[b]);
                            } else {
                                assert(visited@[before[a].0 as int]);
                            }
                        }
                        if results.len() > ef {
                            let w2 = farthest(&results);
                            let ghost before2 = results@;
                            results.remove(w2);
                            assert forall|a: int, b: int| 0 <= a < b < results@.len()
                                implies (#[trigger] results@[a]).0 != (#[trigger] results@[b]).0 by {
                                let a0 = if a < w2 { a } else { a + 1 };
                                let b0 = if b < w2 { b } else { b + 1 };
                                assert(results@[a] == before2[a0] && results@[b] == before2[b0]);
                            }
                            assert forall|a: int| 0 <= a < results@.len() implies (#[trigger] results@[a]).0 < n
                                && lv[results@[a].0 as int] >= level && visited@[results@[a].0 as int]
                                && qd.ensures((results@[a].0,), results@[a].1)
                                && (results@[a].0 == entry || self.linked_at(level as int, results@[a].0)) by {
                                let a0 = if a < w2 { a } else { a + 1 };
                                assert(results@[a] == before2[a0]);
                            }
                        }
                    }
                }
                m = m + 1;
            }
        }
        let ghost p = |e: (usize, u32)| qd.ensures((e.0,), e.1) && (e.0 == entry || self.linked_at(level as int, e.0));
        sort_by_distance(results, Ghost(lv), Ghost(level as int), Ghost(p))
    }
}

/// Position of the farthest entry, the latest among equals.
fn farthest(v: &Vec<(usize, u32)>) -> (r: usize)
    requires
        v@.len() >= 1,
    ensures
        r < v@.len(),
        forall|a: int| 0 <= a < v@.len() ==> (#[trigger] v@[a]).1 <= v@[r as int].1,
{
    let mut w: usize = 0;
    let mut k: usize = 1;
    while k < v.len()
        invariant
            0 <= w < v@.len(),
            1 <= k <= v@.len(),
            forall|a: int| 0 <= a < k ==> (#[trigger] v@[a]).1 <= v@[w as int].1,
        decreases v@.len() - k,
    {
        if v[k].1 >= v[w].1 {
            w = k;
        }
        k = k + 1;
    }
    w
}

} // verus!
