use coderag::{score_rank, HnswConnections, HnswIndex, HnswParams, IndexError};

fn cosine(a: &[f32], b: &[f32]) -> f32 {
    let dot: f32 = a.iter().zip(b).map(|(x, y)| x * y).sum();
    let na: f32 = a.iter().map(|x| x * x).sum::<f32>().sqrt();
    let nb: f32 = b.iter().map(|x| x * x).sum::<f32>().sqrt();
    if na == 0.0 || nb == 0.0 { 0.0 } else { dot / (na * nb) }
}

fn rank(d: f32) -> u32 {
    score_rank(d.to_bits())
}

/// A small deterministic generator for levels and test data.
struct Lcg(u64);

impl Lcg {
    fn next(&mut self) -> f32 {
        self.0 = self.0.wrapping_mul(6364136223846793005).wrapping_add(1442695040888963407);
        ((self.0 >> 40) as f32 + 0.5) / (1u64 << 24) as f32
    }

    fn level(&mut self) -> usize {
        let u = self.next();
        ((-u.ln() * 2.0).floor() as usize).min(10)
    }
}

fn insert(index: &mut HnswIndex, vectors: &mut Vec<Vec<f32>>, id: &str, v: Vec<f32>, level: usize) -> Result<(), IndexError> {
    vectors.push(v);
    let vs = vectors.clone();
    let r = index.add(id.to_string(), level, &|a: usize, b: usize| rank(1.0 - cosine(&vs[a], &vs[b])));
    if r.is_err() {
        vectors.pop();
    }
    r
}

fn query(index: &HnswIndex, vectors: &[Vec<f32>], q: &[f32], k: usize) -> Vec<(String, f32)> {
    index
        .search(&|j: usize| rank(1.0 - cosine(q, &vectors[j])), k)
        .into_iter()
        .map(|(j, _)| (index.node_id(j).clone(), cosine(q, &vectors[j])))
        .collect()
}

#[test]
fn test_hnsw_basic() {
    let mut index = HnswIndex::new(3, HnswParams::default());
    let mut vectors = Vec::new();
    let mut rng = Lcg(7);

    insert(&mut index, &mut vectors, "1", vec![1.0, 0.0, 0.0], rng.level()).unwrap();
    insert(&mut index, &mut vectors, "2", vec![0.0, 1.0, 0.0], rng.level()).unwrap();
    insert(&mut index, &mut vectors, "3", vec![0.0, 0.0, 1.0], rng.level()).unwrap();

    let results = query(&index, &vectors, &[1.0, 0.1, 0.1], 2);

    assert_eq!(results.len(), 2);
    assert_eq!(results[0].0, "1");
}

#[test]
fn test_hnsw_large() {
    let mut index = HnswIndex::new(3, HnswParams::default());
    let mut vectors = Vec::new();
    let mut rng = Lcg(11);

    for i in 0..100 {
        let x = (i % 10) as f32 / 10.0;
        let y = (i / 10) as f32 / 10.0;
        let z = 0.0;
        insert(&mut index, &mut vectors, &i.to_string(), vec![x, y, z], rng.level()).unwrap();
    }

    let results = query(&index, &vectors, &[0.25, 0.25, 0.0], 5);
    assert_eq!(results.len(), 5);

    let stats = index.stats();
    assert_eq!(stats.node_count, 100);
}

#[test]
fn duplicate_node_is_refused() {
    let mut index = HnswIndex::new(2, HnswParams::default());
    let mut vectors = Vec::new();
    insert(&mut index, &mut vectors, "a", vec![1.0, 0.0], 0).unwrap();
    assert_eq!(insert(&mut index, &mut vectors, "a", vec![0.0, 1.0], 0), Err(IndexError::DuplicateId));
    assert_eq!(index.len(), 1);
    assert_eq!(index.node_ids(), vec!["a".to_string()]);
}

#[test]
fn empty_index_and_zero_k_give_nothing() {
    let index = HnswIndex::new(2, HnswParams::default());
    assert!(index.is_empty());
    assert!(index.search(&|_j: usize| 0u32, 3).is_empty());
    let mut index = HnswIndex::new(2, HnswParams::default());
    let mut vectors = Vec::new();
    insert(&mut index, &mut vectors, "a", vec![1.0, 0.0], 3).unwrap();
    assert!(index.search(&|_j: usize| 0u32, 0).is_empty());
    assert_eq!(index.search(&|_j: usize| 0u32, 4).len(), 1);
    assert_eq!(index.stats().max_level, 3);
    assert_eq!(index.stats().entry_point, Some("a".to_string()));
}

#[test]
fn neighbour_lists_respect_the_caps() {
    let params = HnswParams { max_connections: 2, max_connections_level0: 3, ef_construction: 8, ef_search: 8, use_cosine: true };
    let mut index = HnswIndex::new(2, params);
    let mut vectors = Vec::new();
    let mut rng = Lcg(3);
    for i in 0..40 {
        let a = i as f32 * 0.3;
        insert(&mut index, &mut vectors, &i.to_string(), vec![a.cos(), a.sin()], rng.level()).unwrap();
    }
    let stats = index.stats();
    assert!(stats.max_connections_per_level[0] <= 3);
    for l in 1..stats.max_connections_per_level.len() {
        assert!(stats.max_connections_per_level[l] <= 2);
    }
    let results = query(&index, &vectors, &[1.0, 0.0], 5);
    assert_eq!(results.len(), 5);
    for w in results.windows(2) {
        assert!(w[0].1 >= w[1].1);
    }
}

#[test]
fn ann_recall_on_random_unit_vectors() {
    let dim = 64;
    let mut rng = Lcg(42);
    let mut unit = |rng: &mut Lcg| {
        let v: Vec<f32> = (0..dim).map(|_| rng.next() * 2.0 - 1.0).collect();
        let n = v.iter().map(|x| x * x).sum::<f32>().sqrt();
        v.into_iter().map(|x| x / n).collect::<Vec<f32>>()
    };
    let mut index = HnswIndex::new(dim, HnswParams::default());
    let mut vectors: Vec<Vec<f32>> = Vec::new();
    for i in 0..1000 {
        let v = unit(&mut rng);
        vectors.push(v);
        let level = rng.level();
        let vs = &vectors;
        index.add(i.to_string(), level, &|a: usize, b: usize| rank(1.0 - cosine(&vs[a], &vs[b]))).unwrap();
    }
    let mut found = 0usize;
    for _ in 0..100 {
        let q = unit(&mut rng);
        let mut exact: Vec<(usize, f32)> = (0..vectors.len()).map(|j| (j, cosine(&q, &vectors[j]))).collect();
        exact.sort_by(|a, b| b.1.partial_cmp(&a.1).unwrap());
        let truth: Vec<usize> = exact.iter().take(10).map(|p| p.0).collect();
        let got: Vec<usize> = index.search(&|j: usize| rank(1.0 - cosine(&q, &vectors[j])), 10).into_iter().map(|p| p.0).collect();
        found += got.iter().filter(|j| truth.contains(j)).count();
    }
    let recall = found as f32 / 1000.0;
    assert!(recall >= 0.9, "recall {}", recall);
}

#[test]
fn connections_per_level() {
    let mut c = HnswConnections::new(2);
    assert_eq!(c.connections.len(), 3);
    assert_eq!(c.add_connection(1, 7), Ok(()));
    assert_eq!(c.add_connection(1, 7), Ok(()));
    assert_eq!(c.get_layer_connections(1), Some(&vec![7]));
    assert_eq!(c.add_connection(3, 7), Err(()));
    assert!(c.get_layer_connections(3).is_none());
}

#[test]
fn index_search_returns_min_k_n_nearest_first() {
    let mut index = HnswIndex::new(3, HnswParams::default());
    let mut vectors = Vec::new();
    insert(&mut index, &mut vectors, "a", vec![1.0, 0.0, 0.0], 1).unwrap();
    insert(&mut index, &mut vectors, "b", vec![0.0, 1.0, 0.0], 0).unwrap();
    insert(&mut index, &mut vectors, "c", vec![0.0, 0.0, 1.0], 2).unwrap();
    let q = [0.9f32, 0.1, 0.0];
    let results = query(&index, &vectors, &q, 2);
    let ids: Vec<&str> = results.iter().map(|r| r.0.as_str()).collect();
    assert_eq!(ids, vec!["a", "b"]);
    assert!(results[0].1 > 0.99);
    assert!(results[1].1 > 0.0);
    assert_eq!(query(&index, &vectors, &q, 5).len(), 3);
    // each returned distance is the one asked of the caller
    let hits = index.search(&|j: usize| rank(1.0 - cosine(&q, &vectors[j])), 3);
    for (j, d) in hits {
        assert_eq!(d, rank(1.0 - cosine(&q, &vectors[j])));
    }
}

#[test]
fn every_new_node_gets_neighbours_and_back_links() {
    let params = HnswParams { max_connections: 2, max_connections_level0: 2, ef_construction: 4, ef_search: 4, use_cosine: true };
    let mut index = HnswIndex::new(2, params);
    let mut vectors = Vec::new();
    for i in 0..12 {
        let a = i as f32 * 0.5;
        insert(&mut index, &mut vectors, &i.to_string(), vec![a.cos(), a.sin()], 0).unwrap();
    }
    let stats = index.stats();
    // twelve nodes, each with one or two ground-level neighbours
    assert!(stats.connections_per_level[0] >= 11);
    assert!(stats.max_connections_per_level[0] <= 2);
}
