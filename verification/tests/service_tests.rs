//! End-to-end analogues of the service flow: a test-side key/value map and a
//! test-side sign-random-projection capability drive the verified backfill,
//! index and query pipeline.

use std::collections::HashMap;

use lsh_service::errors::ApiError;
use lsh_service::fingerprint::fingerprint;
use lsh_service::index::LshIndex;
use lsh_service::ingest::{backfill_insert, shutdown_requested};
use lsh_service::pipeline::{
    collect_fingerprints, embedding_keys_for_query, payload_key, resolve_posts, reverse_key,
};

const L: usize = 8;

/// The test's hash capability: one sign-random-projection signature, reused
/// for every table. Bit `k` is set iff the dot product with projection `k`
/// is non-negative.
fn srp_sig(v: &[f32]) -> u64 {
    let projections: [[f32; 3]; 4] = [
        [1.0, 0.0, 0.0],
        [0.0, 1.0, 0.0],
        [1.0, 1.0, 0.0],
        [1.0, 0.0, 1.0],
    ];
    let mut sig = 0u64;
    for (k, p) in projections.iter().enumerate() {
        let dot: f32 = p.iter().zip(v.iter()).map(|(a, b)| a * b).sum();
        if dot >= 0.0 {
            sig |= 1 << k;
        }
    }
    sig
}

fn sig_row(v: &[f32]) -> Vec<u64> {
    vec![srp_sig(v); L]
}

fn bits(v: &[f32]) -> Vec<u32> {
    v.iter().map(|f| f.to_bits()).collect()
}

fn decode(text: &[u8]) -> Vec<f32> {
    String::from_utf8(text.to_vec())
        .unwrap()
        .split(',')
        .map(|s| s.trim().parse::<f32>().unwrap())
        .collect()
}

struct Store {
    kv: HashMap<Vec<u8>, Vec<u8>>,
}

impl Store {
    fn new() -> Store {
        Store { kv: HashMap::new() }
    }

    fn seed_embedding(&mut self, post_id: u32, v: &[f32]) {
        let text: Vec<String> = v.iter().map(|f| format!("{:?}", f)).collect();
        self.kv.insert(
            format!("embedding:post:{}", post_id).into_bytes(),
            text.join(",").into_bytes(),
        );
        let print = fingerprint(&bits(v));
        self.kv.insert(
            reverse_key(&print),
            format!("{}", post_id).into_bytes(),
        );
    }

    fn seed_embedding_without_reverse(&mut self, post_id: u32, v: &[f32]) {
        let text: Vec<String> = v.iter().map(|f| format!("{:?}", f)).collect();
        self.kv.insert(
            format!("embedding:post:{}", post_id).into_bytes(),
            text.join(",").into_bytes(),
        );
    }
}

/// The query handler's flow: fetch embeddings, query the index, collect
/// candidate fingerprints, reverse-look them up, resolve.
fn query_flow(
    index: &LshIndex,
    store: &Store,
    inputs: &Vec<u32>,
    n_results: usize,
) -> Result<Vec<u32>, ApiError> {
    let keys = embedding_keys_for_query(inputs)?;
    let mut prints: Vec<Vec<u8>> = Vec::new();
    for key in &keys {
        let raw = store
            .kv
            .get(key)
            .ok_or_else(|| ApiError::InternalServerError("embedding missing".to_string()))?;
        let v = decode(raw);
        let found = index.query_bucket_vectors(&bits(&v), &sig_row(&v), n_results)?;
        collect_fingerprints(&found, &mut prints);
    }
    let raw_ids: Vec<Option<Vec<u8>>> = prints
        .iter()
        .map(|p| store.kv.get(&reverse_key(p)).cloned())
        .collect();
    resolve_posts(&raw_ids, inputs)
}

/// The backfill's flow: scan embedding keys, decode, insert everything.
fn backfill_flow(index: &mut LshIndex, store: &Store) -> Result<usize, ApiError> {
    let mut vectors: Vec<Vec<u32>> = Vec::new();
    let mut rows: Vec<Vec<u64>> = Vec::new();
    let mut keys: Vec<&Vec<u8>> = store
        .kv
        .keys()
        .filter(|k| k.starts_with(b"embedding:post:"))
        .collect();
    keys.sort();
    for key in keys {
        let v = decode(&store.kv[key]);
        vectors.push(bits(&v));
        rows.push(sig_row(&v));
    }
    backfill_insert(index, &vectors, &rows)
}

#[test]
fn backfill_warm_up_finds_the_neighbour() {
    let mut store = Store::new();
    store.seed_embedding(1, &[1.0, 0.0, 0.0]);
    store.seed_embedding(2, &[0.9, 0.1, 0.0]);
    let mut index = LshIndex::new(4, L, 3);
    assert_eq!(backfill_flow(&mut index, &store).unwrap(), 2);
    let out = query_flow(&index, &store, &vec![1u32], 10).unwrap();
    assert_eq!(out, vec![2u32]);
}

#[test]
fn query_of_both_posts_excludes_both() {
    let mut store = Store::new();
    store.seed_embedding(1, &[1.0, 0.0, 0.0]);
    store.seed_embedding(2, &[0.9, 0.1, 0.0]);
    let mut index = LshIndex::new(4, L, 3);
    backfill_flow(&mut index, &store).unwrap();
    let out = query_flow(&index, &store, &vec![1u32, 2u32], 10).unwrap();
    assert!(out.is_empty());
}

#[test]
fn missing_reverse_index_is_a_500() {
    let mut store = Store::new();
    store.seed_embedding_without_reverse(1, &[1.0, 0.0, 0.0]);
    let mut index = LshIndex::new(4, L, 3);
    backfill_flow(&mut index, &store).unwrap();
    let err = query_flow(&index, &store, &vec![1u32], 10).unwrap_err();
    assert_eq!(err.status_code(), 500);
}

#[test]
fn live_ingestion_reaches_queries() {
    let mut store = Store::new();
    store.seed_embedding(1, &[1.0, 0.0, 0.0]);
    store.seed_embedding(2, &[0.9, 0.1, 0.0]);
    let mut index = LshIndex::new(4, L, 3);
    backfill_flow(&mut index, &store).unwrap();

    // A message on the embedding channel carries the decimal post-id; the
    // worker builds the key from the payload, fetches and inserts.
    store.seed_embedding(3, &[0.95, 0.05, 0.0]);
    let key = payload_key(&b"3".to_vec());
    let v = decode(&store.kv[&key]);
    index
        .store_vecs(&vec![bits(&v)], &vec![sig_row(&v)])
        .unwrap();

    let out = query_flow(&index, &store, &vec![1u32], 10).unwrap();
    assert!(out.contains(&3u32));
    assert!(out.contains(&2u32));
}

#[test]
fn distant_vector_stays_out_of_the_bucket() {
    let mut store = Store::new();
    store.seed_embedding(1, &[1.0, 0.0, 0.0]);
    store.seed_embedding(2, &[-1.0, 0.0, 0.0]);
    let mut index = LshIndex::new(4, L, 3);
    backfill_flow(&mut index, &store).unwrap();
    let out = query_flow(&index, &store, &vec![1u32], 10).unwrap();
    assert!(out.is_empty());
}

#[test]
fn two_processes_build_identical_buckets() {
    let mut store = Store::new();
    store.seed_embedding(1, &[1.0, 0.0, 0.0]);
    store.seed_embedding(2, &[0.9, 0.1, 0.0]);
    store.seed_embedding(3, &[-1.0, 0.0, 0.0]);
    let mut a = LshIndex::new(4, L, 3);
    let mut b = LshIndex::new(4, L, 3);
    backfill_flow(&mut a, &store).unwrap();
    backfill_flow(&mut b, &store).unwrap();
    for probe in [[1.0f32, 0.0, 0.0], [-1.0, 0.0, 0.0], [0.0, 1.0, 0.0]] {
        assert_eq!(
            a.query_bucket_ids(&sig_row(&probe), 10),
            b.query_bucket_ids(&sig_row(&probe), 10)
        );
    }
}

#[test]
fn backfill_stops_at_first_bad_vector() {
    let mut index = LshIndex::new(4, L, 3);
    let vectors = vec![
        bits(&[1.0, 0.0, 0.0]),
        vec![0x3f800000u32, 0],  // wrong dimension
        bits(&[0.0, 1.0, 0.0]),
    ];
    let rows = vec![
        sig_row(&[1.0, 0.0, 0.0]),
        vec![0u64; L],
        sig_row(&[0.0, 1.0, 0.0]),
    ];
    let err = backfill_insert(&mut index, &vectors, &rows).unwrap_err();
    assert!(matches!(err, ApiError::DimMismatch(_)));
    // The vector before the offending one stays inserted.
    assert_eq!(index.len(), 1);
}

#[test]
fn shutdown_channel_is_recognised() {
    assert!(shutdown_requested("shutdown"));
    assert!(!shutdown_requested("new_embedding"));
    assert!(!shutdown_requested(""));
}
