use lsh_service::errors::ApiError;
use lsh_service::index::LshIndex;

fn row(sigs: &[u64]) -> Vec<u64> {
    sigs.to_vec()
}

#[test]
fn new_index_is_empty() {
    let index = LshIndex::new(4, 8, 3);
    assert_eq!(index.len(), 0);
    assert_eq!(index.table_count_exec(), 8);
    assert_eq!(index.dimension_exec(), 3);
    assert_eq!(index.projection_count_exec(), 4);
}

#[test]
fn store_and_query_finds_vector() {
    let mut index = LshIndex::new(4, 2, 3);
    let v = vec![0x3f800000u32, 0, 0];
    let r = row(&[5, 9]);
    index
        .store_vecs(&vec![v.clone()], &vec![r.clone()])
        .unwrap();
    assert_eq!(index.len(), 1);
    let ids = index.query_bucket_ids(&r, 10);
    assert_eq!(ids, vec![0usize]);
    let found = index.query_bucket_vectors(&v, &r, 10).unwrap();
    assert_eq!(found, vec![v]);
}

#[test]
fn query_misses_other_bucket() {
    let mut index = LshIndex::new(4, 2, 3);
    let v = vec![1u32, 2, 3];
    index.store_vecs(&vec![v], &vec![row(&[5, 9])]).unwrap();
    let ids = index.query_bucket_ids(&row(&[6, 10]), 10);
    assert!(ids.is_empty());
}

#[test]
fn first_seen_order_across_tables() {
    let mut index = LshIndex::new(4, 2, 3);
    let v0 = vec![1u32, 0, 0];
    let v1 = vec![2u32, 0, 0];
    index
        .store_vecs(
            &vec![v0, v1],
            &vec![row(&[1, 5]), row(&[2, 5])],
        )
        .unwrap();
    // Table 0 selects only the second vector; table 1 selects both in
    // insertion order. First-seen order across tables is [1, 0].
    let ids = index.query_bucket_ids(&row(&[2, 5]), 10);
    assert_eq!(ids, vec![1usize, 0usize]);
}

#[test]
fn truncation_caps_results() {
    let mut index = LshIndex::new(4, 1, 1);
    let vs: Vec<Vec<u32>> = (0..5u32).map(|i| vec![i]).collect();
    let rows: Vec<Vec<u64>> = (0..5).map(|_| row(&[7])).collect();
    index.store_vecs(&vs, &rows).unwrap();
    let ids = index.query_bucket_ids(&row(&[7]), 2);
    assert_eq!(ids, vec![0usize, 1usize]);
}

#[test]
fn zero_cap_returns_nothing() {
    let mut index = LshIndex::new(4, 1, 1);
    index.store_vecs(&vec![vec![1u32]], &vec![row(&[7])]).unwrap();
    let ids = index.query_bucket_ids(&row(&[7]), 0);
    assert!(ids.is_empty());
    let found = index
        .query_bucket_vectors(&vec![1u32], &row(&[7]), 0)
        .unwrap();
    assert!(found.is_empty());
}

#[test]
fn dim_mismatch_rejects_whole_batch() {
    let mut index = LshIndex::new(4, 2, 3);
    let good = vec![1u32, 2, 3];
    let bad = vec![1u32, 2];
    let result = index.store_vecs(
        &vec![good, bad],
        &vec![row(&[1, 1]), row(&[2, 2])],
    );
    assert!(matches!(result, Err(ApiError::DimMismatch(_))));
    assert_eq!(result.unwrap_err().status_code(), 500);
    // Nothing of the batch was inserted.
    assert_eq!(index.len(), 0);
    assert!(index.query_bucket_ids(&row(&[1, 1]), 10).is_empty());
}

#[test]
fn query_vector_of_wrong_dimension_is_rejected() {
    let mut index = LshIndex::new(4, 2, 3);
    index
        .store_vecs(&vec![vec![1u32, 2, 3]], &vec![row(&[1, 1])])
        .unwrap();
    let result = index.query_bucket_vectors(&vec![1u32], &row(&[1, 1]), 10);
    assert!(matches!(result, Err(ApiError::DimMismatch(_))));
}

#[test]
fn duplicate_insert_gets_two_indices_in_one_bucket() {
    let mut index = LshIndex::new(4, 3, 2);
    let v = vec![7u32, 8];
    let r = row(&[1, 2, 3]);
    index
        .store_vecs(&vec![v.clone()], &vec![r.clone()])
        .unwrap();
    index
        .store_vecs(&vec![v.clone()], &vec![r.clone()])
        .unwrap();
    assert_eq!(index.len(), 2);
    let ids = index.query_bucket_ids(&r, 10);
    assert_eq!(ids, vec![0usize, 1usize]);
    let found = index.query_bucket_vectors(&v, &r, 10).unwrap();
    assert_eq!(found, vec![v.clone(), v]);
}

#[test]
fn same_insertions_give_same_buckets() {
    let vs = vec![vec![1u32, 2], vec![3u32, 4], vec![5u32, 6]];
    let rows = vec![row(&[1, 9]), row(&[2, 9]), row(&[1, 8])];
    let mut a = LshIndex::new(4, 2, 2);
    let mut b = LshIndex::new(4, 2, 2);
    a.store_vecs(&vs, &rows).unwrap();
    b.store_vecs(&vs, &rows).unwrap();
    for probe in [row(&[1, 9]), row(&[2, 8]), row(&[1, 8]), row(&[7, 7])] {
        assert_eq!(
            a.query_bucket_ids(&probe, 10),
            b.query_bucket_ids(&probe, 10)
        );
    }
}
