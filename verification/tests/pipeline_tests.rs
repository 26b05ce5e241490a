use lsh_service::errors::ApiError;
use lsh_service::models::KeyValue;
use lsh_service::pipeline::{
    collect_fingerprints, embedding_key, embedding_keys_for_query, payload_key, resolve_posts,
    reverse_key, validate_kv_set,
};

#[test]
fn builds_embedding_key() {
    assert_eq!(embedding_key(42), b"embedding:post:42".to_vec());
    assert_eq!(embedding_key(0), b"embedding:post:0".to_vec());
}

#[test]
fn builds_payload_key() {
    assert_eq!(payload_key(&b"3".to_vec()), b"embedding:post:3".to_vec());
}

#[test]
fn builds_reverse_key() {
    assert_eq!(
        reverse_key(&b"ab12".to_vec()),
        b"post_from_embedding:ab12".to_vec()
    );
}

#[test]
fn empty_batch_is_a_bad_request() {
    let result = embedding_keys_for_query(&Vec::new());
    let err = result.unwrap_err();
    assert!(matches!(err, ApiError::BadRequest(_)));
    assert_eq!(err.status_code(), 400);
}

#[test]
fn batch_keys_come_in_order() {
    let keys = embedding_keys_for_query(&vec![1u32, 2]).unwrap();
    assert_eq!(
        keys,
        vec![
            b"embedding:post:1".to_vec(),
            b"embedding:post:2".to_vec()
        ]
    );
}

#[test]
fn collects_fingerprints_without_duplicates() {
    let mut acc: Vec<Vec<u8>> = Vec::new();
    collect_fingerprints(&vec![vec![1u32, 2], vec![3u32, 4]], &mut acc);
    assert_eq!(acc.len(), 2);
    // A second query returning an already-seen vector adds nothing.
    collect_fingerprints(&vec![vec![1u32, 2]], &mut acc);
    assert_eq!(acc.len(), 2);
    collect_fingerprints(&vec![vec![5u32, 6]], &mut acc);
    assert_eq!(acc.len(), 3);
}

#[test]
fn resolves_and_excludes_inputs() {
    let raw = vec![Some(b"2".to_vec()), Some(b"1".to_vec())];
    let out = resolve_posts(&raw, &vec![1u32]).unwrap();
    assert_eq!(out, vec![2u32]);
}

#[test]
fn sole_self_match_resolves_empty() {
    let raw = vec![Some(b"1".to_vec())];
    let out = resolve_posts(&raw, &vec![1u32]).unwrap();
    assert!(out.is_empty());
}

#[test]
fn resolution_drops_duplicates_keeps_order() {
    let raw = vec![
        Some(b"5".to_vec()),
        Some(b"3".to_vec()),
        Some(b"5".to_vec()),
        Some(b"4".to_vec()),
    ];
    let out = resolve_posts(&raw, &Vec::new()).unwrap();
    assert_eq!(out, vec![5u32, 3, 4]);
}

#[test]
fn missing_reverse_entry_is_internal_error() {
    let raw = vec![Some(b"2".to_vec()), None];
    let err = resolve_posts(&raw, &vec![1u32]).unwrap_err();
    assert!(matches!(err, ApiError::InternalServerError(_)));
    assert_eq!(err.status_code(), 500);
}

#[test]
fn unparsable_reverse_entry_is_parse_error() {
    let raw = vec![Some(b"not-a-number".to_vec())];
    let err = resolve_posts(&raw, &vec![1u32]).unwrap_err();
    assert!(matches!(err, ApiError::Parse(_)));
    assert_eq!(err.status_code(), 500);
}

#[test]
fn kv_write_rejects_empty_key() {
    let err = validate_kv_set(&KeyValue {
        key: String::new(),
        value: "v".to_string(),
    })
    .unwrap_err();
    assert!(matches!(err, ApiError::BadRequest(_)));
    assert_eq!(err.status_code(), 400);
    assert!(validate_kv_set(&KeyValue {
        key: "k".to_string(),
        value: String::new(),
    })
    .is_ok());
}

#[test]
fn error_statuses_map_to_http() {
    assert_eq!(ApiError::RedisError("m".to_string()).status_code(), 500);
    assert_eq!(ApiError::NotFound("m".to_string()).status_code(), 404);
    assert_eq!(ApiError::BadRequest("m".to_string()).status_code(), 400);
    assert_eq!(ApiError::DimMismatch("m".to_string()).status_code(), 500);
    assert_eq!(ApiError::Parse("m".to_string()).status_code(), 500);
    assert_eq!(
        ApiError::InternalServerError("m".to_string()).status_code(),
        500
    );
    assert_eq!(ApiError::NotFound("gone".to_string()).message(), "gone");
}
