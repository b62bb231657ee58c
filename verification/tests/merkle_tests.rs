use sha2::Digest as Sha2Digest;
use sha2::Sha256;
use zkdb::database::{Database, DatabaseType, LocalExecutor};
use zkdb::digest::Digest;
use zkdb::engine::{Command, TransitionOutcome};
use zkdb::store::MemStore;
use zkdb::tree::compute_root_from_proof;

fn setup_database() -> Database<MemStore, LocalExecutor> {
    Database::new(DatabaseType::Merkle, MemStore::new(), LocalExecutor, None)
}

fn hash_of(bytes: &[u8]) -> Digest {
    let h = Sha256::digest(bytes);
    Digest::from_bytes(h.to_vec()).expect("a SHA-256 digest has digest length")
}

#[test]
fn test_insert_and_get() {
    let mut db = setup_database();

    let key = "test_key";
    let value = b"test_value";
    let value_hash = hash_of(value);
    let expected_hex = value_hash.to_hex();

    let insert_command = Command::Insert {
        key: key.to_string(),
        value_hash,
    };
    let insert_result = db.execute_query(insert_command, false).unwrap();
    assert!(matches!(insert_result.data, TransitionOutcome::Inserted { .. }));

    let get_command = Command::Query {
        key: key.to_string(),
    };
    let get_result = db.execute_query(get_command, false).unwrap();
    match get_result.data {
        TransitionOutcome::Found { value_hash: found } => {
            assert_eq!(found.to_hex(), expected_hex);
        }
        other => panic!("expected the key to be found, got {:?}", outcome_name(&other)),
    }
}

#[test]
fn test_proof_generation_and_verification() {
    let mut db = setup_database();

    let key = "proof_key";
    let value = b"proof_value";
    let value_hash = hash_of(value);

    let insert_command = Command::Insert {
        key: key.to_string(),
        value_hash,
    };
    let insert_result = db.execute_query(insert_command, true).unwrap();
    assert!(insert_result.sp1_proof.is_some());

    let prove_command = Command::Prove {
        key: key.to_string(),
    };
    let prove_result = db.execute_query(prove_command, true).unwrap();
    match prove_result.data {
        TransitionOutcome::Proved { proof } => {
            assert_eq!(proof.root.as_slice().len(), 32);
            // a single-leaf tree proves with an empty sibling path and
            // the leaf itself as the root
            assert!(proof.siblings.is_empty());
            assert!(proof.root.same_as(&proof.leaf_hash));
            let encoded = zkdb::wire::proof_path_base64(&proof);
            assert_eq!(encoded, "");
        }
        other => panic!("expected a proof, got {:?}", outcome_name(&other)),
    }
}

#[test]
fn test_multiple_operations() {
    let mut db = setup_database();

    for i in 0..5 {
        let key = format!("key_{}", i);
        let value = format!("value_{}", i);
        let insert_command = Command::Insert {
            key: key.clone(),
            value_hash: hash_of(value.as_bytes()),
        };
        let result = db.execute_query(insert_command, false).unwrap();
        assert!(matches!(result.data, TransitionOutcome::Inserted { .. }));
    }

    for i in 0..5 {
        let key = format!("key_{}", i);
        let get_command = Command::Query { key: key.clone() };
        let result = db.execute_query(get_command, false).unwrap();
        assert!(matches!(result.data, TransitionOutcome::Found { .. }));
    }
}

#[test]
fn test_merkle_tree_properties() {
    let mut db = setup_database();

    let mut value_hashes = Vec::new();
    for i in 0..4 {
        let key = format!("key_{}", i);
        let value = format!("value_{}", i);
        let value_hash = hash_of(value.as_bytes());
        let insert_command = Command::Insert {
            key: key.clone(),
            value_hash,
        };
        let result = db.execute_query(insert_command, false).unwrap();
        match result.data {
            TransitionOutcome::Inserted { value_hash, .. } => {
                value_hashes.push(value_hash.to_hex());
            }
            other => panic!("expected an insert, got {:?}", outcome_name(&other)),
        }
    }

    for (i, hash_hex) in value_hashes.iter().enumerate() {
        let key = format!("key_{}", i);
        let prove_command = Command::Prove { key: key.clone() };
        let result = db.execute_query(prove_command, false).unwrap();
        match result.data {
            TransitionOutcome::Proved { proof } => {
                assert_eq!(proof.leaf_hash.to_hex(), *hash_hex);
                let recomputed =
                    compute_root_from_proof(&proof.leaf_hash, proof.leaf_index, &proof.siblings, 4)
                        .expect("the sibling count fits the tree");
                assert!(recomputed.same_as(&proof.root));
            }
            other => panic!("expected a proof, got {:?}", outcome_name(&other)),
        }
    }
}

#[test]
fn test_state_consistency() {
    let mut db = setup_database();

    let key = "state_test_key";
    let value = b"state_test_value";
    let insert_command = Command::Insert {
        key: key.to_string(),
        value_hash: hash_of(value),
    };
    db.execute_query(insert_command, false).unwrap();

    let state = db.get_state().to_vec();

    let mut new_db = setup_database();
    new_db.set_state(state);

    let get_command = Command::Query {
        key: key.to_string(),
    };
    let result = new_db.execute_query(get_command, false).unwrap();
    assert!(matches!(result.data, TransitionOutcome::Found { .. }));
}

fn outcome_name(outcome: &TransitionOutcome) -> &'static str {
    match outcome {
        TransitionOutcome::Inserted { .. } => "inserted",
        TransitionOutcome::Found { .. } => "found",
        TransitionOutcome::NotFound => "not found",
        TransitionOutcome::Proved { .. } => "proved",
    }
}
