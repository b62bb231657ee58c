use sha2::Digest as Sha2Digest;
use sha2::Sha256;
use zkdb::codec::{decode_state, encode_state};
use zkdb::database::{
    check_blob, Database, DatabaseError, DatabaseType, LocalExecutor, ProvenOutput, ProvingEngine,
};
use zkdb::digest::{hash_bytes, Digest};
use zkdb::engine::{
    main_internal, Command, DatabaseEngine, DatabaseError as EngineError, MerkleEngine,
    TransitionOutcome,
};
use zkdb::index::MerkleState;
use zkdb::store::{MemStore, Store, StoreError};
use zkdb::tree::{compute_root, compute_root_from_proof};
use zkdb::wire::{create_command, proof_path_base64, usize_to_string};

fn hash_of(bytes: &[u8]) -> Digest {
    Digest::from_bytes(Sha256::digest(bytes).to_vec()).unwrap()
}

fn fresh_db() -> Database<MemStore, LocalExecutor> {
    Database::new(DatabaseType::Merkle, MemStore::new(), LocalExecutor, None)
}

// The example scenario: two inserts, their leaf positions, and a one-
// sibling proof whose recomputed root matches the root the other key's
// proof reports.
#[test]
fn scenario_two_keys_one_sibling() {
    let mut db = fresh_db();
    db.put("alice", b"100", false).unwrap();
    db.put("bob", b"200", false).unwrap();

    let alice_proof = db.prove("alice").unwrap();
    assert_eq!(alice_proof.leaf_index, 0);
    assert_eq!(alice_proof.siblings.len(), 1);

    let bob_proof = db.prove("bob").unwrap();
    assert_eq!(bob_proof.leaf_index, 1);

    let recomputed =
        compute_root_from_proof(&alice_proof.leaf_hash, 0, &alice_proof.siblings, 2).unwrap();
    assert!(recomputed.same_as(&bob_proof.root));
    assert!(recomputed.same_as(&alice_proof.root));
}

#[test]
fn scenario_leaf_indices_in_insert_outcomes() {
    let mut db = fresh_db();
    let first = db
        .execute_query(
            Command::Insert {
                key: "alice".to_string(),
                value_hash: hash_of(b"100"),
            },
            false,
        )
        .unwrap();
    match first.data {
        TransitionOutcome::Inserted { leaf_index, .. } => assert_eq!(leaf_index, 0),
        _ => panic!("expected an insert outcome"),
    }
    let second = db
        .execute_query(
            Command::Insert {
                key: "bob".to_string(),
                value_hash: hash_of(b"200"),
            },
            false,
        )
        .unwrap();
    match second.data {
        TransitionOutcome::Inserted { leaf_index, .. } => assert_eq!(leaf_index, 1),
        _ => panic!("expected an insert outcome"),
    }
}

// Corruption detection: a blob mutated behind the index's back must fail
// the read with the data-integrity error, not come back as data.
#[test]
fn corrupted_blob_is_rejected() {
    let mut db = fresh_db();
    db.put("k", b"honest value", false).unwrap();

    db.store_mut().put("k", b"tampered value").unwrap();

    match db.get("k", false) {
        Err(DatabaseError::Corrupted) => {}
        other => panic!("expected the corruption error, got {:?}", other.is_ok()),
    }
}

// The read-side integrity gate: bytes that hash to the committed leaf
// pass through unchanged, anything else is corrupted.
#[test]
fn blob_gate_accepts_exactly_matching_hashes() {
    let committed = hash_of(b"payload");
    let passed = check_blob(b"payload".to_vec(), &committed).unwrap();
    assert_eq!(&passed, b"payload");
    assert!(matches!(
        check_blob(b"tampered".to_vec(), &committed),
        Err(DatabaseError::Corrupted)
    ));
}

// Not-found is not an error at the engine level...
#[test]
fn query_miss_is_a_result_not_an_error() {
    let outcome = main_internal(
        &[],
        &Command::Query {
            key: "absent".to_string(),
        },
    )
    .unwrap();
    assert!(matches!(outcome.data, TransitionOutcome::NotFound));
}

// ... while the façade's read of an absent key reports NotFound,
// distinct from Corrupted.
#[test]
fn get_absent_key_is_not_found() {
    let db = fresh_db();
    assert!(matches!(db.get("absent", false), Err(DatabaseError::NotFound)));
}

// State determinism: the same (state, command) pair twice gives
// byte-identical new state and the same outcome.
#[test]
fn same_transition_twice_is_bit_identical() {
    let mut db = fresh_db();
    db.put("seed", b"value", false).unwrap();
    let state = db.get_state().to_vec();

    let command = Command::Insert {
        key: "k".to_string(),
        value_hash: hash_of(b"v"),
    };
    let first = main_internal(&state, &command).unwrap();
    let second = main_internal(&state, &command).unwrap();
    assert_eq!(first.new_state, second.new_state);
    match (first.data, second.data) {
        (
            TransitionOutcome::Inserted {
                leaf_index: a,
                value_hash: ha,
                ..
            },
            TransitionOutcome::Inserted {
                leaf_index: b,
                value_hash: hb,
                ..
            },
        ) => {
            assert_eq!(a, b);
            assert!(ha.same_as(&hb));
        }
        _ => panic!("expected two insert outcomes"),
    }
}

// Overwrite semantics: re-inserting a key re-points it at a fresh leaf;
// the leaf count still grows by one per insert.
#[test]
fn overwrite_keeps_one_mapping_and_grows_leaves() {
    let mut st = MerkleState::new();
    let h1 = hash_of(b"first");
    let h2 = hash_of(b"second");
    let i1 = st.insert("k", h1.dup());
    let i2 = st.insert("k", h2.dup());
    assert_eq!(i1, 0);
    assert_eq!(i2, 1);
    assert_eq!(st.leaf_count(), 2);
    assert_eq!(st.key_count(), 1);
    let looked_up = st.lookup("k").unwrap();
    assert!(looked_up.same_as(&h2));
}

#[test]
fn overwrite_through_the_facade() {
    let mut db = fresh_db();
    db.put("k", b"old", false).unwrap();
    db.put("k", b"new", false).unwrap();
    let value = db.get("k", false).unwrap();
    assert_eq!(&value, b"new");
}

// The canonical encoding of the empty index: two zero u64 counts.
#[test]
fn empty_state_encodes_to_two_zero_counts() {
    let st = MerkleState::new();
    assert_eq!(encode_state(&st), vec![0u8; 16]);
}

#[test]
fn state_codec_round_trip() {
    let mut st = MerkleState::new();
    st.insert("alpha", hash_of(b"1"));
    st.insert("beta", hash_of(b"2"));
    st.insert("alpha", hash_of(b"3"));

    let bytes = encode_state(&st);
    let back = decode_state(&bytes).unwrap();
    assert_eq!(back.leaf_count(), 3);
    assert_eq!(back.key_count(), 2);
    assert!(back.lookup("alpha").unwrap().same_as(&hash_of(b"3")));
    assert!(back.lookup("beta").unwrap().same_as(&hash_of(b"2")));
    assert_eq!(encode_state(&back), bytes);
}

#[test]
fn truncated_state_is_rejected() {
    let mut st = MerkleState::new();
    st.insert("alpha", hash_of(b"1"));
    let mut bytes = encode_state(&st);
    bytes.pop();
    assert!(decode_state(&bytes).is_none());
    assert!(decode_state(&[1, 2, 3]).is_none());
}

fn crafted_state(leaves: &[[u8; 32]], entries: &[(&[u8], u64)]) -> Vec<u8> {
    let mut out = Vec::new();
    out.extend_from_slice(&(leaves.len() as u64).to_le_bytes());
    for leaf in leaves {
        out.extend_from_slice(leaf);
    }
    out.extend_from_slice(&(entries.len() as u64).to_le_bytes());
    for (key, idx) in entries {
        out.extend_from_slice(&(key.len() as u64).to_le_bytes());
        out.extend_from_slice(key);
        out.extend_from_slice(&idx.to_le_bytes());
    }
    out
}

#[test]
fn decoder_accepts_exactly_well_formed_buffers() {
    let leaf = [7u8; 32];

    let good = crafted_state(&[leaf], &[(b"k", 0)]);
    let st = decode_state(&good).unwrap();
    assert_eq!(st.leaf_count(), 1);
    assert_eq!(st.lookup("k").unwrap().as_slice(), &leaf);

    // a key that is not valid UTF-8
    let bad_key = crafted_state(&[leaf], &[(&[0xff], 0)]);
    assert!(decode_state(&bad_key).is_none());

    // a binding pointing past the leaf sequence
    let bad_index = crafted_state(&[leaf], &[(b"k", 5)]);
    assert!(decode_state(&bad_index).is_none());

    // the same key bound twice
    let duplicate = crafted_state(&[leaf], &[(b"k", 0), (b"k", 0)]);
    assert!(decode_state(&duplicate).is_none());

    // trailing garbage after a complete parse
    let mut trailing = good.clone();
    trailing.push(0);
    assert!(decode_state(&trailing).is_none());
}

#[test]
fn corrupt_state_fails_the_transition() {
    let r = main_internal(
        &[9, 9, 9],
        &Command::Query {
            key: "k".to_string(),
        },
    );
    assert!(matches!(r, Err(EngineError::StateCorrupt)));
}

#[test]
fn proving_an_absent_key_fails() {
    let r = main_internal(
        &[],
        &Command::Prove {
            key: "absent".to_string(),
        },
    );
    assert!(matches!(r, Err(EngineError::KeyNotFound)));

    let db = fresh_db();
    assert!(matches!(db.prove("absent"), Err(DatabaseError::NotFound)));
}

#[test]
fn facade_reports_corrupt_state_as_query_failure() {
    let db: Database<MemStore, LocalExecutor> = Database::new(
        DatabaseType::Merkle,
        MemStore::new(),
        LocalExecutor,
        Some(vec![7, 7, 7]),
    );
    assert!(matches!(
        db.get("k", false),
        Err(DatabaseError::QueryExecutionFailed(_))
    ));
}

#[test]
fn local_port_rejects_foreign_proofs() {
    let db = fresh_db();
    let foreign = ProvenOutput {
        proof_data: vec![1, 2, 3],
        vk: Vec::new(),
    };
    assert!(matches!(
        db.verify_proof(&foreign),
        Err(DatabaseError::ProofVerificationFailed(_))
    ));
    let own = ProvenOutput {
        proof_data: Vec::new(),
        vk: Vec::new(),
    };
    assert_eq!(db.verify_proof(&own).unwrap(), true);
}

#[test]
fn mem_store_get_absent_is_not_found() {
    let store = MemStore::new();
    assert!(matches!(store.get("nope"), Err(StoreError::NotFound(_))));
    let mut store = MemStore::new();
    store.put("a", b"1").unwrap();
    assert_eq!(store.get("a").unwrap(), b"1");
    assert_eq!(store.contains("a").unwrap(), true);
    store.delete("a").unwrap();
    assert_eq!(store.contains("a").unwrap(), false);
}

// The SHA-256 binding against a published test vector, through the
// library's own wrapper and hex rendering.
#[test]
fn sha256_and_hex_against_known_vector() {
    let d = hash_bytes(b"abc");
    assert_eq!(
        d.to_hex(),
        "ba7816bf8f01cfea414140de5dae2223b00361a396177a9cb410ff61f20015ad"
    );
    let direct = Sha256::digest(b"abc");
    assert_eq!(d.as_slice(), direct.as_slice());
}

// A two-leaf root is the hash of the two leaves concatenated; a
// three-leaf root promotes the odd leaf unchanged.
#[test]
fn small_tree_roots_are_exact() {
    let l0 = hash_of(b"a");
    let l1 = hash_of(b"b");
    let l2 = hash_of(b"c");

    let mut cat = l0.as_slice().to_vec();
    cat.extend_from_slice(l1.as_slice());
    let expected_two = Sha256::digest(&cat);
    let root_two = compute_root(&vec![l0.dup(), l1.dup()]);
    assert_eq!(root_two.as_slice(), expected_two.as_slice());

    let mut top = expected_two.to_vec();
    top.extend_from_slice(l2.as_slice());
    let expected_three = Sha256::digest(&top);
    let root_three = compute_root(&vec![l0.dup(), l1.dup(), l2.dup()]);
    assert_eq!(root_three.as_slice(), expected_three.as_slice());
}

#[test]
fn proof_path_base64_matches_direct_encoding() {
    let mut db = fresh_db();
    db.put("alice", b"100", false).unwrap();
    db.put("bob", b"200", false).unwrap();
    let proof = db.prove("bob").unwrap();
    assert_eq!(proof.siblings.len(), 1);
    let expected = base64::Engine::encode(
        &base64::engine::general_purpose::STANDARD,
        proof.siblings[0].as_slice(),
    );
    assert_eq!(proof_path_base64(&proof), expected);
}

#[test]
fn decimal_rendering_is_exact() {
    assert_eq!(usize_to_string(0), "0");
    assert_eq!(usize_to_string(7), "7");
    assert_eq!(usize_to_string(42), "42");
    assert_eq!(usize_to_string(1000), "1000");
}

#[test]
fn command_text_is_exact() {
    assert_eq!(
        create_command("insert", 7),
        "{\"command\": \"insert\", \"params\": {\"key\": \"key7\", \"value\": \"value7\"}, \"state\": null}"
    );
    assert_eq!(
        create_command("query", 12),
        "{\"command\": \"query\", \"params\": {\"key\": \"key12\"}, \"state\": null}"
    );
    assert_eq!(
        create_command("prove", 0),
        "{\"command\": \"prove\", \"params\": {\"key\": \"key0\"}, \"state\": null}"
    );
}

#[test]
fn merkle_engine_implements_the_engine_interface() {
    let mut engine = MerkleEngine;
    let r = engine
        .execute_query(
            &[],
            &Command::Insert {
                key: "k".to_string(),
                value_hash: hash_of(b"v"),
            },
        )
        .unwrap();
    assert!(matches!(
        r.data,
        TransitionOutcome::Inserted { leaf_index: 0, .. }
    ));
    let r2 = engine
        .execute_query(
            &r.new_state,
            &Command::Query {
                key: "k".to_string(),
            },
        )
        .unwrap();
    assert!(matches!(r2.data, TransitionOutcome::Found { .. }));
}

#[test]
fn local_port_replays_natively() {
    let port = LocalExecutor;
    let r = port
        .execute(
            &[],
            &Command::Query {
                key: "k".to_string(),
            },
        )
        .unwrap();
    assert!(matches!(r.data, TransitionOutcome::NotFound));
}

#[test]
fn file_store_paths_join_base_and_key() {
    let layout = zkdb::store::FileStore::new(".zkdb".to_string());
    assert_eq!(layout.key_to_path("state.bin"), ".zkdb/state.bin");
}

#[test]
fn state_survives_database_restart() {
    let mut db = fresh_db();
    db.put("k", b"v", false).unwrap();
    let state = db.get_state().to_vec();

    let mut other = Database::new(
        DatabaseType::Merkle,
        MemStore::new(),
        LocalExecutor,
        Some(state),
    );
    other.store_mut().put("k", b"v").unwrap();
    assert_eq!(other.get("k", false).unwrap(), b"v");
}
