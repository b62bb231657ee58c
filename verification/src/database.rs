//! The database façade: raw blob storage coordinated with the
//! authenticated hash index.
//!
//! On write, the blob goes to the store first, its hash goes into the
//! index, and the new serialized index state replaces the old one only
//! when the transition succeeds.  On read, the façade fetches the blob,
//! recomputes its hash and compares it against the committed leaf hash;
//! a mismatch is a data-integrity failure, distinct from "not found".
//! That re-verification on every read is the façade's core integrity
//! guarantee and is never skipped.
//!
//! Proof generation and verification are delegated to a [`ProvingEngine`]
//! port.  The engine sees a copy of the current state and the new state
//! is committed only after the call succeeds, so a failed attestation
//! never partially applies to the authoritative state.

use vstd::prelude::*;
use vstd::slice::slice_to_vec;

use crate::digest::{hash_bytes, sha256_of, Digest};
use crate::engine::{
    main_internal, result_view, spec_transition, Command, CommandView, OutcomeView, QueryResult,
    TransitionOutcome,
};
use crate::store::{Store, StoreError};
use crate::tree::InclusionProof;

verus! {

/// Which state-transition engine a database runs on.
#[derive(Clone, Copy, Debug)]
pub enum DatabaseType {
    Merkle,
}

/// An external attestation over one transition: opaque proof bytes plus
/// the bytes identifying the verifying key they check against.
pub struct ProvenOutput {
    pub proof_data: Vec<u8>,
    pub vk: Vec<u8>,
}

/// The structured outcome of a transition executed through the façade,
/// with the emitted state buffer and the attestation, if one was
/// requested.
pub struct ProvenQueryResult {
    pub data: TransitionOutcome,
    pub new_state: Vec<u8>,
    pub sp1_proof: Option<ProvenOutput>,
}

/// A façade-level failure.
#[derive(Debug)]
pub enum DatabaseError {
    /// The transition engine failed; carries a description.
    QueryExecutionFailed(String),
    /// The external engine could not produce an attestation.
    ProofGenerationFailed(String),
    /// An attestation failed to verify.
    ProofVerificationFailed(String),
    /// The blob store failed; the store's own error is carried through.
    Store(StoreError),
    /// A read or proof was requested for a key that was never inserted.
    NotFound,
    /// A stored blob no longer hashes to the committed leaf hash.
    Corrupted,
}

/// The external proving engine capability: deterministic replay of the
/// state-transition function, optionally with an attestation, plus
/// verification of attestations.
///
/// The replay contract: whenever a replay reports success, its outcome
/// and emitted state agree exactly with the library's own transition
/// function on the same inputs.  An engine may fail at any time (a proof
/// system is an external, fallible collaborator); failure promises
/// nothing.
pub trait ProvingEngine {
    /// Replays one transition without an attestation.
    fn execute(&self, state: &[u8], command: &Command) -> (r: Result<QueryResult, DatabaseError>)
        requires
            command.wf(),
        ensures
            r matches Ok(qr) ==> result_view(Ok::<QueryResult, crate::engine::DatabaseError>(qr))
                == spec_transition(state@, command@),
    ;

    /// Replays one transition and attests to it.
    fn prove_and_execute(&self, state: &[u8], command: &Command) -> (r: Result<
        (QueryResult, ProvenOutput),
        DatabaseError,
    >)
        requires
            command.wf(),
        ensures
            r matches Ok(p) ==> result_view(Ok::<QueryResult, crate::engine::DatabaseError>(p.0))
                == spec_transition(state@, command@),
    ;

    /// Checks an attestation against this engine's verifying key.
    fn verify(&self, proof: &ProvenOutput) -> Result<bool, DatabaseError>;
}

/// A proving port with no proof system behind it: transitions are
/// replayed natively and "attested" with an empty proof.  It lets the
/// core run and be tested in isolation from any real proving engine.
pub struct LocalExecutor;

/// Maps a transition-engine failure to the façade's error type.
fn engine_error_to_database_error(e: crate::engine::DatabaseError) -> (r: DatabaseError)
    ensures
        e is KeyNotFound <==> r is NotFound,
        e is StateCorrupt <==> r is QueryExecutionFailed,
{
    match e {
        crate::engine::DatabaseError::StateCorrupt => DatabaseError::QueryExecutionFailed(
            "state buffer failed to decode".to_owned(),
        ),
        crate::engine::DatabaseError::KeyNotFound => DatabaseError::NotFound,
    }
}

impl ProvingEngine for LocalExecutor {
    fn execute(&self, state: &[u8], command: &Command) -> (r: Result<QueryResult, DatabaseError>) {
        match main_internal(state, command) {
            Ok(qr) => Ok(qr),
            Err(e) => Err(engine_error_to_database_error(e)),
        }
    }

    fn prove_and_execute(&self, state: &[u8], command: &Command) -> (r: Result<
        (QueryResult, ProvenOutput),
        DatabaseError,
    >) {
        match main_internal(state, command) {
            Ok(qr) => Ok((qr, ProvenOutput { proof_data: Vec::new(), vk: Vec::new() })),
            Err(e) => Err(engine_error_to_database_error(e)),
        }
    }

    fn verify(&self, proof: &ProvenOutput) -> Result<bool, DatabaseError> {
        if proof.proof_data.len() == 0 {
            Ok(true)
        } else {
            Err(DatabaseError::ProofVerificationFailed(
                "this port only attests with empty proofs".to_owned(),
            ))
        }
    }
}

/// The integrity gate on a fetched blob: accepts exactly the bytes that
/// still hash to the committed leaf digest, and rejects anything else as
/// corrupted.  Every read of the database goes through this check.
pub fn check_blob(value: Vec<u8>, committed: &Digest) -> (r: Result<Vec<u8>, DatabaseError>)
    ensures
        sha256_of(value@) == committed@ ==> (r matches Ok(v) && v@ == value@),
        sha256_of(value@) != committed@ ==> (r matches Err(e) && e is Corrupted),
{
    let recomputed = hash_bytes(value.as_slice());
    if recomputed.same_as(committed) {
        Ok(value)
    } else {
        Err(DatabaseError::Corrupted)
    }
}

/// The database: a blob store, a proving port, and the serialized state
/// of the authenticated index.
pub struct Database<S: Store, P: ProvingEngine> {
    engine: DatabaseType,
    store: S,
    state: Vec<u8>,
    executor: P,
}

impl<S: Store, P: ProvingEngine> Database<S, P> {
    /// The current serialized index state.
    pub closed spec fn spec_state(&self) -> Seq<u8> {
        self.state@
    }

    /// Opens a database over the given store and proving port, resuming
    /// from a previously persisted state buffer if one is given.
    pub fn new(engine: DatabaseType, store: S, executor: P, state: Option<Vec<u8>>) -> (r:
        Database<S, P>)
        ensures
            r.spec_state() == match state {
                Some(s) => s@,
                None => Seq::<u8>::empty(),
            },
    {
        let state_buf: Vec<u8> = match state {
            Some(s) => s,
            None => Vec::new(),
        };
        Database { engine, store, state: state_buf, executor }
    }

    /// Stores `value` under `key` and commits its hash to the index.
    ///
    /// The blob is written first; the index transition runs second, and
    /// the state advances exactly on success.  If the store accepts the
    /// blob but the transition fails, the state is unchanged and the
    /// orphaned blob is harmless: it is addressed by key and will be
    /// overwritten by the next write.
    pub fn put(&mut self, key: &str, value: &[u8], generate_proof: bool) -> (r: Result<
        (),
        DatabaseError,
    >)
        ensures
            r is Ok ==> (spec_transition(
                old(self).spec_state(),
                CommandView::Insert { key: key@, value_hash: sha256_of(value@) },
            ) matches Ok(p) && final(self).spec_state() == p.1),
            r is Err ==> final(self).spec_state() == old(self).spec_state(),
            !generate_proof ==> match spec_transition(
                old(self).spec_state(),
                CommandView::Insert { key: key@, value_hash: sha256_of(value@) },
            ) {
                Ok(p) => r is Ok || (r matches Err(e) && e is Store),
                Err(_) => r matches Err(e) && (e is Store || e is QueryExecutionFailed),
            },
            !generate_proof ==> ((r matches Err(e) && e is QueryExecutionFailed)
                ==> spec_transition(
                    old(self).spec_state(),
                    CommandView::Insert { key: key@, value_hash: sha256_of(value@) },
                ) is Err),
    {
        match self.store.put(key, value) {
            Ok(_) => (),
            Err(e) => {
                return Err(DatabaseError::Store(e));
            },
        }
        let value_hash = hash_bytes(value);
        let command = Command::Insert { key: key.to_owned(), value_hash };
        let result = if generate_proof {
            match self.executor.prove_and_execute(self.state.as_slice(), &command) {
                Ok(p) => p.0,
                Err(e) => {
                    return Err(e);
                },
            }
        } else {
            match main_internal(self.state.as_slice(), &command) {
                Ok(qr) => qr,
                Err(e) => {
                    return Err(engine_error_to_database_error(e));
                },
            }
        };
        self.state = result.new_state;
        Ok(())
    }

    /// Reads the value stored under `key`, re-verifying its integrity.
    ///
    /// The committed hash comes from a `Query` transition; the blob comes
    /// from the store; the blob then passes the [`check_blob`] gate,
    /// which recomputes its hash and compares it against the committed
    /// one.  A returned value therefore always hashes to the leaf the
    /// index commits to, and when the index binds the key the read ends
    /// only in the value, a store failure, or `Corrupted`.  An absent
    /// key is `NotFound`, exactly when the query outcome is a miss; a
    /// hash mismatch is `Corrupted` — a data-integrity failure, distinct
    /// from "not found" — and `QueryExecutionFailed` appears exactly
    /// when the transition itself failed.
    pub fn get(&self, key: &str, generate_proof: bool) -> (r: Result<Vec<u8>, DatabaseError>)
        ensures
            r matches Ok(v) ==> (spec_transition(
                self.spec_state(),
                CommandView::Query { key: key@ },
            ) matches Ok(p) && p.0 matches OutcomeView::Found { value_hash }
                && sha256_of(v@) == value_hash),
            !generate_proof ==> ((r matches Err(e) && e is Corrupted) ==> (spec_transition(
                self.spec_state(),
                CommandView::Query { key: key@ },
            ) matches Ok(p) && p.0 is Found)),
            !generate_proof ==> ((r matches Err(e) && e is NotFound) ==> (spec_transition(
                self.spec_state(),
                CommandView::Query { key: key@ },
            ) matches Ok(p) && p.0 is NotFound)),
            !generate_proof ==> ((r matches Err(e) && e is QueryExecutionFailed)
                ==> spec_transition(self.spec_state(), CommandView::Query { key: key@ }) is Err),
            !generate_proof ==> match spec_transition(
                self.spec_state(),
                CommandView::Query { key: key@ },
            ) {
                Ok(p) => {
                    &&& (p.0 is NotFound ==> (r matches Err(e) && e is NotFound))
                    &&& (p.0 is Found ==> r is Ok || (r matches Err(e) && (e is Store
                        || e is Corrupted)))
                },
                Err(_) => r matches Err(e) && e is QueryExecutionFailed,
            },
    {
        let command = Command::Query { key: key.to_owned() };
        let result = if generate_proof {
            match self.executor.prove_and_execute(self.state.as_slice(), &command) {
                Ok(p) => p.0,
                Err(e) => {
                    return Err(e);
                },
            }
        } else {
            match main_internal(self.state.as_slice(), &command) {
                Ok(qr) => qr,
                Err(e) => {
                    return Err(engine_error_to_database_error(e));
                },
            }
        };
        match result.data {
            TransitionOutcome::Found { value_hash } => {
                let value = match self.store.get(key) {
                    Ok(v) => v,
                    Err(e) => {
                        return Err(DatabaseError::Store(e));
                    },
                };
                check_blob(value, &value_hash)
            },
            TransitionOutcome::NotFound => Err(DatabaseError::NotFound),
            _ => {
                // a query transition only yields a found or missing outcome
                proof {
                    assert(false);
                }
                Err(DatabaseError::NotFound)
            },
        }
    }

    /// Builds the inclusion proof for the leaf currently bound to `key`.
    ///
    /// Succeeds exactly when the state decodes and the key is bound; an
    /// absent key is `NotFound`.
    pub fn prove(&self, key: &str) -> (r: Result<InclusionProof, DatabaseError>)
        ensures
            match spec_transition(self.spec_state(), CommandView::Prove { key: key@ }) {
                Ok(p) => r matches Ok(ip) && p.0 == (OutcomeView::Proved {
                    root: ip.root@,
                    leaf_index: ip.leaf_index as int,
                    leaf_hash: ip.leaf_hash@,
                    siblings: ip.siblings.deep_view(),
                }),
                Err(e) => r matches Err(d) && (if e is KeyNotFound {
                    d is NotFound
                } else {
                    d is QueryExecutionFailed
                }),
            },
    {
        let command = Command::Prove { key: key.to_owned() };
        match main_internal(self.state.as_slice(), &command) {
            Ok(qr) => match qr.data {
                TransitionOutcome::Proved { proof } => Ok(proof),
                _ => {
                    // a successful prove transition always carries a proof
                    proof {
                        assert(false);
                    }
                    Err(DatabaseError::NotFound)
                },
            },
            Err(e) => Err(engine_error_to_database_error(e)),
        }
    }

    /// Executes one command, committing the emitted state on success and
    /// leaving the state untouched on failure.  With `generate_proof` the
    /// transition runs through the proving port and the result carries
    /// the attestation.
    pub fn execute_query(&mut self, command: Command, generate_proof: bool) -> (r: Result<
        ProvenQueryResult,
        DatabaseError,
    >)
        requires
            command.wf(),
        ensures
            r matches Ok(p) ==> (spec_transition(old(self).spec_state(), command@) matches Ok(t)
                && p.data@ == t.0 && p.new_state@ == t.1 && final(self).spec_state() == t.1
                && (generate_proof <==> p.sp1_proof is Some)),
            r is Err ==> final(self).spec_state() == old(self).spec_state(),
            !generate_proof ==> match spec_transition(old(self).spec_state(), command@) {
                Ok(t) => r is Ok,
                Err(e) => r matches Err(d) && (if e is KeyNotFound {
                    d is NotFound
                } else {
                    d is QueryExecutionFailed
                }),
            },
    {
        if generate_proof {
            match self.executor.prove_and_execute(self.state.as_slice(), &command) {
                Ok(p) => {
                    let (qr, attestation) = p;
                    self.state = slice_to_vec(qr.new_state.as_slice());
                    Ok(ProvenQueryResult {
                        data: qr.data,
                        new_state: qr.new_state,
                        sp1_proof: Some(attestation),
                    })
                },
                Err(e) => Err(e),
            }
        } else {
            match main_internal(self.state.as_slice(), &command) {
                Ok(qr) => {
                    self.state = slice_to_vec(qr.new_state.as_slice());
                    Ok(ProvenQueryResult {
                        data: qr.data,
                        new_state: qr.new_state,
                        sp1_proof: None,
                    })
                },
                Err(e) => Err(engine_error_to_database_error(e)),
            }
        }
    }

    /// Checks an attestation through the proving port.
    pub fn verify_proof(&self, proof: &ProvenOutput) -> Result<bool, DatabaseError> {
        self.executor.verify(proof)
    }

    /// The current serialized state, to be persisted by the caller.
    pub fn get_state(&self) -> (r: &[u8])
        ensures
            r@ == self.spec_state(),
    {
        self.state.as_slice()
    }

    /// Replaces the current serialized state with a persisted one.
    pub fn set_state(&mut self, state: Vec<u8>)
        ensures
            final(self).spec_state() == state@,
    {
        self.state = state;
    }

    /// The underlying blob store, for maintenance by the embedding
    /// application.  Touching it does not touch the index state.
    pub fn store_mut(&mut self) -> (r: &mut S)
        ensures
            final(self).spec_state() == old(self).spec_state(),
    {
        &mut self.store
    }
}

} // verus!
