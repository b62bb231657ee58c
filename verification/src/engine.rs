//! The pure state-transition core: command dispatch over serialized
//! states.
//!
//! [`main_internal`] takes an opaque state buffer and a command and
//! produces a structured outcome plus a new state buffer.  Its result is a
//! function of the state bytes and the command alone — pinned by
//! [`spec_transition`] — so re-running the same (state, command) pair
//! always yields bit-identical output.  An external proving engine relies
//! on exactly that to re-execute a transition and attest to it.
//!
//! An empty state buffer means "initialize fresh" and is not an error.  A
//! buffer that does not decode is corrupt state: the transition aborts and
//! no state is emitted.  A query for an absent key is a normal structured
//! result, never a failure; proving an absent key fails with
//! [`DatabaseError::KeyNotFound`].

use vstd::prelude::*;
use vstd::utf8::encode_utf8;

use crate::codec::{decode_state, encode_state, spec_decode, spec_encode};
use crate::digest::{Digest, DIGEST_LEN};
use crate::index::{MerkleState, MerkleStateView};
use crate::tree::{path_siblings, root_of_level, InclusionProof};

verus! {

/// A request against the authenticated index.  Commands carry only keys
/// and value hashes: raw values never cross into the authenticated layer.
pub enum Command {
    Query { key: String },
    Prove { key: String },
    Insert { key: String, value_hash: Digest },
}

/// The mathematical shape of a command.
pub enum CommandView {
    Query { key: Seq<char> },
    Prove { key: Seq<char> },
    Insert { key: Seq<char>, value_hash: Seq<u8> },
}

impl View for Command {
    type V = CommandView;

    open spec fn view(&self) -> CommandView {
        match self {
            Command::Query { key } => CommandView::Query { key: key@ },
            Command::Prove { key } => CommandView::Prove { key: key@ },
            Command::Insert { key, value_hash } => CommandView::Insert {
                key: key@,
                value_hash: value_hash@,
            },
        }
    }
}

impl Command {
    /// A command's value hash, if it carries one, has digest length.
    pub open spec fn wf(&self) -> bool {
        match self {
            Command::Insert { value_hash, .. } => value_hash.wf(),
            _ => true,
        }
    }
}

/// The structured result of one transition.
pub enum TransitionOutcome {
    /// The key is now bound to a fresh leaf at `leaf_index`.
    Inserted { key: String, value_hash: Digest, leaf_index: usize },
    /// The queried key is bound to a leaf holding `value_hash`.
    Found { value_hash: Digest },
    /// The queried key was never inserted: a normal result, not an error.
    NotFound,
    /// The inclusion proof for the key's current leaf.
    Proved { proof: InclusionProof },
}

/// The mathematical shape of an outcome.
pub enum OutcomeView {
    Inserted { key: Seq<char>, value_hash: Seq<u8>, leaf_index: int },
    Found { value_hash: Seq<u8> },
    NotFound,
    Proved { root: Seq<u8>, leaf_index: int, leaf_hash: Seq<u8>, siblings: Seq<Seq<u8>> },
}

impl View for TransitionOutcome {
    type V = OutcomeView;

    open spec fn view(&self) -> OutcomeView {
        match self {
            TransitionOutcome::Inserted { key, value_hash, leaf_index } =>
                OutcomeView::Inserted {
                    key: key@,
                    value_hash: value_hash@,
                    leaf_index: *leaf_index as int,
                },
            TransitionOutcome::Found { value_hash } => OutcomeView::Found {
                value_hash: value_hash@,
            },
            TransitionOutcome::NotFound => OutcomeView::NotFound,
            TransitionOutcome::Proved { proof } => OutcomeView::Proved {
                root: proof.root@,
                leaf_index: proof.leaf_index as int,
                leaf_hash: proof.leaf_hash@,
                siblings: proof.siblings.deep_view(),
            },
        }
    }
}

/// Structured outcome of a transition, paired with the serialized state
/// that must be persisted before the next transition.
pub struct QueryResult {
    pub data: TransitionOutcome,
    pub new_state: Vec<u8>,
}

/// A fatal transition failure.  A semantic miss on `Query` is *not* here:
/// it is the structured [`TransitionOutcome::NotFound`] result.
#[derive(Clone, Copy, Debug, PartialEq, Eq, Structural)]
pub enum DatabaseError {
    /// The state buffer does not decode to a well-formed index.
    StateCorrupt,
    /// A proof was requested for a key that was never inserted.
    KeyNotFound,
}

/// The index a state buffer denotes: empty buffers bootstrap a fresh
/// index, anything else must decode.
pub open spec fn spec_state_of(state: Seq<u8>) -> Option<MerkleStateView> {
    if state.len() == 0 {
        Some(MerkleStateView::empty())
    } else {
        spec_decode(state)
    }
}

/// Dispatch of one command against a decoded index.
pub open spec fn spec_apply(v: MerkleStateView, c: CommandView) -> Result<
    (OutcomeView, Seq<u8>),
    DatabaseError,
> {
    match c {
        CommandView::Insert { key, value_hash } => {
            let (v2, idx) = v.insert(key, value_hash);
            Ok((
                OutcomeView::Inserted { key, value_hash, leaf_index: idx },
                spec_encode(v2),
            ))
        },
        CommandView::Query { key } => match v.key_lookup(key) {
            Some(i) => Ok((OutcomeView::Found { value_hash: v.leaves[i] }, spec_encode(v))),
            None => Ok((OutcomeView::NotFound, spec_encode(v))),
        },
        CommandView::Prove { key } => match v.key_lookup(key) {
            Some(i) => Ok((
                OutcomeView::Proved {
                    root: root_of_level(v.leaves),
                    leaf_index: i,
                    leaf_hash: v.leaves[i],
                    siblings: path_siblings(v.leaves, i),
                },
                spec_encode(v),
            )),
            None => Err(DatabaseError::KeyNotFound),
        },
    }
}

/// The one transition function: what every execution of a (state,
/// command) pair returns.  Every clause of the executable engine's
/// contract goes through this function, so two runs of the same pair give
/// the same outcome and byte-identical new state.
pub open spec fn spec_transition(state: Seq<u8>, c: CommandView) -> Result<
    (OutcomeView, Seq<u8>),
    DatabaseError,
> {
    match spec_state_of(state) {
        Some(v) => spec_apply(v, c),
        None => Err(DatabaseError::StateCorrupt),
    }
}

/// The mathematical shape of an executable transition result.
pub open spec fn result_view(r: Result<QueryResult, DatabaseError>) -> Result<
    (OutcomeView, Seq<u8>),
    DatabaseError,
> {
    match r {
        Ok(qr) => Ok((qr.data@, qr.new_state@)),
        Err(e) => Err(e),
    }
}

/// Executes one command against a serialized state: decode (or bootstrap
/// from an empty buffer), dispatch, re-encode.
///
/// The result is exactly `spec_transition` of the input views: the
/// transition is deterministic, emits a state buffer on every success
/// (even for read-only commands), rejects undecodable state as
/// [`DatabaseError::StateCorrupt`] with no state emitted, and treats a
/// query miss as a normal result.
pub fn main_internal(state: &[u8], command: &Command) -> (r: Result<QueryResult, DatabaseError>)
    requires
        command.wf(),
    ensures
        result_view(r) == spec_transition(state@, command@),
{
    let mut st: MerkleState;
    if state.len() == 0 {
        st = MerkleState::new();
    } else {
        match decode_state(state) {
            Some(s) => {
                st = s;
            },
            None => {
                return Err(DatabaseError::StateCorrupt);
            },
        }
    }
    match command {
        Command::Insert { key, value_hash } => {
            let idx = st.insert(key.as_str(), value_hash.dup());
            let new_state = encode_state(&st);
            Ok(QueryResult {
                data: TransitionOutcome::Inserted {
                    key: key.clone(),
                    value_hash: value_hash.dup(),
                    leaf_index: idx,
                },
                new_state,
            })
        },
        Command::Query { key } => {
            let new_state = encode_state(&st);
            match st.lookup(key.as_str()) {
                Some(d) => Ok(QueryResult {
                    data: TransitionOutcome::Found { value_hash: d },
                    new_state,
                }),
                None => Ok(QueryResult { data: TransitionOutcome::NotFound, new_state }),
            }
        },
        Command::Prove { key } => {
            match st.prove(key.as_str()) {
                Some(p) => {
                    let new_state = encode_state(&st);
                    Ok(QueryResult {
                        data: TransitionOutcome::Proved { proof: p },
                        new_state,
                    })
                },
                None => Err(DatabaseError::KeyNotFound),
            }
        },
    }
}

/// State determinism: any two executions of the same (state, command)
/// pair — by this library's engine or by a conforming replay engine —
/// return the same structured result and byte-identical new state,
/// because each one's contract pins its result to the one transition
/// function of the input views.
pub proof fn lemma_state_determinism(
    r1: Result<QueryResult, DatabaseError>,
    r2: Result<QueryResult, DatabaseError>,
    state: Seq<u8>,
    c: CommandView,
)
    requires
        result_view(r1) == spec_transition(state, c),
        result_view(r2) == spec_transition(state, c),
    ensures
        result_view(r1) == result_view(r2),
        r1 matches Ok(a) ==> (r2 matches Ok(b) && a.data@ == b.data@
            && a.new_state@ == b.new_state@),
{
}

/// Insert/Query round trip: after an `Insert` of (`key`, `h`) against any
/// state that denotes the index `v`, a `Query` for `key` against the
/// emitted state buffer returns the found outcome carrying exactly `h`,
/// and emits that same buffer again.
pub proof fn lemma_insert_query_round_trip(s0: Seq<u8>, v: MerkleStateView, key: Seq<char>, h: Seq<u8>)
    requires
        spec_state_of(s0) == Some(v),
        v.wf(),
        v.bounded(),
        v.leaves.len() < u64::MAX,
        v.key_indices.len() < u64::MAX,
        h.len() == DIGEST_LEN,
        encode_utf8(key).len() <= u64::MAX,
    ensures
        ({
            let (v2, idx) = v.insert(key, h);
            let s1 = spec_encode(v2);
            &&& spec_transition(s0, CommandView::Insert { key, value_hash: h })
                == Ok::<_, DatabaseError>((
                    OutcomeView::Inserted { key, value_hash: h, leaf_index: idx },
                    s1,
                ))
            &&& spec_transition(s1, CommandView::Query { key })
                == Ok::<_, DatabaseError>((OutcomeView::Found { value_hash: h }, s1))
        }),
{
    crate::index::lemma_insert_effect(v, key, h);
    crate::index::lemma_insert_bounded(v, key, h);
    let (v2, idx) = v.insert(key, h);
    crate::codec::lemma_decode_encode(v2);
    crate::codec::lemma_encode_nonempty(v2);
    assert(v2.leaves[idx] == h);
}

/// Not-found is not an error: a `Query` for a key the index does not bind
/// is a successful transition with the structured missing outcome, and it
/// still emits a state buffer.
pub proof fn lemma_query_miss_is_not_an_error(s0: Seq<u8>, v: MerkleStateView, key: Seq<char>)
    requires
        spec_state_of(s0) == Some(v),
        v.key_lookup(key) is None,
    ensures
        spec_transition(s0, CommandView::Query { key })
            == Ok::<_, DatabaseError>((OutcomeView::NotFound, spec_encode(v))),
{
}

/// Proof validity: the proof carried by a successful `Prove` outcome
/// reconstructs, from the leaf hash and the sibling hashes under the
/// fixed odd-node policy, exactly the root the outcome reports.
pub proof fn lemma_proof_validity(v: MerkleStateView, key: Seq<char>)
    requires
        v.wf(),
        v.key_lookup(key) is Some,
    ensures
        spec_apply(v, CommandView::Prove { key }) matches Ok(p) && p.0 matches
            OutcomeView::Proved { root, leaf_index, leaf_hash, siblings } && {
            &&& crate::tree::climb(leaf_hash, leaf_index, siblings, v.leaves.len() as int)
                == root
            &&& root == root_of_level(v.leaves)
            &&& siblings.len() == crate::tree::proof_len(leaf_index, v.leaves.len() as int)
        },
{
    let i = v.key_lookup(key)->Some_0;
    crate::index::lemma_find_pos_properties(v.key_indices, key);
    assert(0 <= i < v.leaves.len());
    crate::tree::lemma_path_reconstructs(v.leaves, i);
    crate::tree::lemma_path_siblings_len(v.leaves, i);
}

/// An engine that executes commands against a serialized state.  The
/// library's own engine is [`MerkleEngine`]; other backends may implement
/// this to the same interface.
pub trait DatabaseEngine {
    /// Executes one command against the given serialized state.
    fn execute_query(&mut self, state: &[u8], command: &Command) -> (r: Result<
        QueryResult,
        DatabaseError,
    >)
        requires
            command.wf(),
    ;
}

/// The Merkle-tree-backed engine.
pub struct MerkleEngine;

impl DatabaseEngine for MerkleEngine {
    fn execute_query(&mut self, state: &[u8], command: &Command) -> (r: Result<
        QueryResult,
        DatabaseError,
    >) {
        main_internal(state, command)
    }
}

} // verus!
