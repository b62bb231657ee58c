//! The key-to-leaf index: the ordered sequence of leaf digests and the
//! mapping from keys to leaf positions.
//!
//! The leaf sequence is append-only; a leaf's position is its permanent
//! identifier.  Keys are unique in the mapping and the last writer for a key
//! wins: re-inserting a key appends a fresh leaf and re-points the key at
//! it, leaving the old leaf in the tree but unreachable by key.

use vstd::pervasive::VecAdditionalExecFns;
use vstd::prelude::*;
use vstd::string::StringSliceAdditionalSpecFns;
use vstd::utf8::{decode_utf8, encode_utf8};

use crate::digest::{Digest, DIGEST_LEN};
use crate::tree::{build_path, compute_root, path_siblings, root_of_level, InclusionProof};

verus! {

/// One binding from a key to the leaf position holding the key's current
/// value hash.
pub struct KeyBinding {
    pub key: String,
    pub index: usize,
}

impl View for KeyBinding {
    type V = (Seq<char>, int);

    open spec fn view(&self) -> (Seq<char>, int) {
        (self.key@, self.index as int)
    }
}

impl DeepView for KeyBinding {
    type V = (Seq<char>, int);

    open spec fn deep_view(&self) -> (Seq<char>, int) {
        self.view()
    }
}

/// The mathematical shape of the index: leaf digests in order, and the
/// key bindings in the order they were first inserted.
#[verifier::ext_equal]
pub struct MerkleStateView {
    pub leaves: Seq<Seq<u8>>,
    pub key_indices: Seq<(Seq<char>, int)>,
}

/// The leaf position bound to `key`: the first binding that carries it.
pub open spec fn find_key(entries: Seq<(Seq<char>, int)>, key: Seq<char>) -> Option<int>
    decreases entries.len(),
{
    if entries.len() == 0 {
        None
    } else if entries[0].0 == key {
        Some(entries[0].1)
    } else {
        find_key(entries.skip(1), key)
    }
}

/// The position inside `entries` of the binding that carries `key`, or
/// `entries.len()` if no binding does.
pub open spec fn find_pos(entries: Seq<(Seq<char>, int)>, key: Seq<char>) -> int
    decreases entries.len(),
{
    if entries.len() == 0 {
        0
    } else if entries[0].0 == key {
        0
    } else {
        1 + find_pos(entries.skip(1), key)
    }
}

impl MerkleStateView {
    /// The empty index.
    pub open spec fn empty() -> MerkleStateView {
        MerkleStateView { leaves: Seq::empty(), key_indices: Seq::empty() }
    }

    /// Well-formedness: every leaf is a digest, every binding points below
    /// the leaf count, and no key occurs twice.
    pub open spec fn wf(self) -> bool {
        &&& forall|i: int| 0 <= i < self.leaves.len()
            ==> (#[trigger] self.leaves[i]).len() == DIGEST_LEN
        &&& forall|i: int| 0 <= i < self.key_indices.len()
            ==> 0 <= (#[trigger] self.key_indices[i]).1 < self.leaves.len()
        &&& forall|i: int, j: int| 0 <= i < j < self.key_indices.len()
            ==> (#[trigger] self.key_indices[i]).0 != (#[trigger] self.key_indices[j]).0
    }

    /// The leaf position currently bound to `key`, if any.
    pub open spec fn key_lookup(self, key: Seq<char>) -> Option<int> {
        find_key(self.key_indices, key)
    }

    /// Machine bounds: the counts and key byte lengths all fit the
    /// fixed-width fields of the serialized form.  Every index built by
    /// this library satisfies them.
    pub open spec fn bounded(self) -> bool {
        &&& self.leaves.len() <= u64::MAX
        &&& self.key_indices.len() <= u64::MAX
        &&& forall|i: int| 0 <= i < self.key_indices.len()
            ==> vstd::utf8::encode_utf8((#[trigger] self.key_indices[i]).0).len() <= u64::MAX
    }

    /// The index after binding `key` to a fresh leaf holding `h`, together
    /// with that leaf's position: the leaf is appended, and the key's
    /// binding is re-pointed in place if the key exists, else appended.
    pub open spec fn insert(self, key: Seq<char>, h: Seq<u8>) -> (MerkleStateView, int) {
        let idx = self.leaves.len() as int;
        let entries = if find_key(self.key_indices, key) is Some {
            self.key_indices.update(find_pos(self.key_indices, key), (key, idx))
        } else {
            self.key_indices.push((key, idx))
        };
        (MerkleStateView { leaves: self.leaves.push(h), key_indices: entries }, idx)
    }
}

/// `find_pos` stays within the entries while the key is present, and lands
/// on a binding that carries the key.
pub proof fn lemma_find_pos_properties(entries: Seq<(Seq<char>, int)>, key: Seq<char>)
    ensures
        0 <= find_pos(entries, key) <= entries.len(),
        find_key(entries, key) is Some <==> find_pos(entries, key) < entries.len(),
        find_key(entries, key) is Some ==> {
            let p = find_pos(entries, key);
            &&& entries[p].0 == key
            &&& entries[p].1 == find_key(entries, key)->Some_0
            &&& forall|j: int| 0 <= j < p ==> (#[trigger] entries[j]).0 != key
        },
    decreases entries.len(),
{
    if entries.len() > 0 && entries[0].0 != key {
        lemma_find_pos_properties(entries.skip(1), key);
        let p = find_pos(entries, key);
        if find_key(entries, key) is Some {
            assert(entries[p] == entries.skip(1)[p - 1]);
            assert forall|j: int| 0 <= j < p implies (#[trigger] entries[j]).0 != key by {
                if j > 0 {
                    assert(entries[j] == entries.skip(1)[j - 1]);
                }
            }
        }
    }
}

/// Re-pointing the first binding of `key` changes that key's lookup and no
/// other key's.
proof fn lemma_find_key_update(entries: Seq<(Seq<char>, int)>, key: Seq<char>, idx: int)
    requires
        find_key(entries, key) is Some,
    ensures
        find_key(entries.update(find_pos(entries, key), (key, idx)), key) == Some(idx),
        forall|k2: Seq<char>| k2 != key
            ==> #[trigger] find_key(entries.update(find_pos(entries, key), (key, idx)), k2)
                == find_key(entries, k2),
    decreases entries.len(),
{
    let p = find_pos(entries, key);
    let updated = entries.update(p, (key, idx));
    lemma_find_pos_properties(entries, key);
    if entries[0].0 == key {
        assert(updated[0] == (key, idx));
        assert(find_key(updated, key) == Some(idx));
        assert forall|k2: Seq<char>| k2 != key implies #[trigger] find_key(updated, k2)
            == find_key(entries, k2) by {
            assert(updated.skip(1) =~= entries.skip(1));
        }
    } else {
        lemma_find_key_update(entries.skip(1), key, idx);
        lemma_find_pos_properties(entries.skip(1), key);
        let child = entries.skip(1).update(p - 1, (key, idx));
        assert(updated.skip(1) =~= child);
        assert(updated[0] == entries[0]);
        assert(find_key(updated, key) == find_key(child, key));
        assert forall|k2: Seq<char>| k2 != key implies #[trigger] find_key(updated, k2)
            == find_key(entries, k2) by {
            if entries[0].0 == k2 {
                assert(find_key(updated, k2) == Some(updated[0].1));
                assert(find_key(entries, k2) == Some(entries[0].1));
            } else {
                assert(find_key(updated, k2) == find_key(child, k2));
                assert(find_key(child, k2) == find_key(entries.skip(1), k2));
                assert(find_key(entries, k2) == find_key(entries.skip(1), k2));
            }
        }
    }
}

/// Appending a binding for an absent key makes it found and leaves every
/// other key's lookup unchanged.
proof fn lemma_find_key_push(entries: Seq<(Seq<char>, int)>, key: Seq<char>, idx: int)
    requires
        find_key(entries, key) is None,
    ensures
        find_key(entries.push((key, idx)), key) == Some(idx),
        forall|k2: Seq<char>| k2 != key
            ==> #[trigger] find_key(entries.push((key, idx)), k2) == find_key(entries, k2),
    decreases entries.len(),
{
    let pushed = entries.push((key, idx));
    if entries.len() == 0 {
        assert(pushed[0] == (key, idx));
        assert(find_key(pushed, key) == Some(idx));
        assert forall|k2: Seq<char>| k2 != key implies #[trigger] find_key(pushed, k2)
            == find_key(entries, k2) by {
            assert(pushed.skip(1) =~= Seq::<(Seq<char>, int)>::empty());
            assert(find_key(pushed, k2) == find_key(pushed.skip(1), k2));
            assert(find_key(pushed.skip(1), k2) is None);
            assert(find_key(entries, k2) is None);
        }
    } else {
        lemma_find_key_push(entries.skip(1), key, idx);
        let child = entries.skip(1).push((key, idx));
        assert(pushed.skip(1) =~= child);
        assert(pushed[0] == entries[0]);
        assert(find_key(pushed, key) == find_key(child, key));
        assert forall|k2: Seq<char>| k2 != key implies #[trigger] find_key(pushed, k2)
            == find_key(entries, k2) by {
            if entries[0].0 == k2 {
                assert(find_key(pushed, k2) == Some(pushed[0].1));
                assert(find_key(entries, k2) == Some(entries[0].1));
            } else {
                assert(find_key(pushed, k2) == find_key(child, k2));
                assert(find_key(child, k2) == find_key(entries.skip(1), k2));
                assert(find_key(entries, k2) == find_key(entries.skip(1), k2));
            }
        }
    }
}

/// A well-formed index stays well-formed across an insertion, the inserted
/// key is afterwards bound to the fresh leaf, and no other binding moves.
pub proof fn lemma_insert_effect(v: MerkleStateView, key: Seq<char>, h: Seq<u8>)
    requires
        v.wf(),
        h.len() == DIGEST_LEN,
    ensures
        ({
            let (v2, idx) = v.insert(key, h);
            &&& v2.wf()
            &&& idx == v.leaves.len()
            &&& v2.leaves == v.leaves.push(h)
            &&& v2.key_lookup(key) == Some(idx)
            &&& forall|k2: Seq<char>| k2 != key
                ==> #[trigger] v2.key_lookup(k2) == v.key_lookup(k2)
        }),
{
    let (v2, idx) = v.insert(key, h);
    lemma_find_pos_properties(v.key_indices, key);
    if find_key(v.key_indices, key) is Some {
        lemma_find_key_update(v.key_indices, key, idx);
        let p = find_pos(v.key_indices, key);
        assert forall|i: int, j: int| 0 <= i < j < v2.key_indices.len()
            implies (#[trigger] v2.key_indices[i]).0 != (#[trigger] v2.key_indices[j]).0 by {
            assert(v.key_indices[i].0 != v.key_indices[j].0);
        }
    } else {
        lemma_find_key_push(v.key_indices, key, idx);
        assert forall|i: int, j: int| 0 <= i < j < v2.key_indices.len()
            implies (#[trigger] v2.key_indices[i]).0 != (#[trigger] v2.key_indices[j]).0 by {
            if j < v.key_indices.len() {
                assert(v.key_indices[i].0 != v.key_indices[j].0);
            } else {
                lemma_absent_key_differs(v.key_indices, key, i);
            }
        }
    }
}

/// Insertion keeps the index within the machine bounds of the serialized
/// form, as long as there is room for one more leaf and binding.
pub proof fn lemma_insert_bounded(v: MerkleStateView, key: Seq<char>, h: Seq<u8>)
    requires
        v.bounded(),
        v.leaves.len() < u64::MAX,
        v.key_indices.len() < u64::MAX,
        encode_utf8(key).len() <= u64::MAX,
    ensures
        v.insert(key, h).0.bounded(),
{
    let v2 = v.insert(key, h).0;
    lemma_find_pos_properties(v.key_indices, key);
    assert forall|i: int| 0 <= i < v2.key_indices.len()
        implies encode_utf8((#[trigger] v2.key_indices[i]).0).len() <= u64::MAX by {
        if v2.key_indices[i].0 != key {
            assert(v2.key_indices[i] == v.key_indices[i]);
        }
    }
}

/// Overwrite semantics: inserting the same key twice leaves exactly one
/// reachable mapping for it — the latest — while the leaf sequence grows
/// by one per insert, the first leaf staying in the tree unreachable by
/// key.  No other key's binding moves.
pub proof fn lemma_overwrite(v: MerkleStateView, key: Seq<char>, h1: Seq<u8>, h2: Seq<u8>)
    requires
        v.wf(),
        h1.len() == DIGEST_LEN,
        h2.len() == DIGEST_LEN,
    ensures
        ({
            let (v1, i1) = v.insert(key, h1);
            let (v2, i2) = v1.insert(key, h2);
            &&& i1 == v.leaves.len()
            &&& i2 == v.leaves.len() + 1
            &&& v2.leaves.len() == v.leaves.len() + 2
            &&& v2.leaves[i1] == h1
            &&& v2.leaves[i2] == h2
            &&& v2.key_lookup(key) == Some(i2)
            &&& v2.key_indices.len() == (if v.key_lookup(key) is Some {
                v.key_indices.len()
            } else {
                v.key_indices.len() + 1
            })
            &&& forall|k2: Seq<char>| k2 != key
                ==> #[trigger] v2.key_lookup(k2) == v.key_lookup(k2)
            &&& v2.wf()
        }),
{
    lemma_insert_effect(v, key, h1);
    let (v1, i1) = v.insert(key, h1);
    lemma_insert_effect(v1, key, h2);
    let (v2, i2) = v1.insert(key, h2);
    lemma_find_pos_properties(v.key_indices, key);
    lemma_find_pos_properties(v1.key_indices, key);
    assert(v2.leaves == v.leaves.push(h1).push(h2));
    assert(v2.leaves[i1] == h1);
    assert(v2.leaves[i2] == h2);
}

/// An absent key differs from every key already bound.
proof fn lemma_absent_key_differs(entries: Seq<(Seq<char>, int)>, key: Seq<char>, i: int)
    requires
        find_key(entries, key) is None,
        0 <= i < entries.len(),
    ensures
        entries[i].0 != key,
    decreases entries.len(),
{
    if i > 0 {
        lemma_absent_key_differs(entries.skip(1), key, i - 1);
    }
}

/// Compares two string slices character for character.
pub fn str_eq(a: &str, b: &str) -> (r: bool)
    ensures
        r == (a@ == b@),
{
    let ab = a.as_bytes();
    let bb = b.as_bytes();
    proof {
        vstd::utf8::encode_utf8_decode_utf8(a@);
        vstd::utf8::encode_utf8_decode_utf8(b@);
    }
    if ab.len() != bb.len() {
        assert(ab@ != bb@);
        return false;
    }
    let n = ab.len();
    let mut i: usize = 0;
    while i < n
        invariant
            n == ab@.len() == bb@.len(),
            ab@ == a.spec_bytes(),
            bb@ == b.spec_bytes(),
            decode_utf8(a.spec_bytes()) == a@,
            decode_utf8(b.spec_bytes()) == b@,
            0 <= i <= n,
            forall|j: int| 0 <= j < i ==> ab@[j] == bb@[j],
        decreases n - i,
    {
        if ab[i] != bb[i] {
            assert(ab@[i as int] != bb@[i as int]);
            return false;
        }
        i = i + 1;
    }
    assert(ab@ =~= bb@);
    true
}

/// The serialized, authenticated index: the list of leaf digests and the
/// key-to-position bindings.
pub struct MerkleState {
    pub(crate) leaves: Vec<Digest>,
    pub(crate) key_indices: Vec<KeyBinding>,
}

impl View for MerkleState {
    type V = MerkleStateView;

    closed spec fn view(&self) -> MerkleStateView {
        MerkleStateView {
            leaves: self.leaves.deep_view(),
            key_indices: self.key_indices.deep_view(),
        }
    }
}

/// Exposes the concrete shape of a state's view to the crate's own
/// modules: the view is the element-wise view of the two vectors.
pub(crate) proof fn lemma_state_view(st: &MerkleState)
    ensures
        st@.leaves == st.leaves.deep_view(),
        st@.key_indices == st.key_indices.deep_view(),
        st@.leaves.len() == st.leaves@.len(),
        st@.key_indices.len() == st.key_indices@.len(),
        forall|i: int| 0 <= i < st.leaves@.len()
            ==> #[trigger] st@.leaves[i] == st.leaves@[i]@,
        forall|i: int| 0 <= i < st.key_indices@.len()
            ==> #[trigger] st@.key_indices[i]
                == (st.key_indices@[i].key@, st.key_indices@[i].index as int),
{
}

impl MerkleState {
    /// The empty index: no leaves, no bindings.
    pub fn new() -> (r: MerkleState)
        ensures
            r@ == MerkleStateView::empty(),
            r@.wf(),
            r@.bounded(),
    {
        let r = MerkleState { leaves: Vec::new(), key_indices: Vec::new() };
        proof {
            assert(r@.leaves =~= Seq::<Seq<u8>>::empty());
            assert(r@.key_indices =~= Seq::<(Seq<char>, int)>::empty());
            assert(r@ =~= MerkleStateView::empty());
        }
        r
    }

    /// Number of leaves appended so far.
    pub fn leaf_count(&self) -> (r: usize)
        ensures
            r == self@.leaves.len(),
    {
        self.leaves.len()
    }

    /// Number of keys currently bound.
    pub fn key_count(&self) -> (r: usize)
        ensures
            r == self@.key_indices.len(),
    {
        self.key_indices.len()
    }

    /// Position inside the binding list of the binding carrying `key`.
    fn find_entry(&self, key: &str) -> (r: Option<usize>)
        ensures
            match r {
                Some(p) => p == find_pos(self@.key_indices, key@)
                    && p < self@.key_indices.len(),
                None => self@.key_lookup(key@) is None,
            },
    {
        let ghost entries = self@.key_indices;
        let n = self.key_indices.len();
        let mut i: usize = 0;
        proof {
            assert(entries.skip(0) =~= entries);
        }
        while i < n
            invariant
                n == self.key_indices@.len(),
                entries == self@.key_indices,
                entries.len() == n,
                0 <= i <= n,
                find_key(entries, key@) == find_key(entries.skip(i as int), key@),
                find_pos(entries, key@) == i + find_pos(entries.skip(i as int), key@),
            decreases n - i,
        {
            let ghost rest = entries.skip(i as int);
            assert(rest[0] == entries[i as int]);
            if str_eq(self.key_indices[i].key.as_str(), key) {
                assert(entries[i as int].0 == key@);
                proof {
                    lemma_find_pos_properties(entries, key@);
                }
                return Some(i);
            }
            assert(rest.skip(1) =~= entries.skip(i + 1 as int));
            i = i + 1;
        }
        assert(entries.skip(n as int) =~= Seq::<(Seq<char>, int)>::empty());
        None
    }

    /// Appends `value_hash` as a fresh leaf and binds `key` to it, returning
    /// the new leaf's position.  Never fails: an existing key is re-pointed
    /// (overwrite), and its old leaf stays in the tree.
    pub fn insert(&mut self, key: &str, value_hash: Digest) -> (idx: usize)
        requires
            old(self)@.wf(),
            old(self)@.bounded(),
            value_hash.wf(),
        ensures
            final(self)@ == old(self)@.insert(key@, value_hash@).0,
            idx as int == old(self)@.insert(key@, value_hash@).1,
            final(self)@.wf(),
            final(self)@.bounded(),
            final(self)@.key_lookup(key@) == Some(idx as int),
            final(self)@.leaves == old(self)@.leaves.push(value_hash@),
            forall|k2: Seq<char>| k2 != key@
                ==> #[trigger] final(self)@.key_lookup(k2) == old(self)@.key_lookup(k2),
    {
        proof {
            lemma_insert_effect(old(self)@, key@, value_hash@);
        }
        let ghost oldv = self@;
        let key_byte_len = key.as_bytes().len();
        assert(encode_utf8(key@).len() == key_byte_len);
        let idx = self.leaves.len();
        self.leaves.push(value_hash);
        assert(self@.leaves =~= oldv.leaves.push(value_hash@));
        assert(self@.key_indices =~= oldv.key_indices);
        match self.find_entry(key) {
            Some(p) => {
                proof {
                    lemma_find_pos_properties(oldv.key_indices, key@);
                }
                let binding = KeyBinding { key: key.to_owned(), index: idx };
                self.key_indices.set(p, binding);
                assert(self@.key_indices
                    =~= oldv.key_indices.update(find_pos(oldv.key_indices, key@), (key@, idx as int)));
                assert(self@ =~= oldv.insert(key@, value_hash@).0);
            },
            None => {
                let binding = KeyBinding { key: key.to_owned(), index: idx };
                self.key_indices.push(binding);
                assert(self@.key_indices =~= oldv.key_indices.push((key@, idx as int)));
                assert(self@ =~= oldv.insert(key@, value_hash@).0);
            },
        }
        let total_leaves = self.leaves.len();
        let total_entries = self.key_indices.len();
        proof {
            assert(self@.leaves.len() == total_leaves as int);
            assert(self@.key_indices.len() == total_entries as int);
            let new_entries = self@.key_indices;
            let old_entries = oldv.key_indices;
            assert forall|i: int| 0 <= i < new_entries.len()
                implies encode_utf8((#[trigger] new_entries[i]).0).len() <= u64::MAX by {
                if new_entries[i].0 == key@ {
                    assert(encode_utf8(key@).len() == key_byte_len);
                } else {
                    assert(new_entries[i] == old_entries[i]);
                }
            }
        }
        idx
    }

    /// The leaf digest currently bound to `key`, or nothing if the key was
    /// never inserted.  Not-found is a normal outcome, not an error.
    pub fn lookup(&self, key: &str) -> (r: Option<Digest>)
        requires
            self@.wf(),
        ensures
            match r {
                Some(d) => ({
                    &&& self@.key_lookup(key@) is Some
                    &&& d@ == self@.leaves[self@.key_lookup(key@)->Some_0]
                }),
                None => self@.key_lookup(key@) is None,
            },
    {
        match self.find_entry(key) {
            Some(p) => {
                proof {
                    lemma_find_pos_properties(self@.key_indices, key@);
                }
                let i = self.key_indices[p].index;
                Some(self.leaves[i].dup())
            },
            None => None,
        }
    }

    /// The Merkle root over the current leaf sequence, or nothing while
    /// no leaf has been inserted.  The root is a pure, order-sensitive
    /// function of the leaves.
    pub fn root(&self) -> (r: Option<Digest>)
        ensures
            match r {
                Some(d) => self@.leaves.len() > 0 && d@ == root_of_level(self@.leaves),
                None => self@.leaves.len() == 0,
            },
    {
        if self.leaves.len() == 0 {
            None
        } else {
            Some(compute_root(&self.leaves))
        }
    }

    /// Builds the inclusion proof for the leaf currently bound to `key`, or
    /// nothing if the key was never inserted.
    pub fn prove(&self, key: &str) -> (r: Option<InclusionProof>)
        requires
            self@.wf(),
        ensures
            match r {
                Some(p) => self@.key_lookup(key@) == Some(p.leaf_index as int)
                    && p.wf_for(self@.leaves),
                None => self@.key_lookup(key@) is None,
            },
    {
        match self.find_entry(key) {
            Some(p) => {
                proof {
                    lemma_find_pos_properties(self@.key_indices, key@);
                }
                let i = self.key_indices[p].index;
                let (siblings, root) = build_path(&self.leaves, i);
                let leaf_hash = self.leaves[i].dup();
                Some(InclusionProof { root, leaf_index: i, leaf_hash, siblings })
            },
            None => None,
        }
    }
}

} // verus!
