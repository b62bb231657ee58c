//! The serialized form of the authenticated index.
//!
//! The layout is fixed so that equal indexes always serialize to identical
//! bytes (the external replay contract depends on that):
//!
//! - leaf count as a little-endian `u64`;
//! - the leaf digests in order, 32 bytes each;
//! - binding count as a little-endian `u64`;
//! - for each binding in order: the key's UTF-8 byte length as a
//!   little-endian `u64`, the key's UTF-8 bytes, and the bound leaf
//!   position as a little-endian `u64`.
//!
//! Decoding accepts exactly the encodings of well-formed indexes; anything
//! else is corrupt state.

use vstd::bytes::{
    lemma_auto_spec_u64_to_from_le_bytes, spec_u64_from_le_bytes, spec_u64_to_le_bytes,
    u64_from_le_bytes, u64_to_le_bytes,
};
use vstd::prelude::*;
use vstd::slice::{slice_subrange, slice_to_vec};
use vstd::string::StringSliceAdditionalSpecFns;
use vstd::utf8::{decode_utf8, encode_utf8, encode_utf8_decode_utf8, encode_utf8_valid_utf8, valid_utf8};

use crate::digest::{Digest, DIGEST_LEN};
use crate::index::{lemma_state_view, KeyBinding, MerkleState, MerkleStateView};

verus! {

/// The leaf digests, concatenated in order.
pub open spec fn encode_leaves(leaves: Seq<Seq<u8>>) -> Seq<u8>
    decreases leaves.len(),
{
    if leaves.len() == 0 {
        Seq::empty()
    } else {
        leaves[0] + encode_leaves(leaves.skip(1))
    }
}

/// One key binding: key byte length, key bytes, bound position.
pub open spec fn encode_entry(entry: (Seq<char>, int)) -> Seq<u8> {
    spec_u64_to_le_bytes(encode_utf8(entry.0).len() as u64) + encode_utf8(entry.0)
        + spec_u64_to_le_bytes(entry.1 as u64)
}

/// The key bindings, concatenated in order.
pub open spec fn encode_entries(entries: Seq<(Seq<char>, int)>) -> Seq<u8>
    decreases entries.len(),
{
    if entries.len() == 0 {
        Seq::empty()
    } else {
        encode_entry(entries[0]) + encode_entries(entries.skip(1))
    }
}

/// The serialized form of an index.
pub open spec fn spec_encode(v: MerkleStateView) -> Seq<u8> {
    spec_u64_to_le_bytes(v.leaves.len() as u64) + encode_leaves(v.leaves)
        + spec_u64_to_le_bytes(v.key_indices.len() as u64) + encode_entries(v.key_indices)
}

/// Reads a little-endian `u64` off the front of `b`.
pub open spec fn take_u64(b: Seq<u8>) -> Option<(int, Seq<u8>)> {
    if b.len() >= 8 {
        Some((spec_u64_from_le_bytes(b.take(8)) as int, b.skip(8)))
    } else {
        None
    }
}

/// Reads `n` leaf digests of 32 bytes each off the front of `b`.
pub open spec fn parse_leaves(b: Seq<u8>, n: int) -> Option<(Seq<Seq<u8>>, Seq<u8>)>
    decreases n,
{
    if n <= 0 {
        Some((Seq::empty(), b))
    } else if b.len() >= DIGEST_LEN {
        match parse_leaves(b.skip(DIGEST_LEN as int), n - 1) {
            Some(p) => Some((seq![b.take(DIGEST_LEN as int)] + p.0, p.1)),
            None => None,
        }
    } else {
        None
    }
}

/// Reads `n` key bindings off the front of `b`.  A binding's key bytes must
/// be valid UTF-8.
pub open spec fn parse_entries(b: Seq<u8>, n: int) -> Option<(Seq<(Seq<char>, int)>, Seq<u8>)>
    decreases n,
{
    if n <= 0 {
        Some((Seq::empty(), b))
    } else {
        match take_u64(b) {
            None => None,
            Some((kl, b1)) => {
                if b1.len() >= kl && valid_utf8(b1.take(kl)) {
                    let key = decode_utf8(b1.take(kl));
                    match take_u64(b1.skip(kl)) {
                        None => None,
                        Some((idx, b2)) => match parse_entries(b2, n - 1) {
                            Some(p) => Some((seq![(key, idx)] + p.0, p.1)),
                            None => None,
                        },
                    }
                } else {
                    None
                }
            },
        }
    }
}

/// The index a byte buffer deserializes to: the buffer must parse
/// completely and yield a well-formed index, else it is corrupt.
pub open spec fn spec_decode(b: Seq<u8>) -> Option<MerkleStateView> {
    match take_u64(b) {
        None => None,
        Some((n1, b1)) => match parse_leaves(b1, n1) {
            None => None,
            Some((leaves, b2)) => match take_u64(b2) {
                None => None,
                Some((n2, b3)) => match parse_entries(b3, n2) {
                    None => None,
                    Some((entries, rest)) => {
                        let v = MerkleStateView { leaves, key_indices: entries };
                        if rest.len() == 0 && v.wf() {
                            Some(v)
                        } else {
                            None
                        }
                    },
                },
            },
        },
    }
}

/// Appending one leaf appends its bytes to the leaf encoding.
pub(crate) proof fn lemma_encode_leaves_snoc(leaves: Seq<Seq<u8>>, x: Seq<u8>)
    ensures
        encode_leaves(leaves.push(x)) == encode_leaves(leaves) + x,
    decreases leaves.len(),
{
    let p = leaves.push(x);
    if leaves.len() == 0 {
        assert(p[0] == x);
        assert(p.skip(1) =~= Seq::<Seq<u8>>::empty());
        assert(encode_leaves(p.skip(1)) == Seq::<u8>::empty());
        assert(encode_leaves(p) == p[0] + encode_leaves(p.skip(1)));
        assert(encode_leaves(leaves) == Seq::<u8>::empty());
        assert(encode_leaves(p) =~= encode_leaves(leaves) + x);
    } else {
        lemma_encode_leaves_snoc(leaves.skip(1), x);
        assert(p.skip(1) =~= leaves.skip(1).push(x));
        assert(p[0] == leaves[0]);
        assert(encode_leaves(p) == p[0] + encode_leaves(p.skip(1)));
        assert(encode_leaves(leaves) == leaves[0] + encode_leaves(leaves.skip(1)));
        assert(encode_leaves(p) =~= encode_leaves(leaves) + x);
    }
}

/// Appending one binding appends its bytes to the binding encoding.
proof fn lemma_encode_entries_snoc(entries: Seq<(Seq<char>, int)>, e: (Seq<char>, int))
    ensures
        encode_entries(entries.push(e)) == encode_entries(entries) + encode_entry(e),
    decreases entries.len(),
{
    let p = entries.push(e);
    if entries.len() == 0 {
        assert(p[0] == e);
        assert(p.skip(1) =~= Seq::<(Seq<char>, int)>::empty());
        assert(encode_entries(p.skip(1)) == Seq::<u8>::empty());
        assert(encode_entries(p) == encode_entry(p[0]) + encode_entries(p.skip(1)));
        assert(encode_entries(entries) == Seq::<u8>::empty());
        assert(encode_entries(p) =~= encode_entries(entries) + encode_entry(e));
    } else {
        lemma_encode_entries_snoc(entries.skip(1), e);
        assert(p.skip(1) =~= entries.skip(1).push(e));
        assert(p[0] == entries[0]);
        assert(encode_entries(p) == encode_entry(p[0]) + encode_entries(p.skip(1)));
        assert(encode_entries(entries)
            == encode_entry(entries[0]) + encode_entries(entries.skip(1)));
        assert(encode_entries(p) =~= encode_entries(entries) + encode_entry(e));
    }
}

/// Serializes the index into its canonical byte buffer.
pub fn encode_state(st: &MerkleState) -> (r: Vec<u8>)
    ensures
        r@ == spec_encode(st@),
{
    let ghost v = st@;
    proof {
        lemma_auto_spec_u64_to_from_le_bytes();
        lemma_state_view(st);
    }
    let mut out: Vec<u8> = u64_to_le_bytes(st.leaves.len() as u64);
    let n = st.leaves.len();
    let mut i: usize = 0;
    proof {
        assert(v.leaves.take(0) =~= Seq::<Seq<u8>>::empty());
    }
    while i < n
        invariant
            n == st.leaves@.len(),
            v == st@,
            v.leaves.len() == n,
            0 <= i <= n,
            out@ == spec_u64_to_le_bytes(n as u64) + encode_leaves(v.leaves.take(i as int)),
        decreases n - i,
    {
        out.extend_from_slice(st.leaves[i].as_slice());
        proof {
            lemma_state_view(st);
            lemma_encode_leaves_snoc(v.leaves.take(i as int), v.leaves[i as int]);
            assert(v.leaves.take(i + 1) =~= v.leaves.take(i as int).push(v.leaves[i as int]));
            assert(out@ =~= spec_u64_to_le_bytes(n as u64)
                + encode_leaves(v.leaves.take(i + 1)));
        }
        i = i + 1;
    }
    assert(v.leaves.take(n as int) =~= v.leaves);
    let m = st.key_indices.len();
    let count_bytes = u64_to_le_bytes(m as u64);
    out.extend_from_slice(count_bytes.as_slice());
    let ghost header = out@;
    let mut j: usize = 0;
    proof {
        assert(v.key_indices.take(0) =~= Seq::<(Seq<char>, int)>::empty());
        assert(out@ =~= header + encode_entries(v.key_indices.take(0)));
    }
    while j < m
        invariant
            m == st.key_indices@.len(),
            v == st@,
            v.key_indices.len() == m,
            0 <= j <= m,
            out@ == header + encode_entries(v.key_indices.take(j as int)),
        decreases m - j,
    {
        let key_bytes = st.key_indices[j].key.as_str().as_bytes();
        let len_bytes = u64_to_le_bytes(key_bytes.len() as u64);
        let idx_bytes = u64_to_le_bytes(st.key_indices[j].index as u64);
        out.extend_from_slice(len_bytes.as_slice());
        out.extend_from_slice(key_bytes);
        out.extend_from_slice(idx_bytes.as_slice());
        proof {
            lemma_state_view(st);
            lemma_encode_entries_snoc(v.key_indices.take(j as int), v.key_indices[j as int]);
            assert(v.key_indices.take(j + 1)
                =~= v.key_indices.take(j as int).push(v.key_indices[j as int]));
            assert(v.key_indices[j as int] == (st.key_indices@[j as int].key@,
                st.key_indices@[j as int].index as int));
            assert(out@ =~= header + encode_entries(v.key_indices.take(j + 1)));
        }
        j = j + 1;
    }
    assert(v.key_indices.take(m as int) =~= v.key_indices);
    assert(out@ =~= spec_encode(v));
    out
}

/// Turns raw bytes back into text.
///
/// Relies on `String::from_utf8`: it accepts exactly the byte sequences
/// that are valid UTF-8, and the accepted string's bytes are the input
/// bytes.
#[verifier::external_body]
fn vec_to_string(bytes: Vec<u8>) -> (r: Option<String>)
    ensures
        match r {
            Some(s) => encode_utf8(s@) == bytes@,
            None => !valid_utf8(bytes@),
        },
        valid_utf8(bytes@) ==> r is Some,
{
    String::from_utf8(bytes).ok()
}

/// Reads the little-endian `u64` at byte offset `off`.
fn read_u64_at(bytes: &[u8], off: usize) -> (r: Option<(u64, usize)>)
    requires
        off <= bytes@.len(),
    ensures
        match r {
            Some(p) => {
                &&& p.1 == off + 8
                &&& p.1 <= bytes@.len()
                &&& take_u64(bytes@.skip(off as int))
                    == Some((p.0 as int, bytes@.skip(p.1 as int)))
            },
            None => take_u64(bytes@.skip(off as int)) is None,
        },
{
    if bytes.len() - off >= 8 {
        let s = slice_subrange(bytes, off, off + 8);
        let x = u64_from_le_bytes(s);
        proof {
            assert(bytes@.skip(off as int).take(8) =~= bytes@.subrange(off as int, off + 8));
            assert(bytes@.skip(off as int).skip(8) =~= bytes@.skip(off + 8));
        }
        Some((x, off + 8))
    } else {
        assert(bytes@.skip(off as int).len() < 8);
        None
    }
}

/// Reads `n` leaf digests starting at byte offset `start`.
fn decode_leaves(bytes: &[u8], start: usize, n: u64) -> (r: Option<(Vec<Digest>, usize)>)
    requires
        start <= bytes@.len(),
    ensures
        match r {
            Some(p) => {
                &&& p.1 <= bytes@.len()
                &&& parse_leaves(bytes@.skip(start as int), n as int)
                    == Some((p.0.deep_view(), bytes@.skip(p.1 as int)))
                &&& p.0@.len() == n
                &&& forall|k: int| 0 <= k < p.0@.len()
                    ==> (#[trigger] p.0.deep_view()[k]).len() == DIGEST_LEN
            },
            None => parse_leaves(bytes@.skip(start as int), n as int) is None,
        },
{
    let ghost whole = bytes@.skip(start as int);
    let mut out: Vec<Digest> = Vec::new();
    let mut off: usize = start;
    let mut i: u64 = 0;
    proof {
        assert(out.deep_view() =~= Seq::<Seq<u8>>::empty());
        if parse_leaves(whole, n as int) is Some {
            let p = parse_leaves(whole, n as int)->Some_0;
            assert(out.deep_view() + p.0 =~= p.0);
        }
    }
    while i < n
        invariant
            0 <= i <= n,
            off <= bytes@.len(),
            whole == bytes@.skip(start as int),
            out@.len() == i,
            forall|k: int| 0 <= k < out@.len()
                ==> (#[trigger] out.deep_view()[k]).len() == DIGEST_LEN,
            match parse_leaves(bytes@.skip(off as int), n - i) {
                Some(p) => parse_leaves(whole, n as int)
                    == Some((out.deep_view() + p.0, p.1)),
                None => parse_leaves(whole, n as int) is None,
            },
        decreases n - i,
    {
        let ghost here = bytes@.skip(off as int);
        let ghost out_before = out.deep_view();
        if bytes.len() - off < DIGEST_LEN {
            assert(here.len() < DIGEST_LEN);
            assert(parse_leaves(here, n - i) is None);
            return None;
        }
        let chunk = slice_subrange(bytes, off, off + DIGEST_LEN);
        let d = Digest::from_vec(slice_to_vec(chunk));
        out.push(d);
        proof {
            assert(here.take(DIGEST_LEN as int)
                =~= bytes@.subrange(off as int, off + DIGEST_LEN));
            assert(here.skip(DIGEST_LEN as int) =~= bytes@.skip(off + DIGEST_LEN));
            assert(d@ == here.take(DIGEST_LEN as int));
            assert(out.deep_view() =~= out_before.push(here.take(DIGEST_LEN as int)));
            match parse_leaves(bytes@.skip(off + DIGEST_LEN), n - i - 1) {
                Some(p) => {
                    assert(parse_leaves(here, n - i)
                        == Some((seq![here.take(DIGEST_LEN as int)] + p.0, p.1)));
                    assert(out.deep_view() + p.0
                        =~= out_before + (seq![here.take(DIGEST_LEN as int)] + p.0));
                },
                None => {
                    assert(parse_leaves(here, n - i) is None);
                },
            }
        }
        off = off + DIGEST_LEN;
        i = i + 1;
    }
    proof {
        assert(parse_leaves(bytes@.skip(off as int), 0)
            == Some((Seq::<Seq<u8>>::empty(), bytes@.skip(off as int))));
        assert(out.deep_view() + Seq::<Seq<u8>>::empty() =~= out.deep_view());
    }
    Some((out, off))
}

/// The bindings described by parallel key and position vectors.
pub open spec fn bindings_view(keys: Seq<String>, idxs: Seq<u64>) -> Seq<(Seq<char>, int)>
    recommends
        keys.len() == idxs.len(),
{
    Seq::new(keys.len(), |i: int| (keys[i]@, idxs[i] as int))
}

/// Reads `n` key bindings starting at byte offset `start`, as parallel
/// key and position vectors.
fn decode_entries(bytes: &[u8], start: usize, n: u64) -> (r: Option<(Vec<String>, Vec<u64>, usize)>)
    requires
        start <= bytes@.len(),
    ensures
        match r {
            Some(p) => {
                &&& p.2 <= bytes@.len()
                &&& p.0@.len() == n
                &&& p.1@.len() == n
                &&& parse_entries(bytes@.skip(start as int), n as int)
                    == Some((bindings_view(p.0@, p.1@), bytes@.skip(p.2 as int)))
            },
            None => parse_entries(bytes@.skip(start as int), n as int) is None,
        },
{
    let ghost whole = bytes@.skip(start as int);
    let mut keys: Vec<String> = Vec::new();
    let mut idxs: Vec<u64> = Vec::new();
    let mut off: usize = start;
    let mut i: u64 = 0;
    proof {
        assert(bindings_view(keys@, idxs@) =~= Seq::<(Seq<char>, int)>::empty());
        if parse_entries(whole, n as int) is Some {
            let p = parse_entries(whole, n as int)->Some_0;
            assert(bindings_view(keys@, idxs@) + p.0 =~= p.0);
        }
    }
    while i < n
        invariant
            0 <= i <= n,
            off <= bytes@.len(),
            whole == bytes@.skip(start as int),
            keys@.len() == i,
            idxs@.len() == i,
            match parse_entries(bytes@.skip(off as int), n - i) {
                Some(p) => parse_entries(whole, n as int)
                    == Some((bindings_view(keys@, idxs@) + p.0, p.1)),
                None => parse_entries(whole, n as int) is None,
            },
        decreases n - i,
    {
        let ghost here = bytes@.skip(off as int);
        let ghost kv_before = bindings_view(keys@, idxs@);
        let kl_read = match read_u64_at(bytes, off) {
            Some(p) => p,
            None => {
                assert(parse_entries(here, n - i) is None);
                return None;
            },
        };
        let kl = kl_read.0;
        let off1 = kl_read.1;
        let ghost b1 = bytes@.skip(off1 as int);
        if kl > (bytes.len() - off1) as u64 {
            assert(b1.len() < kl);
            assert(parse_entries(here, n - i) is None);
            return None;
        }
        let kl_us = kl as usize;
        let chunk = slice_to_vec(slice_subrange(bytes, off1, off1 + kl_us));
        assert(chunk@ =~= b1.take(kl as int));
        let key = match vec_to_string(chunk) {
            Some(s) => s,
            None => {
                assert(!valid_utf8(b1.take(kl as int)));
                assert(parse_entries(here, n - i) is None);
                return None;
            },
        };
        proof {
            encode_utf8_valid_utf8(key@);
            encode_utf8_decode_utf8(key@);
            assert(valid_utf8(b1.take(kl as int)));
            assert(decode_utf8(b1.take(kl as int)) == key@);
            assert(b1.skip(kl as int) =~= bytes@.skip(off1 + kl_us));
        }
        let idx_read = match read_u64_at(bytes, off1 + kl_us) {
            Some(p) => p,
            None => {
                assert(take_u64(b1.skip(kl as int)) is None);
                assert(parse_entries(here, n - i) is None);
                return None;
            },
        };
        let idx = idx_read.0;
        let off2 = idx_read.1;
        keys.push(key);
        idxs.push(idx);
        proof {
            assert(bindings_view(keys@, idxs@)
                =~= kv_before.push((key@, idx as int)));
            match parse_entries(bytes@.skip(off2 as int), n - i - 1) {
                Some(p) => {
                    assert(parse_entries(here, n - i)
                        == Some((seq![(key@, idx as int)] + p.0, p.1)));
                    assert(bindings_view(keys@, idxs@) + p.0
                        =~= kv_before + (seq![(key@, idx as int)] + p.0));
                },
                None => {
                    assert(parse_entries(here, n - i) is None);
                },
            }
        }
        off = off2;
        i = i + 1;
    }
    proof {
        assert(parse_entries(bytes@.skip(off as int), 0)
            == Some((Seq::<(Seq<char>, int)>::empty(), bytes@.skip(off as int))));
        assert(bindings_view(keys@, idxs@) + Seq::<(Seq<char>, int)>::empty()
            =~= bindings_view(keys@, idxs@));
    }
    Some((keys, idxs, off))
}

/// Checks that every bound position lies below the leaf count.
fn check_indices(idxs: &Vec<u64>, leaf_count: u64) -> (r: bool)
    ensures
        r == forall|k: int| 0 <= k < idxs@.len() ==> (#[trigger] idxs@[k]) < leaf_count,
{
    let n = idxs.len();
    let mut k: usize = 0;
    while k < n
        invariant
            n == idxs@.len(),
            0 <= k <= n,
            forall|j: int| 0 <= j < k ==> (#[trigger] idxs@[j]) < leaf_count,
        decreases n - k,
    {
        if idxs[k] >= leaf_count {
            return false;
        }
        k = k + 1;
    }
    true
}

/// Checks that no key occurs twice.
fn check_unique(keys: &Vec<String>) -> (r: bool)
    ensures
        r == forall|i: int, j: int| 0 <= i < j < keys@.len()
            ==> (#[trigger] keys@[i])@ != (#[trigger] keys@[j])@,
{
    let n = keys.len();
    let mut i: usize = 0;
    while i < n
        invariant
            n == keys@.len(),
            0 <= i <= n,
            forall|a: int, b: int| 0 <= a < b < keys@.len() && a < i
                ==> (#[trigger] keys@[a])@ != (#[trigger] keys@[b])@,
        decreases n - i,
    {
        let mut j: usize = i + 1;
        while j < n
            invariant
                n == keys@.len(),
                0 <= i < j <= n,
                forall|b: int| i < b < j ==> keys@[i as int]@ != (#[trigger] keys@[b])@,
            decreases n - j,
        {
            if crate::index::str_eq(keys[i].as_str(), keys[j].as_str()) {
                return false;
            }
            j = j + 1;
        }
        i = i + 1;
    }
    true
}

/// Deserializes a byte buffer produced by [`encode_state`].
///
/// Returns the index exactly when the buffer parses completely into a
/// well-formed index; any other buffer is rejected as corrupt.
pub fn decode_state(bytes: &[u8]) -> (r: Option<MerkleState>)
    ensures
        match r {
            Some(st) => {
                &&& spec_decode(bytes@) == Some(st@)
                &&& st@.wf()
                &&& st@.bounded()
            },
            None => spec_decode(bytes@) is None,
        },
{
    proof {
        assert(bytes@.skip(0) =~= bytes@);
    }
    let header = match read_u64_at(bytes, 0) {
        Some(p) => p,
        None => {
            return None;
        },
    };
    let n1 = header.0;
    let leaves_parsed = match decode_leaves(bytes, header.1, n1) {
        Some(p) => p,
        None => {
            return None;
        },
    };
    let leaves = leaves_parsed.0;
    let count2 = match read_u64_at(bytes, leaves_parsed.1) {
        Some(p) => p,
        None => {
            return None;
        },
    };
    let n2 = count2.0;
    let entries_parsed = match decode_entries(bytes, count2.1, n2) {
        Some(p) => p,
        None => {
            return None;
        },
    };
    let keys = entries_parsed.0;
    let idxs = entries_parsed.1;
    let end = entries_parsed.2;
    let ghost parsed = MerkleStateView {
        leaves: leaves.deep_view(),
        key_indices: bindings_view(keys@, idxs@),
    };
    if end != bytes.len() {
        assert(bytes@.skip(end as int).len() != 0);
        assert(spec_decode(bytes@) is None);
        return None;
    }
    assert(bytes@.skip(end as int).len() == 0);
    let leaf_count = leaves.len();
    if !check_indices(&idxs, leaf_count as u64) {
        proof {
            let bad = choose|k: int| 0 <= k < idxs@.len() && !((#[trigger] idxs@[k]) < leaf_count as u64);
            assert(parsed.key_indices[bad].1 == idxs@[bad] as int);
            assert(!parsed.wf());
        }
        return None;
    }
    if !check_unique(&keys) {
        proof {
            let (bi, bj) = choose|i: int, j: int| 0 <= i < j < keys@.len()
                && (#[trigger] keys@[i])@ == (#[trigger] keys@[j])@;
            assert(parsed.key_indices[bi].0 == parsed.key_indices[bj].0);
            assert(!parsed.wf());
        }
        return None;
    }
    let mut key_indices: Vec<KeyBinding> = Vec::new();
    let m = keys.len();
    let mut k: usize = 0;
    while k < m
        invariant
            m == keys@.len(),
            m == idxs@.len(),
            leaf_count as u64 <= u64::MAX,
            forall|j: int| 0 <= j < idxs@.len() ==> (#[trigger] idxs@[j]) < leaf_count as u64,
            0 <= k <= m,
            key_indices@.len() == k,
            forall|j: int| 0 <= j < k
                ==> #[trigger] key_indices.deep_view()[j] == (keys@[j]@, idxs@[j] as int),
        decreases m - k,
    {
        assert(idxs@[k as int] < leaf_count as u64);
        let kb = KeyBinding { key: keys[k].clone(), index: idxs[k] as usize };
        assert(kb@ == (keys@[k as int]@, idxs@[k as int] as int));
        let ghost ki_before = key_indices;
        key_indices.push(kb);
        proof {
            assert forall|j: int| 0 <= j < k + 1
                implies #[trigger] key_indices.deep_view()[j]
                    == (keys@[j]@, idxs@[j] as int) by {
                if j < k {
                    assert(key_indices@[j] == ki_before@[j]);
                    assert(key_indices.deep_view()[j] == ki_before.deep_view()[j]);
                } else {
                    assert(key_indices@[j].deep_view() == (keys@[j]@, idxs@[j] as int));
                }
            }
        }
        k = k + 1;
    }
    let st = MerkleState { leaves, key_indices };
    proof {
        lemma_state_view(&st);
        assert(st@.key_indices =~= parsed.key_indices);
        assert(st@ =~= parsed);
        assert(forall|i: int| 0 <= i < parsed.key_indices.len()
            ==> 0 <= (#[trigger] parsed.key_indices[i]).1 < parsed.leaves.len());
        assert(parsed.wf());
        assert(spec_decode(bytes@) == Some(parsed));
        assert forall|i: int| 0 <= i < parsed.key_indices.len()
            implies encode_utf8((#[trigger] parsed.key_indices[i]).0).len() <= u64::MAX by {
            lemma_parse_entries_key_bounds(bytes@.skip(count2.1 as int), n2 as int, i);
        }
        assert(parsed.bounded());
    }
    Some(st)
}

/// A buffer that starts with the encoding of `x` parses back to `x`.
proof fn lemma_take_u64_prepend(x: u64, rest: Seq<u8>)
    ensures
        take_u64(spec_u64_to_le_bytes(x) + rest) == Some((x as int, rest)),
{
    lemma_auto_spec_u64_to_from_le_bytes();
    let b = spec_u64_to_le_bytes(x) + rest;
    assert(b.take(8) =~= spec_u64_to_le_bytes(x));
    assert(b.skip(8) =~= rest);
}

/// A buffer that starts with the encoding of a leaf list parses back to
/// that list.
proof fn lemma_parse_leaves_prepend(leaves: Seq<Seq<u8>>, rest: Seq<u8>)
    requires
        forall|i: int| 0 <= i < leaves.len() ==> (#[trigger] leaves[i]).len() == DIGEST_LEN,
    ensures
        parse_leaves(encode_leaves(leaves) + rest, leaves.len() as int) == Some((leaves, rest)),
    decreases leaves.len(),
{
    let b = encode_leaves(leaves) + rest;
    if leaves.len() == 0 {
        assert(b =~= rest);
        assert(leaves =~= Seq::<Seq<u8>>::empty());
    } else {
        assert forall|i: int| 0 <= i < leaves.skip(1).len()
            implies (#[trigger] leaves.skip(1)[i]).len() == DIGEST_LEN by {
            assert(leaves.skip(1)[i] == leaves[i + 1]);
        }
        lemma_parse_leaves_prepend(leaves.skip(1), rest);
        assert(encode_leaves(leaves) == leaves[0] + encode_leaves(leaves.skip(1)));
        assert(leaves[0].len() == DIGEST_LEN);
        assert(b.take(DIGEST_LEN as int) =~= leaves[0]);
        assert(b.skip(DIGEST_LEN as int) =~= encode_leaves(leaves.skip(1)) + rest);
        assert(parse_leaves(b, leaves.len() as int)
            == Some((seq![b.take(DIGEST_LEN as int)] + leaves.skip(1), rest)));
        assert(seq![b.take(DIGEST_LEN as int)] + leaves.skip(1) =~= leaves);
    }
}

/// A buffer that starts with the encoding of a binding list parses back to
/// that list.
proof fn lemma_parse_entries_prepend(entries: Seq<(Seq<char>, int)>, rest: Seq<u8>)
    requires
        forall|i: int| 0 <= i < entries.len()
            ==> 0 <= (#[trigger] entries[i]).1 <= u64::MAX,
        forall|i: int| 0 <= i < entries.len()
            ==> encode_utf8((#[trigger] entries[i]).0).len() <= u64::MAX,
    ensures
        parse_entries(encode_entries(entries) + rest, entries.len() as int)
            == Some((entries, rest)),
    decreases entries.len(),
{
    let b = encode_entries(entries) + rest;
    if entries.len() == 0 {
        assert(b =~= rest);
        assert(entries =~= Seq::<(Seq<char>, int)>::empty());
    } else {
        assert forall|i: int| 0 <= i < entries.skip(1).len()
            implies 0 <= (#[trigger] entries.skip(1)[i]).1 <= u64::MAX
                && encode_utf8(entries.skip(1)[i].0).len() <= u64::MAX by {
            assert(entries.skip(1)[i] == entries[i + 1]);
        }
        lemma_parse_entries_prepend(entries.skip(1), rest);
        let e = entries[0];
        let kb = encode_utf8(e.0);
        let kl: u64 = kb.len() as u64;
        assert(encode_entries(entries) == encode_entry(e) + encode_entries(entries.skip(1)));
        let idx_and_on = spec_u64_to_le_bytes(e.1 as u64)
            + (encode_entries(entries.skip(1)) + rest);
        let tail1 = kb + idx_and_on;
        assert(b =~= spec_u64_to_le_bytes(kl) + tail1);
        lemma_take_u64_prepend(kl, tail1);
        assert(kl as int == kb.len());
        assert(tail1.take(kl as int) =~= kb);
        assert(tail1.skip(kl as int) =~= idx_and_on);
        encode_utf8_valid_utf8(e.0);
        encode_utf8_decode_utf8(e.0);
        lemma_take_u64_prepend(e.1 as u64, encode_entries(entries.skip(1)) + rest);
        assert((e.1 as u64) as int == e.1);
        assert(parse_entries(b, entries.len() as int)
            == Some((seq![(e.0, e.1)] + entries.skip(1), rest)));
        assert(seq![(e.0, e.1)] + entries.skip(1) =~= entries);
    }
}

/// Serialization round trip: decoding the canonical encoding of any
/// well-formed, machine-bounded index yields exactly that index.  Together
/// with [`encode_state`] and [`decode_state`] this pins the persisted state
/// format: equal indexes give byte-identical buffers, and those buffers
/// decode back to the same index.
pub proof fn lemma_decode_encode(v: MerkleStateView)
    requires
        v.wf(),
        v.bounded(),
    ensures
        spec_decode(spec_encode(v)) == Some(v),
{
    let b = spec_encode(v);
    let n1: u64 = v.leaves.len() as u64;
    let n2: u64 = v.key_indices.len() as u64;
    let entries_bytes = encode_entries(v.key_indices);
    let tail2 = spec_u64_to_le_bytes(n2) + entries_bytes;
    let tail1 = encode_leaves(v.leaves) + tail2;
    assert(b =~= spec_u64_to_le_bytes(n1) + tail1);
    lemma_take_u64_prepend(n1, tail1);
    assert(n1 as int == v.leaves.len());
    lemma_parse_leaves_prepend(v.leaves, tail2);
    assert(tail1 == encode_leaves(v.leaves) + tail2);
    lemma_take_u64_prepend(n2, entries_bytes);
    assert(n2 as int == v.key_indices.len());
    let empty_rest = Seq::<u8>::empty();
    assert(entries_bytes + empty_rest =~= entries_bytes);
    assert forall|i: int| 0 <= i < v.key_indices.len()
        implies 0 <= (#[trigger] v.key_indices[i]).1 <= u64::MAX by {
        assert(v.key_indices[i].1 < v.leaves.len());
    }
    lemma_parse_entries_prepend(v.key_indices, empty_rest);
    assert(MerkleStateView { leaves: v.leaves, key_indices: v.key_indices } =~= v);
    assert(spec_decode(b) == Some(v));
}

/// No index serializes to an empty buffer: the two count fields alone
/// take sixteen bytes.  An empty buffer therefore always means "bootstrap
/// fresh", never an encoded index.
pub proof fn lemma_encode_nonempty(v: MerkleStateView)
    ensures
        spec_encode(v).len() >= 16,
{
    lemma_auto_spec_u64_to_from_le_bytes();
}

/// Every key parsed out of a binding list re-encodes to at most `u64::MAX`
/// bytes, since its length was read from a `u64` field.
proof fn lemma_parse_entries_key_bounds(b: Seq<u8>, n: int, i: int)
    requires
        parse_entries(b, n) is Some,
        0 <= i < parse_entries(b, n)->Some_0.0.len(),
    ensures
        encode_utf8(parse_entries(b, n)->Some_0.0[i].0).len() <= u64::MAX,
    decreases n,
{
    let (kl, b1) = take_u64(b)->Some_0;
    let key = decode_utf8(b1.take(kl));
    let (idx, b2) = take_u64(b1.skip(kl))->Some_0;
    if i == 0 {
        vstd::utf8::decode_utf8_encode_utf8(b1.take(kl));
        assert(encode_utf8(key) == b1.take(kl));
        assert(b1.take(kl).len() == kl);
        assert(kl <= u64::MAX) by {
            lemma_auto_spec_u64_to_from_le_bytes();
        }
    } else {
        lemma_parse_entries_key_bounds(b2, n - 1, i - 1);
        let p = parse_entries(b2, n - 1)->Some_0;
        assert(parse_entries(b, n)->Some_0.0[i] == p.0[i - 1]);
    }
}

} // verus!

