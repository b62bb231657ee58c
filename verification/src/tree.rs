//! The Merkle tree over the ordered sequence of leaf digests.
//!
//! The tree is rebuilt on demand from the full leaf sequence.  Construction
//! is order-sensitive: nodes are paired from the left and hashed bottom-up,
//! and an odd node at the end of a level is promoted unchanged to the next
//! level (it is not duplicated).  That odd-node policy is fixed here once and
//! shared by root computation, proof construction and proof checking, since
//! recomputing a root from an inclusion proof depends on the exact policy.

use vstd::prelude::*;

use crate::digest::{hash_bytes, sha256_of, Digest};

verus! {

/// Hash of an interior node: SHA-256 of the left child's bytes followed by
/// the right child's bytes.
pub open spec fn hash_node(left: Seq<u8>, right: Seq<u8>) -> Seq<u8> {
    sha256_of(left + right)
}

/// One level up from `level`: nodes are paired from the left and each pair
/// is hashed; a lone node at the end is promoted unchanged.
pub open spec fn next_level(level: Seq<Seq<u8>>) -> Seq<Seq<u8>>
    decreases level.len(),
{
    if level.len() <= 1 {
        level
    } else {
        seq![hash_node(level[0], level[1])] + next_level(level.skip(2))
    }
}

/// A level of `n` nodes shrinks to `(n + 1) / 2` nodes.
pub proof fn lemma_next_level_len(level: Seq<Seq<u8>>)
    ensures
        next_level(level).len() == (level.len() + 1) / 2,
    decreases level.len(),
{
    if level.len() > 1 {
        lemma_next_level_len(level.skip(2));
    }
}

/// The node at position `j` one level up is the hash of the nodes at
/// positions `2j` and `2j + 1`, or the promoted node at `2j` if it has no
/// right neighbour.
pub proof fn lemma_next_level_index(level: Seq<Seq<u8>>, j: int)
    requires
        level.len() >= 2,
        0 <= j < (level.len() + 1) / 2,
    ensures
        next_level(level)[j] == if 2 * j + 1 < level.len() {
            hash_node(level[2 * j], level[2 * j + 1])
        } else {
            level[2 * j]
        },
    decreases j,
{
    lemma_next_level_len(level);
    if j > 0 {
        let rest = level.skip(2);
        lemma_next_level_len(rest);
        if rest.len() >= 2 {
            lemma_next_level_index(rest, j - 1);
        }
        assert(next_level(level)[j] == next_level(rest)[j - 1]);
    }
}

/// The root of a non-empty level: hash levels upwards until one node is
/// left.
pub open spec fn root_of_level(level: Seq<Seq<u8>>) -> Seq<u8>
    recommends
        level.len() >= 1,
    decreases level.len(),
    via root_of_level_decreases
{
    if level.len() <= 1 {
        level[0]
    } else {
        root_of_level(next_level(level))
    }
}

#[via_fn]
proof fn root_of_level_decreases(level: Seq<Seq<u8>>) {
    if level.len() > 1 {
        lemma_next_level_len(level);
    }
}

/// The sibling hashes met on the way from leaf position `i` up to the root,
/// in bottom-up order.  At a level where the node has no sibling (the
/// promoted odd node) nothing is recorded.
pub open spec fn path_siblings(level: Seq<Seq<u8>>, i: int) -> Seq<Seq<u8>>
    recommends
        0 <= i < level.len(),
    decreases level.len(),
    via path_siblings_decreases
{
    if level.len() <= 1 {
        Seq::empty()
    } else {
        let local = if i % 2 == 0 {
            if i + 1 < level.len() {
                seq![level[i + 1]]
            } else {
                Seq::empty()
            }
        } else {
            seq![level[i - 1]]
        };
        local + path_siblings(next_level(level), i / 2)
    }
}

#[via_fn]
proof fn path_siblings_decreases(level: Seq<Seq<u8>>, i: int) {
    if level.len() > 1 {
        lemma_next_level_len(level);
    }
}

/// The number of siblings an inclusion proof for position `i` in a level of
/// width `w` carries.
pub open spec fn proof_len(i: int, w: int) -> int
    recommends
        0 <= i < w,
    decreases w,
{
    if w <= 1 {
        0
    } else {
        (if i % 2 == 0 && i + 1 >= w {
            0int
        } else {
            1int
        }) + proof_len(i / 2, (w + 1) / 2)
    }
}

/// Recomputes a root from a leaf hash, its position, the sibling hashes in
/// bottom-up order and the width of the leaf level.  At each level the
/// current hash is combined with the next sibling on the side its position
/// dictates, or promoted when it has none; a missing sibling leaves the
/// running hash unchanged.
pub open spec fn climb(h: Seq<u8>, i: int, sibs: Seq<Seq<u8>>, w: int) -> Seq<u8>
    recommends
        0 <= i < w,
    decreases w,
{
    if w <= 1 {
        h
    } else if i % 2 == 0 && i + 1 >= w {
        climb(h, i / 2, sibs, (w + 1) / 2)
    } else if sibs.len() == 0 {
        h
    } else {
        let up = if i % 2 == 0 {
            hash_node(h, sibs[0])
        } else {
            hash_node(sibs[0], h)
        };
        climb(up, i / 2, sibs.skip(1), (w + 1) / 2)
    }
}

/// A proof for position `i` in a level of width `w` has exactly
/// `proof_len(i, w)` siblings.
pub proof fn lemma_path_siblings_len(level: Seq<Seq<u8>>, i: int)
    requires
        0 <= i < level.len(),
    ensures
        path_siblings(level, i).len() == proof_len(i, level.len() as int),
    decreases level.len(),
{
    if level.len() > 1 {
        lemma_next_level_len(level);
        lemma_path_siblings_len(next_level(level), i / 2);
    }
}

/// Proof validity: recomputing the root from a leaf's hash and the sibling
/// hashes produced for it — under the fixed odd-node policy — yields exactly
/// the root computed from the full level.  This holds for every position of
/// every non-empty level.
pub proof fn lemma_path_reconstructs(level: Seq<Seq<u8>>, i: int)
    requires
        0 <= i < level.len(),
    ensures
        climb(level[i], i, path_siblings(level, i), level.len() as int)
            == root_of_level(level),
    decreases level.len(),
{
    if level.len() <= 1 {
    } else {
        let w = level.len() as int;
        let nl = next_level(level);
        lemma_next_level_len(level);
        lemma_next_level_index(level, i / 2);
        lemma_path_reconstructs(nl, i / 2);
        let sibs = path_siblings(level, i);
        let rest = path_siblings(nl, i / 2);
        if i % 2 == 0 && i + 1 >= w {
            assert(sibs =~= rest);
            assert(nl[i / 2] == level[i]);
        } else {
            assert(sibs.skip(1) =~= rest);
            if i % 2 == 0 {
                assert(sibs[0] == level[i + 1]);
                assert(2 * (i / 2) == i);
                assert(nl[i / 2] == hash_node(level[i], level[i + 1]));
            } else {
                assert(sibs[0] == level[i - 1]);
                assert(2 * (i / 2) == i - 1);
                assert(nl[i / 2] == hash_node(level[i - 1], level[i]));
            }
        }
    }
}

/// An inclusion proof: the tree root, the target leaf's position and hash,
/// and the sibling hashes in bottom-up order.
pub struct InclusionProof {
    pub root: Digest,
    pub leaf_index: usize,
    pub leaf_hash: Digest,
    pub siblings: Vec<Digest>,
}

impl InclusionProof {
    /// The proof fits the level width it claims to prove against.
    pub open spec fn wf_for(&self, leaves: Seq<Seq<u8>>) -> bool {
        &&& self.leaf_index < leaves.len()
        &&& self.leaf_hash@ == leaves[self.leaf_index as int]
        &&& self.siblings.deep_view() == path_siblings(leaves, self.leaf_index as int)
        &&& self.root@ == root_of_level(leaves)
    }
}

/// A digest vector's element-wise view has one entry per element.
proof fn lemma_deep_view_len(v: &Vec<Digest>)
    ensures
        v.deep_view().len() == v@.len(),
{
}

/// Hashes two digests into their parent node.
pub fn hash_pair(left: &Digest, right: &Digest) -> (r: Digest)
    ensures
        r@ == hash_node(left@, right@),
        r.wf(),
{
    let mut buf: Vec<u8> = Vec::new();
    buf.extend_from_slice(left.as_slice());
    buf.extend_from_slice(right.as_slice());
    assert(buf@ =~= left@ + right@);
    hash_bytes(buf.as_slice())
}

/// Copies a vector of digests.
fn dup_digests(src: &Vec<Digest>) -> (r: Vec<Digest>)
    ensures
        r.deep_view() == src.deep_view(),
{
    let mut out: Vec<Digest> = Vec::new();
    let mut i: usize = 0;
    while i < src.len()
        invariant
            0 <= i <= src.len(),
            out@.len() == i,
            forall|k: int| 0 <= k < i ==> out.deep_view()[k] == src.deep_view()[k],
        decreases src.len() - i,
    {
        out.push(src[i].dup());
        i = i + 1;
    }
    assert(out.deep_view() =~= src.deep_view());
    out
}

/// Builds the level above `cur`.
fn level_up(cur: &Vec<Digest>) -> (r: Vec<Digest>)
    requires
        cur.len() >= 2,
    ensures
        r.deep_view() == next_level(cur.deep_view()),
{
    let ghost cdv = cur.deep_view();
    proof {
        lemma_next_level_len(cdv);
    }
    let mut out: Vec<Digest> = Vec::new();
    let mut j: usize = 0;
    while j + 1 < cur.len()
        invariant
            cur.len() >= 2,
            cdv == cur.deep_view(),
            j % 2 == 0,
            0 <= j <= cur.len(),
            next_level(cdv).len() == (cdv.len() + 1) / 2,
            out.deep_view().len() == j / 2,
            forall|k: int| 0 <= k < j / 2 ==> out.deep_view()[k] == next_level(cdv)[k],
        decreases cur.len() - j,
    {
        let h = hash_pair(&cur[j], &cur[j + 1]);
        out.push(h);
        proof {
            lemma_next_level_index(cdv, j as int / 2);
            assert(2 * (j as int / 2) == j as int);
        }
        j = j + 2;
    }
    if j < cur.len() {
        out.push(cur[j].dup());
        proof {
            lemma_next_level_index(cdv, j as int / 2);
            assert(2 * (j as int / 2) == j as int);
        }
    }
    assert(out.deep_view() =~= next_level(cdv));
    out
}

/// Computes the Merkle root of a non-empty leaf sequence.
pub fn compute_root(leaves: &Vec<Digest>) -> (r: Digest)
    requires
        leaves.len() >= 1,
    ensures
        r@ == root_of_level(leaves.deep_view()),
{
    let ghost ldv = leaves.deep_view();
    let mut cur = dup_digests(leaves);
    proof {
        lemma_deep_view_len(leaves);
        lemma_deep_view_len(&cur);
    }
    while cur.len() >= 2
        invariant
            cur.len() >= 1,
            cur.deep_view().len() == cur.len(),
            root_of_level(cur.deep_view()) == root_of_level(ldv),
        decreases cur.len(),
    {
        let next = level_up(&cur);
        proof {
            lemma_next_level_len(cur.deep_view());
            lemma_deep_view_len(&next);
        }
        cur = next;
    }
    cur[0].dup()
}

/// Builds the inclusion proof for the leaf at `index`: the sibling hashes in
/// bottom-up order together with the tree root.
pub fn build_path(leaves: &Vec<Digest>, index: usize) -> (r: (Vec<Digest>, Digest))
    requires
        index < leaves.len(),
    ensures
        r.0.deep_view() == path_siblings(leaves.deep_view(), index as int),
        r.1@ == root_of_level(leaves.deep_view()),
{
    let ghost ldv = leaves.deep_view();
    let mut cur = dup_digests(leaves);
    let mut idx: usize = index;
    let mut sibs: Vec<Digest> = Vec::new();
    proof {
        lemma_deep_view_len(leaves);
        lemma_deep_view_len(&cur);
    }
    while cur.len() >= 2
        invariant
            cur.deep_view().len() == cur.len(),
            idx < cur.len(),
            root_of_level(cur.deep_view()) == root_of_level(ldv),
            path_siblings(ldv, index as int)
                == sibs.deep_view() + path_siblings(cur.deep_view(), idx as int),
        decreases cur.len(),
    {
        let ghost cdv = cur.deep_view();
        let ghost sdv = sibs.deep_view();
        if idx % 2 == 0 {
            if idx + 1 < cur.len() {
                sibs.push(cur[idx + 1].dup());
            }
        } else {
            sibs.push(cur[idx - 1].dup());
        }
        let next = level_up(&cur);
        proof {
            lemma_next_level_len(cdv);
            lemma_deep_view_len(&next);
            assert(path_siblings(ldv, index as int)
                =~= sibs.deep_view() + path_siblings(next_level(cdv), idx as int / 2));
        }
        cur = next;
        idx = idx / 2;
    }
    proof {
        assert(path_siblings(cur.deep_view(), idx as int) =~= Seq::<Seq<u8>>::empty());
        assert(sibs.deep_view() =~= path_siblings(ldv, index as int));
    }
    (sibs, cur[0].dup())
}

/// Recomputes the root a proof commits to.
///
/// Returns the recomputed root exactly when the position lies inside the
/// claimed level width and the sibling count is the one the fixed odd-node
/// policy demands; returns nothing otherwise.
pub fn compute_root_from_proof(
    leaf_hash: &Digest,
    leaf_index: usize,
    siblings: &Vec<Digest>,
    leaf_count: usize,
) -> (r: Option<Digest>)
    ensures
        match r {
            Some(d) => {
                &&& leaf_index < leaf_count
                &&& siblings.deep_view().len() == proof_len(leaf_index as int, leaf_count as int)
                &&& d@ == climb(
                    leaf_hash@,
                    leaf_index as int,
                    siblings.deep_view(),
                    leaf_count as int,
                )
            },
            None => leaf_index >= leaf_count
                || siblings.deep_view().len() != proof_len(
                    leaf_index as int,
                    leaf_count as int,
                ),
        },
{
    if leaf_index >= leaf_count {
        return None;
    }
    let ghost sdv = siblings.deep_view();
    let mut h = leaf_hash.dup();
    let mut i: usize = leaf_index;
    let mut w: usize = leaf_count;
    let mut pos: usize = 0;
    proof {
        assert(sdv.skip(0) =~= sdv);
        assert(proof_len(leaf_index as int, leaf_count as int)
            == 0 + proof_len(leaf_index as int, leaf_count as int));
    }
    while w >= 2
        invariant
            i < w,
            pos <= siblings.len(),
            siblings.deep_view().len() == siblings.len(),
            sdv == siblings.deep_view(),
            climb(leaf_hash@, leaf_index as int, sdv, leaf_count as int)
                == climb(h@, i as int, sdv.skip(pos as int), w as int),
            proof_len(leaf_index as int, leaf_count as int)
                == pos + proof_len(i as int, w as int),
        decreases w,
    {
        let ghost sibs_here = sdv.skip(pos as int);
        if i % 2 == 0 && i + 1 >= w {
            // promoted odd node: no sibling at this level
        } else {
            if pos >= siblings.len() {
                proof {
                    lemma_proof_len_nonneg(i as int / 2, (w as int + 1) / 2);
                }
                return None;
            }
            let sib = &siblings[pos];
            assert(sibs_here[0] == sib@);
            if i % 2 == 0 {
                h = hash_pair(&h, sib);
            } else {
                h = hash_pair(sib, &h);
            }
            pos = pos + 1;
            assert(sdv.skip(pos as int) =~= sibs_here.skip(1));
        }
        i = i / 2;
        let half: usize = w / 2 + w % 2;
        assert(half == (w as int + 1) / 2);
        w = half;
    }
    if pos != siblings.len() {
        proof {
            lemma_proof_len_nonneg(i as int, w as int);
        }
        return None;
    }
    assert(sdv.skip(pos as int) =~= Seq::<Seq<u8>>::empty());
    Some(h)
}

/// A proof never has a negative sibling count.
proof fn lemma_proof_len_nonneg(i: int, w: int)
    ensures
        proof_len(i, w) >= 0,
    decreases w,
{
    if w > 1 {
        lemma_proof_len_nonneg(i / 2, (w + 1) / 2);
    }
}

} // verus!
