//! Fixed-size hash digests and the binding to SHA-256.
//!
//! Every value committed to the authenticated index is represented by its
//! 32-byte SHA-256 digest.  The hash function itself lives in an outside
//! crate; its result is named by the uninterpreted function [`sha256_of`],
//! and everything the library proves about hashes is relative to that name.

use vstd::prelude::*;

verus! {

/// The bytes that SHA-256 produces for the given input bytes.
///
/// The digest is a pure function of the input alone, so it can be given a
/// name; nothing in this crate claims what the digest of any particular
/// input is.
pub uninterp spec fn sha256_of(bytes: Seq<u8>) -> Seq<u8>;

/// Number of bytes in a SHA-256 digest.
pub const DIGEST_LEN: usize = 32;

/// A 32-byte hash digest.
pub struct Digest {
    bytes: Vec<u8>,
}

impl View for Digest {
    type V = Seq<u8>;

    closed spec fn view(&self) -> Seq<u8> {
        self.bytes@
    }
}

impl DeepView for Digest {
    type V = Seq<u8>;

    open spec fn deep_view(&self) -> Seq<u8> {
        self.view()
    }
}

impl Digest {
    /// Every digest holds exactly 32 bytes.
    pub open spec fn wf(&self) -> bool {
        self@.len() == DIGEST_LEN
    }

    /// Wraps a byte vector known to have digest length.
    pub fn from_vec(bytes: Vec<u8>) -> (r: Digest)
        requires
            bytes@.len() == DIGEST_LEN,
        ensures
            r@ == bytes@,
            r.wf(),
    {
        Digest { bytes }
    }

    /// Wraps a byte vector, rejecting one of the wrong length.
    pub fn from_bytes(bytes: Vec<u8>) -> (r: Option<Digest>)
        ensures
            match r {
                Some(d) => d@ == bytes@ && d.wf(),
                None => bytes@.len() != DIGEST_LEN,
            },
    {
        if bytes.len() == DIGEST_LEN {
            Some(Digest { bytes })
        } else {
            None
        }
    }

    /// The digest's bytes.
    pub fn as_slice(&self) -> (r: &[u8])
        ensures
            r@ == self@,
    {
        self.bytes.as_slice()
    }

    /// An owned copy of the digest.
    pub fn dup(&self) -> (r: Digest)
        ensures
            r@ == self@,
            self.wf() ==> r.wf(),
    {
        Digest { bytes: vstd::slice::slice_to_vec(self.bytes.as_slice()) }
    }

    /// Byte-for-byte comparison with another digest.
    pub fn same_as(&self, other: &Digest) -> (r: bool)
        ensures
            r == (self@ == other@),
    {
        if self.bytes.len() != other.bytes.len() {
            assert(self@.len() != other@.len());
            return false;
        }
        let n = self.bytes.len();
        let mut i: usize = 0;
        while i < n
            invariant
                n == self@.len() == other@.len(),
                0 <= i <= n,
                forall|j: int| 0 <= j < i ==> self@[j] == other@[j],
            decreases n - i,
        {
            if self.bytes[i] != other.bytes[i] {
                assert(self@[i as int] != other@[i as int]);
                return false;
            }
            i = i + 1;
        }
        assert(self@ =~= other@);
        true
    }
}

/// Hashes arbitrary bytes to their 32-byte digest.
///
/// Relies on `sha2::Sha256`: the digest of the input bytes, 32 bytes long.
#[verifier::external_body]
pub fn hash_bytes(input: &[u8]) -> (r: Digest)
    ensures
        r@ == sha256_of(input@),
        r.wf(),
{
    let h = <sha2::Sha256 as sha2::Digest>::digest(input);
    Digest { bytes: h.to_vec() }
}

/// The lowercase hexadecimal character for a nibble.
pub open spec fn hex_digit(n: int) -> char
    recommends
        0 <= n < 16,
{
    seq!['0', '1', '2', '3', '4', '5', '6', '7', '8', '9', 'a', 'b', 'c', 'd', 'e', 'f'][n]
}

/// Lowercase hexadecimal text for a byte sequence: for each byte, the
/// character of its high nibble and then of its low nibble.
pub open spec fn hex_of(bytes: Seq<u8>) -> Seq<char> {
    Seq::new(2 * bytes.len(), |i: int| hex_digit(
        if i % 2 == 0 { bytes[i / 2] / 16 } else { bytes[i / 2] % 16 } as int,
    ))
}

/// Encodes bytes as lowercase hexadecimal text.
///
/// Relies on `hex::encode`: two lowercase hex digits per input byte, high
/// nibble first, from the table `0123456789abcdef`.
#[verifier::external_body]
pub fn bytes_to_hex(bytes: &[u8]) -> (r: String)
    ensures
        r@ == hex_of(bytes@),
{
    hex::encode(bytes)
}

impl Digest {
    /// The digest rendered as 64 lowercase hexadecimal characters.
    pub fn to_hex(&self) -> (r: String)
        ensures
            r@ == hex_of(self@),
    {
        bytes_to_hex(self.bytes.as_slice())
    }
}

} // verus!
