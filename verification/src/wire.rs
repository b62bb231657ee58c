//! Textual encodings used at the command-line and transport boundary:
//! the tagged JSON command shape, decimal numbers, and the base64
//! transport form of an inclusion proof's sibling path.

use vstd::prelude::*;
use vstd::string::StringExecFns;

use crate::codec::encode_leaves;
use crate::index::str_eq;
use crate::tree::InclusionProof;

verus! {

/// The text that standard base64 produces for the given bytes.
///
/// The text is a function of the bytes alone, so it can be given a name;
/// nothing in this crate claims what the text of any particular input is.
pub uninterp spec fn base64_of(bytes: Seq<u8>) -> Seq<char>;

/// Encodes bytes as standard base64 text with padding.
///
/// Relies on `base64`'s `STANDARD` engine: the text depends on the input
/// bytes alone, four characters for every three input bytes begun.
#[verifier::external_body]
fn bytes_to_base64(bytes: &[u8]) -> (r: String)
    ensures
        r@ == base64_of(bytes@),
        r@.len() == ((bytes@.len() + 2) / 3) * 4,
{
    base64::Engine::encode(&base64::engine::general_purpose::STANDARD, bytes)
}

/// The wire bytes of an inclusion proof's sibling path: the sibling
/// hashes concatenated in bottom-up order.
pub fn proof_path_bytes(proof: &InclusionProof) -> (r: Vec<u8>)
    ensures
        r@ == encode_leaves(proof.siblings.deep_view()),
{
    let ghost sdv = proof.siblings.deep_view();
    let mut out: Vec<u8> = Vec::new();
    let n = proof.siblings.len();
    let mut i: usize = 0;
    proof {
        assert(sdv.take(0) =~= Seq::<Seq<u8>>::empty());
        assert(out@ =~= encode_leaves(sdv.take(0)));
    }
    while i < n
        invariant
            n == proof.siblings@.len(),
            sdv == proof.siblings.deep_view(),
            sdv.len() == n,
            0 <= i <= n,
            out@ == encode_leaves(sdv.take(i as int)),
        decreases n - i,
    {
        out.extend_from_slice(proof.siblings[i].as_slice());
        proof {
            crate::codec::lemma_encode_leaves_snoc(sdv.take(i as int), sdv[i as int]);
            assert(sdv.take(i + 1) =~= sdv.take(i as int).push(sdv[i as int]));
            assert(out@ =~= encode_leaves(sdv.take(i + 1)));
        }
        i = i + 1;
    }
    assert(sdv.take(n as int) =~= sdv);
    out
}

/// The base64 transport form of an inclusion proof's sibling path.
pub fn proof_path_base64(proof: &InclusionProof) -> (r: String)
    ensures
        r@ == base64_of(encode_leaves(proof.siblings.deep_view())),
{
    let bytes = proof_path_bytes(proof);
    bytes_to_base64(bytes.as_slice())
}

/// The decimal digit character for `d`.
pub open spec fn dec_digit(d: int) -> char
    recommends
        0 <= d < 10,
{
    seq!['0', '1', '2', '3', '4', '5', '6', '7', '8', '9'][d]
}

/// The decimal text of a non-negative number, most significant digit
/// first, no leading zeros (a single zero for zero).
pub open spec fn dec_str(n: int) -> Seq<char>
    recommends
        n >= 0,
    decreases n,
{
    if n < 10 {
        seq![dec_digit(n)]
    } else {
        dec_str(n / 10) + seq![dec_digit(n % 10)]
    }
}

/// The one-character string of a single decimal digit.
fn digit_string(d: usize) -> (s: String)
    requires
        d < 10,
    ensures
        s@ == seq![dec_digit(d as int)],
{
    proof {
        reveal_strlit("0");
        reveal_strlit("1");
        reveal_strlit("2");
        reveal_strlit("3");
        reveal_strlit("4");
        reveal_strlit("5");
        reveal_strlit("6");
        reveal_strlit("7");
        reveal_strlit("8");
        reveal_strlit("9");
    }
    let text: &str = if d == 0 {
        "0"
    } else if d == 1 {
        "1"
    } else if d == 2 {
        "2"
    } else if d == 3 {
        "3"
    } else if d == 4 {
        "4"
    } else if d == 5 {
        "5"
    } else if d == 6 {
        "6"
    } else if d == 7 {
        "7"
    } else if d == 8 {
        "8"
    } else {
        "9"
    };
    let s = text.to_owned();
    assert(s@ =~= seq![dec_digit(d as int)]);
    s
}

/// The decimal text of a number.
pub fn usize_to_string(n: usize) -> (s: String)
    ensures
        s@ == dec_str(n as int),
    decreases n,
{
    if n < 10 {
        digit_string(n)
    } else {
        let mut s = usize_to_string(n / 10);
        let last = digit_string(n % 10);
        s.append(last.as_str());
        s
    }
}

/// The tagged JSON text of the `i`-th benchmark command: an insert of
/// (`key<i>`, `value<i>`), or a query or proof request for `key<i>`,
/// each with a null state.
pub open spec fn command_text(op: Seq<char>, i: int) -> Seq<char> {
    if op == "insert"@ {
        "{\"command\": \"insert\", \"params\": {\"key\": \"key"@ + dec_str(i)
            + "\", \"value\": \"value"@ + dec_str(i) + "\"}, \"state\": null}"@
    } else {
        "{\"command\": \""@ + op + "\", \"params\": {\"key\": \"key"@ + dec_str(i)
            + "\"}, \"state\": null}"@
    }
}

/// Builds the tagged JSON command text for one benchmark operation.
pub fn create_command(operation: &str, i: usize) -> (r: String)
    requires
        operation@ == "insert"@ || operation@ == "query"@ || operation@ == "prove"@,
    ensures
        r@ == command_text(operation@, i as int),
{
    let num = usize_to_string(i);
    let mut s: String;
    if str_eq(operation, "insert") {
        s = "{\"command\": \"insert\", \"params\": {\"key\": \"key".to_owned();
        s.append(num.as_str());
        s.append("\", \"value\": \"value");
        s.append(num.as_str());
        s.append("\"}, \"state\": null}");
    } else {
        s = "{\"command\": \"".to_owned();
        s.append(operation);
        s.append("\", \"params\": {\"key\": \"key");
        s.append(num.as_str());
        s.append("\"}, \"state\": null}");
    }
    assert(s@ =~= command_text(operation@, i as int));
    s
}

} // verus!
