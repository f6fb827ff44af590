//! Short identifiers for downloaded resources.
use crate::mp4::hex::{hex_char, hex_text};
use vstd::prelude::*;

verus! {

/// What `blake3::hash` computes of its input: the digest's bytes.
pub uninterp spec fn blake3_hash(input: Seq<u8>) -> Seq<u8>;

/// Hashes bytes with `blake3::hash` and hands back the digest's bytes.
///
/// Claims that the result is the named digest of the input and that it has
/// `blake3::OUT_LEN` (32) bytes; which bytes they are is left to the name.
#[verifier::external_body]
fn blake3_digest(input: &[u8]) -> (d: Vec<u8>)
    ensures
        d@ == blake3_hash(input@),
        d@.len() == 32,
{
    blake3::hash(input).as_bytes().to_vec()
}

/// The text an identifier is hashed from: the base URL, `+`, then the resource's URI.
pub open spec fn id_source(base_url: Seq<char>, uri: Seq<char>) -> Seq<char> {
    base_url + seq!['+'] + uri
}

/// The identifier of a resource: the first seven lower-case hexadecimal digits of the
/// BLAKE3 digest of the UTF-8 bytes of its source text.
pub open spec fn gen_id_spec(base_url: Seq<char>, uri: Seq<char>) -> Seq<char> {
    hex_text(blake3_hash(vstd::utf8::encode_utf8(id_source(base_url, uri)))).take(7)
}

/// A short identifier for the resource `uri` under `base_url`: seven hexadecimal digits
/// of a BLAKE3 digest of both.
pub fn gen_id(base_url: &str, uri: &str) -> (id: String)
    ensures
        id@ == gen_id_spec(base_url@, uri@),
        id@.len() == 7,
{
    let mut source = String::from_str(base_url);
    source.append("+");
    source.append(uri);
    proof {
        reveal_strlit("+");
        assert(source@ =~= id_source(base_url@, uri@));
    }
    let digest = blake3_digest(source.as_str().as_bytes());
    let digits = "0123456789abcdef";
    proof {
        reveal_strlit("0123456789abcdef");
    }
    let mut id = String::new();
    let mut i: usize = 0;
    while i < 7
        invariant
            i <= 7,
            digest@.len() == 32,
            digits@ == "0123456789abcdef"@,
            digits@.len() == 16,
            forall|v: int| 0 <= v < 16 ==> #[trigger] digits@[v] == hex_char(v),
            id@ =~= hex_text(digest@).take(i as int),
        decreases 7 - i,
    {
        let b = digest[i / 2];
        let v: usize = if i % 2 == 0 {
            (b / 16) as usize
        } else {
            (b % 16) as usize
        };
        let digit = digits.substring_char(v, v + 1);
        id.append(digit);
        proof {
            assert(digit@ =~= seq![hex_char(v as int)]);
            assert(id@ =~= hex_text(digest@).take(i + 1));
        }
        i += 1;
    }
    id
}

} // verus!
