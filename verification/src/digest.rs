//! Content fingerprints: SHA-256 digests rendered as lowercase hex.
use vstd::prelude::*;
use crate::text::{push_char, Str};

verus! {

/// The SHA-256 digest of a byte string.
pub uninterp spec fn sha256_of(data: Seq<u8>) -> Seq<u8>;

/// Calls `sha2::Sha256::digest` (the `sha2::Digest` trait) on `data`.
/// Claimed: the result is the digest `sha256_of(data)`, and it is 32 bytes
/// long, the output size of SHA-256.
#[verifier::external_body]
fn sha256(data: &[u8]) -> (r: Vec<u8>)
    ensures
        r@ == sha256_of(data@),
        r@.len() == 32,
{
    <sha2::Sha256 as sha2::Digest>::digest(data).to_vec()
}

/// The lowercase hex digit of a value below sixteen.
pub open spec fn hex_digit(d: nat) -> char {
    if d < 10 {
        (('0' as nat) + d) as char
    } else {
        (('a' as nat) + d - 10) as char
    }
}

/// Two lowercase hex digits per byte, most significant first.
pub open spec fn hex(bytes: Seq<u8>) -> Str
    decreases bytes.len(),
{
    if bytes.len() == 0 {
        seq![]
    } else {
        hex(bytes.drop_last()) + seq![
            hex_digit((bytes.last() / 16) as nat),
            hex_digit((bytes.last() % 16) as nat),
        ]
    }
}

/// A lowercase hex digit character.
pub open spec fn is_hex_char(c: char) -> bool {
    ('0' <= c && c <= '9') || ('a' <= c && c <= 'f')
}

/// Hex text is two lowercase hex digits per byte.
pub proof fn lemma_hex_shape(bytes: Seq<u8>)
    ensures
        hex(bytes).len() == 2 * bytes.len(),
        forall|i: int| 0 <= i < hex(bytes).len() ==> is_hex_char(#[trigger] hex(bytes)[i]),
    decreases bytes.len(),
{
    if bytes.len() > 0 {
        lemma_hex_shape(bytes.drop_last());
        let b = bytes.last();
        let hi = hex_digit((b / 16) as nat);
        let lo = hex_digit((b % 16) as nat);
        assert(is_hex_char(hi) && is_hex_char(lo));
        let h = hex(bytes.drop_last());
        assert forall|i: int| 0 <= i < hex(bytes).len() implies is_hex_char(#[trigger] hex(bytes)[i]) by {
            if i < h.len() {
                assert(hex(bytes)[i] == h[i]);
            }
        }
    }
}

fn hex_char(d: u8) -> (c: char)
    requires
        d < 16,
    ensures
        c == hex_digit(d as nat),
{
    let table: [char; 16] = [
        '0', '1', '2', '3', '4', '5', '6', '7', '8', '9', 'a', 'b', 'c', 'd', 'e', 'f',
    ];
    let c = table[d as usize];
    proof {
        assert(table@ =~= seq![
            '0', '1', '2', '3', '4', '5', '6', '7', '8', '9', 'a', 'b', 'c', 'd', 'e', 'f',
        ]);
    }
    c
}

/// Renders bytes as lowercase hex, two digits per byte.
pub fn hex_lower(bytes: &Vec<u8>) -> (s: String)
    ensures
        s@ == hex(bytes@),
{
    let mut s = String::new();
    let mut i: usize = 0;
    while i < bytes.len()
        invariant
            0 <= i <= bytes@.len(),
            s@ == hex(bytes@.take(i as int)),
        decreases bytes@.len() - i,
    {
        let b = bytes[i];
        proof {
            assert(bytes@.take(i + 1).drop_last() =~= bytes@.take(i as int));
        }
        push_char(&mut s, hex_char(b / 16));
        push_char(&mut s, hex_char(b % 16));
        proof {
            assert(s@ =~= hex(bytes@.take(i as int)) + seq![
                hex_digit((b / 16) as nat),
                hex_digit((b % 16) as nat),
            ]);
        }
        i = i + 1;
    }
    proof {
        assert(bytes@.take(bytes@.len() as int) =~= bytes@);
    }
    s
}

/// The fingerprint of a byte string: its SHA-256 digest in lowercase hex.
pub fn fingerprint_of(data: &[u8]) -> (s: String)
    ensures
        s@ == hex(sha256_of(data@)),
        s@.len() == 64,
        forall|i: int| 0 <= i < s@.len() ==> is_hex_char(#[trigger] s@[i]),
{
    let digest = sha256(data);
    proof {
        lemma_hex_shape(digest@);
    }
    hex_lower(&digest)
}

} // verus!
