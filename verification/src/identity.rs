//! Content identity: the SHA-256 digest of a file, in hexadecimal.

use sha2::{Digest, Sha256};
use vstd::prelude::*;
use vstd::string::*;

verus! {

/// The SHA-256 digest of a content.
pub uninterp spec fn sha256_digest(content: Seq<u8>) -> Seq<u8>;

/// The lower-case hexadecimal digit of a number below 16.
pub open spec fn hex_digit(n: nat) -> char {
    if n < 10 {
        (('0' as u32) + n) as char
    } else {
        (('a' as u32) + (n - 10)) as char
    }
}

/// Bytes in lower-case hexadecimal, the high half of each first.
pub open spec fn lower_hex(bytes: Seq<u8>) -> Seq<char> {
    Seq::new(
        2 * bytes.len(),
        |i: int|
            hex_digit(
                if i % 2 == 0 {
                    bytes[i / 2] as nat / 16
                } else {
                    bytes[i / 2] as nat % 16
                },
            ),
    )
}

/// The identity of a content.
pub open spec fn identity_of(content: Seq<u8>) -> Seq<char> {
    lower_hex(sha256_digest(content))
}

/// Whether a content is short enough for its length in bits to be counted in 64 bits.
pub open spec fn countable(content: Seq<u8>) -> bool {
    content.len() < 0x2000_0000_0000_0000
}

/// Whether a character is a hexadecimal digit of either case.
pub open spec fn hexadecimal(c: char) -> bool {
    '0' <= c <= '9' || 'a' <= c <= 'f' || 'A' <= c <= 'F'
}

/// Whether a text has the form of a content identity.
pub open spec fn well_formed_hash(hash: Seq<char>) -> bool {
    hash.len() == 64 && forall|i: int| 0 <= i < 64 ==> hexadecimal(#[trigger] hash[i])
}

/// `sha2::Sha256::digest`: gives the SHA-256 digest of its argument, which depends on the
/// argument alone and has 32 bytes.  The length of the argument in bits has to fit in 64
/// bits, because it is part of what is digested.
#[verifier::external_body]
fn sha256(content: &[u8]) -> (digest: Vec<u8>)
    requires
        countable(content@),
    ensures
        digest@ == sha256_digest(content@),
        digest@.len() == 32,
{
    Sha256::digest(content).to_vec()
}

/// `hex::encode`: gives two lower-case hexadecimal digits for each byte, in order.
#[verifier::external_body]
fn encode_hex(bytes: &[u8]) -> (text: String)
    requires
        bytes@.len() * 2 <= usize::MAX,
    ensures
        text@ == lower_hex(bytes@),
{
    hex::encode(bytes)
}

/// The identity of a content.
pub fn content_identity(content: &[u8]) -> (hash: String)
    requires
        countable(content@),
    ensures
        hash@ == identity_of(content@),
        well_formed_hash(hash@),
{
    let digest: Vec<u8> = sha256(content);
    let hash: String = encode_hex(digest.as_slice());
    assert forall|i: int| 0 <= i < 64 implies hexadecimal(#[trigger] hash@[i]) by {
        let byte = digest@[i / 2];
        assert(hash@[i] == hex_digit(
            if i % 2 == 0 {
                byte as nat / 16
            } else {
                byte as nat % 16
            },
        ));
    }
    hash
}

/// Whether a text has the form of a content identity: 64 hexadecimal digits.
pub fn valid_hash(hash: &str) -> (r: bool)
    ensures
        r == well_formed_hash(hash@),
{
    if !hash.is_ascii() {
        proof {
            if well_formed_hash(hash@) {
                assert(forall|i: int| 0 <= i < hash@.len() ==> hexadecimal(#[trigger] hash@[i]));
            }
        }
        return false;
    }
    if hash.unicode_len() != 64 {
        return false;
    }
    let mut i: usize = 0;
    while i < 64
        invariant
            i <= 64,
            hash.is_ascii(),
            hash@.len() == 64,
            forall|j: int| 0 <= j < i ==> hexadecimal(#[trigger] hash@[j]),
        decreases 64 - i,
    {
        let b: u8 = hash.get_ascii(i);
        if !((0x30 <= b && b <= 0x39) || (0x61 <= b && b <= 0x66) || (0x41 <= b && b <= 0x46)) {
            return false;
        }
        i = i + 1;
    }
    true
}

/// The number that a lower-case hexadecimal digit gives, or none.
pub open spec fn digit_value(c: char) -> Option<int> {
    if 48 <= c <= 57 {
        Some(c as int - 48)
    } else if 97 <= c <= 102 {
        Some(c as int - 87)
    } else {
        None
    }
}

/// A content identity gives the digest of the content again: the bytes in order, two
/// lower-case digits each, the higher one first.
pub proof fn law_identity_gives_the_digest(content: Seq<u8>, i: int)
    ensures
        identity_of(content).len() == 2 * sha256_digest(content).len(),
        0 <= i < sha256_digest(content).len() ==> {
            &&& digit_value(identity_of(content)[2 * i]) matches Some(high)
            &&& digit_value(identity_of(content)[2 * i + 1]) matches Some(low)
            &&& 16 * high + low == sha256_digest(content)[i]
        },
{
    if 0 <= i < sha256_digest(content).len() {
        let byte = sha256_digest(content)[i] as nat;
        assert((2 * i) / 2 == i && (2 * i) % 2 == 0);
        assert((2 * i + 1) / 2 == i && (2 * i + 1) % 2 == 1);
        assert(identity_of(content)[2 * i] == hex_digit(byte / 16));
        assert(identity_of(content)[2 * i + 1] == hex_digit(byte % 16));
    }
}

/// A text has the form of a content identity where it has 64 characters and each is one of
/// the 22 hexadecimal digits.
pub proof fn law_form_of_identities(hash: Seq<char>)
    ensures
        well_formed_hash(hash) <==> {
            &&& hash.len() == 64
            &&& forall|i: int|
                0 <= i < 64 ==> "0123456789abcdefABCDEF"@.contains(#[trigger] hash[i])
        },
{
    let all = "0123456789abcdefABCDEF"@;
    reveal_strlit("0123456789abcdefABCDEF");
    if hash.len() == 64 {
        assert forall|i: int| 0 <= i < 64 implies hexadecimal(#[trigger] hash[i])
            == all.contains(hash[i]) by {
            lemma_hexadecimal(hash[i]);
        }
        if well_formed_hash(hash) {
            assert forall|i: int| 0 <= i < 64 implies all.contains(#[trigger] hash[i]) by {
                assert(hexadecimal(hash[i]));
            }
        } else {
            let i = choose|i: int| 0 <= i < 64 && !hexadecimal(#[trigger] hash[i]);
            assert(!all.contains(hash[i]));
        }
    }
}

/// The hexadecimal digits, one by one.
proof fn lemma_hexadecimal(c: char)
    ensures
        hexadecimal(c) == "0123456789abcdefABCDEF"@.contains(c),
{
    reveal_strlit("0123456789abcdefABCDEF");
    let all = "0123456789abcdefABCDEF"@;
    if 48 <= c <= 57 {
        assert(all[c as int - 48] == c);
    } else if 97 <= c <= 102 {
        assert(all[c as int - 87] == c);
    } else if 65 <= c <= 70 {
        assert(all[c as int - 49] == c);
    }
}

} // verus!
