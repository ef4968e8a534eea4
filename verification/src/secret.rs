//! The process-wide key: the first bytes of the SHA-256 digest of a seed,
//! and its display as lowercase hexadecimal.

use crypto::digest::Digest;
use crypto::sha2::Sha256;
use vstd::prelude::*;
use vstd::string::{StringExecFns, StringSliceAdditionalSpecFns};

verus! {

/// The number of digest bytes that make up the secret.
pub const SECRET_LEN: usize = 16;

/// The SHA-256 digest of a message.
pub uninterp spec fn sha256(message: Seq<u8>) -> Seq<u8>;

/// The length from which on the digest's bit counter overflows.
pub open spec fn seed_limit() -> int {
    0x2000_0000_0000_0000
}

/// `Sha256::new`, `Digest::input` and `Digest::result` of the crypto
/// crate, on a buffer of `Digest::output_bytes` bytes: the 32 bytes of the
/// SHA-256 digest of `message`.  The message is short enough for its
/// length in bits to be counted.
#[verifier::external_body]
fn sha256_digest(message: &[u8]) -> (digest: Vec<u8>)
    requires
        message@.len() < seed_limit(),
    ensures
        digest@ == sha256(message@),
        digest@.len() == 32,
{
    let mut sha = Sha256::new();
    let mut digest = vec![0u8; sha.output_bytes()];
    sha.input(message);
    sha.result(&mut digest);
    digest
}

/// The secret within a digest: its first sixteen bytes, or all of it
/// where it has fewer.
pub open spec fn spec_secret_of_digest(digest: Seq<u8>) -> Seq<u8> {
    if digest.len() > SECRET_LEN {
        digest.take(SECRET_LEN as int)
    } else {
        digest
    }
}

/// The secret that belongs to a seed: the first sixteen bytes of the
/// SHA-256 digest of the seed's UTF-8 encoding.
pub open spec fn spec_secret(seed: &str) -> Seq<u8> {
    spec_secret_of_digest(sha256(seed.spec_bytes()))
}

/// Cuts a digest down to the secret.
pub fn secret_of_digest(digest: Vec<u8>) -> (secret: Vec<u8>)
    ensures
        secret@ == spec_secret_of_digest(digest@),
{
    let mut secret = digest;
    if secret.len() > SECRET_LEN {
        secret.truncate(SECRET_LEN);
    }
    secret
}

/// Derives the secret from the seed.  The same seed always gives the same
/// sixteen bytes.
pub fn derive_secret(seed: &str) -> (secret: Vec<u8>)
    requires
        seed.spec_bytes().len() < seed_limit(),
    ensures
        secret@ == spec_secret(seed),
        secret@.len() == SECRET_LEN,
{
    secret_of_digest(sha256_digest(seed.as_bytes()))
}

/// Secret determinism: seeds of the same characters have the same
/// secret, and the same display of it.
pub proof fn lemma_secret_is_determined(a: &str, b: &str)
    requires
        a@ == b@,
    ensures
        spec_secret(a) == spec_secret(b),
        spec_hex(spec_secret(a)) == spec_hex(spec_secret(b)),
{
}

/// The lowercase hexadecimal digit for a value below sixteen.
pub open spec fn hex_digit(n: int) -> char {
    seq!['0', '1', '2', '3', '4', '5', '6', '7', '8', '9', 'a', 'b', 'c', 'd', 'e', 'f'][n]
}

/// The hexadecimal display of bytes: two lowercase digits for each byte,
/// the high half first.
pub open spec fn spec_hex(bytes: Seq<u8>) -> Seq<char> {
    Seq::new(
        2 * bytes.len(),
        |i: int|
            if i % 2 == 0 {
                hex_digit(bytes[i / 2] as int / 16)
            } else {
                hex_digit(bytes[i / 2] as int % 16)
            },
    )
}

/// The digit for `n` as a string of one character.
fn digit(n: u8) -> (d: &'static str)
    requires
        n < 16,
    ensures
        d@ == seq![hex_digit(n as int)],
{
    proof {
        reveal_strlit("0");
        reveal_strlit("1");
        reveal_strlit("2");
        reveal_strlit("3");
        reveal_strlit("4");
        reveal_strlit("5");
        reveal_strlit("6");
        reveal_strlit("7");
        reveal_strlit("8");
        reveal_strlit("9");
        reveal_strlit("a");
        reveal_strlit("b");
        reveal_strlit("c");
        reveal_strlit("d");
        reveal_strlit("e");
        reveal_strlit("f");
    }
    let d = match n {
        0 => "0",
        1 => "1",
        2 => "2",
        3 => "3",
        4 => "4",
        5 => "5",
        6 => "6",
        7 => "7",
        8 => "8",
        9 => "9",
        10 => "a",
        11 => "b",
        12 => "c",
        13 => "d",
        14 => "e",
        _ => "f",
    };
    assert(d@ =~= seq![hex_digit(n as int)]);
    d
}

/// Writes bytes as lowercase hexadecimal, two digits for each byte.
pub fn to_hex(bytes: &Vec<u8>) -> (text: String)
    ensures
        text@ == spec_hex(bytes@),
{
    let mut text = String::new();
    let mut i: usize = 0;
    while i < bytes.len()
        invariant
            i <= bytes.len(),
            text@ == spec_hex(bytes@.take(i as int)),
        decreases bytes.len() - i,
    {
        let byte = bytes[i];
        let ghost before = text@;
        text.append(digit(byte / 16));
        text.append(digit(byte % 16));
        proof {
            let after = spec_hex(bytes@.take(i as int + 1));
            assert(text@.len() == after.len());
            assert forall|k: int| 0 <= k < after.len() implies text@[k] == after[k] by {
                if k < 2 * i {
                    assert(text@[k] == before[k]);
                    assert(bytes@.take(i as int)[k / 2] == bytes@.take(i as int + 1)[k / 2]);
                } else if k == 2 * i {
                    assert(k / 2 == i && k % 2 == 0);
                } else {
                    assert(k / 2 == i && k % 2 == 1);
                }
            }
            assert(text@ =~= after);
        }
        i += 1;
    }
    proof {
        assert(bytes@.take(bytes@.len() as int) =~= bytes@);
    }
    text
}

} // verus!
