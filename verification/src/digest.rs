//! SHA-1 of a commit object, and the comparison of a digest with the target.

use sha1::{Digest, Sha1};
use vstd::prelude::*;
use vstd::string::StringExecFns;

verus! {

/// The SHA-1 digest of `data`.
pub uninterp spec fn sha1_digest(data: Seq<u8>) -> Seq<u8>;

/// `sha1::Sha1::digest`: hashes `data` in one call. The result is the SHA-1
/// digest of exactly these bytes, which this library names and does not
/// define.
#[verifier::external_body]
fn sha1_of(data: &[u8]) -> (digest: [u8; 20])
    ensures
        digest@ == sha1_digest(data@),
{
    Sha1::digest(data).into()
}

/// The first four bytes of a digest as one big-endian number.
pub open spec fn leading_word(digest: Seq<u8>) -> nat {
    (digest[0] * 0x100_0000 + digest[1] * 0x1_0000 + digest[2] * 0x100 + digest[3]) as nat
}

/// Whether a digest starts with the four bytes of `target`.
pub open spec fn digest_matches(digest: Seq<u8>, target: u32) -> bool {
    leading_word(digest) == target
}

/// The lower-case hexadecimal digit of `n`.
pub open spec fn hex_char(n: nat) -> char {
    "0123456789abcdef"@[n as int]
}

/// A digest in lower-case hexadecimal: two digits per byte, the high one
/// first.
pub open spec fn hex(digest: Seq<u8>) -> Seq<char> {
    Seq::new(
        2 * digest.len(),
        |i: int|
            if i % 2 == 0 {
                hex_char((digest[i / 2] / 16) as nat)
            } else {
                hex_char((digest[i / 2] % 16) as nat)
            },
    )
}

/// The SHA-1 digest of a commit object.
pub fn hash_commit(data: &[u8]) -> (digest: [u8; 20])
    ensures
        digest@ == sha1_digest(data@),
{
    sha1_of(data)
}

/// Whether `hash` starts with the four bytes of `target`, the most
/// significant first.
pub fn hash_matches_target(hash: &[u8; 20], target: u32) -> (matched: bool)
    ensures
        matched == digest_matches(hash@, target),
{
    let prefix: u32 = hash[0] as u32 * 0x100_0000 + hash[1] as u32 * 0x1_0000 + hash[2] as u32
        * 0x100 + hash[3] as u32;
    prefix == target
}

/// The lower-case hexadecimal digit of `n`, as a string of one character.
fn hex_digit(n: u8) -> (digit: &'static str)
    requires
        n < 16,
    ensures
        digit@ == seq![hex_char(n as nat)],
{
    proof {
        reveal_strlit("0123456789abcdef");
        reveal_strlit("0");
        reveal_strlit("1");
        reveal_strlit("2");
        reveal_strlit("3");
        reveal_strlit("4");
        reveal_strlit("5");
        reveal_strlit("6");
        reveal_strlit("7");
        reveal_strlit("8");
        reveal_strlit("9");
        reveal_strlit("a");
        reveal_strlit("b");
        reveal_strlit("c");
        reveal_strlit("d");
        reveal_strlit("e");
        reveal_strlit("f");
    }
    let digit = if n == 0 {
        "0"
    } else if n == 1 {
        "1"
    } else if n == 2 {
        "2"
    } else if n == 3 {
        "3"
    } else if n == 4 {
        "4"
    } else if n == 5 {
        "5"
    } else if n == 6 {
        "6"
    } else if n == 7 {
        "7"
    } else if n == 8 {
        "8"
    } else if n == 9 {
        "9"
    } else if n == 10 {
        "a"
    } else if n == 11 {
        "b"
    } else if n == 12 {
        "c"
    } else if n == 13 {
        "d"
    } else if n == 14 {
        "e"
    } else {
        "f"
    };
    assert(digit@ =~= seq![hex_char(n as nat)]);
    digit
}

/// A digest in lower-case hexadecimal.
pub fn hash_to_hex(hash: &[u8; 20]) -> (text: String)
    ensures
        text@ == hex(hash@),
{
    let mut text = String::new();
    let mut i: usize = 0;
    while i < 20
        invariant
            i <= 20,
            text@ == hex(hash@).take(2 * i),
        decreases 20 - i,
    {
        let byte: u8 = hash[i];
        let ghost before = text@;
        text.append(hex_digit(byte / 16));
        text.append(hex_digit(byte % 16));
        proof {
            let full = hex(hash@);
            assert(full[2 * i] == hex_char((byte / 16) as nat));
            assert(full[2 * i + 1] == hex_char((byte % 16) as nat));
            assert(text@ =~= before.push(full[2 * i]).push(full[2 * i + 1]));
            assert(full.take(2 * (i + 1)) =~= full.take(2 * i).push(full[2 * i]).push(
                full[2 * i + 1],
            ));
        }
        i += 1;
    }
    assert(hex(hash@).take(40) =~= hex(hash@));
    text
}

} // verus!
