//! API keys are stored and looked up by the lower-case hex of their
//! SHA-256 digest; the raw key is never stored.

use sha2::{Digest, Sha256};
use vstd::prelude::*;
use vstd::string::{StringExecFns, StringSliceAdditionalSpecFns};

use crate::text::{trim, trim_spec};

verus! {

/// The SHA-256 digest of a byte string.
pub uninterp spec fn sha256(bytes: Seq<u8>) -> Seq<u8>;

/// The SHA-256 digest of `bytes`.
///
/// Trusted: calls `sha2::Sha256::digest` (through `sha2::Digest`) and
/// converts the 32-byte output into an array; the contract names the
/// result as the digest of the bytes.
#[verifier::external_body]
fn sha256_digest(bytes: &[u8]) -> (r: [u8; 32])
    ensures
        r@ == sha256(bytes@),
{
    Sha256::digest(bytes).into()
}

/// The lower-case hex digit of a nibble.
pub open spec fn hex_char(n: u8) -> char {
    match n {
        0 => '0',
        1 => '1',
        2 => '2',
        3 => '3',
        4 => '4',
        5 => '5',
        6 => '6',
        7 => '7',
        8 => '8',
        9 => '9',
        10 => 'a',
        11 => 'b',
        12 => 'c',
        13 => 'd',
        14 => 'e',
        _ => 'f',
    }
}

/// Two lower-case hex digits per byte, high nibble first.
pub open spec fn hex_spec(bytes: Seq<u8>) -> Seq<char> {
    Seq::new(
        2 * bytes.len(),
        |k: int|
            if k % 2 == 0 {
                hex_char(bytes[k / 2] / 16)
            } else {
                hex_char(bytes[k / 2] % 16)
            },
    )
}

fn hex_digit(n: u8) -> (s: &'static str)
    requires
        n < 16,
    ensures
        s@ == seq![hex_char(n)],
{
    proof {
        reveal_strlit("0");
        reveal_strlit("1");
        reveal_strlit("2");
        reveal_strlit("3");
        reveal_strlit("4");
        reveal_strlit("5");
        reveal_strlit("6");
        reveal_strlit("7");
        reveal_strlit("8");
        reveal_strlit("9");
        reveal_strlit("a");
        reveal_strlit("b");
        reveal_strlit("c");
        reveal_strlit("d");
        reveal_strlit("e");
        reveal_strlit("f");
    }
    match n {
        0 => "0",
        1 => "1",
        2 => "2",
        3 => "3",
        4 => "4",
        5 => "5",
        6 => "6",
        7 => "7",
        8 => "8",
        9 => "9",
        10 => "a",
        11 => "b",
        12 => "c",
        13 => "d",
        14 => "e",
        _ => "f",
    }
}

/// Lower-case hex of a byte string.
pub fn to_hex(bytes: &[u8]) -> (s: String)
    ensures
        s@ == hex_spec(bytes@),
{
    let mut s = String::new();
    let mut i: usize = 0;
    while i < bytes.len()
        invariant
            i <= bytes@.len(),
            s@.len() == 2 * i,
            forall|k: int| 0 <= k < 2 * i ==> s@[k] == hex_spec(bytes@)[k],
        decreases bytes@.len() - i,
    {
        let b = bytes[i];
        let ghost s0 = s@;
        s.append(hex_digit(b / 16));
        s.append(hex_digit(b % 16));
        proof {
            assert forall|k: int| 0 <= k < 2 * (i + 1) implies s@[k] == hex_spec(bytes@)[k] by {
                if k == 2 * i {
                    assert(k / 2 == i && k % 2 == 0);
                } else if k == 2 * i + 1 {
                    assert(k / 2 == i && k % 2 == 1);
                } else {
                    assert(s@[k] == s0[k]);
                }
            }
        }
        i = i + 1;
    }
    proof {
        assert(s@ =~= hex_spec(bytes@));
    }
    s
}

/// The stored form of an API key: the lower-case hex of the SHA-256 of
/// its UTF-8 bytes.
pub fn hash_key(key: &str) -> (s: String)
    ensures
        s@ == hex_spec(sha256(key.spec_bytes())),
        s@.len() == 64,
{
    let digest = sha256_digest(key.as_bytes());
    to_hex(&digest)
}

/// The key a request presents: its API-key header, trimmed. A request
/// without the header, or with a blank one, presents none and is refused
/// as unauthorized.
pub fn presented_key(header: Option<&str>) -> (r: Option<&str>)
    ensures
        match header {
            None => r.is_none(),
            Some(h) => if trim_spec(h@).len() == 0 {
                r.is_none()
            } else {
                r matches Some(k) && k@ == trim_spec(h@)
            },
        },
{
    match header {
        None => None,
        Some(h) => {
            let k = trim(h);
            if k.is_empty() {
                None
            } else {
                Some(k)
            }
        },
    }
}

} // verus!
