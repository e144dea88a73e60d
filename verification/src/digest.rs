//! Digests: SHA-1 over the byte form of a body, written as lower-case hex.

use crate::encode::{enc_body, serialize};
use crate::model::{Body, BodyModel};
use sha1::{Digest, Sha1};
use vstd::prelude::*;
use vstd::string::*;

verus! {

/// The SHA-1 hash of a byte string.
pub uninterp spec fn sha1_of(data: Seq<u8>) -> Seq<u8>;

/// Calls `Digest::digest` of `sha1::Sha1` on the whole input. The result is
/// the SHA-1 hash of the input and nothing else enters it; as the output
/// size of `Sha1Core` says, it is twenty bytes long.
#[verifier::external_body]
fn sha1_bytes(data: &Vec<u8>) -> (out: Vec<u8>)
    ensures
        out@ == sha1_of(data@),
        out@.len() == 20,
{
    Sha1::digest(data.as_slice()).to_vec()
}

/// The lower-case hex digit of a value below sixteen.
pub open spec fn hex_char(n: int) -> char {
    if n == 0 {
        '0'
    } else if n == 1 {
        '1'
    } else if n == 2 {
        '2'
    } else if n == 3 {
        '3'
    } else if n == 4 {
        '4'
    } else if n == 5 {
        '5'
    } else if n == 6 {
        '6'
    } else if n == 7 {
        '7'
    } else if n == 8 {
        '8'
    } else if n == 9 {
        '9'
    } else if n == 10 {
        'a'
    } else if n == 11 {
        'b'
    } else if n == 12 {
        'c'
    } else if n == 13 {
        'd'
    } else if n == 14 {
        'e'
    } else {
        'f'
    }
}

/// Two hex digits for each byte, the high half first.
pub open spec fn hex_of(bytes: Seq<u8>) -> Seq<char> {
    Seq::new(
        2 * bytes.len(),
        |i: int|
            if i % 2 == 0 {
                hex_char(bytes[i / 2] as int / 16)
            } else {
                hex_char(bytes[i / 2] as int % 16)
            },
    )
}

fn hex_digit(n: u8) -> (s: &'static str)
    requires
        n < 16,
    ensures
        s@ == seq![hex_char(n as int)],
{
    proof {
        reveal_strlit("0");
        reveal_strlit("1");
        reveal_strlit("2");
        reveal_strlit("3");
        reveal_strlit("4");
        reveal_strlit("5");
        reveal_strlit("6");
        reveal_strlit("7");
        reveal_strlit("8");
        reveal_strlit("9");
        reveal_strlit("a");
        reveal_strlit("b");
        reveal_strlit("c");
        reveal_strlit("d");
        reveal_strlit("e");
        reveal_strlit("f");
    }
    let s = if n == 0 {
        "0"
    } else if n == 1 {
        "1"
    } else if n == 2 {
        "2"
    } else if n == 3 {
        "3"
    } else if n == 4 {
        "4"
    } else if n == 5 {
        "5"
    } else if n == 6 {
        "6"
    } else if n == 7 {
        "7"
    } else if n == 8 {
        "8"
    } else if n == 9 {
        "9"
    } else if n == 10 {
        "a"
    } else if n == 11 {
        "b"
    } else if n == 12 {
        "c"
    } else if n == 13 {
        "d"
    } else if n == 14 {
        "e"
    } else {
        "f"
    };
    assert(s@ =~= seq![hex_char(n as int)]);
    s
}

/// Writes bytes as lower-case hex.
pub fn to_hex(bytes: &Vec<u8>) -> (s: String)
    ensures
        s@ == hex_of(bytes@),
{
    let mut s = String::new();
    let mut i: usize = 0;
    while i < bytes.len()
        invariant
            i <= bytes.len(),
            s@ == hex_of(bytes@.take(i as int)),
        decreases bytes.len() - i,
    {
        let b = bytes[i];
        let ghost before = s@;
        s.append(hex_digit(b / 16));
        s.append(hex_digit(b % 16));
        proof {
            let now = bytes@.take(i as int + 1);
            assert(s@ == before + seq![hex_char(b as int / 16)] + seq![hex_char(b as int % 16)]);
            assert forall|k: int| 0 <= k < 2 * now.len() implies s@[k] == hex_of(now)[k] by {
                if k < 2 * i {
                    assert(before[k] == hex_of(bytes@.take(i as int))[k]);
                    assert(bytes@.take(i as int)[k / 2] == now[k / 2]);
                } else {
                    assert(now[k / 2] == b);
                }
            }
            assert(s@ =~= hex_of(now));
        }
        i += 1;
    }
    assert(bytes@.take(bytes.len() as int) =~= bytes@);
    s
}

/// The digest of a byte string: its SHA-1 hash in hex.
pub open spec fn digest_of_bytes(data: Seq<u8>) -> Seq<char> {
    hex_of(sha1_of(data))
}

/// The digest of a body: that of its byte form.
pub open spec fn digest_of(b: BodyModel) -> Seq<char> {
    digest_of_bytes(enc_body(b))
}

/// Hashes a byte string.
pub fn hash_bytes(data: &Vec<u8>) -> (d: String)
    ensures
        d@ == digest_of_bytes(data@),
        d@.len() == 40,
{
    let raw = sha1_bytes(data);
    to_hex(&raw)
}

/// Hashes a body. The digest is a function of the body's byte form alone, so
/// equal bodies have equal digests, whatever they are called and wherever
/// they stood in the source.
pub fn hash(body: &Body) -> (d: String)
    ensures
        d@ == digest_of(body@),
        d@.len() == 40,
{
    let bytes = serialize(body);
    hash_bytes(&bytes)
}

} // verus!
