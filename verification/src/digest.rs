//! SHA-256 and hexadecimal, as the `sha2` and `hex` crates compute them.
//!
//! SHA-256 is known here by name only: [`sha256`] stands for the digest that `sha2` returns, and
//! no property of it is used beyond its length. Hexadecimal is stated in full.

use sha2::{Digest, Sha256};
use vstd::prelude::*;

verus! {

/// A number of bytes that one SHA-256 computation takes: its length in bits is a 64-bit number.
pub open spec fn hashable(len: int) -> bool {
    len <= 0x1fff_ffff_ffff_ffff
}

/// Whether so many bytes can be hashed at once.
pub fn is_hashable(len: usize) -> (r: bool)
    ensures
        r == hashable(len as int),
{
    len as u128 <= 0x1fff_ffff_ffff_ffff
}

/// The SHA-256 digest of `data`.
pub uninterp spec fn sha256(data: Seq<u8>) -> Seq<u8>;

/// Calls `sha2::Sha256::digest`. Claimed of it: the result is a function of the bytes hashed, and
/// it is 32 bytes long. The call counts the bits hashed in a `u64`, hence the bound.
#[verifier::external_body]
pub(crate) fn sha256_of(data: &[u8]) -> (r: Vec<u8>)
    requires
        hashable(data@.len() as int),
    ensures
        r@ == sha256(data@),
        r@.len() == 32,
{
    Sha256::digest(data).to_vec()
}

/// The number that a hexadecimal digit of either case stands for.
pub open spec fn hex_value(c: char) -> Option<int> {
    if '0' <= c <= '9' {
        Some(c as u32 - '0' as u32)
    } else if 'a' <= c <= 'f' {
        Some(c as u32 - 'a' as u32 + 10)
    } else if 'A' <= c <= 'F' {
        Some(c as u32 - 'A' as u32 + 10)
    } else {
        None
    }
}

/// The lower-case hexadecimal digit that stands for `n`.
pub open spec fn hex_digit(n: int) -> char {
    if n < 10 {
        ('0' as u32 + n) as char
    } else {
        ('a' as u32 + (n - 10)) as char
    }
}

/// The bytes that `s` writes in hexadecimal, two digits each; `None` if `s` is of odd length or
/// holds another character.
pub open spec fn hex_decoded(s: Seq<char>) -> Option<Seq<u8>>
    decreases s.len(),
{
    if s.len() == 0 {
        Some(Seq::empty())
    } else if s.len() == 1 {
        None
    } else {
        match (hex_value(s[0]), hex_value(s[1]), hex_decoded(s.skip(2))) {
            (Some(high), Some(low), Some(rest)) => Some(seq![(high * 16 + low) as u8] + rest),
            _ => None,
        }
    }
}

/// `bytes` in lower-case hexadecimal, two digits each.
pub open spec fn hex_encoded(bytes: Seq<u8>) -> Seq<char>
    decreases bytes.len(),
{
    if bytes.len() == 0 {
        Seq::empty()
    } else {
        seq![hex_digit(bytes[0] as int / 16), hex_digit(bytes[0] as int % 16)] + hex_encoded(
            bytes.drop_first(),
        )
    }
}

/// Decoding what was encoded gives the bytes back.
pub proof fn law_hex_round_trip(bytes: Seq<u8>)
    ensures
        hex_decoded(hex_encoded(bytes)) == Some(bytes),
    decreases bytes.len(),
{
    if bytes.len() > 0 {
        let rest = bytes.drop_first();
        let s = hex_encoded(bytes);
        law_hex_round_trip(rest);
        assert(s.skip(2) =~= hex_encoded(rest));
        assert(s.len() >= 2);
        assert(bytes =~= seq![bytes[0]] + rest);
        assert(hex_decoded(s)->0 =~= bytes);
    } else {
        assert(bytes =~= Seq::<u8>::empty());
    }
}

/// Different bytes are written differently.
pub proof fn law_hex_is_injective(a: Seq<u8>, b: Seq<u8>)
    requires
        hex_encoded(a) == hex_encoded(b),
    ensures
        a == b,
{
    law_hex_round_trip(a);
    law_hex_round_trip(b);
}

/// Each byte takes two digits.
pub proof fn law_hex_length(bytes: Seq<u8>)
    ensures
        hex_encoded(bytes).len() == 2 * bytes.len(),
    decreases bytes.len(),
{
    if bytes.len() > 0 {
        law_hex_length(bytes.drop_first());
    }
}

/// Calls `hex::encode`. Claimed of it: the result is the lower-case hexadecimal of the bytes. The
/// bound keeps the length of the result within what a `String` can hold.
#[verifier::external_body]
fn hex_encode_call(data: &[u8]) -> (r: String)
    requires
        2 * data@.len() <= isize::MAX,
    ensures
        r@ == hex_encoded(data@),
{
    hex::encode(data)
}

/// Calls `hex::decode`. Claimed of it: it succeeds on an even number of hexadecimal digits of
/// either case and on nothing else, and returns the bytes that they write.
#[verifier::external_body]
fn hex_decode_call(s: &str) -> (r: Result<Vec<u8>, hex::FromHexError>)
    ensures
        match hex_decoded(s@) {
            Some(bytes) => r matches Ok(v) && v@ == bytes,
            None => r is Err,
        },
{
    hex::decode(s)
}

/// The error of `hex::decode`, carried and never looked into.
#[verifier::external_type_specification]
#[verifier::external_body]
pub struct ExFromHexError(hex::FromHexError);

/// The lower-case hexadecimal of a run of bytes.
pub fn to_hex(bytes: &[u8]) -> (r: String)
    requires
        2 * bytes@.len() <= isize::MAX,
    ensures
        r@ == hex_encoded(bytes@),
{
    hex_encode_call(bytes)
}

/// The bytes that a text writes in hexadecimal, if it does.
pub fn from_hex(s: &str) -> (r: Option<Vec<u8>>)
    ensures
        match hex_decoded(s@) {
            Some(bytes) => r matches Some(v) && v@ == bytes,
            None => r is None,
        },
{
    match hex_decode_call(s) {
        Ok(v) => Some(v),
        Err(_) => None,
    }
}

/// The 32-byte identity of a node, written as 64 hexadecimal digits.
pub open spec fn node_id(s: Seq<char>) -> Option<Seq<u8>> {
    match hex_decoded(s) {
        Some(bytes) if bytes.len() == 32 => Some(bytes),
        _ => None,
    }
}

/// Reads a node identity: 64 hexadecimal digits, nothing else.
pub fn parse_node_id(s: &str) -> (r: Option<[u8; 32]>)
    ensures
        match node_id(s@) {
            Some(bytes) => r matches Some(id) && id@ == bytes,
            None => r is None,
        },
{
    match from_hex(s) {
        Some(v) if v.len() == 32 => {
            let mut id: [u8; 32] = [0u8; 32];
            let mut i: usize = 0;
            while i < 32
                invariant
                    i <= 32,
                    v@.len() == 32,
                    forall|j: int| 0 <= j < i ==> id@[j] == #[trigger] v@[j],
                decreases 32 - i,
            {
                id[i] = v[i];
                i += 1;
            }
            assert(id@ =~= v@);
            Some(id)
        },
        _ => None,
    }
}

/// The characters that are hexadecimal digits, and the number that each stands for: letters count
/// in either case.
pub proof fn law_hex_digits(c: char, v: int)
    ensures
        hex_value(c) == Some(v) <==> {
            ||| 0 <= v < 10 && c as u32 == 48 + v
            ||| 10 <= v < 16 && (c as u32 == 87 + v || c as u32 == 55 + v)
        },
{
}

/// In hexadecimal every byte stands at its own two places: first its sixteens, then what is left,
/// each as one digit in lower case.
pub proof fn law_hex_places(bytes: Seq<u8>, i: int)
    requires
        0 <= i < bytes.len(),
    ensures
        hex_encoded(bytes).len() == 2 * bytes.len(),
        hex_value(hex_encoded(bytes)[2 * i]) == Some(bytes[i] as int / 16),
        hex_value(hex_encoded(bytes)[2 * i + 1]) == Some(bytes[i] as int % 16),
        !('A' <= hex_encoded(bytes)[2 * i] <= 'F'),
        !('A' <= hex_encoded(bytes)[2 * i + 1] <= 'F'),
    decreases bytes.len(),
{
    law_hex_length(bytes);
    let rest = hex_encoded(bytes.drop_first());
    if i > 0 {
        law_hex_places(bytes.drop_first(), i - 1);
        assert(hex_encoded(bytes)[2 * i] == rest[2 * (i - 1)]);
        assert(hex_encoded(bytes)[2 * i + 1] == rest[2 * (i - 1) + 1]);
    }
}

/// A text is hexadecimal exactly if its length is even and each of its characters is a hexadecimal
/// digit; it then has a byte for every two of them.
pub proof fn law_hexadecimal_texts(s: Seq<char>)
    ensures
        hex_decoded(s) is Some <==> s.len() % 2 == 0 && forall|i: int|
            0 <= i < s.len() ==> hex_value(#[trigger] s[i]) is Some,
        hex_decoded(s) matches Some(bytes) ==> 2 * bytes.len() == s.len() && forall|i: int|
            0 <= i < bytes.len() ==> #[trigger] bytes[i] == hex_value(s[2 * i])->0 * 16 + hex_value(
                s[2 * i + 1],
            )->0,
    decreases s.len(),
{
    if s.len() >= 2 {
        let rest = s.skip(2);
        law_hexadecimal_texts(rest);
        if forall|i: int| 0 <= i < s.len() ==> hex_value(#[trigger] s[i]) is Some {
            assert forall|i: int| 0 <= i < rest.len() implies hex_value(
                #[trigger] rest[i],
            ) is Some by {
                assert(rest[i] == s[i + 2]);
            }
            assert(hex_value(s[0]) is Some && hex_value(s[1]) is Some);
        }
        if hex_decoded(s) is Some {
            assert forall|i: int| 0 <= i < s.len() implies hex_value(#[trigger] s[i]) is Some by {
                if i >= 2 {
                    assert(rest[i - 2] == s[i]);
                }
            }
            let bytes = hex_decoded(s)->0;
            let tail = hex_decoded(rest)->0;
            assert forall|i: int| 0 <= i < bytes.len() implies #[trigger] bytes[i] == hex_value(
                s[2 * i],
            )->0 * 16 + hex_value(s[2 * i + 1])->0 by {
                if i > 0 {
                    assert(bytes[i] == tail[i - 1]);
                    assert(rest[2 * (i - 1)] == s[2 * i]);
                    assert(rest[2 * (i - 1) + 1] == s[2 * i + 1]);
                }
            }
        }
    } else if s.len() == 1 {
        assert(s.len() % 2 == 1);
    }
}

/// A text is a node id exactly if it is hexadecimal and 64 characters long; the id is the bytes
/// that it writes.
pub proof fn law_node_ids_are_sixty_four_digits(s: Seq<char>, id: Seq<u8>)
    ensures
        node_id(s) == Some(id) <==> s.len() == 64 && hex_decoded(s) == Some(id),
        node_id(s) is None <==> s.len() != 64 || hex_decoded(s) is None,
{
    law_hexadecimal_texts(s);
}

/// So much can be hashed at once that its length in bits fits in a `u64`.
pub proof fn law_hashable_lengths(len: nat)
    ensures
        hashable(len as int) <==> len * 8 <= u64::MAX,
{
}

} // verus!
