//! Proof of retrievability: the challenge and the proof that auditor and host both compute.
//!
//! The auditor picks a chunk of the object by hashing the public beacon together with the CID, so
//! that neither side can bias the choice, and sends the index with a nonce. The host answers with
//! `sha256(chunk || nonce)` in hexadecimal. A host without the bytes cannot answer, and an old
//! answer does not fit a new nonce: an accepted answer for other bytes or another nonce is a
//! SHA-256 collision (see [`law_accepted_proof_is_the_digest`]).

use vstd::prelude::*;

use crate::digest::{from_hex, sha256_of, to_hex};
use crate::text::str_eq;

verus! {

/// The parts of an object, as its manifest lists them.
#[derive(Debug, PartialEq, Eq)]
pub struct Manifest {
    /// Content identifiers of the chunks, in order.
    pub chunks: Vec<String>,
    /// Size of the object in bytes.
    pub total_size: u64,
}

/// The number that `bytes` write in base 256, most significant byte first.
pub open spec fn big_endian(bytes: Seq<u8>) -> nat
    decreases bytes.len(),
{
    if bytes.len() == 0 {
        0
    } else {
        big_endian(bytes.drop_last()) * 256 + bytes.last() as nat
    }
}

/// Up to seven bytes leave room for one more in 64 bits.
proof fn lemma_big_endian_bound(bytes: Seq<u8>)
    ensures
        big_endian(bytes) < pow256(bytes.len()),
        bytes.len() < 8 ==> big_endian(bytes) < 0x100_0000_0000_0000,
    decreases bytes.len(),
{
    if bytes.len() > 0 {
        lemma_big_endian_bound(bytes.drop_last());
    }
    if bytes.len() < 8 {
        reveal_with_fuel(pow256, 8);
    }
}

spec fn pow256(n: nat) -> nat
    decreases n,
{
    if n == 0 {
        1
    } else {
        pow256((n - 1) as nat) * 256
    }
}

/// The text hashed to choose a chunk: beacon, `|`, CID.
pub open spec fn challenge_seed(beacon_hash: Seq<char>, cid: Seq<char>) -> Seq<u8> {
    vstd::utf8::encode_utf8(beacon_hash) + seq![0x7cu8] + vstd::utf8::encode_utf8(cid)
}

/// The chunk that a digest picks among `chunk_count`: its first eight bytes, reduced.
pub open spec fn chunk_picked(digest: Seq<u8>, chunk_count: nat) -> nat {
    if chunk_count == 0 {
        0
    } else {
        big_endian(digest.take(8)) % chunk_count
    }
}

/// Folds the first eight bytes of `digest` into a chunk index below `chunk_count`.
pub fn index_from_digest(digest: &[u8], chunk_count: usize) -> (r: u64)
    requires
        digest@.len() >= 8,
    ensures
        r == chunk_picked(digest@, chunk_count as nat),
        chunk_count > 0 ==> r < chunk_count,
{
    if chunk_count == 0 {
        return 0;
    }
    let mut v: u64 = 0;
    let mut i: usize = 0;
    assert(digest@.take(0) =~= Seq::<u8>::empty());
    while i < 8
        invariant
            i <= 8,
            digest@.len() >= 8,
            v == big_endian(digest@.take(i as int)),
        decreases 8 - i,
    {
        proof {
            lemma_big_endian_bound(digest@.take(i as int));
            assert(digest@.take(i + 1).drop_last() =~= digest@.take(i as int));
        }
        v = v * 256 + digest[i] as u64;
        i += 1;
    }
    v % chunk_count as u64
}

/// The chunk that a beacon challenges of an object with `chunk_count` chunks.
pub open spec fn challenged(
    beacon_hash: Seq<char>,
    cid: Seq<char>,
    chunk_count: nat,
) -> nat {
    chunk_picked(crate::digest::sha256(challenge_seed(beacon_hash, cid)), chunk_count)
}

/// The challenged index is one number of the beacon and the object, reduced by the chunk count: it is
/// in range, it agrees for counts of which one divides the other, and it is zero for no chunks.
pub proof fn law_challenged_index_is_one_number_reduced(
    beacon_hash: Seq<char>,
    cid: Seq<char>,
    count: nat,
    factor: nat,
)
    requires
        count >= 1,
        factor >= 1,
    ensures
        challenged(beacon_hash, cid, count) < count,
        challenged(beacon_hash, cid, factor * count) % count == challenged(
            beacon_hash,
            cid,
            count,
        ),
        challenged(beacon_hash, cid, 0) == 0,
{
    let n = big_endian(
        crate::digest::sha256(challenge_seed(beacon_hash, cid)).take(8),
    ) as int;
    vstd::arithmetic::div_mod::lemma_mod_mod(n, count as int, factor as int);
    assert(count * factor == factor * count) by (nonlinear_arith);
}

/// Picks the chunk to challenge, from the beacon and the CID. The index is below `chunk_count`;
/// an object without chunks gives `0`.
pub fn challenge_index(beacon_hash: &str, cid: &str, chunk_count: usize) -> (r: u64)
    requires
        chunk_count > 0 ==> crate::digest::hashable(
            challenge_seed(beacon_hash@, cid@).len() as int,
        ),
    ensures
        r == challenged(beacon_hash@, cid@, chunk_count as nat),
        chunk_count > 0 ==> r < chunk_count,
{
    if chunk_count == 0 {
        return 0;
    }
    let seed = challenge_seed_bytes(beacon_hash, cid);
    let digest = sha256_of(seed.as_slice());
    index_from_digest(digest.as_slice(), chunk_count)
}

/// The bytes hashed to choose a chunk.
pub fn challenge_seed_bytes(beacon_hash: &str, cid: &str) -> (r: Vec<u8>)
    ensures
        r@ == challenge_seed(beacon_hash@, cid@),
{
    let mut out: Vec<u8> = Vec::new();
    out.extend_from_slice(beacon_hash.as_bytes());
    out.push(0x7c);
    out.extend_from_slice(cid.as_bytes());
    assert(out@ =~= challenge_seed(beacon_hash@, cid@));
    out
}

/// The bytes of a nonce: those that it writes in hexadecimal, or its own text if it writes none.
pub open spec fn nonce_bytes(nonce_hex: Seq<char>) -> Seq<u8> {
    match crate::digest::hex_decoded(nonce_hex) {
        Some(bytes) => bytes,
        None => vstd::utf8::encode_utf8(nonce_hex),
    }
}

/// The proof that `chunk` is at hand under a nonce.
pub open spec fn proof_of(chunk: Seq<u8>, nonce_hex: Seq<char>) -> Seq<char> {
    crate::digest::hex_encoded(crate::digest::sha256(chunk + nonce_bytes(nonce_hex)))
}

/// `proof` is accepted for `chunk` under a nonce.
pub open spec fn accepted(chunk: Seq<u8>, nonce_hex: Seq<char>, proof: Seq<char>) -> bool {
    proof == proof_of(chunk, nonce_hex)
}

/// A nonce is hashed behind the chunk: its bytes could as well be the end of the chunk. A nonce that
/// is no hexadecimal stands for its own bytes.
pub proof fn law_nonce_is_hashed_behind_the_chunk(
    chunk: Seq<u8>,
    tail: Seq<u8>,
    nonce_hex: Seq<char>,
)
    ensures
        proof_of(chunk + tail, Seq::empty()) == proof_of(
            chunk,
            crate::digest::hex_encoded(tail),
        ),
        crate::digest::hex_decoded(nonce_hex) is None ==> proof_of(chunk, nonce_hex) == proof_of(
            chunk,
            crate::digest::hex_encoded(vstd::utf8::encode_utf8(nonce_hex)),
        ),
{
    crate::digest::law_hex_round_trip(tail);
    crate::digest::law_hex_round_trip(vstd::utf8::encode_utf8(nonce_hex));
    assert(nonce_bytes(Seq::empty()) =~= Seq::<u8>::empty());
    assert(chunk + tail + Seq::<u8>::empty() =~= chunk + tail);
}

/// A proof is accepted exactly if it is the one made from the chunk and the nonce, character for
/// character, whatever the nonce.
pub proof fn law_verdict_is_equality(chunk: Seq<u8>, nonce_hex: Seq<char>, proof: Seq<char>)
    ensures
        accepted(chunk, nonce_hex, proof) <==> proof == proof_of(chunk, nonce_hex),
{
}

/// The proof made from a chunk and a nonce is accepted for them.
pub proof fn law_own_proof_is_accepted(chunk: Seq<u8>, nonce_hex: Seq<char>)
    ensures
        accepted(chunk, nonce_hex, proof_of(chunk, nonce_hex)),
{
}

/// A proof made from one chunk and nonce is accepted for others exactly if the two preimages have
/// the same digest: forging bytes or replaying an answer takes a SHA-256 collision.
pub proof fn law_accepted_proof_is_the_digest(
    made_from: Seq<u8>,
    made_with: Seq<char>,
    chunk: Seq<u8>,
    nonce_hex: Seq<char>,
)
    ensures
        accepted(chunk, nonce_hex, proof_of(made_from, made_with)) <==> crate::digest::sha256(
            made_from + nonce_bytes(made_with),
        ) == crate::digest::sha256(chunk + nonce_bytes(nonce_hex)),
{
    let a = crate::digest::sha256(made_from + nonce_bytes(made_with));
    let b = crate::digest::sha256(chunk + nonce_bytes(nonce_hex));
    if crate::digest::hex_encoded(a) == crate::digest::hex_encoded(b) {
        crate::digest::law_hex_is_injective(a, b);
    }
}

/// Nonces of different bytes give different preimages: an answer recorded under an earlier
/// nonce is the digest of something else.
pub proof fn law_new_nonce_new_preimage(chunk: Seq<u8>, a: Seq<char>, b: Seq<char>)
    requires
        nonce_bytes(a) != nonce_bytes(b),
    ensures
        chunk + nonce_bytes(a) != chunk + nonce_bytes(b),
{
    let x = chunk + nonce_bytes(a);
    let y = chunk + nonce_bytes(b);
    if x == y {
        assert(x.skip(chunk.len() as int) =~= nonce_bytes(a));
        assert(y.skip(chunk.len() as int) =~= nonce_bytes(b));
    }
}

/// The bytes that a proof hashes: the chunk, then the nonce.
pub fn proof_preimage(chunk_bytes: &[u8], nonce_hex: &str) -> (r: Vec<u8>)
    ensures
        r@ == chunk_bytes@ + nonce_bytes(nonce_hex@),
{
    let mut out: Vec<u8> = Vec::new();
    out.extend_from_slice(chunk_bytes);
    match from_hex(nonce_hex) {
        Some(bytes) => {
            out.extend_from_slice(bytes.as_slice());
        },
        None => {
            out.extend_from_slice(nonce_hex.as_bytes());
        },
    }
    assert(out@ =~= chunk_bytes@ + nonce_bytes(nonce_hex@));
    out
}

/// The proof a host returns: `sha256(chunk_bytes || nonce_bytes)` in hexadecimal.
pub fn prove(chunk_bytes: &[u8], nonce_hex: &str) -> (r: String)
    requires
        crate::digest::hashable((chunk_bytes@ + nonce_bytes(nonce_hex@)).len() as int),
    ensures
        r@ == proof_of(chunk_bytes@, nonce_hex@),
        r@.len() == 64,
{
    let preimage = proof_preimage(chunk_bytes, nonce_hex);
    let digest = sha256_of(preimage.as_slice());
    proof {
        crate::digest::law_hex_length(digest@);
    }
    to_hex(digest.as_slice())
}

/// Whether `proof` is the proof for the chunk that the auditor holds.
pub fn verify(expected_chunk: &[u8], nonce_hex: &str, proof: &str) -> (r: bool)
    requires
        crate::digest::hashable((expected_chunk@ + nonce_bytes(nonce_hex@)).len() as int),
    ensures
        r == accepted(expected_chunk@, nonce_hex@, proof@),
{
    let expected = prove(expected_chunk, nonce_hex);
    str_eq(expected.as_str(), proof)
}

/// A nonce made from a seed: its SHA-256 digest in hexadecimal.
pub fn nonce_from_seed(seed: &[u8]) -> (r: String)
    requires
        crate::digest::hashable(seed@.len() as int),
    ensures
        r@ == crate::digest::hex_encoded(crate::digest::sha256(seed@)),
        r@.len() == 64,
{
    let digest = sha256_of(seed);
    proof {
        crate::digest::law_hex_length(digest@);
    }
    to_hex(digest.as_slice())
}

/// The text that a chunk is chosen by holds, one behind the other and nothing else, the beacon, a
/// bar, and the object.
pub proof fn law_challenge_covers_beacon_and_object(beacon_hash: Seq<char>, cid: Seq<char>)
    ensures
        ({
            let seed = challenge_seed(beacon_hash, cid);
            let a = vstd::utf8::encode_utf8(beacon_hash).len() as int;
            &&& seed.len() == a + 1 + vstd::utf8::encode_utf8(cid).len()
            &&& seed.take(a) == vstd::utf8::encode_utf8(beacon_hash)
            &&& seed[a] as int == '|' as int
            &&& seed.skip(a + 1) == vstd::utf8::encode_utf8(cid)
        }),
{
    let seed = challenge_seed(beacon_hash, cid);
    let a = vstd::utf8::encode_utf8(beacon_hash).len() as int;
    assert(seed.take(a) =~= vstd::utf8::encode_utf8(beacon_hash));
    assert(seed.skip(a + 1) =~= vstd::utf8::encode_utf8(cid));
}

/// A digest picks the chunk that its first eight bytes, the most significant first, leave as a
/// remainder when divided by the number of chunks.
pub proof fn law_first_eight_bytes_pick_the_chunk(d: Seq<u8>, chunk_count: nat)
    requires
        d.len() >= 8,
        chunk_count > 0,
    ensures
        chunk_picked(d, chunk_count) == (d[0] as nat * 0x100_0000_0000_0000 + d[1] as nat
            * 0x1_0000_0000_0000 + d[2] as nat * 0x100_0000_0000 + d[3] as nat * 0x1_0000_0000
            + d[4] as nat * 0x100_0000 + d[5] as nat * 0x1_0000 + d[6] as nat * 0x100
            + d[7] as nat) % chunk_count,
        chunk_picked(d, 0) == 0,
{
    assert(d.take(8).drop_last() =~= d.take(7));
    assert(d.take(7).drop_last() =~= d.take(6));
    assert(d.take(6).drop_last() =~= d.take(5));
    assert(d.take(5).drop_last() =~= d.take(4));
    assert(d.take(4).drop_last() =~= d.take(3));
    assert(d.take(3).drop_last() =~= d.take(2));
    assert(d.take(2).drop_last() =~= d.take(1));
    assert(d.take(1).drop_last() =~= d.take(0));
    assert(big_endian(d.take(0)) == 0);
    assert(big_endian(d.take(1)) == d[0]);
    assert(big_endian(d.take(2)) == d[0] * 256 + d[1]);
    assert(big_endian(d.take(3)) == d[0] * 0x1_0000 + d[1] * 256 + d[2]);
    assert(big_endian(d.take(4)) == d[0] * 0x100_0000 + d[1] * 0x1_0000 + d[2] * 256 + d[3]);
    assert(big_endian(d.take(5)) == big_endian(d.take(4)) * 256 + d[4]);
    assert(big_endian(d.take(6)) == big_endian(d.take(5)) * 256 + d[5]);
    assert(big_endian(d.take(7)) == big_endian(d.take(6)) * 256 + d[6]);
    assert(big_endian(d.take(8)) == big_endian(d.take(7)) * 256 + d[7]);
}

/// The chunk challenged is the one that the SHA-256 digest of beacon, bar and object picks.
pub proof fn law_beacon_and_object_pick_the_chunk(
    beacon_hash: Seq<char>,
    cid: Seq<char>,
    chunk_count: nat,
)
    ensures
        challenged(beacon_hash, cid, chunk_count) == chunk_picked(
            crate::digest::sha256(
                vstd::utf8::encode_utf8(beacon_hash) + vstd::utf8::encode_utf8(seq!['|'])
                    + vstd::utf8::encode_utf8(cid),
            ),
            chunk_count,
        ),
{
    assert(vstd::utf8::is_ascii_chars(seq!['|']));
    vstd::utf8::is_ascii_chars_encode_utf8(seq!['|']);
    assert(vstd::utf8::encode_utf8(seq!['|']) =~= seq![0x7cu8]);
}

/// The proof of a chunk under a nonce that was written in hexadecimal, in either case, is the
/// SHA-256 digest in hexadecimal of the whole chunk and then the whole nonce. That proof is
/// accepted, and no other is.
pub proof fn law_only_the_digest_of_chunk_and_nonce_is_accepted(
    chunk: Seq<u8>,
    nonce_hex: Seq<char>,
    nonce: Seq<u8>,
    answer: Seq<char>,
)
    requires
        crate::digest::hex_decoded(nonce_hex) == Some(nonce),
    ensures
        ({
            let digest = crate::digest::hex_encoded(crate::digest::sha256(chunk + nonce));
            &&& nonce_bytes(nonce_hex) == nonce
            &&& proof_of(chunk, nonce_hex) == digest
            &&& accepted(chunk, nonce_hex, answer) <==> answer == digest
        }),
{
}

/// The same holds of a nonce that is not hexadecimal, for the bytes of its text.
pub proof fn law_plain_nonces_stand_for_their_text(
    chunk: Seq<u8>,
    nonce: Seq<char>,
    answer: Seq<char>,
)
    requires
        nonce.len() % 2 == 1 || exists|i: int|
            0 <= i < nonce.len() && crate::digest::hex_value(#[trigger] nonce[i]) is None,
    ensures
        ({
            let digest = crate::digest::hex_encoded(
                crate::digest::sha256(chunk + vstd::utf8::encode_utf8(nonce)),
            );
            &&& nonce_bytes(nonce) == vstd::utf8::encode_utf8(nonce)
            &&& proof_of(chunk, nonce) == digest
            &&& accepted(chunk, nonce, answer) <==> answer == digest
        }),
{
    crate::digest::law_hexadecimal_texts(nonce);
}

} // verus!
