use ce_pin::audit::{
    challenge_index, challenge_seed_bytes, index_from_digest, nonce_from_seed, proof_preimage,
    prove, verify,
};
use ce_pin::digest::{from_hex, is_hashable, parse_node_id, to_hex};

#[test]
fn index_is_in_range_and_deterministic() {
    let a = challenge_index("beacon-hash-aaaa", "cid-xyz", 7);
    let b = challenge_index("beacon-hash-aaaa", "cid-xyz", 7);
    assert_eq!(a, b, "same inputs -> same index");
    assert!(a < 7);
}

#[test]
fn index_changes_with_beacon() {
    // Asserted over a spread of beacons rather than for one pair.
    let base = challenge_index("beacon-0", "cid", 100);
    let moved = (1..20).any(|i| challenge_index(&format!("beacon-{i}"), "cid", 100) != base);
    assert!(moved, "varying the beacon should vary the challenged index");
}

#[test]
fn empty_object_index_is_zero() {
    assert_eq!(challenge_index("b", "c", 0), 0);
}

#[test]
fn proof_roundtrips() {
    let chunk = b"the quick brown fox";
    let nonce = "00ff00ff";
    let proof = prove(chunk, nonce);
    assert!(verify(chunk, nonce, &proof));
}

#[test]
fn proof_rejects_wrong_bytes() {
    let proof = prove(b"real chunk", "abcd");
    assert!(!verify(b"forged chunk", "abcd", &proof));
}

#[test]
fn proof_rejects_replayed_nonce() {
    let chunk = b"held bytes";
    let old = prove(chunk, "1111");
    assert!(!verify(chunk, "2222", &old));
}

#[test]
fn nonce_is_hex_and_stable_for_seed() {
    let n = nonce_from_seed(b"seed");
    assert_eq!(n.len(), 64);
    assert_eq!(n, nonce_from_seed(b"seed"));
}

#[test]
fn digests_are_sha256() {
    assert_eq!(
        nonce_from_seed(b""),
        "e3b0c44298fc1c149afbf4c8996fb92427ae41e4649b934ca495991b7852b855"
    );
    assert_eq!(
        nonce_from_seed(b"abc"),
        "ba7816bf8f01cfea414140de5dae2223b00361a396177a9cb410ff61f20015ad"
    );
}

#[test]
fn a_proof_hashes_the_chunk_and_the_decoded_nonce() {
    // "63" is the byte 'c', so this is the digest of "abc".
    assert_eq!(
        prove(b"ab", "63"),
        "ba7816bf8f01cfea414140de5dae2223b00361a396177a9cb410ff61f20015ad"
    );
    // A nonce that is not hexadecimal is taken as it stands.
    assert_eq!(
        prove(b"a", "bc+"),
        nonce_from_seed(b"abc+")
    );
    assert_eq!(proof_preimage(b"x", "zz"), b"xzz");
    assert_eq!(proof_preimage(b"x", "0A"), b"x\n");
    // Nonces that stand for different bytes make different preimages.
    assert_ne!(proof_preimage(b"x", "0a"), proof_preimage(b"x", "0b"));
    assert_eq!(proof_preimage(b"x", "0a"), proof_preimage(b"x", "0A"));
}

#[test]
fn verdicts_compare_the_exact_text() {
    let proof = prove(b"ab", "63");
    assert!(!verify(b"ab", "63", &proof.to_uppercase()));
    assert!(!verify(b"ab", "63", ""));
}

#[test]
fn the_index_is_the_head_of_the_digest_reduced() {
    assert_eq!(index_from_digest(&[0, 0, 0, 0, 0, 0, 1, 2, 9, 9], 1000), 258);
    assert_eq!(index_from_digest(&[0xff; 8], 10), u64::MAX % 10);
    assert_eq!(index_from_digest(&[7; 32], 0), 0);
    assert_eq!(challenge_seed_bytes("b", "c"), b"b|c");
    // The first eight bytes of the digest of "b|c", reduced.
    let digest = from_hex(&nonce_from_seed(b"b|c")).unwrap();
    let mut head = [0u8; 8];
    head.copy_from_slice(&digest[..8]);
    assert_eq!(challenge_index("b", "c", 1009), u64::from_be_bytes(head) % 1009);
}

#[test]
fn hex_is_written_in_lower_case_and_read_in_both() {
    assert_eq!(to_hex(&[0x00, 0x7f, 0xab, 0xff]), "007fabff");
    assert_eq!(from_hex("007FabFF"), Some(vec![0x00, 0x7f, 0xab, 0xff]));
    assert_eq!(from_hex(""), Some(Vec::new()));
    assert_eq!(from_hex("abc"), None);
    assert_eq!(from_hex("0g"), None);
    assert_eq!(from_hex("é"), None);
    let all: Vec<u8> = (0..=255).collect();
    assert_eq!(from_hex(&to_hex(&all)), Some(all));
}

#[test]
fn a_node_id_has_64_digits() {
    assert_eq!(parse_node_id(&"ab".repeat(32)), Some([0xab; 32]));
    assert_eq!(parse_node_id(&"ab".repeat(31)), None);
    assert_eq!(parse_node_id(&"ab".repeat(33)), None);
    assert_eq!(parse_node_id(&"zz".repeat(32)), None);
    assert_eq!(parse_node_id(""), None);
}

#[test]
fn what_fits_in_memory_can_be_hashed() {
    assert!(is_hashable(0));
    assert!(is_hashable(0x1fff_ffff_ffff_ffff));
    assert!(!is_hashable(0x2000_0000_0000_0000));
}
