use ce_pin::audit;
use ce_pin::placement::{rank, select, Candidate};
use ce_pin::text::{parse_u128, parse_u64, push_decimal, str_precedes, trim};

/// A small deterministic generator of test data.
struct Numbers(u64);

impl Numbers {
    fn next(&mut self) -> u64 {
        self.0 = self.0.wrapping_mul(6364136223846793005).wrapping_add(1442695040888963407);
        self.0 ^ (self.0 >> 29)
    }

    fn below(&mut self, n: u64) -> u64 {
        (self.next() >> 11) % n
    }

    fn text(&mut self, alphabet: &str, max: u64) -> String {
        let letters: Vec<char> = alphabet.chars().collect();
        let len = self.below(max + 1);
        (0..len).map(|_| letters[self.below(letters.len() as u64) as usize]).collect()
    }
}

#[test]
fn empty_object_audit_index_is_zero_not_panic() {
    assert_eq!(audit::challenge_index("beacon", "cid", 0), 0);
}

#[test]
fn malformed_nonce_still_produces_deterministic_proof() {
    let p1 = audit::prove(b"data", "not-hex-zz");
    let p2 = audit::prove(b"data", "not-hex-zz");
    assert_eq!(p1, p2);
    assert!(audit::verify(b"data", "not-hex-zz", &p1));
}

#[test]
fn challenge_index_in_range_and_deterministic() {
    let mut g = Numbers(1);
    for _ in 0..200 {
        let beacon = g.text("0123456789abcdef", 64);
        let cid = g.text("0123456789abcdef", 64);
        let count = 1 + g.below(99_999) as usize;
        let a = audit::challenge_index(&beacon, &cid, count);
        let b = audit::challenge_index(&beacon, &cid, count);
        assert_eq!(a, b);
        assert!(a < count as u64);
    }
}

#[test]
fn proof_verifies_and_rejects_tamper() {
    let mut g = Numbers(2);
    for _ in 0..200 {
        let len = g.below(512);
        let chunk: Vec<u8> = (0..len).map(|_| g.next() as u8).collect();
        let nonce = g.text("0123456789abcdef", 32);
        let proof = audit::prove(&chunk, &nonce);
        assert!(audit::verify(&chunk, &nonce, &proof));
        // Replaying under a different nonce must fail.
        let other_nonce = format!("{nonce}ff");
        assert!(!audit::verify(&chunk, &other_nonce, &proof));
        // Flipping a byte breaks the proof.
        if !chunk.is_empty() {
            let mut forged = chunk.clone();
            let i = g.below(512) as usize % forged.len();
            forged[i] ^= 0xff;
            assert!(!audit::verify(&forged, &nonce, &proof));
        }
    }
}

#[test]
fn rank_is_total_and_idempotent() {
    let mut g = Numbers(3);
    for round in 0..200 {
        let n = g.below(20);
        // Small signals tie often; the others come from the whole range.
        let small = round % 2 == 0;
        let cands: Vec<Candidate> = (0..n)
            .map(|i| Candidate {
                node_id: format!("{}-{i}", g.text("abcxyz019", 8)),
                delivered_work: if small { g.below(3) } else { g.next() },
                last_seen_secs: if small { g.below(3) } else { g.next() },
                mem_mb: if small { g.below(3) as u32 } else { g.next() as u32 },
                fault_domain: String::new(),
            })
            .collect();
        let once = rank(&cands);
        let twice = rank(&once);
        assert_eq!(once, twice, "rank must be idempotent (stable total order)");
        assert_eq!(once.len(), cands.len());
        for w in once.windows(2) {
            let (a, b) = (&w[0], &w[1]);
            let key_a = (
                std::cmp::Reverse(a.delivered_work),
                a.last_seen_secs,
                std::cmp::Reverse(a.mem_mb),
                a.node_id.clone(),
            );
            let key_b = (
                std::cmp::Reverse(b.delivered_work),
                b.last_seen_secs,
                std::cmp::Reverse(b.mem_mb),
                b.node_id.clone(),
            );
            assert!(key_a <= key_b, "ranking violated the ordering key");
        }
    }
}

#[test]
fn select_respects_exclude_and_cap() {
    let mut g = Numbers(4);
    for _ in 0..100 {
        let count = g.below(30);
        let cands: Vec<Candidate> = (0..count)
            .map(|i| Candidate {
                node_id: format!("{}-{i}", g.text("abc019", 3)),
                delivered_work: i,
                last_seen_secs: 0,
                mem_mb: 1,
                fault_domain: g.text("xy", 1),
            })
            .collect();
        let n = g.below(10) as usize;
        let skips = g.below(5);
        let exclude: Vec<String> = (0..skips)
            .filter_map(|_| cands.get(g.below(30) as usize).map(|c| c.node_id.clone()))
            .collect();
        let picked = select(&cands, n, &exclude);
        assert!(picked.len() <= n, "select must cap at n");
        for id in &picked {
            assert!(!exclude.contains(id), "select returned an excluded id");
        }
        let mut sorted = picked.clone();
        sorted.sort();
        sorted.dedup();
        assert_eq!(sorted.len(), picked.len(), "select returned duplicates");
        let eligible = cands.iter().filter(|c| !exclude.contains(&c.node_id)).count();
        assert_eq!(picked.len(), n.min(eligible), "select must fill the factor");
    }
}

#[test]
fn text_order_is_that_of_strings() {
    let mut g = Numbers(5);
    for _ in 0..2000 {
        let a = g.text("aAbzé日𝄞 0", 4);
        let b = g.text("aAbzé日𝄞 0", 4);
        assert_eq!(str_precedes(&a, &b), a < b, "{a:?} {b:?}");
    }
}

#[test]
fn white_space_is_that_of_char() {
    for n in 0..=0x10ffffu32 {
        if let Some(c) = char::from_u32(n) {
            assert_eq!(trim(&c.to_string()).is_empty(), c.is_whitespace(), "{n:#x}");
        }
    }
}

#[test]
fn trimming_is_that_of_str() {
    let mut g = Numbers(6);
    for _ in 0..2000 {
        let s = g.text(" \t\n\u{a0}\u{3000}ab日", 8);
        assert_eq!(trim(&s), s.trim());
    }
}

#[test]
fn numbers_are_read_as_the_standard_library_reads_them() {
    let mut g = Numbers(7);
    for _ in 0..5000 {
        let s = g.text("0123456789+- x", 6);
        assert_eq!(parse_u64(&s), s.parse::<u64>().ok(), "{s:?}");
        assert_eq!(parse_u128(&s), s.parse::<u128>().ok(), "{s:?}");
    }
    for s in ["", "+", "+5", "++5", "00", "18446744073709551615", "18446744073709551616", "٣"] {
        assert_eq!(parse_u64(s), s.parse::<u64>().ok(), "{s:?}");
    }
    assert_eq!(parse_u128("340282366920938463463374607431768211455"), Some(u128::MAX));
    assert_eq!(parse_u128("340282366920938463463374607431768211456"), None);
}

#[test]
fn decimals_read_back() {
    let mut g = Numbers(8);
    for i in 0..500 {
        let n: u128 = match i {
            0 => 0,
            1 => u128::MAX,
            2 => 9,
            3 => 10,
            _ => ((g.next() as u128) << 64 | g.next() as u128) >> g.below(128),
        };
        let mut s = String::from("=");
        push_decimal(&mut s, n);
        assert_eq!(s, format!("={n}"));
        assert_eq!(parse_u128(&s[1..]), Some(n));
    }
}
