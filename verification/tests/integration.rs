use ce_pin::audit;
use ce_pin::client::{audit_verdict, challenge, offer_request, release_request};
use ce_pin::config::HostConfig;
use ce_pin::held::HeldSet;
use ce_pin::host::{Fetched, HostState};
use ce_pin::placement::{rank, select, Candidate};
use ce_pin::proto::service_for;

/// A host that has the bytes proves it; a host without them cannot.
#[test]
fn por_proof_round_trip() {
    let chunk = b"a chunk of pinned content".to_vec();
    let nonce = audit::nonce_from_seed(b"beacon|cid|0");
    let proof = audit::prove(&chunk, &nonce);
    assert!(audit::verify(&chunk, &nonce, &proof));
    assert!(!audit::verify(b"wrong bytes", &nonce, &proof));
}

/// The challenged index is in range and stable for fixed inputs.
#[test]
fn challenge_index_in_range() {
    let idx = audit::challenge_index("00ffbeac0n", &service_for("xyz"), 16);
    assert!(idx < 16);
    assert_eq!(idx, audit::challenge_index("00ffbeac0n", &service_for("xyz"), 16));
}

/// Placement prefers proven, live hosts and excludes the publisher.
#[test]
fn placement_selects_best_hosts() {
    let cands = vec![
        Candidate { node_id: "self".into(), delivered_work: 99, last_seen_secs: 1, mem_mb: 1, fault_domain: String::new() },
        Candidate { node_id: "proven".into(), delivered_work: 10, last_seen_secs: 5, mem_mb: 1, fault_domain: String::new() },
        Candidate { node_id: "newcomer".into(), delivered_work: 0, last_seen_secs: 5, mem_mb: 1, fault_domain: String::new() },
    ];
    let picked = select(&cands, 2, &["self".to_string()]);
    assert_eq!(picked, ["proven", "newcomer"]);
}

/// A host takes an object, proves it to its publisher, and proves nothing once it was released.
#[test]
fn an_object_is_offered_audited_and_released() {
    let mut host = HostState::new(HostConfig::default(), HeldSet::default());
    let offer = offer_request("caps", "cid", 8, "1000", 8640);
    assert!(host.offer_admission(&offer, 100).is_none());
    let resp = host.offer_conclusion(&offer, "me", false, &Fetched::Object(vec![1; 8]), 7);
    assert!(resp.accepted);

    let chunks = [b"left".to_vec(), b"right".to_vec()];
    let manifest = || audit::Manifest {
        chunks: vec!["chunk-left".into(), "chunk-right".into()],
        total_size: 8,
    };
    for round in 0..20 {
        let c = challenge(&manifest(), &format!("beacon-{round}"), b"s", "caps", "cid").unwrap();
        let chunk = chunks[c.request.chunk_index as usize].clone();
        assert!(host.audit_gate(&c.request.cid).is_none());
        let asked = host.audit_chunk("cid", &Some(manifest()), c.request.chunk_index).unwrap();
        assert_eq!(asked, c.chunk_cid);
        let reply = host.audit_conclusion(&c.request, &Ok(chunk.clone()), 9);
        assert!(audit_verdict(&c, &chunk, &reply));
        // The same answer does for no other round.
        let next = challenge(&manifest(), &format!("beacon-{}", round + 1), b"s", "caps", "cid").unwrap();
        assert!(!audit_verdict(&next, &chunk, &reply));
    }

    let held = host.release(&release_request("caps", "cid"));
    assert!(host.release_conclusion(held).released);
    let c = challenge(&manifest(), "beacon", b"s", "caps", "cid").unwrap();
    let refused = host.audit_gate("cid").unwrap();
    assert!(!audit_verdict(&c, b"left", &refused));
}

/// Proven work counts for more than being fresh or roomy.
#[test]
fn proven_work_outranks_the_rest() {
    let cands = vec![
        Candidate { node_id: "newcomer".into(), delivered_work: 0, last_seen_secs: 1, mem_mb: 8000, fault_domain: String::new() },
        Candidate { node_id: "proven".into(), delivered_work: 50, last_seen_secs: 30, mem_mb: 512, fault_domain: String::new() },
    ];
    assert_eq!(rank(&cands)[0].node_id, "proven");
}
