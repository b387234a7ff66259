use ce_pin::audit::{nonce_from_seed, prove, Manifest};
use ce_pin::client::{
    accrue, audit_verdict, candidate_hosts, challenge, channel_capacity_for, channel_to_settle,
    check_chunk, exceeds_limit, known_holders, lease_end, lease_hours, nodes_to_rank,
    offer_request, release_request, renew_request, renewal_end, renewal_rent, rent_owed_base,
    rent_receipt, status_request, AtlasEntry, PlacementStep, Replication, CREDIT,
};
use ce_pin::pinset::{Entry, PinJob, Replica};
use ce_pin::placement::Candidate;
use ce_pin::proto::{AuditResp, OfferReq, OfferResp, ReleaseResp};
use ce_pin::table::Table;

#[test]
fn rent_owed_is_integer_and_scales() {
    // 1 GiB held for 1 hour at 1000 base/GB-hour == 1000 base.
    let gib = 1024u64 * 1024 * 1024;
    assert_eq!(rent_owed_base(gib, 1, 1000), 1000);
    // 2 GiB for 3 hours == 6000.
    assert_eq!(rent_owed_base(2 * gib, 3, 1000), 6000);
    // Zero rent is always zero.
    assert_eq!(rent_owed_base(gib, 100, 0), 0);
}

#[test]
fn rent_owed_handles_sub_gb_objects() {
    // A 512 MiB object for 1 hour at 1000/GB-hour: 500 thousandths of a GB -> 500 base.
    let half_gib = 512u64 * 1024 * 1024;
    assert_eq!(rent_owed_base(half_gib, 1, 1000), 500);
}

#[test]
fn channel_capacity_has_a_floor() {
    // Tiny object, tiny rent -> still at least 1 credit so the channel is openable.
    let cap = channel_capacity_for(1024, 1, 1);
    assert!(cap >= CREDIT, "channel capacity must floor at one credit");
}

#[test]
fn channel_capacity_scales_with_rent_and_lease() {
    let small = channel_capacity_for(2 * 1024 * 1024 * 1024, 10, 1);
    let large = channel_capacity_for(2 * 1024 * 1024 * 1024, 10, 1000);
    assert!(large >= small, "longer lease must not lower the locked capacity");
}

#[test]
fn channel_capacity_is_exact_above_the_floor() {
    let gib = 1024u64 * 1024 * 1024;
    let credit = CREDIT as u128;
    assert_eq!(channel_capacity_for(2 * gib, credit, 24), 48 * CREDIT);
    // A byte more than a GB is charged a thousandth of a GB more.
    assert_eq!(channel_capacity_for(gib + 1, credit, 1000), 1001 * CREDIT);
    // No bytes at all count as a thousandth of a GB.
    assert_eq!(channel_capacity_for(0, credit, 5000), 5 * CREDIT);
    assert_eq!(channel_capacity_for(0, 0, 0), CREDIT);
    // Products stop at the largest number, so what is locked stays in range.
    assert_eq!(channel_capacity_for(u64::MAX, u128::MAX, u64::MAX), (u128::MAX / 1000) as i128);
    assert_eq!(rent_owed_base(u64::MAX, u64::MAX, u128::MAX), u128::MAX / 1000);
    assert_eq!(rent_owed_base(u64::MAX, 0, u128::MAX), 0);
}

#[test]
fn a_channel_covers_the_rent_of_its_lease() {
    for bytes in [0, 1, 1_000_000, 1 << 30, (1 << 30) + 1, 5_000_000_000] {
        for rate in [0, 1, 999, 1_000_000_000_000_000, u128::MAX] {
            for lease in [1u64, 7, 24, 8640] {
                let locked = channel_capacity_for(bytes, rate, lease) as u128;
                assert!(rent_owed_base(bytes, lease, rate) <= locked);
                assert!(rent_owed_base(bytes, lease / 2, rate) <= locked);
            }
        }
    }
}

#[test]
fn lease_hours_are_whole_and_at_least_one() {
    assert_eq!(lease_hours(0, 360), 1);
    assert_eq!(lease_hours(0, 719), 1);
    assert_eq!(lease_hours(0, 720), 2);
    assert_eq!(lease_hours(100, 8740), 24);
    assert_eq!(lease_hours(500, 100), 1);
    assert_eq!(lease_hours(0, 0), 1);
}

fn replica(holder: &str, channel: &str) -> Replica {
    Replica { holder: holder.into(), channel_id: channel.into(), last_proof_ok: true }
}

#[test]
fn a_receipt_needs_a_channel() {
    assert!(rent_receipt(&replica("h", ""), 5).is_none());
    let terms = rent_receipt(&replica("h", "ch"), 5).unwrap();
    assert_eq!(terms.channel_id, "ch");
    assert_eq!(terms.holder, "h");
    assert_eq!(terms.cumulative, 5);
    for n in [0, i128::MAX as u128, i128::MAX as u128 + 1, u128::MAX - 1, u128::MAX] {
        assert_eq!(rent_receipt(&replica("h", "ch"), n).unwrap().cumulative, n as i128);
    }
}

fn atlas(id: &str, tags: &[&str]) -> AtlasEntry {
    AtlasEntry {
        node_id: id.into(),
        last_seen_secs: 7,
        mem_mb: 512,
        tags: tags.iter().map(|t| t.to_string()).collect(),
    }
}

#[test]
fn candidates_advertise_and_are_not_the_publisher() {
    let advertised = vec!["a".to_string(), "me".to_string(), "c".to_string(), "x".to_string()];
    let known = vec![
        atlas("c", &["region:eu"]),
        atlas("me", &[]),
        atlas("b", &[]),
        atlas("a", &["gpu"]),
    ];
    let me = Some("me".to_string());
    assert_eq!(nodes_to_rank(&advertised, &known, &me), ["c", "a"]);
    assert_eq!(nodes_to_rank(&advertised, &known, &None), ["c", "me", "a"]);
    let mut work = Table::new();
    work.insert("c".to_string(), 42);
    work.insert("b".to_string(), 1);
    assert_eq!(
        candidate_hosts(&advertised, &known, &me, &work),
        [
            Candidate {
                node_id: "c".into(),
                delivered_work: 42,
                last_seen_secs: 7,
                mem_mb: 512,
                fault_domain: "eu".into(),
            },
            Candidate {
                node_id: "a".into(),
                delivered_work: 0,
                last_seen_secs: 7,
                mem_mb: 512,
                fault_domain: String::new(),
            },
        ]
    );
    assert!(candidate_hosts(&[], &known, &me, &work).is_empty());
}

fn host(id: &str, work: u64) -> Candidate {
    Candidate {
        node_id: id.into(),
        delivered_work: work,
        last_seen_secs: 0,
        mem_mb: 1,
        fault_domain: String::new(),
    }
}

fn offer(rent: &str, expiry: u64) -> OfferReq {
    offer_request("caps", "cid", 2 << 30, rent, expiry)
}

fn accepts() -> Option<OfferResp> {
    Some(OfferResp { accepted: true, stored_bytes: 1, reason: None })
}

fn declines() -> Option<OfferResp> {
    Some(OfferResp { accepted: false, stored_bytes: 0, reason: Some("full".into()) })
}

#[test]
fn replication_asks_pays_and_collects() {
    let hosts = [host("a", 4), host("b", 3), host("c", 2), host("d", 1)];
    let mut r =
        Replication::start(offer("1000000000000000000", 8640), 4, &hosts, &["x".to_string()])
            .ok()
            .unwrap();
    assert_eq!(r.offer_request(), offer("1000000000000000000", 8640));
    // The first host accepts and a channel is opened.
    assert_eq!(r.step(), PlacementStep::Offer("a".into()));
    r = r.offer_answered(&accepts());
    assert_eq!(r.step(), PlacementStep::OpenChannel("a".into()));
    // 8640 blocks from height zero are 24 hours; two GB at a credit per GB-hour.
    assert_eq!(r.channel_amount(0), 48 * CREDIT);
    assert_eq!(r.channel_amount(8640), 2 * CREDIT);
    r = r.channel_answered(Some("ch-a".into()));
    // The second declines, the third cannot be asked.
    assert_eq!(r.step(), PlacementStep::Offer("b".into()));
    r = r.offer_answered(&declines());
    assert_eq!(r.step(), PlacementStep::Offer("c".into()));
    r = r.offer_answered(&None);
    // The last accepts, but its channel cannot be opened: the pin stands unpaid.
    assert_eq!(r.step(), PlacementStep::Offer("d".into()));
    r = r.offer_answered(&accepts());
    assert_eq!(r.step(), PlacementStep::OpenChannel("d".into()));
    r = r.channel_answered(None);
    assert_eq!(r.step(), PlacementStep::Done);
    assert_eq!(r.into_replicas(), [replica("a", "ch-a"), replica("d", "")]);
}

#[test]
fn free_or_open_ended_pins_have_no_channel() {
    for (rent, expiry) in [("0", 8640), ("junk", 8640), ("5", 0)] {
        let mut r = Replication::start(offer(rent, expiry), 1, &[host("a", 1)], &[]).ok().unwrap();
        r = r.offer_answered(&accepts());
        assert_eq!(r.step(), PlacementStep::Done);
        assert_eq!(r.into_replicas(), [replica("a", "")]);
    }
}

#[test]
fn replication_needs_hosts() {
    let reason = "no eligible pinning hosts found (none advertised pin:host)";
    assert_eq!(Replication::start(offer("1", 1), 3, &[], &[]).err().unwrap(), reason);
    let excluded = Replication::start(offer("1", 1), 3, &[host("a", 1)], &["a".to_string()]);
    assert_eq!(excluded.err().unwrap(), reason);
    assert_eq!(Replication::start(offer("1", 1), 0, &[host("a", 1)], &[]).err().unwrap(), reason);
}

fn manifest(chunks: &[&str]) -> Manifest {
    Manifest { chunks: chunks.iter().map(|c| c.to_string()).collect(), total_size: 9 }
}

#[test]
fn a_challenge_names_its_chunk_and_nonce() {
    let m = manifest(&["chunk-0", "chunk-1", "chunk-2"]);
    let c = challenge(&m, "beacon", b"salt", "caps", "cid").unwrap();
    let index = ce_pin::audit::challenge_index("beacon", "cid", 3);
    assert_eq!(c.request.chunk_index, index);
    assert_eq!(c.chunk_cid, format!("chunk-{index}"));
    assert_eq!(c.request.nonce, nonce_from_seed(format!("beacon:cid:{index}:salt").as_bytes()));
    assert_eq!(c.request.nonce.len(), 64);
    assert_eq!(c.request.caps, "caps");
    assert_eq!(c.request.cid, "cid");
}

#[test]
fn a_new_salt_makes_a_new_nonce_within_one_block() {
    let m = manifest(&["only"]);
    let a = challenge(&m, "beacon", b"one", "caps", "cid").unwrap();
    let b = challenge(&m, "beacon", b"two", "caps", "cid").unwrap();
    assert_eq!(a.request.chunk_index, b.request.chunk_index);
    assert_ne!(a.request.nonce, b.request.nonce);
    let recorded = AuditResp { proof: Some(prove(b"bytes", &a.request.nonce)), reason: None };
    assert!(audit_verdict(&a, b"bytes", &recorded));
    assert!(!audit_verdict(&b, b"bytes", &recorded), "an old answer does not fit");
}

#[test]
fn hours_accrue_to_the_rent_owed() {
    for (bytes, rate) in [(512u64 << 20, 1u128), (1 << 30, 9), (1_234_567_890, 777), (0, 5)] {
        let mut total = 0;
        for hours in 1..50u64 {
            total = accrue(total, bytes, rate);
            assert_eq!(total / 1000, rent_owed_base(bytes, hours, rate));
        }
    }
    assert_eq!(accrue(u128::MAX, 1 << 30, 1), u128::MAX);
    assert_eq!(accrue(7, u64::MAX, u128::MAX), u128::MAX);
}

#[test]
fn an_empty_object_cannot_be_challenged() {
    assert!(challenge(&manifest(&[]), "beacon", b"salt", "caps", "cid").is_none());
}

#[test]
fn verdicts_need_a_proof_of_the_right_chunk() {
    let c = challenge(&manifest(&["only"]), "beacon", b"salt", "caps", "cid").unwrap();
    let reply = |proof: Option<String>| AuditResp { proof, reason: None };
    let good = prove(b"bytes", &c.request.nonce);
    assert!(audit_verdict(&c, b"bytes", &reply(Some(good.clone()))));
    assert!(!audit_verdict(&c, b"other", &reply(Some(good))));
    assert!(!audit_verdict(&c, b"bytes", &reply(Some(prove(b"bytes", "00")))));
    assert!(!audit_verdict(&c, b"bytes", &reply(None)));
    assert!(check_chunk(&c, "only").is_ok());
    assert_eq!(
        check_chunk(&c, "else").unwrap_err(),
        "local chunk failed CID verification — cannot audit"
    );
}

#[test]
fn requests_carry_what_they_are_given() {
    let r = renew_request("caps", "cid", 9, "5");
    assert_eq!((r.caps.as_str(), r.cid.as_str()), ("caps", "cid"));
    assert_eq!((r.expiry_height, r.rent_per_gb_hour.as_str()), (9, "5"));
    let r = release_request("caps", "cid");
    assert_eq!((r.caps.as_str(), r.cid.as_str()), ("caps", "cid"));
    let r = status_request("caps", "cid");
    assert_eq!((r.caps.as_str(), r.cid.as_str()), ("caps", "cid"));
    let r = offer("7", 3);
    assert_eq!((r.caps.as_str(), r.cid.as_str()), ("caps", "cid"));
    assert_eq!((r.bytes_len, r.rent_per_gb_hour.as_str(), r.expiry_height), (2 << 30, "7", 3));
}

#[test]
fn a_released_channel_is_settled() {
    let yes = ReleaseResp { released: true, reason: None };
    let no = ReleaseResp { released: false, reason: None };
    assert_eq!(channel_to_settle(&replica("h", "ch"), &yes), Some("ch".to_string()));
    assert_eq!(channel_to_settle(&replica("h", "ch"), &no), None);
    assert_eq!(channel_to_settle(&replica("h", ""), &yes), None);
}

#[test]
fn size_limits_and_leases() {
    assert!(exceeds_limit(11, 10));
    assert!(!exceeds_limit(10, 10));
    assert!(!exceeds_limit(u64::MAX, 0));
    assert_eq!(lease_end(Some(100), 8640), 8740);
    assert_eq!(lease_end(Some(100), 0), 0);
    assert_eq!(lease_end(None, 8640), 0);
    assert_eq!(renewal_end(Some(100), 8640), 8740);
    assert_eq!(renewal_end(None, 8640), 8640);
}

fn entry(holders: &[&str]) -> Entry {
    Entry {
        job: PinJob {
            cid: "cid".into(),
            bytes_len: 1,
            replication: 3,
            rent_per_gb_hour: "17".into(),
            expiry_height: 0,
            label: None,
        },
        replicas: holders.iter().map(|h| replica(h, "")).collect(),
    }
}

#[test]
fn holders_are_asked_once_each() {
    let advertised = vec!["b".to_string(), "a".to_string()];
    let e = entry(&["c", "a", "c", "d"]);
    assert_eq!(known_holders(advertised.clone(), Some(&e)), ["b", "a", "c", "d"]);
    assert_eq!(known_holders(advertised, None), ["b", "a"]);
    assert!(known_holders(Vec::new(), None).is_empty());
}

#[test]
fn a_renewal_keeps_the_rent_unless_told() {
    assert_eq!(renewal_rent(None, &entry(&[])), "17");
    assert_eq!(renewal_rent(Some("5".into()), &entry(&[])), "5");
}
