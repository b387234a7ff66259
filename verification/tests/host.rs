use ce_pin::audit::{prove, Manifest};
use ce_pin::config::HostConfig;
use ce_pin::held::{HeldEntry, HeldSet};
use ce_pin::host::{
    ability_for, audit_held_locally, host_identity, negative_reply, screen, screen_payload, serves, Action,
    Denial, Fetched, HostState, Revoked,
};
use ce_pin::proto::{AuditReq, OfferReq, ReleaseReq, RenewReq};

fn held_with(cids: &[&str]) -> HeldSet {
    let mut h = HeldSet::default();
    for c in cids {
        h.insert(
            (*c).to_string(),
            HeldEntry {
                bytes: 10,
                rent_per_gb_hour: "0".into(),
                expiry_height: 0,
                pinned_at: 0,
                last_access: 0,
                publisher: String::new(),
            },
        );
    }
    h
}

/// Nothing is proven that this host does not hold itself.
#[test]
fn audit_denied_for_cid_not_held_locally() {
    let held = held_with(&["held-cid-aaaa"]);
    assert!(audit_held_locally(&held, "held-cid-aaaa"), "a locally-held CID may be proven");
    assert!(
        !audit_held_locally(&held, "not-held-cid-bbbb"),
        "an un-held CID must not be proven (no re-fetch-from-mesh forgery)"
    );
}

#[test]
fn audit_denied_after_release() {
    let mut held = held_with(&["cid-x"]);
    assert!(audit_held_locally(&held, "cid-x"));
    assert!(held.remove("cid-x") > 0, "release must drop the CID and free its bytes");
    assert!(!audit_held_locally(&held, "cid-x"), "a released CID must not be proven");
}

#[test]
fn empty_host_answers_no_audit() {
    let held = HeldSet::default();
    assert!(!audit_held_locally(&held, "anything"));
}

fn config() -> HostConfig {
    HostConfig {
        max_object_bytes: 100,
        capacity_bytes: 250,
        min_rent_per_gb_hour: 5,
        fetch_timeout_secs: 3,
        ..Default::default()
    }
}

fn offer(cid: &str, bytes_len: u64, rent: &str) -> OfferReq {
    OfferReq {
        caps: String::new(),
        cid: cid.into(),
        bytes_len,
        rent_per_gb_hour: rent.into(),
        expiry_height: 500,
    }
}

#[test]
fn requests_are_screened_in_order() {
    let id = "ab".repeat(32);
    let ok = screen("pin/offer", &id, "6869").unwrap();
    assert_eq!(ok.action, Action::Offer);
    assert_eq!(ok.sender, [0xab; 32]);
    assert_eq!(ok.payload, b"hi");
    assert_eq!(screen("pin/nope", "xx", "zz").unwrap_err(), "payload hex");
    assert_eq!(screen("pin/nope", "xx", "").unwrap_err(), "bad sender id");
    assert_eq!(screen("pin/nope", &id, "").unwrap_err(), "unknown pin action 'nope'");
    assert_eq!(screen("pin/pin/offer", &id, "").unwrap_err(), "unknown pin action 'pin/offer'");
    // A topic without the prefix is taken as the name itself.
    assert_eq!(screen("audit", &id, "").unwrap().action, Action::Audit);
    for (name, action, ability) in [
        ("pin/offer", Action::Offer, "pin:store"),
        ("pin/audit", Action::Audit, "pin:audit"),
        ("pin/status", Action::Status, "pin:read"),
        ("pin/renew", Action::Renew, "pin:store"),
        ("pin/release", Action::Release, "pin:release"),
    ] {
        assert_eq!(screen(name, &id, "").unwrap().action, action);
        assert_eq!(ability_for(action), ability);
    }
    assert!(serves("pin/x") && !serves("pi") && !serves("other/pin/x"));
}

#[test]
fn a_payload_reaches_its_action_unchanged() {
    let id = "AB".repeat(32);
    let all: Vec<u8> = (0..=255).collect();
    assert_eq!(screen_payload("pin/status", &id, &all).unwrap().payload, all);
    assert_eq!(screen_payload("pin/status", "id", &all).unwrap_err(), "bad sender id");
    assert_eq!(screen_payload("pin/", &id, &[]).unwrap_err(), "unknown pin action ''");
}

#[test]
fn denials_say_why_and_real_ones_are_counted() {
    let mut host = HostState::new(config(), HeldSet::default());
    assert_eq!(host.deny(Denial::MissingCaps).reason, "payload missing caps");
    assert_eq!(host.deny(Denial::BadCapability).reason, "bad capability");
    assert_eq!(host.metrics.snapshot().auth_denied, 0);
    let reply = host.deny(Denial::Denied("no root".into()));
    assert_eq!(reply, negative_reply("denied: no root".into()));
    assert!(!reply.accepted && !reply.held && !reply.released && !reply.renewed);
    assert_eq!(host.metrics.snapshot().auth_denied, 1);
}

#[test]
fn revocations_go_by_issuer_and_nonce() {
    let pairs = vec![
        ("ab".repeat(32), 42),
        ("not hex".to_string(), 1),
        ("CD".repeat(32), 7),
    ];
    let revoked = Revoked::from_pairs(&pairs);
    assert!(revoked.is_revoked(&[0xab; 32], 42));
    assert!(!revoked.is_revoked(&[0xab; 32], 7));
    assert!(revoked.is_revoked(&[0xcd; 32], 7));
    assert!(!revoked.is_revoked(&[0; 32], 1));
    assert!(!Revoked::from_pairs(&[]).is_revoked(&[0xab; 32], 42));
}

#[test]
fn an_offer_is_admitted_fetched_and_held() {
    let mut host = HostState::new(config(), held_with(&["old"]));
    let req = offer("new", 50, "5");
    assert!(host.offer_admission(&req, 0).is_none());
    let resp = host.offer_conclusion(&req, "publisher", false, &Fetched::Object(vec![0; 60]), 77);
    assert!(resp.accepted && resp.reason.is_none());
    assert_eq!(resp.stored_bytes, 60);
    assert_eq!(
        host.held.entries.get("new"),
        Some(&HeldEntry {
            bytes: 60,
            rent_per_gb_hour: "5".into(),
            expiry_height: 500,
            pinned_at: 77,
            last_access: 77,
            publisher: "publisher".into(),
        })
    );
    assert_eq!(host.held.total_bytes(), 70);
    assert_eq!(host.metrics.snapshot().offers_accepted, 1);
    assert_eq!(host.services(), ["pin:host", "pin:new", "pin:old"]);
}

#[test]
fn an_offer_that_breaks_a_limit_is_declined() {
    let mut host = HostState::new(config(), held_with(&["a"]));
    let resp = host.offer_admission(&offer("new", 101, "5"), 0).unwrap();
    assert!(!resp.accepted);
    assert_eq!(
        resp.reason.as_deref(),
        Some("object too large: 101 bytes exceeds host max 100 bytes")
    );
    assert!(host.offer_admission(&offer("new", 1, "4"), 0).is_some());
    assert_eq!(host.metrics.snapshot().offers_declined, 2);
    assert!(host.held.contains("a"));
}

#[test]
fn expired_pins_make_room_for_an_offer() {
    let mut host = HostState::new(config(), HeldSet::default());
    let filler = HeldEntry { bytes: 240, expiry_height: 10, ..HeldEntry::default_record() };
    host.held.insert("filler".into(), filler);
    assert!(host.offer_admission(&offer("new", 50, "5"), 9).is_some());
    assert!(host.held.contains("filler"));
    assert!(host.offer_admission(&offer("new", 50, "5"), 10).is_none());
    assert!(host.held.is_empty());
}

#[test]
fn an_object_that_is_held_is_always_admitted() {
    let mut host = HostState::new(config(), held_with(&["a"]));
    let gone = HeldEntry { bytes: 240, expiry_height: 10, ..HeldEntry::default_record() };
    host.held.insert("gone".into(), gone);
    // Over every limit, and with an expired pin about: nothing is declined, dropped or counted.
    let before = host.held.clone();
    assert!(host.offer_admission(&offer("a", 1_000, "0"), 50).is_none());
    assert_eq!(host.held, before);
    assert_eq!(host.metrics.snapshot().offers_declined, 0);
    // Even the expired pin itself can be offered again.
    assert!(host.offer_admission(&offer("gone", 1_000, "0"), 50).is_none());
    assert!(host.held.contains("gone"));
    // An object that is not held is declined, after the expired pin was dropped.
    assert!(host.offer_admission(&offer("b", 1_000, "0"), 50).is_some());
    assert!(!host.held.contains("gone"));
}

#[test]
fn a_fetch_can_fail_or_take_too_long() {
    let mut host = HostState::new(config(), HeldSet::default());
    let req = offer("new", 50, "5");
    let failed = host.offer_conclusion(&req, "p", false, &Fetched::Failed("gone".into()), 1);
    assert_eq!(failed.reason.as_deref(), Some("fetch failed: gone"));
    let late = host.offer_conclusion(&req, "p", false, &Fetched::TimedOut, 1);
    assert_eq!(late.reason.as_deref(), Some("fetch timed out after 3s"));
    assert!(!failed.accepted && !late.accepted);
    assert_eq!(host.metrics.snapshot().offers_failed, 2);
    assert!(host.held.is_empty());
}

#[test]
fn a_lie_about_the_size_does_not_help() {
    let mut host = HostState::new(config(), HeldSet::default());
    let req = offer("new", 1, "5");
    assert!(host.offer_admission(&req, 0).is_none());
    let resp = host.offer_conclusion(&req, "p", false, &Fetched::Object(vec![0; 101]), 1);
    assert_eq!(
        resp.reason.as_deref(),
        Some("fetched object is 101 bytes, over host max 100")
    );
    assert_eq!(host.metrics.snapshot().offers_declined, 1);
    assert!(host.held.is_empty());
    // An object that is held already is refreshed whatever its size.
    let again = host.offer_conclusion(&req, "p", true, &Fetched::Object(vec![0; 101]), 1);
    assert!(again.accepted);
}

#[test]
fn an_object_that_does_not_fit_is_declined_whatever_was_declared() {
    let mut host = HostState::new(config(), HeldSet::default());
    host.held.insert("big".into(), HeldEntry { bytes: 200, ..HeldEntry::default_record() });
    let req = offer("new", 10, "5");
    assert!(host.offer_admission(&req, 0).is_none());
    let resp = host.offer_conclusion(&req, "p", false, &Fetched::Object(vec![0; 51]), 1);
    assert!(!resp.accepted);
    assert_eq!(
        resp.reason.as_deref(),
        Some("insufficient capacity: holding 51 more bytes would reach 251, over the host budget \
              of 250")
    );
    assert!(!host.held.contains("new"));
    assert_eq!(host.metrics.snapshot().offers_declined, 1);
    let fits = host.offer_conclusion(&req, "p", false, &Fetched::Object(vec![0; 50]), 1);
    assert!(fits.accepted);
    assert_eq!(host.held.total_bytes(), 250);
    // What an object replaces does not count against it.
    let same = host.offer_conclusion(&req, "p", false, &Fetched::Object(vec![0; 50]), 2);
    assert!(same.accepted);
    assert_eq!(host.held.total_bytes(), 250);
}

#[test]
fn a_budget_smaller_than_the_object_limit_still_holds() {
    let cfg = HostConfig { max_object_bytes: 1000, capacity_bytes: 100, ..Default::default() };
    let mut host = HostState::new(cfg, HeldSet::default());
    let req = offer("new", 1, "0");
    assert!(host.offer_admission(&req, 0).is_none());
    let resp = host.offer_conclusion(&req, "p", false, &Fetched::Object(vec![0; 101]), 1);
    assert!(!resp.accepted && host.held.is_empty());
}

#[test]
fn a_second_offer_refreshes_the_terms_only() {
    let mut host = HostState::new(config(), HeldSet::default());
    let first = offer("a", 10, "5");
    host.offer_conclusion(&first, "p", false, &Fetched::Object(vec![0; 10]), 7);
    let mut second = offer("a", 20, "6");
    second.expiry_height = 900;
    let resp = host.offer_conclusion(&second, "q", true, &Fetched::Object(vec![0; 20]), 8);
    assert!(resp.accepted);
    assert_eq!(
        host.held.entries.get("a"),
        Some(&HeldEntry {
            bytes: 20,
            rent_per_gb_hour: "6".into(),
            expiry_height: 900,
            pinned_at: 7,
            last_access: 8,
            publisher: "p".into(),
        })
    );
}

#[test]
fn sizes_of_migrated_pins_are_learned() {
    let legacy = || HeldSet::default().migrated(vec!["a".to_string()]);
    let mut host = HostState::new(config(), legacy());
    host.status_conclusion("a", &manifest(), 8);
    assert_eq!(host.held.entries.get("a").unwrap().bytes, 99);
    let mut host = HostState::new(config(), legacy());
    assert!(host.audit_chunk("a", &manifest(), 0).is_ok());
    assert_eq!(host.held.entries.get("a").unwrap().bytes, 99);
    assert_eq!(host.held.total_bytes(), 99);
}

fn audit(cid: &str, chunk_index: u64) -> AuditReq {
    AuditReq { caps: String::new(), cid: cid.into(), nonce: "00ff".into(), chunk_index }
}

fn manifest() -> Option<Manifest> {
    Some(Manifest { chunks: vec!["c0".into(), "c1".into()], total_size: 99 })
}

#[test]
fn an_audit_of_a_held_object_is_proven() {
    let mut host = HostState::new(config(), held_with(&["a"]));
    let req = audit("a", 1);
    assert!(host.audit_gate(&req.cid).is_none());
    assert_eq!(host.audit_chunk("a", &manifest(), 1).unwrap(), "c1");
    let resp = host.audit_conclusion(&req, &Ok(b"bytes".to_vec()), 55);
    assert_eq!(resp.proof, Some(prove(b"bytes", "00ff")));
    assert!(resp.reason.is_none());
    assert_eq!(host.held.entries.get("a").unwrap().last_access, 55);
    assert_eq!(host.metrics.snapshot().audits_passed, 1);
}

#[test]
fn an_audit_fails_with_a_reason() {
    let mut host = HostState::new(config(), held_with(&["a"]));
    let unheld = host.audit_gate("b").unwrap();
    assert_eq!(unheld.reason.as_deref(), Some("not held locally"));
    assert!(unheld.proof.is_none());
    let none = host.audit_chunk("a", &None, 0).unwrap_err();
    assert_eq!(none.reason.as_deref(), Some("manifest unavailable"));
    let beyond = host.audit_chunk("a", &manifest(), 2).unwrap_err();
    assert_eq!(beyond.reason.as_deref(), Some("chunk index out of range"));
    assert!(host.audit_chunk("a", &manifest(), u64::MAX).is_err());
    let gone = host.audit_conclusion(&audit("a", 0), &Err("lost".into()), 55);
    assert_eq!(gone.reason.as_deref(), Some("chunk unavailable: lost"));
    assert!(gone.proof.is_none());
    assert_eq!(host.metrics.snapshot().audits_failed, 5);
    assert_eq!(host.held.entries.get("a").unwrap().last_access, 0);
}

#[test]
fn status_reports_what_is_served() {
    let mut host = HostState::new(config(), held_with(&["a"]));
    let unheld = host.status_gate("b").unwrap();
    assert!(!unheld.held && unheld.bytes == 0);
    assert!(host.status_gate("a").is_none());
    let missing = host.status_conclusion("a", &None, 8);
    assert!(!missing.held && missing.bytes == 0);
    assert_eq!(host.held.entries.get("a").unwrap().last_access, 0);
    let there = host.status_conclusion("a", &manifest(), 8);
    assert!(there.held && there.bytes == 99);
    assert_eq!(host.held.entries.get("a").unwrap().last_access, 8);
}

fn renewal(cid: &str, expiry_height: u64, rent: &str) -> RenewReq {
    RenewReq { caps: String::new(), cid: cid.into(), expiry_height, rent_per_gb_hour: rent.into() }
}

#[test]
fn a_renewal_only_extends() {
    let mut host = HostState::new(config(), held_with(&["a"]));
    // A pin without an end keeps having none.
    let r = host.renew(&renewal("a", 17_280, ""), 1);
    assert!(r.renewed);
    assert_eq!(r.expiry_height, 0);
    assert_eq!(host.held.entries.get("a").unwrap().expiry_height, 0);
    host.held.entries.get_mut("a").unwrap().expiry_height = 80;
    assert_eq!(host.renew(&renewal("a", 100, ""), 1).expiry_height, 100);
    assert_eq!(host.renew(&renewal("a", 50, ""), 2).expiry_height, 100);
    assert_eq!(host.renew(&renewal("a", 0, " \t"), 3).expiry_height, 100);
    assert_eq!(host.held.entries.get("a").unwrap().rent_per_gb_hour, "0");
    assert_eq!(host.renew(&renewal("a", 200, " 9 "), 4).expiry_height, 200);
    let e = host.held.entries.get("a").unwrap();
    assert_eq!(e.rent_per_gb_hour, " 9 ");
    assert_eq!(e.last_access, 4);
    assert_eq!(e.bytes, 10);
}

#[test]
fn a_renewal_is_no_way_to_pin() {
    let mut host = HostState::new(config(), held_with(&["a"]));
    let r = host.renew(&renewal("b", 100, "9"), 1);
    assert!(!r.renewed);
    assert_eq!(r.expiry_height, 0);
    assert_eq!(r.reason.as_deref(), Some("not held locally"));
    assert!(!host.held.contains("b"));
}

#[test]
fn a_release_reports_whether_it_was_held() {
    let mut host = HostState::new(config(), held_with(&["a"]));
    let req = ReleaseReq { caps: String::new(), cid: "a".into() };
    let was_held = host.release(&req);
    assert!(host.release_conclusion(was_held).released);
    let again = host.release(&req);
    assert!(!host.release_conclusion(again).released);
    assert_eq!(host.metrics.snapshot().releases, 1);
    assert!(host.audit_gate("a").is_some());
}

#[test]
fn garbage_is_expired_pins_then_victims() {
    let mut host = HostState::new(config(), HeldSet::default());
    let pin = |bytes: u64, expiry: u64, rent: &str| HeldEntry {
        bytes,
        expiry_height: expiry,
        rent_per_gb_hour: rent.into(),
        ..HeldEntry::default_record()
    };
    host.held.insert("gone-b".into(), pin(1, 5, "9"));
    host.held.insert("gone-a".into(), pin(1, 9, "9"));
    host.held.insert("cheap".into(), pin(100, 0, "1"));
    host.held.insert("good".into(), pin(100, 0, "5"));
    host.held.insert("best".into(), pin(100, 50, "9"));
    assert_eq!(host.collect_garbage(10), ["gone-a", "gone-b", "cheap"]);
    assert_eq!(host.held.total_bytes(), 200);
    assert_eq!(host.metrics.snapshot().gc_evictions, 3);
    assert!(host.collect_garbage(10).is_empty(), "nothing more to collect");
    assert_eq!(host.metrics.snapshot().gc_evictions, 3);
    assert!(host.audit_gate("cheap").is_some(), "an evicted pin cannot be proven");
    assert!(host.audit_gate("good").is_none());
}

#[test]
fn a_node_reports_its_own_identity() {
    assert_eq!(host_identity(&"0f".repeat(32)), Ok([0x0f; 32]));
    assert_eq!(host_identity("0f").unwrap_err(), "node returned a malformed node id");
}
