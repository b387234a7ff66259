use ce_pin::pinset::{Entry, PinJob, PinSet, Replica};

fn sample_entry(cid: &str) -> Entry {
    Entry {
        job: PinJob {
            cid: cid.into(),
            bytes_len: 1024,
            replication: 3,
            rent_per_gb_hour: "1000000000000000".into(),
            expiry_height: 8640,
            label: Some("dataset".into()),
        },
        replicas: vec![
            Replica { holder: "host-a".into(), channel_id: "chan-a".into(), last_proof_ok: true },
            Replica { holder: "host-b".into(), channel_id: String::new(), last_proof_ok: false },
        ],
    }
}

#[test]
fn healthy_replicas_counts_only_verified() {
    let e = sample_entry("c");
    assert_eq!(e.healthy_replicas(), 1); // host-a ok, host-b not
}

#[test]
fn upsert_replaces_and_remove_works() {
    let mut set = PinSet::default();
    set.upsert(sample_entry("c"));
    let mut updated = sample_entry("c");
    updated.job.replication = 9;
    set.upsert(updated);
    assert_eq!(set.get("c").unwrap().job.replication, 9);
    assert!(set.remove("c").is_some());
    assert!(set.get("c").is_none());
}

#[test]
fn health_is_written_back_per_replica() {
    let mut set = PinSet::default();
    set.upsert(sample_entry("c"));
    assert!(set.mark_health("c", &["host-b".to_string(), "stranger".to_string()]));
    let e = set.get("c").unwrap();
    assert!(!e.replicas[0].last_proof_ok, "a sibling that passed does not make it healthy");
    assert!(e.replicas[1].last_proof_ok);
    assert_eq!(e.replicas[0].channel_id, "chan-a");
    assert_eq!(e.healthy_replicas(), 1);
    assert!(!set.mark_health("other", &[]));
}

#[test]
fn a_renewal_is_recorded() {
    let mut set = PinSet::default();
    set.upsert(sample_entry("c"));
    assert!(set.record_renewal("c", 17_280, "5".to_string()));
    let e = set.get("c").unwrap();
    assert_eq!(e.job.expiry_height, 17_280);
    assert_eq!(e.job.rent_per_gb_hour, "5");
    assert_eq!(e.job.bytes_len, 1024);
    assert_eq!(e.replicas, sample_entry("c").replicas);
    assert!(!set.record_renewal("other", 1, String::new()));
}

#[test]
fn entries_change_in_place() {
    let mut set = PinSet::default();
    set.upsert(sample_entry("b"));
    set.upsert(sample_entry("a"));
    set.get_mut("a").unwrap().replicas.clear();
    assert_eq!(set.get("a").unwrap().healthy_replicas(), 0);
    assert_eq!(set.get("b").unwrap().replicas.len(), 2);
    assert_eq!(set.pins.keys(), ["a", "b"]);
    assert!(set.get_mut("c").is_none());
    assert_eq!(set.get("b").unwrap().clone(), sample_entry("b"));
}

#[test]
fn an_empty_set_has_no_pins() {
    let mut set = PinSet::default();
    assert!(set.pins.is_empty());
    assert!(set.remove("c").is_none());
}
