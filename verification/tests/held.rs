use ce_pin::held::{HeldEntry, HeldSet, HELD_SCHEMA_VERSION};

fn entry(bytes: u64, rent: &str, expiry: u64, last_access: u64) -> HeldEntry {
    HeldEntry {
        bytes,
        rent_per_gb_hour: rent.to_string(),
        expiry_height: expiry,
        pinned_at: 0,
        last_access,
        publisher: String::new(),
    }
}

#[test]
fn total_bytes_sums_entries() {
    let mut h = HeldSet::default();
    h.insert("a".into(), entry(100, "0", 0, 0));
    h.insert("b".into(), entry(250, "0", 0, 0));
    assert_eq!(h.total_bytes(), 350);
}

#[test]
fn expired_lists_only_past_lease() {
    let mut h = HeldSet::default();
    h.insert("live".into(), entry(1, "0", 100, 0));
    h.insert("gone".into(), entry(1, "0", 50, 0));
    h.insert("openended".into(), entry(1, "0", 0, 0)); // 0 = never expires
    let mut exp = h.expired(60);
    exp.sort();
    assert_eq!(exp, vec!["gone".to_string()]);
}

#[test]
fn evict_prefers_expired_then_low_rent_then_lru() {
    let mut h = HeldSet::default();
    // total = 400; target 150 -> need to free 250.
    h.insert("expired".into(), entry(100, "9999", 10, 999));
    h.insert("cheap".into(), entry(100, "1", 0, 100));
    h.insert("old".into(), entry(100, "5", 0, 1));
    h.insert("keep".into(), entry(100, "5", 0, 999));
    let victims = h.evict_to_fit(150, 60);
    assert_eq!(victims.len(), 3);
    assert_eq!(victims[0], "expired", "expired must be evicted first");
    assert!(!victims.contains(&"keep".to_string()), "highest-value recent pin must survive");
}

#[test]
fn evict_noop_when_under_target() {
    let mut h = HeldSet::default();
    h.insert("a".into(), entry(100, "0", 0, 0));
    assert!(h.evict_to_fit(1000, 0).is_empty());
}

#[test]
fn touch_updates_recency() {
    let mut h = HeldSet::default();
    h.insert("c".into(), entry(1, "0", 0, 5));
    h.touch("c", 99);
    assert_eq!(h.entries.get("c").unwrap().last_access, 99);
}

/// The identifiers of the oldest stored form are kept, and the set takes the current version.
#[test]
fn legacy_v0_file_migrates_forward() {
    let set = HeldSet::default().migrated(vec!["legacy-a".to_string(), "legacy-b".to_string()]);
    assert_eq!(set.version, HELD_SCHEMA_VERSION);
    assert!(set.contains("legacy-a") && set.contains("legacy-b"), "v0 CIDs must migrate");
    assert_eq!(set.len(), 2);
    assert_eq!(set.entries.get("legacy-a"), Some(&HeldEntry::default_record()));
}

#[test]
fn a_current_set_is_not_migrated() {
    let mut h = HeldSet::default();
    h.insert("mine".into(), entry(1, "0", 0, 0));
    let set = h.migrated(vec!["legacy".to_string()]);
    assert_eq!(set.version, 1);
    assert!(set.contains("mine") && !set.contains("legacy"));
    // An empty set that has a version is current, too.
    let mut empty = HeldSet::default();
    empty.version = 1;
    assert!(empty.migrated(vec!["legacy".to_string()]).is_empty());
}

#[test]
fn eviction_lists_victims_in_order() {
    let mut h = HeldSet::default();
    h.insert("keep".into(), entry(100, "5", 0, 999));
    h.insert("old".into(), entry(100, "5", 0, 1));
    h.insert("cheap".into(), entry(100, "1", 0, 100));
    h.insert("expired".into(), entry(100, "9999", 10, 999));
    assert_eq!(h.evict_to_fit(150, 60), ["expired", "cheap", "old"]);
    assert_eq!(h.evict_to_fit(0, 60), ["expired", "cheap", "old", "keep"]);
    assert_eq!(h.evict_to_fit(300, 60), ["expired"]);
    assert_eq!(h.evict_to_fit(299, 60), ["expired", "cheap"]);
    assert!(h.evict_to_fit(400, 60).is_empty());
    // Before its lease runs out the best-paying pin goes last.
    assert_eq!(h.evict_to_fit(0, 9), ["cheap", "old", "keep", "expired"]);
}

#[test]
fn eviction_breaks_ties_by_identifier() {
    let mut h = HeldSet::default();
    h.insert("b".into(), entry(1, "", 0, 0));
    h.insert("a".into(), entry(1, "junk", 0, 0));
    h.insert("B".into(), entry(1, "0", 0, 0));
    assert_eq!(h.evict_to_fit(0, 0), ["B", "a", "b"]);
}

#[test]
fn dropping_the_victims_makes_it_fit() {
    let mut h = HeldSet::default();
    for i in 0..40u64 {
        h.insert(format!("cid-{i}"), entry(i * 7 % 13, &format!("{}", i % 5), i % 3 * 10, i));
    }
    for target in [0, 1, 17, 100, 200, 10_000] {
        let mut copy = h.clone();
        let victims = copy.evict_to_fit(target, 15);
        copy.remove_all(&victims);
        assert!(copy.total_bytes() <= target);
        assert_eq!(copy.len() + victims.len(), h.len());
        // One victim fewer would not have been enough.
        if let Some((_, front)) = victims.split_last() {
            let mut short = h.clone();
            short.remove_all(front);
            assert!(short.total_bytes() > target);
        }
    }
}

#[test]
fn totals_stop_at_the_largest_count() {
    let mut h = HeldSet::default();
    h.insert("a".into(), entry(u64::MAX, "0", 0, 0));
    h.insert("b".into(), entry(u64::MAX, "1", 0, 0));
    assert_eq!(h.total_bytes(), u64::MAX);
    // What is evicted goes by the true total.
    assert_eq!(h.evict_to_fit(0, 0), ["a", "b"]);
    assert_eq!(h.evict_to_fit(u64::MAX - 1, 0), ["a", "b"]);
    assert_eq!(h.evict_to_fit(u64::MAX, 0), ["a"]);
}

#[test]
fn expired_identifiers_come_in_ascending_order() {
    let mut h = HeldSet::default();
    for cid in ["z", "m", "a", "é"] {
        h.insert(cid.into(), entry(1, "0", 5, 0));
    }
    assert_eq!(h.expired(5), ["a", "m", "z", "é"]);
    assert!(h.expired(4).is_empty());
    assert_eq!(h.drop_expired(5), ["a", "m", "z", "é"]);
    assert!(h.is_empty());
}

#[test]
fn insert_replaces_and_remove_frees() {
    let mut h = HeldSet::default();
    h.insert("c".into(), entry(10, "0", 0, 0));
    h.insert("c".into(), entry(30, "7", 9, 4));
    assert_eq!(h.len(), 1);
    assert_eq!(h.total_bytes(), 30);
    assert_eq!(h.entries.get("c").unwrap().rent_base(), 7);
    h.touch("c", 50);
    assert_eq!(h.total_bytes(), 30);
    assert_eq!(h.remove("c"), 30);
    assert_eq!(h.remove("c"), 0);
    assert!(h.is_empty());
    h.touch("c", 1);
    assert!(h.is_empty());
}

#[test]
fn recording_again_keeps_when_and_from_whom() {
    let mut h = HeldSet::default();
    let first = HeldEntry { pinned_at: 3, publisher: "p".into(), ..entry(10, "1", 5, 3) };
    h.insert("c".into(), first);
    let second = HeldEntry { pinned_at: 9, publisher: "q".into(), ..entry(20, "2", 7, 9) };
    h.insert("c".into(), second);
    let expected = HeldEntry { pinned_at: 3, publisher: "p".into(), ..entry(20, "2", 7, 9) };
    assert_eq!(h.entries.get("c"), Some(&expected));
    assert_eq!(h.total_bytes(), 20);
}

#[test]
fn only_a_missing_size_is_learned() {
    let mut h = HeldSet::default().migrated(vec!["old".to_string()]);
    h.insert("new".into(), entry(5, "0", 0, 0));
    h.learn_size("old", 40);
    h.learn_size("new", 40);
    h.learn_size("none", 40);
    assert_eq!(h.entries.get("old").unwrap().bytes, 40);
    assert_eq!(h.entries.get("new").unwrap().bytes, 5);
    assert_eq!(h.len(), 2);
    h.learn_size("old", 41);
    assert_eq!(h.total_bytes(), 45);
}

#[test]
fn rent_is_read_as_base_units() {
    assert_eq!(entry(0, " 1000000000000000 ", 0, 0).rent_base(), 1_000_000_000_000_000);
    assert_eq!(entry(0, "", 0, 0).rent_base(), 0);
    assert_eq!(entry(0, "-1", 0, 0).rent_base(), 0);
    assert_eq!(entry(0, "+7", 0, 0).rent_base(), 7);
    assert_eq!(entry(0, "1.5", 0, 0).rent_base(), 0);
    assert_eq!(entry(0, "340282366920938463463374607431768211455", 0, 0).rent_base(), u128::MAX);
    assert_eq!(entry(0, "340282366920938463463374607431768211456", 0, 0).rent_base(), 0);
}
