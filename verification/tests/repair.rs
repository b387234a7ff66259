use ce_pin::pinset::{Entry, PinJob, PinSet, Replica};
use ce_pin::repair::{
    merge_replicas, repair_plan, watch_interval, RentLedger, RepairPass, RepairReport,
};

fn replica(holder: &str) -> Replica {
    Replica { holder: holder.into(), channel_id: String::new(), last_proof_ok: false }
}

fn paid(holder: &str, channel: &str) -> Replica {
    Replica { holder: holder.into(), channel_id: channel.into(), last_proof_ok: true }
}

#[test]
fn no_placement_when_fully_healthy() {
    let replicas = vec![replica("a"), replica("b"), replica("c")];
    let healthy = vec!["a".to_string(), "b".to_string(), "c".to_string()];
    let plan = repair_plan(&replicas, &healthy, 3);
    assert_eq!(plan.to_place, 0, "a fully-healthy pin needs no repair");
}

#[test]
fn places_the_shortfall() {
    let replicas = vec![replica("a"), replica("b"), replica("c")];
    // Only "a" passed -> 2 of 3 are unhealthy; need 2 more to reach 3.
    let healthy = vec!["a".to_string()];
    let plan = repair_plan(&replicas, &healthy, 3);
    assert_eq!(plan.to_place, 2);
    // All current holders are excluded from new placement.
    assert!(plan.exclude.contains(&"a".to_string()));
    assert!(plan.exclude.contains(&"b".to_string()));
    assert!(plan.exclude.contains(&"c".to_string()));
}

#[test]
fn places_full_factor_when_all_dead() {
    let replicas = vec![replica("a")];
    let plan = repair_plan(&replicas, &[], 3);
    assert_eq!(plan.to_place, 3, "all replicas dead -> place the full desired factor");
}

#[test]
fn never_over_places_when_more_healthy_than_desired() {
    let replicas = vec![replica("a"), replica("b"), replica("c"), replica("d")];
    let healthy = vec!["a".into(), "b".into(), "c".into(), "d".into()];
    let plan = repair_plan(&replicas, &healthy, 2);
    assert_eq!(plan.to_place, 0, "over-replicated pins do not place more (saturating_sub)");
}

#[test]
fn exclusions_come_in_order() {
    let plan = repair_plan(&[replica("b"), replica("a")], &["x".to_string()], 1);
    assert_eq!(plan.exclude, ["b", "a"]);
    assert_eq!(plan.to_place, 1);
}

fn entry(cid: &str, rent: &str, replicas: Vec<Replica>) -> Entry {
    Entry {
        job: PinJob {
            cid: cid.into(),
            bytes_len: 2 << 30,
            replication: 3,
            rent_per_gb_hour: rent.into(),
            expiry_height: 8640,
            label: None,
        },
        replicas,
    }
}

fn pass(entries: Vec<Entry>) -> RepairPass {
    let mut set = PinSet::default();
    for e in entries {
        set.upsert(e);
    }
    RepairPass::start(set, RentLedger::default())
}

#[test]
fn a_pass_audits_pays_plans_and_places() {
    let replicas = vec![paid("a", "ch-a"), paid("b", "ch-b"), paid("c", "")];
    let mut p = pass(vec![entry("cid", "1000", replicas)]);
    assert_eq!(p.cids(), ["cid"]);
    assert!(!p.dirty);
    let round = p.audited("cid", &[true, false, true]).unwrap();
    assert_eq!(round.healthy, ["a", "c"]);
    assert_eq!(round.plan.to_place, 1);
    assert_eq!(round.plan.exclude, ["a", "b", "c"]);
    // Two GB for an hour; "b" failed and "c" has no channel.
    assert_eq!(round.receipts.len(), 1);
    assert_eq!(round.receipts[0].channel_id, "ch-a");
    assert_eq!(round.receipts[0].holder, "a");
    assert_eq!(round.receipts[0].cumulative, 2000);
    let e = p.set.get("cid").unwrap();
    assert_eq!(
        e.replicas.iter().map(|r| r.last_proof_ok).collect::<Vec<_>>(),
        [true, false, true]
    );
    assert!(p.dirty);
    p.replicated("cid", vec![paid("d", "ch-d"), paid("a", "again")]);
    let e = p.set.get("cid").unwrap();
    assert_eq!(e.replicas.len(), 4);
    assert_eq!(e.replicas[3], paid("d", "ch-d"));
    assert_eq!(e.healthy_replicas(), 3);
    assert_eq!(
        p.report,
        RepairReport {
            pins_checked: 1,
            pins_repaired: 1,
            replicas_added: 2,
            replicas_unhealthy: 1,
        }
    );
}

#[test]
fn receipts_rise_while_a_host_stays_healthy() {
    let mut ledger = RentLedger::default();
    let e = entry("cid", "1000", vec![paid("a", "ch-a"), paid("b", "ch-b")]);
    let both = ["a".to_string(), "b".to_string()];
    let only_b = ["b".to_string()];
    let sums = |receipts: Vec<ce_pin::client::ReceiptTerms>| {
        receipts.iter().map(|r| (r.channel_id.clone(), r.cumulative)).collect::<Vec<_>>()
    };
    let owed = |channel: &str, n: i128| (channel.to_string(), n);
    assert_eq!(sums(ledger.settle(&e, &both)), [owed("ch-a", 2000), owed("ch-b", 2000)]);
    assert_eq!(sums(ledger.settle(&e, &only_b)), [owed("ch-b", 4000)]);
    assert_eq!(sums(ledger.settle(&e, &both)), [owed("ch-a", 4000), owed("ch-b", 6000)]);
}

#[test]
fn receipts_rise_though_the_rent_falls() {
    let mut ledger = RentLedger::default();
    let pin = |rent: &str, bytes_len: u64| {
        let mut e = entry("cid", rent, vec![paid("a", "ch-a")]);
        e.job.bytes_len = bytes_len;
        e
    };
    let ok = ["a".to_string()];
    let gib = 1u64 << 30;
    assert_eq!(ledger.settle(&pin("9", gib), &ok)[0].cumulative, 9);
    assert_eq!(ledger.settle(&pin("1", gib), &ok)[0].cumulative, 10);
    // Half a GB at a base unit: every second hour makes one.
    assert_eq!(ledger.settle(&pin("1", gib / 2), &ok)[0].cumulative, 10);
    assert_eq!(ledger.settle(&pin("1", gib / 2), &ok)[0].cumulative, 11);
    assert!(ledger.settle(&pin("0", gib), &ok).is_empty());
    assert_eq!(ledger.settle(&pin("2", gib), &ok)[0].cumulative, 13);
}

#[test]
fn a_free_pin_is_not_paid_for() {
    let mut ledger = RentLedger::default();
    let e = entry("cid", "free", vec![paid("a", "ch-a")]);
    assert!(ledger.settle(&e, &["a".to_string()]).is_empty());
    assert!(ledger.accrued.is_empty());
}

#[test]
fn a_pass_over_healthy_pins_places_nothing() {
    let full = vec![paid("a", ""), paid("b", ""), paid("c", "")];
    let mut p = pass(vec![entry("two", "0", full.clone()), entry("one", "0", full)]);
    assert_eq!(p.cids(), ["one", "two"]);
    for cid in p.cids() {
        let round = p.audited(&cid, &[true, true, true]).unwrap();
        assert_eq!(round.plan.to_place, 0);
    }
    assert_eq!(
        p.report,
        RepairReport {
            pins_checked: 2,
            pins_repaired: 0,
            replicas_added: 0,
            replicas_unhealthy: 0,
        }
    );
}

#[test]
fn an_unknown_pin_is_passed_over() {
    let mut p = pass(vec![]);
    assert!(p.audited("cid", &[]).is_none());
    p.replicated("cid", vec![paid("a", "")]);
    assert!(!p.dirty);
    assert!(p.set.pins.is_empty());
    assert_eq!(p.report.pins_checked, 0);
    assert_eq!(p.report.replicas_added, 1);
}

#[test]
fn merging_adds_each_host_once() {
    let mut known = vec![paid("a", "1")];
    merge_replicas(&mut known, vec![paid("b", "2"), paid("a", "3"), paid("b", "4")]);
    assert_eq!(known, [paid("a", "1"), paid("b", "2")]);
}

#[test]
fn passes_are_at_least_a_second_apart() {
    assert_eq!(watch_interval(0), 1);
    assert_eq!(watch_interval(300), 300);
}

#[test]
fn a_report_begins_at_zero() {
    assert_eq!(
        RepairReport::default(),
        RepairReport {
            pins_checked: 0,
            pins_repaired: 0,
            replicas_added: 0,
            replicas_unhealthy: 0,
        }
    );
}
