use ce_pin::placement::{fault_domain_from_tags, rank, select, Candidate};

fn cand(id: &str, work: u64, seen: u64, mem: u32) -> Candidate {
    Candidate {
        node_id: id.into(),
        delivered_work: work,
        last_seen_secs: seen,
        mem_mb: mem,
        fault_domain: String::new(),
    }
}

fn cand_in(id: &str, work: u64, domain: &str) -> Candidate {
    Candidate {
        node_id: id.into(),
        delivered_work: work,
        last_seen_secs: 0,
        mem_mb: 1,
        fault_domain: domain.into(),
    }
}

fn ids(ranked: &[Candidate]) -> Vec<&str> {
    ranked.iter().map(|c| c.node_id.as_str()).collect::<Vec<_>>()
}

#[test]
fn ranks_proven_hosts_first() {
    let cs = vec![cand("a", 0, 10, 1000), cand("b", 5, 100, 500), cand("c", 5, 10, 500)];
    let ranked = rank(&cs);
    // b and c both have work 5, but c was seen more recently, so c comes before b; a comes last.
    assert_eq!(ranked.iter().map(|c| c.node_id.as_str()).collect::<Vec<_>>(), ["c", "b", "a"]);
}

#[test]
fn mem_breaks_ties_after_work_and_liveness() {
    let cs = vec![cand("x", 3, 50, 256), cand("y", 3, 50, 4096)];
    let ranked = rank(&cs);
    assert_eq!(ranked[0].node_id, "y");
}

#[test]
fn select_excludes_and_caps() {
    let cs = vec![cand("a", 9, 1, 1), cand("b", 8, 1, 1), cand("c", 7, 1, 1)];
    let picked = select(&cs, 2, &["a".to_string()]);
    assert_eq!(picked, ["b", "c"]);
}

#[test]
fn select_handles_fewer_candidates_than_requested() {
    let cs = vec![cand("a", 1, 1, 1)];
    assert_eq!(select(&cs, 5, &[]), ["a"]);
}

#[test]
fn select_spreads_across_fault_domains() {
    // Two strong hosts in "eu", one weaker in "us": two picks take the best of each.
    let cs = vec![
        cand_in("eu-strong", 100, "eu"),
        cand_in("eu-second", 90, "eu"),
        cand_in("us-weak", 10, "us"),
    ];
    let picked = select(&cs, 2, &[]);
    assert_eq!(picked[0], "eu-strong", "best host overall is picked first");
    assert_eq!(picked[1], "us-weak", "second pick spreads to a different fault domain");
}

#[test]
fn select_tops_up_when_fewer_domains_than_n() {
    let cs = vec![cand_in("a", 30, "eu"), cand_in("b", 20, "eu"), cand_in("c", 10, "eu")];
    let picked = select(&cs, 3, &[]);
    assert_eq!(picked, ["a", "b", "c"], "a single domain still fills the factor best-first");
}

#[test]
fn unknown_domains_are_distinct_buckets() {
    let cs = vec![cand("a", 3, 1, 1), cand("b", 2, 1, 1), cand("c", 1, 1, 1)];
    assert_eq!(select(&cs, 3, &[]), ["a", "b", "c"]);
}

#[test]
fn fault_domain_extracted_from_tags() {
    assert_eq!(fault_domain_from_tags(&["gpu".into(), "region:eu-central".into()]), "eu-central");
    assert_eq!(fault_domain_from_tags(&["zone:rack-7".into()]), "rack-7");
    assert_eq!(fault_domain_from_tags(&["docker".into()]), "");
    // region takes precedence over zone.
    assert_eq!(fault_domain_from_tags(&["zone:z1".into(), "region:r1".into()]), "r1");
}

#[test]
fn zone_comes_before_asn_and_the_first_tag_counts() {
    assert_eq!(fault_domain_from_tags(&["asn:64500".into()]), "64500");
    assert_eq!(fault_domain_from_tags(&["asn:1".into(), "zone:z".into()]), "z");
    assert_eq!(fault_domain_from_tags(&["region:a".into(), "region:b".into()]), "a");
    assert_eq!(fault_domain_from_tags(&["region:".into(), "zone:z".into()]), "");
    assert_eq!(fault_domain_from_tags(&["Region:a".into()]), "");
    assert_eq!(fault_domain_from_tags(&[]), "");
}

#[test]
fn node_id_breaks_the_last_tie() {
    let cs = vec![cand("b", 1, 1, 1), cand("a", 1, 1, 1), cand("ab", 1, 1, 1)];
    assert_eq!(ids(&rank(&cs)), ["a", "ab", "b"]);
}

#[test]
fn identical_candidates_keep_their_order() {
    let mut first = cand("a", 1, 1, 1);
    first.fault_domain = "one".into();
    let mut second = cand("a", 1, 1, 1);
    second.fault_domain = "two".into();
    let ranked = rank(&[first, second]);
    assert_eq!(ranked[0].fault_domain, "one");
    assert_eq!(ranked[1].fault_domain, "two");
}

#[test]
fn a_node_is_picked_once_whatever_domains_it_names() {
    let cs = vec![cand_in("a", 9, "eu"), cand_in("a", 8, "us"), cand_in("b", 7, "eu")];
    assert_eq!(select(&cs, 3, &[]), ["a", "b"]);
}

#[test]
fn blank_domains_count_as_unknown() {
    let cs = vec![cand_in("a", 3, "  "), cand_in("b", 2, "\t"), cand_in("c", 1, "eu")];
    assert_eq!(select(&cs, 2, &[]), ["a", "b"]);
}

#[test]
fn an_unknown_domain_shares_its_bucket_with_no_name() {
    let cs = vec![cand_in("x", 3, ""), cand_in("y", 2, "node:x"), cand_in("z", 1, "eu")];
    assert_eq!(select(&cs, 2, &[]), ["x", "y"]);
}

#[test]
fn nothing_is_picked_for_a_factor_of_zero() {
    assert!(select(&[cand("a", 1, 1, 1)], 0, &[]).is_empty());
    assert!(select(&[], 3, &[]).is_empty());
    assert!(select(&[cand("a", 1, 1, 1)], 3, &["a".to_string()]).is_empty());
}
