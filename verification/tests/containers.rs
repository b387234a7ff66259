use std::collections::BTreeMap;

use ce_pin::order::sorted;
use ce_pin::placement::Candidate;
use ce_pin::table::Table;

#[test]
fn a_table_is_an_ordered_map() {
    let mut table: Table<u64> = Table::new();
    let mut map: BTreeMap<String, u64> = BTreeMap::new();
    let mut x: u64 = 9;
    for step in 0..3000u64 {
        x = x.wrapping_mul(6364136223846793005).wrapping_add(1442695040888963407);
        let key = format!("{}", (x >> 40) % 60);
        match (x >> 33) % 4 {
            0 => assert_eq!(table.remove(&key), map.remove(&key)),
            1 => {
                if let Some(v) = table.get_mut(&key) {
                    *v += 1;
                }
                if let Some(v) = map.get_mut(&key) {
                    *v += 1;
                }
            }
            _ => assert_eq!(table.insert(key.clone(), step), map.insert(key.clone(), step)),
        }
        assert_eq!(table.get(&key), map.get(&key));
        assert_eq!(table.contains_key(&key), map.contains_key(&key));
        assert_eq!(table.len(), map.len());
        assert_eq!(table.is_empty(), map.is_empty());
    }
    assert_eq!(table.keys(), map.keys().cloned().collect::<Vec<_>>());
    for (i, (k, v)) in map.iter().enumerate() {
        assert_eq!(table.key_at(i), k);
        assert_eq!(table.value_at(i), v);
    }
    assert_eq!(table.clone(), table);
}

#[test]
fn sorting_is_stable() {
    let c = |work: u64, domain: &str| Candidate {
        node_id: "n".into(),
        delivered_work: work,
        last_seen_secs: 0,
        mem_mb: 0,
        fault_domain: domain.into(),
    };
    let out = sorted(vec![c(1, "a"), c(2, "b"), c(1, "c"), c(2, "d")]);
    assert_eq!(
        out.iter().map(|x| x.fault_domain.as_str()).collect::<Vec<_>>(),
        ["b", "d", "a", "c"]
    );
}
