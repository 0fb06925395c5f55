use equity_ingest::reconcile::{arrival_permutation, reconcile, Keyed};

fn fetched(keys: &[&str]) -> Vec<Keyed<usize>> {
    keys.iter()
        .enumerate()
        .map(|(arrival, key)| Keyed { key: key.to_string(), item: arrival })
        .collect()
}

fn keys_of(entries: &[Keyed<usize>]) -> Vec<String> {
    entries.iter().map(|e| e.key.clone()).collect()
}

fn arrivals_of(entries: &[Keyed<usize>]) -> Vec<usize> {
    entries.iter().map(|e| e.item).collect()
}

#[test]
fn entries_come_out_by_ascending_timestamp() {
    let ordered = reconcile(fetched(&["equity:AMD:300", "equity:AMD:100", "equity:AMD:200"]));
    assert_eq!(keys_of(&ordered), vec!["equity:AMD:100", "equity:AMD:200", "equity:AMD:300"]);
    assert_eq!(arrivals_of(&ordered), vec![1, 2, 0]);
}

#[test]
fn timestamps_order_as_numbers_not_as_text() {
    let ordered =
        reconcile(fetched(&["equity:SLV:10", "equity:SLV:9", "equity:SLV:100", "equity:SLV:1"]));
    assert_eq!(
        keys_of(&ordered),
        vec!["equity:SLV:1", "equity:SLV:9", "equity:SLV:10", "equity:SLV:100"]
    );
}

#[test]
fn equal_timestamps_keep_their_order_of_arrival() {
    let ordered = reconcile(fetched(&[
        "equity:NET:5",
        "equity:NET:05",
        "equity:NET:1",
        "equity:NET:+5",
        "equity:NET:1:again",
    ]));
    assert_eq!(arrivals_of(&ordered), vec![2, 4, 0, 1, 3]);
}

#[test]
fn unreadable_timestamps_come_first() {
    let ordered =
        reconcile(fetched(&["equity:GS:20", "equity:GS:soon", "equity:GS:10", "equity:GS"]));
    assert_eq!(
        keys_of(&ordered),
        vec!["equity:GS:soon", "equity:GS", "equity:GS:10", "equity:GS:20"]
    );
}

#[test]
fn nothing_fetched_gives_nothing() {
    let ordered = reconcile(Vec::<Keyed<usize>>::new());
    assert!(ordered.is_empty());
}

#[test]
fn one_entry_stays() {
    let ordered = reconcile(fetched(&["equity:UBS:7"]));
    assert_eq!(arrivals_of(&ordered), vec![0]);
}

#[test]
fn every_entry_comes_out_once() {
    let mut keys = Vec::new();
    let mut seed: u64 = 12345;
    for _ in 0..500 {
        seed = seed.wrapping_mul(6364136223846793005).wrapping_add(1442695040888963407);
        keys.push(format!("equity:MNQ:{}", (seed >> 33) % 50));
    }
    let borrowed: Vec<&str> = keys.iter().map(|k| k.as_str()).collect();
    let ordered = reconcile(fetched(&borrowed));
    assert_eq!(ordered.len(), 500);
    let mut seen = vec![false; 500];
    for entry in &ordered {
        assert!(!seen[entry.item]);
        seen[entry.item] = true;
        assert_eq!(entry.key, keys[entry.item]);
    }
    let mut expected = fetched(&borrowed);
    expected
        .sort_by_key(|e| e.key.split(':').nth(2).and_then(|t| t.parse::<u64>().ok()).unwrap_or(0));
    assert_eq!(arrivals_of(&ordered), arrivals_of(&expected));
}

#[test]
fn permutation_lists_positions_by_order_value_then_arrival() {
    assert_eq!(arrival_permutation(&vec![30, 10, 20]), vec![1, 2, 0]);
    assert_eq!(arrival_permutation(&vec![5, 5, 1, 5, 1]), vec![2, 4, 0, 1, 3]);
    assert_eq!(arrival_permutation(&vec![]), Vec::<usize>::new());
    assert_eq!(arrival_permutation(&vec![u64::MAX, 0]), vec![1, 0]);
}

fn with_payloads(keys: &[&str], payloads: [u64; 3]) -> Vec<Keyed<u64>> {
    keys.iter().zip(payloads).map(|(key, item)| Keyed { key: key.to_string(), item }).collect()
}

#[test]
fn payloads_do_not_move_the_order() {
    let keys = ["equity:AMD:3", "equity:AMD:1", "equity:AMD:2"];
    let first = reconcile(with_payloads(&keys, [1, 2, 3]));
    let second = reconcile(with_payloads(&keys, [900, 5, 0]));
    let first: Vec<u64> = first.into_iter().map(|e| e.item).collect();
    let second: Vec<u64> = second.into_iter().map(|e| e.item).collect();
    assert_eq!(first, vec![2, 3, 1]);
    assert_eq!(second, vec![5, 0, 900]);
}
