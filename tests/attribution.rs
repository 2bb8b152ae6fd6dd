use barreleye_chain::attribution::{attribute, share, total_value, aggregate, Transfer, TxContext};

fn ctx() -> TxContext {
    TxContext {
        network_id: 1,
        block_height: 100,
        block_hash: "blockhash".to_string(),
        tx_hash: "txhash".to_string(),
    }
}

fn h(a: &str, v: u64) -> (String, u64) {
    (a.to_string(), v)
}

fn find<'a>(ts: &'a [Transfer], from: &str, to: &str) -> Option<&'a Transfer> {
    ts.iter().find(|t| t.from_address == from && t.to_address == to)
}

#[test]
fn four_way_split_of_block_one_hundred() {
    let ins = vec![h("A", 60), h("B", 40)];
    let outs = vec![h("C", 70), h("D", 30)];
    let ts = attribute(&ctx(), &ins, &outs);
    assert_eq!(ts.len(), 4);
    assert_eq!(find(&ts, "A", "C").unwrap().amount, 42);
    assert_eq!(find(&ts, "A", "D").unwrap().amount, 18);
    assert_eq!(find(&ts, "B", "C").unwrap().amount, 28);
    assert_eq!(find(&ts, "B", "D").unwrap().amount, 12);
    for t in &ts {
        assert_eq!(t.total, 100);
        assert_eq!(t.block_height, 100);
        assert_eq!(t.network_id, 1);
        assert_eq!(t.block_hash, "blockhash");
        assert_eq!(t.tx_hash, "txhash");
        assert!(t.asset.is_none());
    }
}

#[test]
fn single_pair_carries_whole_output() {
    let ins = vec![h("A", 5), h("A", 7)];
    let outs = vec![h("B", 9), h("B", 2)];
    let ts = attribute(&ctx(), &ins, &outs);
    assert_eq!(ts.len(), 1);
    assert_eq!(ts[0].from_address, "A");
    assert_eq!(ts[0].to_address, "B");
    assert_eq!(ts[0].amount, 11);
    assert_eq!(ts[0].total, 11);
}

#[test]
fn no_transfer_to_self() {
    let ins = vec![h("A", 50), h("B", 50)];
    let outs = vec![h("A", 30), h("C", 70)];
    let ts = attribute(&ctx(), &ins, &outs);
    assert!(ts.iter().all(|t| t.from_address != t.to_address));
    assert_eq!(ts.len(), 3);
    assert!(find(&ts, "A", "A").is_none());
    assert_eq!(find(&ts, "A", "C").unwrap().amount, 35);
    assert_eq!(find(&ts, "B", "A").unwrap().amount, 15);
    assert_eq!(find(&ts, "B", "C").unwrap().amount, 35);
}

#[test]
fn rounding_is_half_up() {
    assert_eq!(share(1, 2, 1), 1);
    assert_eq!(share(1, 4, 2), 1);
    assert_eq!(share(1, 3, 1), 0);
    assert_eq!(share(2, 3, 1), 1);
    assert_eq!(share(3, 8, 1), 0);
    assert_eq!(share(5, 5, 17), 17);
    assert_eq!(share(0, 5, 17), 0);
    assert_eq!(share(u64::MAX, u64::MAX, u64::MAX), u64::MAX);
}

#[test]
fn grouped_amounts_stay_within_rounding_rule() {
    // two inputs of 1 each and one output of 1: each share is 0.5, rounded up to 1
    let ins = vec![h("A", 1), h("B", 1)];
    let outs = vec![h("C", 1)];
    let ts = attribute(&ctx(), &ins, &outs);
    let sum: u64 = ts.iter().filter(|t| t.to_address == "C").map(|t| t.amount).sum();
    assert_eq!(sum, 2);
    // twice the sum is at most twice the output plus the number of senders
    assert!(2 * sum <= 2 * 1 + 2);
    // exact split leaves no excess
    let ins = vec![h("A", 25), h("B", 75)];
    let outs = vec![h("C", 40), h("D", 60)];
    let ts = attribute(&ctx(), &ins, &outs);
    let to_c: u64 = ts.iter().filter(|t| t.to_address == "C").map(|t| t.amount).sum();
    let to_d: u64 = ts.iter().filter(|t| t.to_address == "D").map(|t| t.amount).sum();
    assert_eq!(to_c, 40);
    assert_eq!(to_d, 60);
}

#[test]
fn nothing_to_divide_gives_no_transfers() {
    assert!(attribute(&ctx(), &vec![], &vec![h("C", 5)]).is_empty());
    assert!(attribute(&ctx(), &vec![h("A", 5)], &vec![]).is_empty());
    assert!(attribute(&ctx(), &vec![h("A", 0)], &vec![h("C", 5)]).is_empty());
    assert!(attribute(&ctx(), &vec![h("A", u64::MAX), h("B", 1)], &vec![h("C", 5)]).is_empty());
}

#[test]
fn aggregation_keeps_first_appearance() {
    let agg = aggregate(&vec![h("B", 1), h("A", 2), h("B", 3), h("C", u64::MAX), h("C", u64::MAX)]);
    assert_eq!(agg.len(), 3);
    assert_eq!(agg[0], ("B".to_string(), 4));
    assert_eq!(agg[1], ("A".to_string(), 2));
    assert_eq!(agg[2], ("C".to_string(), 2 * (u64::MAX as u128)));
    assert_eq!(total_value(&vec![h("A", u64::MAX), h("B", 1)]), u64::MAX as u128 + 1);
}
