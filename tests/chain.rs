use barreleye_chain::chain::{chain_for_id, tx_is_coinbase, Bitcoin, ChainKind, Tx, TxInput, TxOutput};
use barreleye_chain::endpoint::Network;
use barreleye_chain::utxo_cache::{UtxoCache, UtxoKey};

fn p2pkh(tag: u8) -> Vec<u8> {
    let mut s = vec![0x76, 0xa9, 0x14];
    s.extend(std::iter::repeat(tag).take(20));
    s.push(0x88);
    s.push(0xac);
    s
}

fn address_of(script: &[u8]) -> String {
    bitcoin::Address::from_script(&bitcoin::Script::from(script.to_vec()), bitcoin::Network::Bitcoin)
        .unwrap()
        .to_string()
}

fn network() -> Network {
    Network {
        network_id: 3,
        name: "Bitcoin".to_string(),
        chain_id: 0xD9B4BEF9,
        rpc: String::new(),
        rpc_bootstraps: vec!["http://a".to_string()],
    }
}

fn input(txid: &str, vout: u32) -> TxInput {
    TxInput { prev_txid: txid.to_string(), vout, is_null: false }
}

fn spend_tx() -> Tx {
    Tx {
        txid: "t100".to_string(),
        inputs: vec![input("pa", 0), input("pb", 1)],
        outputs: vec![
            TxOutput { value: 70, script: p2pkh(0xc) },
            TxOutput { value: 5, script: vec![0x6a] },
            TxOutput { value: 30, script: p2pkh(0xd) },
        ],
    }
}

fn seeded_cache() -> UtxoCache {
    let mut c = UtxoCache::new();
    c.put(UtxoKey { network_id: 3, txid: "pa".to_string(), vout: 0 }, ("A".to_string(), 60));
    c.put(UtxoKey { network_id: 3, txid: "pb".to_string(), vout: 1 }, ("B".to_string(), 40));
    c
}

#[test]
fn chain_from_magic() {
    assert_eq!(chain_for_id(0xD9B4BEF9), ChainKind::Bitcoin);
    assert_eq!(chain_for_id(0x0709110B), ChainKind::Testnet);
    assert_eq!(chain_for_id(0x40CF030A), ChainKind::Signet);
    assert_eq!(chain_for_id(0xDAB5BFFA), ChainKind::Regtest);
    assert_eq!(chain_for_id(1), ChainKind::Bitcoin);
    assert_eq!(chain_for_id((1u64 << 32) | 0x0709110B), ChainKind::Testnet);
}

#[test]
fn constructor_and_getters() {
    let b = Bitcoin::new(network(), Some("http://a".to_string()));
    assert_eq!(b.chain, ChainKind::Bitcoin);
    assert_eq!(b.get_rpc(), Some("http://a".to_string()));
    let n = b.get_network();
    assert_eq!(n.network_id, 3);
    assert_eq!(n.name, "Bitcoin");
    assert_eq!(n.rpc_bootstraps, vec!["http://a".to_string()]);
}

#[test]
fn outputs_are_indexed_by_address() {
    let b = Bitcoin::new(network(), None);
    let mut cache = UtxoCache::new();
    let tx = spend_tx();
    let outs = b.index_transaction_outputs(&mut cache, &tx);
    assert_eq!(outs, vec![(address_of(&p2pkh(0xc)), 70), (address_of(&p2pkh(0xd)), 30)]);
    assert_ne!(outs[0].0, "");
    assert_eq!(
        cache.take(&UtxoKey { network_id: 3, txid: "t100".to_string(), vout: 2 }),
        Some((address_of(&p2pkh(0xd)), 30))
    );
    assert!(!cache.contains(&UtxoKey { network_id: 3, txid: "t100".to_string(), vout: 1 }));
}

#[test]
fn end_to_end_block_one_hundred() {
    let b = Bitcoin::new(network(), None);
    let mut cache = seeded_cache();
    let tx = spend_tx();
    assert_eq!(b.missing_inputs(&cache, &tx), vec![false, false]);
    let ts = b.process_transaction_v1(&mut cache, 100, &"h100".to_string(), &tx, &vec![None, None]);
    let c = address_of(&p2pkh(0xc));
    let d = address_of(&p2pkh(0xd));
    let got: Vec<(String, String, u64, u64)> =
        ts.iter().map(|t| (t.from_address.clone(), t.to_address.clone(), t.amount, t.total)).collect();
    assert_eq!(
        got,
        vec![
            ("A".to_string(), c.clone(), 42, 100),
            ("A".to_string(), d.clone(), 18, 100),
            ("B".to_string(), c, 28, 100),
            ("B".to_string(), d, 12, 100),
        ]
    );
    assert!(ts.iter().all(|t| t.block_height == 100 && t.block_hash == "h100" && t.tx_hash == "t100"));
    // the spent entries were consumed
    assert!(!cache.contains(&UtxoKey { network_id: 3, txid: "pa".to_string(), vout: 0 }));
}

#[test]
fn coinbase_yields_nothing_but_indexes_outputs() {
    let b = Bitcoin::new(network(), None);
    let mut cache = UtxoCache::new();
    let tx = Tx {
        txid: "cb".to_string(),
        inputs: vec![TxInput { prev_txid: "00".to_string(), vout: u32::MAX, is_null: true }],
        outputs: vec![TxOutput { value: 50, script: p2pkh(1) }, TxOutput { value: 1, script: p2pkh(2) }],
    };
    assert!(tx_is_coinbase(&tx));
    let ts = b.process_transaction_v1(&mut cache, 1, &"h1".to_string(), &tx, &vec![None]);
    assert!(ts.is_empty());
    assert!(cache.contains(&UtxoKey { network_id: 3, txid: "cb".to_string(), vout: 0 }));
    assert!(cache.contains(&UtxoKey { network_id: 3, txid: "cb".to_string(), vout: 1 }));
}

#[test]
fn cache_miss_falls_back_to_node_copy() {
    let b = Bitcoin::new(network(), None);
    let mut cache = UtxoCache::new();
    let tx = Tx {
        txid: "t2".to_string(),
        inputs: vec![input("prev", 1), input("gone", 0)],
        outputs: vec![TxOutput { value: 9, script: p2pkh(9) }],
    };
    assert_eq!(b.missing_inputs(&cache, &tx), vec![true, true]);
    let prev = Tx {
        txid: "prev".to_string(),
        inputs: vec![],
        outputs: vec![TxOutput { value: 1, script: p2pkh(4) }, TxOutput { value: 10, script: p2pkh(5) }],
    };
    let ts = b.process_transaction_v1(&mut cache, 2, &"h2".to_string(), &tx, &vec![Some(prev), None]);
    assert_eq!(ts.len(), 1);
    assert_eq!(ts[0].from_address, address_of(&p2pkh(5)));
    assert_eq!(ts[0].to_address, address_of(&p2pkh(9)));
    assert_eq!(ts[0].amount, 9);
    assert_eq!(ts[0].total, 9);
}

#[test]
fn replay_gives_same_transfers() {
    let b = Bitcoin::new(network(), None);
    let tx = spend_tx();
    let run = || {
        let mut cache = seeded_cache();
        b.process_transaction_v1(&mut cache, 100, &"h100".to_string(), &tx, &vec![None, None])
            .iter()
            .map(|t| (t.from_address.clone(), t.to_address.clone(), t.amount, t.total))
            .collect::<Vec<_>>()
    };
    assert_eq!(run(), run());
}
