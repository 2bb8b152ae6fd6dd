use barreleye_chain::utxo_cache::{UtxoCache, UtxoKey};
use barreleye_chain::walker::{last_processed_block, target_height, BlockCommit, CommitAction, CommitStage};

fn key(txid: &str, vout: u32) -> UtxoKey {
    UtxoKey { network_id: 7, txid: txid.to_string(), vout }
}

#[test]
fn cache_put_then_take_once() {
    let mut c = UtxoCache::new();
    c.put(key("aa", 0), ("addr".to_string(), 50));
    assert!(c.contains(&key("aa", 0)));
    assert!(!c.contains(&key("aa", 1)));
    assert_eq!(c.take(&key("aa", 0)), Some(("addr".to_string(), 50)));
    assert_eq!(c.take(&key("aa", 0)), None);
    assert!(!c.contains(&key("aa", 0)));
}

#[test]
fn cache_put_replaces_and_keys_are_distinct() {
    let mut c = UtxoCache::new();
    c.put(key("aa", 0), ("x".to_string(), 1));
    c.put(key("aa", 0), ("y".to_string(), 2));
    c.put(key("aa", 1), ("z".to_string(), 3));
    c.put(UtxoKey { network_id: 8, txid: "aa".to_string(), vout: 0 }, ("w".to_string(), 4));
    assert_eq!(c.take(&key("aa", 0)), Some(("y".to_string(), 2)));
    assert_eq!(c.take(&key("aa", 0)), None);
    assert_eq!(c.take(&key("aa", 1)), Some(("z".to_string(), 3)));
    assert_eq!(
        c.take(&UtxoKey { network_id: 8, txid: "aa".to_string(), vout: 0 }),
        Some(("w".to_string(), 4))
    );
}

#[test]
fn heights() {
    assert_eq!(target_height(100), 101);
    assert_eq!(last_processed_block(None), 0);
    assert_eq!(last_processed_block(Some(100)), 100);
}

#[test]
fn checkpoint_waits_for_ledger() {
    let mut stored: Option<u64> = Some(100);
    let (mut c, a) = BlockCommit::begin(101, 4);
    assert_eq!(a, CommitAction::AppendBatch);
    // the ledger write fails
    let a = c.report(false);
    assert_eq!(a, CommitAction::Abort);
    assert_eq!(c.stage, CommitStage::Failed);
    if let CommitAction::SetCheckpoint(h) = a {
        stored = Some(h);
    }
    assert_eq!(c.report(true), CommitAction::Abort);
    assert_eq!(stored, Some(100));
}

#[test]
fn checkpoint_advances_after_ledger() {
    let (mut c, a) = BlockCommit::begin(101, 4);
    assert_eq!(a, CommitAction::AppendBatch);
    assert_eq!(c.report(true), CommitAction::SetCheckpoint(101));
    assert_eq!(c.report(true), CommitAction::Finish);
    assert_eq!(c.stage, CommitStage::Done);
}

#[test]
fn empty_block_still_advances() {
    let (mut c, a) = BlockCommit::begin(5, 0);
    assert_eq!(a, CommitAction::SetCheckpoint(5));
    assert_eq!(c.report(false), CommitAction::Abort);
}
