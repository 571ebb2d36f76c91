use utxo_connect::cache::UnspentCache;
use utxo_connect::chain::BlockConnector;
use utxo_connect::connect::{connect_outpoints, update_unspent_cache, ConnectError};
use utxo_connect::disk::{block_output_entries, block_spent_txo_keys, connect_fetched, txo_key};
use utxo_connect::model::{ConnectedBlock, Hash256, OutPoint, RawBlock, RawTx, TxOutput, NULL_VOUT};
use utxo_connect::reorder::ReorderBuffer;

fn hash(lo: u128) -> Hash256 {
    Hash256 { lo, hi: 7 }
}

fn out(value: u64, script: &[u8]) -> TxOutput {
    TxOutput { value, script_pubkey: script.to_vec() }
}

fn coinbase() -> OutPoint {
    OutPoint { txid: Hash256 { lo: 0, hi: 0 }, vout: NULL_VOUT }
}

fn spend(lo: u128, vout: u32) -> OutPoint {
    OutPoint { txid: hash(lo), vout }
}

fn tx(id: u128, inputs: Vec<OutPoint>, outputs: Vec<TxOutput>) -> RawTx {
    RawTx { txid: hash(id), inputs, outputs }
}

fn block(id: u128, txdata: Vec<RawTx>) -> RawBlock {
    RawBlock { hash: hash(1000 + id), txdata }
}

const A: u128 = 0xA;
const B: u128 = 0xB;

/// Block 0 creates A with two outputs; block 1 spends A:0 and creates B;
/// block 2 spends A:1 and B:0.
fn example_chain() -> Vec<RawBlock> {
    vec![
        block(0, vec![tx(A, vec![coinbase()], vec![out(50, &[1]), out(25, &[2, 2])])]),
        block(
            1,
            vec![
                tx(0xC1, vec![coinbase()], vec![out(50, &[3])]),
                tx(B, vec![spend(A, 0)], vec![out(40, &[4])]),
            ],
        ),
        block(
            2,
            vec![
                tx(0xC2, vec![coinbase()], vec![]),
                tx(0xD, vec![spend(A, 1), spend(B, 0)], vec![]),
            ],
        ),
    ]
}

fn input_values(b: &ConnectedBlock, t: usize) -> Vec<(u64, Vec<u8>)> {
    b.txdata[t].inputs.iter().map(|o| (o.value, o.script_pubkey.clone())).collect()
}

#[test]
fn example_chain_cache_contents() {
    let chain = example_chain();
    let mut c = BlockConnector::new();
    let b0 = c.process(&chain[0]).unwrap();
    assert_eq!(b0.txdata.len(), 1);
    assert!(b0.txdata[0].inputs.is_empty());
    assert!(c.cache().contains(A, 0) && c.cache().contains(A, 1));

    let b1 = c.process(&chain[1]).unwrap();
    assert_eq!(input_values(&b1, 1), vec![(50, vec![1])]);
    assert!(!c.cache().contains(A, 0));
    assert!(c.cache().contains(A, 1));
    assert!(c.cache().contains(B, 0));
    assert!(c.cache().contains(0xC1, 0));

    let b2 = c.process(&chain[2]).unwrap();
    assert_eq!(b2.hash, hash(1002));
    assert_eq!(input_values(&b2, 1), vec![(25, vec![2, 2]), (40, vec![4])]);
    assert!(!c.cache().contains(A, 1));
    assert!(!c.cache().contains(B, 0));
    assert!(c.cache().contains(0xC1, 0));
    assert!(!c.has_failed());
}

#[test]
fn example_chain_only_unspent_left() {
    // Without the extra coinbase outputs the cache ends empty.
    let chain = vec![
        block(0, vec![tx(A, vec![coinbase()], vec![out(50, &[1]), out(25, &[2])])]),
        block(1, vec![tx(B, vec![spend(A, 0)], vec![out(40, &[4])])]),
        block(2, vec![tx(0xD, vec![spend(A, 1), spend(B, 0)], vec![])]),
    ];
    let mut c = BlockConnector::new();
    assert!(c.process(&chain[0]).is_some());
    assert!(c.process(&chain[1]).is_some());
    assert!(c.cache().contains(A, 1));
    assert!(!c.cache().contains(A, 0));
    assert!(!c.cache().contains(B, 1));
    let b2 = c.process(&chain[2]).unwrap();
    assert_eq!(input_values(&b2, 0), vec![(25, vec![2]), (40, vec![4])]);
    assert!(c.cache().is_empty());
}

#[test]
fn missing_outpoint_stops_the_run() {
    let chain = vec![
        block(0, vec![tx(A, vec![coinbase()], vec![out(1, &[])])]),
        block(1, vec![tx(B, vec![spend(A, 0)], vec![out(1, &[])])]),
        block(2, vec![tx(0xD, vec![spend(0xEE, 0)], vec![])]),
        block(3, vec![tx(0xF, vec![coinbase()], vec![out(1, &[])])]),
    ];
    let mut c = BlockConnector::new();
    let mut yielded = 0;
    for b in chain.iter() {
        match c.process(b) {
            Some(_) => yielded += 1,
            None => break,
        }
    }
    assert_eq!(yielded, 2);
    assert!(c.has_failed());
    assert!(c.process(&chain[3]).is_none());
}

#[test]
fn double_spend_is_rejected() {
    let mut cache = UnspentCache::new();
    let b0 = block(0, vec![tx(A, vec![coinbase()], vec![out(5, &[9])])]);
    update_unspent_cache(&mut cache, &b0);
    assert!(connect_outpoints(&mut cache, &b0).is_ok());
    let b1 = block(1, vec![tx(B, vec![spend(A, 0)], vec![])]);
    update_unspent_cache(&mut cache, &b1);
    assert!(connect_outpoints(&mut cache, &b1).is_ok());
    let b2 = block(2, vec![tx(0xD, vec![spend(A, 0)], vec![])]);
    update_unspent_cache(&mut cache, &b2);
    assert_eq!(connect_outpoints(&mut cache, &b2).err(), Some(ConnectError::MissingOutput));
}

#[test]
fn coinbase_inputs_touch_nothing() {
    let mut cache = UnspentCache::new();
    assert!(cache.is_empty());
    let b = block(0, vec![tx(0, vec![coinbase()], vec![])]);
    let r = connect_outpoints(&mut cache, &b).unwrap();
    assert!(r.txdata[0].inputs.is_empty());
    assert!(cache.is_empty());
}

#[test]
fn remove_slot_cases() {
    let mut cache = UnspentCache::new();
    cache.insert_tx(A, &vec![out(1, &[1]), out(2, &[2])]);
    assert!(cache.remove_slot(B, 0).is_none());
    assert!(cache.remove_slot(A, 2).is_none());
    assert_eq!(cache.remove_slot(A, 1).map(|o| o.value), Some(2));
    assert!(cache.remove_slot(A, 1).is_none());
    assert!(!cache.is_empty());
    assert_eq!(cache.remove_slot(A, 0).map(|o| o.script_pubkey), Some(vec![1]));
    assert!(cache.is_empty());
}

#[test]
fn recording_replaces_same_id() {
    let mut cache = UnspentCache::new();
    cache.insert_tx(A, &vec![out(1, &[1]), out(2, &[2])]);
    cache.insert_tx(A, &vec![out(3, &[3])]);
    assert!(cache.contains(A, 0));
    assert!(!cache.contains(A, 1));
    cache.insert_tx(A, &vec![]);
    assert!(cache.is_empty());
}

#[test]
fn key_layout() {
    let k = txo_key(0x0102030405060708090a0b0c0d0e0f10, 0x11223344);
    assert_eq!(
        k,
        vec![
            0x10, 0x0f, 0x0e, 0x0d, 0x0c, 0x0b, 0x0a, 0x09, 0x08, 0x07, 0x06, 0x05, 0x04, 0x03,
            0x02, 0x01, 0x44, 0x33, 0x22, 0x11
        ]
    );
    assert_eq!(txo_key(0, 0), vec![0u8; 20]);
}

#[test]
fn output_entries_encoding() {
    let b = block(0, vec![tx(A, vec![coinbase()], vec![out(1, &[0x51]), out(0x0102, &[])])]);
    let entries = block_output_entries(&b);
    assert_eq!(entries.len(), 2);
    assert_eq!(entries[0].0, txo_key(A, 0));
    assert_eq!(entries[0].1, vec![1, 0, 0, 0, 0, 0, 0, 0, 1, 0x51]);
    assert_eq!(entries[1].0, txo_key(A, 1));
    assert_eq!(entries[1].1, vec![2, 1, 0, 0, 0, 0, 0, 0, 0]);
}

#[test]
fn spent_keys_skip_coinbase() {
    let b = block(1, vec![tx(1, vec![coinbase()], vec![]), tx(2, vec![spend(A, 3), spend(B, 0)], vec![])]);
    let keys = block_spent_txo_keys(&b);
    assert_eq!(keys, vec![txo_key(A, 3), txo_key(B, 0)]);
}

#[test]
fn stored_output_round_trip() {
    let script: Vec<u8> = (0..300u32).map(|i| i as u8).collect();
    let b0 = block(0, vec![tx(A, vec![coinbase()], vec![out(7, &script), out(u64::MAX, &[])])]);
    let entries = block_output_entries(&b0);
    let b1 = block(1, vec![tx(B, vec![spend(A, 1), spend(A, 0)], vec![])]);
    let keys = block_spent_txo_keys(&b1);
    let fetched: Vec<Option<Vec<u8>>> = keys
        .iter()
        .map(|k| entries.iter().find(|e| &e.0 == k).map(|e| e.1.clone()))
        .collect();
    let r = connect_fetched(&b1, &fetched).unwrap();
    assert_eq!(input_values(&r, 0), vec![(u64::MAX, vec![]), (7, script)]);
}

#[test]
fn fetched_absent_or_malformed_fails() {
    let b1 = block(1, vec![tx(B, vec![spend(A, 0)], vec![])]);
    assert_eq!(connect_fetched(&b1, &vec![None]).err(), Some(ConnectError::MissingOutput));
    assert_eq!(connect_fetched(&b1, &vec![Some(vec![1, 2])]).err(), Some(ConnectError::MissingOutput));
    let b2 = block(2, vec![tx(B, vec![coinbase()], vec![out(3, &[])])]);
    assert_eq!(connect_fetched(&b2, &vec![]).unwrap().txdata[0].outputs[0].value, 3);
}

#[test]
fn reorder_releases_in_position_order() {
    let mut buf: ReorderBuffer<&str> = ReorderBuffer::new();
    buf.deliver(2, "c");
    assert_eq!(buf.pop_ready(), None);
    buf.deliver(0, "a");
    buf.deliver(3, "d");
    assert_eq!(buf.pop_ready(), Some("a"));
    assert_eq!(buf.pop_ready(), None);
    buf.deliver(1, "b");
    assert_eq!(buf.pop_ready(), Some("b"));
    assert_eq!(buf.pop_ready(), Some("c"));
    assert_eq!(buf.pop_ready(), Some("d"));
    assert_eq!(buf.next_position(), 4);
}

#[test]
fn reorder_any_arrival_order_same_output() {
    let orders: Vec<Vec<usize>> = vec![vec![0, 1, 2, 3], vec![3, 2, 1, 0], vec![1, 3, 0, 2]];
    for order in orders {
        let mut buf: ReorderBuffer<usize> = ReorderBuffer::new();
        let mut released = Vec::new();
        for p in order {
            buf.deliver(p, p * 10);
            while let Some(v) = buf.pop_ready() {
                released.push(v);
            }
        }
        assert_eq!(released, vec![0, 10, 20, 30]);
    }
}

#[test]
fn long_script_length_prefix() {
    let script = vec![0xabu8; 300];
    let b = block(0, vec![tx(A, vec![coinbase()], vec![out(0, &script)])]);
    let entries = block_output_entries(&b);
    let value = &entries[0].1;
    assert_eq!(value.len(), 8 + 3 + 300);
    assert_eq!(&value[..11], &[0, 0, 0, 0, 0, 0, 0, 0, 0xfd, 0x2c, 0x01]);
    assert_eq!(&value[11..], &script[..]);
}

#[test]
fn disk_double_spend_in_one_block_fails() {
    let b0 = block(0, vec![tx(A, vec![coinbase()], vec![out(5, &[9])])]);
    let entries = block_output_entries(&b0);
    let b1 = block(
        1,
        vec![tx(B, vec![spend(A, 0)], vec![]), tx(0xD, vec![spend(A, 0)], vec![])],
    );
    let keys = block_spent_txo_keys(&b1);
    assert_eq!(keys.len(), 2);
    let fetched: Vec<Option<Vec<u8>>> = vec![Some(entries[0].1.clone()), Some(entries[0].1.clone())];
    assert_eq!(connect_fetched(&b1, &fetched).err(), Some(ConnectError::MissingOutput));
}

#[test]
fn memory_double_spend_in_one_block_fails() {
    let mut c = BlockConnector::new();
    let b0 = block(0, vec![tx(A, vec![coinbase()], vec![out(5, &[9])])]);
    assert!(c.process(&b0).is_some());
    let b1 = block(1, vec![tx(B, vec![spend(A, 0), spend(A, 0)], vec![])]);
    assert!(c.process(&b1).is_none());
    assert!(c.has_failed());
}

#[test]
fn failed_block_keeps_unrelated_outputs() {
    let mut cache = UnspentCache::new();
    cache.insert_tx(A, &vec![out(1, &[1]), out(2, &[2])]);
    let b = block(1, vec![tx(B, vec![coinbase(), spend(A, 0), spend(0xEE, 0)], vec![])]);
    assert_eq!(connect_outpoints(&mut cache, &b).err(), Some(ConnectError::MissingOutput));
    assert!(cache.contains(A, 1));
    assert!(!cache.contains(B, 0));
}

#[test]
fn short_stored_value_fails() {
    let b1 = block(1, vec![tx(B, vec![spend(A, 0)], vec![])]);
    let fetched = vec![Some(vec![0u8; 8])];
    assert_eq!(connect_fetched(&b1, &fetched).err(), Some(ConnectError::MissingOutput));
}
