use chain_index::codec::{block_key, CODE_DONE};
use chain_index::headers::HeaderList;
use chain_index::indexer::{
    get_previous_txos, select_source, headers_to_add, index_blocks, plan_update, FetchFrom, IndexerConfig,
};
use chain_index::query::{
    address_search, get_block_raw, load_blockhashes, stats_cache_row, utxo_cache_row, utxo_start,
    ScriptStats,
};
use chain_index::tweak::get_tweak_data;
use chain_index::types::{BlockEntry, BlockId, DBRow, FullHash, HeaderEntry, Network, OutPoint, Transaction, TxIn, TxOut};

fn h(n: u8) -> FullHash {
    [n; 32]
}

fn entry(height: usize, hash: u8, prev: u8) -> HeaderEntry {
    HeaderEntry { height, hash: h(hash), prev: h(prev), time: 100 * height as u32 }
}

fn chain(n: usize) -> HeaderList {
    let mut list = HeaderList::empty();
    let run: Vec<HeaderEntry> = (0..n).map(|i| entry(i, i as u8 + 1, i as u8)).collect();
    list.apply(run);
    list
}

#[test]
fn apply_extends_and_reorganises() {
    let mut list = chain(3);
    assert_eq!(list.len(), 3);
    assert_eq!(list.tip(), h(3));
    list.apply(vec![entry(2, 20, 2), entry(3, 21, 20)]);
    assert_eq!(list.len(), 4);
    assert_eq!(list.tip(), h(21));
    assert!(list.header_by_blockhash(&h(3)).is_none());
    assert_eq!(list.header_by_height(2).unwrap().hash, h(20));
    assert_eq!(list.height_by_hash(&h(21)), Some(3));
    assert_eq!(list.blockid_by_hash(&h(3)).map(|b| b.height), None);
    let b = list.blockid_by_height(1).unwrap();
    assert_eq!((b.height, b.hash, b.time), (1, h(2), 100));
    list.apply(vec![]);
    assert_eq!(list.len(), 4);
}

#[test]
fn empty_list_has_zero_tip() {
    let list = HeaderList::empty();
    assert_eq!(list.tip(), [0; 32]);
    assert!(list.header_by_height(0).is_none());
}

#[test]
fn block_status() {
    let list = chain(3);
    let s = list.get_block_status(&h(2));
    assert!(s.in_best_chain);
    assert_eq!(s.height, Some(1));
    assert_eq!(s.next_best, Some(h(3)));
    let tip = list.get_block_status(&h(3));
    assert_eq!(tip.next_best, None);
    let orphan = list.get_block_status(&h(99));
    assert!(!orphan.in_best_chain);
    assert_eq!(orphan.height, None);
}

#[test]
fn work_lists_skip_done_blocks() {
    let new = vec![entry(3, 4, 3), entry(4, 5, 4)];
    let todo = headers_to_add(&new, &vec![h(4)]);
    assert_eq!(todo.len(), 1);
    assert_eq!(todo[0].hash, h(5));
}

#[test]
fn header_selection_heuristic() {
    // more headers above the start than done blocks: the forward scan turns around
    assert_eq!(select_source(4, 10, 0, FetchFrom::BlkFiles), FetchFrom::BlkFilesReverse);
    assert_eq!(select_source(4, 10, 0, FetchFrom::Bitcoind), FetchFrom::Bitcoind);
    // no more headers than done blocks: unchanged
    assert_eq!(select_source(20, 10, 0, FetchFrom::BlkFiles), FetchFrom::BlkFiles);
    assert_eq!(select_source(6, 10, 4, FetchFrom::BlkFiles), FetchFrom::BlkFiles);
    // a start height above the list gives a negative count: unchanged
    assert_eq!(select_source(0, 10, 11, FetchFrom::BlkFiles), FetchFrom::BlkFiles);
    assert_eq!(select_source(0, 600_000, 823_807, FetchFrom::BlkFiles), FetchFrom::BlkFiles);
}

#[test]
fn update_plan() {
    let new = vec![entry(3, 4, 3), entry(4, 5, 4)];
    let plan = plan_update(&new, &vec![h(1), h(2), h(3), h(4)], &vec![h(1), h(2), h(3)], &vec![], 3, FetchFrom::BlkFiles, Some(4));
    assert_eq!(plan.to_add.len(), 1);
    assert_eq!(plan.to_add[0].hash, h(5));
    assert_eq!(plan.to_index.len(), 2);
    assert_eq!(plan.to_tweak.len(), 1);
    assert_eq!(plan.to_tweak[0].height, 4);
    assert_eq!(plan.add_from, FetchFrom::BlkFiles);
    assert_eq!(plan.index_from, FetchFrom::BlkFiles);
    assert_eq!(plan.tweak_from, FetchFrom::BlkFiles);
    assert_eq!(plan.next_from, FetchFrom::Bitcoind);
    // nothing new: nothing to do, even with headers listed
    let plan = plan_update(&vec![], &vec![], &vec![], &vec![], 1, FetchFrom::BlkFiles, Some(0));
    assert!(plan.to_add.is_empty() && plan.to_index.is_empty() && plan.to_tweak.is_empty());
    assert_eq!(plan.index_from, FetchFrom::BlkFilesReverse);
    assert_eq!(plan.next_from, FetchFrom::Bitcoind);
}

#[test]
fn raw_block_reconstruction() {
    let header = vec![7u8; 80];
    let raw = get_block_raw(&header, &vec![vec![1, 2], vec![3]]);
    let mut expected = header.clone();
    expected.extend_from_slice(&[2, 1, 2, 3]);
    assert_eq!(raw, expected);
    let many: Vec<Vec<u8>> = (0..253).map(|_| vec![0u8]).collect();
    let raw = get_block_raw(&header, &many);
    assert_eq!(&raw[80..83], &[0xfd, 0xfd, 0x00]);
    assert_eq!(raw.len(), 80 + 3 + 253);
}

#[test]
fn address_search_rows() {
    let mut spk = vec![0x00, 0x14];
    spk.extend_from_slice(&[
        0x75, 0x1e, 0x76, 0xe8, 0x19, 0x91, 0x96, 0xd4, 0x54, 0x94, 0x1c, 0x45, 0xd1, 0xb3, 0xa3, 0x23,
        0xf1, 0x43, 0x3b, 0xd6,
    ]);
    let t = Transaction {
        txid: h(9),
        raw: vec![],
        input: vec![TxIn { previous_output: OutPoint { txid: [0; 32], vout: u32::MAX }, script_sig: vec![], witness: vec![] }],
        output: vec![TxOut { value: 5, script_pubkey: spk }],
    };
    let b = BlockEntry { entry: entry(0, 1, 0), header: vec![0; 80], txdata: vec![t], size: 1, weight: 4 };
    let cfg = IndexerConfig {
        light_mode: false,
        address_search: true,
        index_unspendables: false,
        network: Network::Bitcoin,
        sp_begin_height: None,
        sp_min_dust: None,
    };
    let rows = index_blocks(&vec![b], &vec![], &cfg);
    assert_eq!(rows.len(), 3);
    let mut key = b"a".to_vec();
    key.extend_from_slice(b"bc1qw508d6qejxtdg4y5r3zarvary0c5xw7kv8f3t4");
    assert_eq!(rows[1].key, key);
    let found = address_search(&vec![rows[1].clone()], 5);
    assert_eq!(found, vec![b"bc1qw508d6qejxtdg4y5r3zarvary0c5xw7kv8f3t4".to_vec()]);
    assert!(address_search(&vec![rows[1].clone()], 0).is_empty());
}

#[test]
fn unspendable_outputs_indexed_on_request() {
    let t = Transaction {
        txid: h(9),
        raw: vec![],
        input: vec![],
        output: vec![TxOut { value: 0, script_pubkey: vec![0x6a, 0x01] }],
    };
    let b = BlockEntry { entry: entry(0, 1, 0), header: vec![0; 80], txdata: vec![t], size: 1, weight: 4 };
    let mut cfg = IndexerConfig {
        light_mode: false,
        address_search: false,
        index_unspendables: false,
        network: Network::Bitcoin,
        sp_begin_height: None,
        sp_min_dust: None,
    };
    assert_eq!(index_blocks(&vec![b.clone()], &vec![], &cfg).len(), 1);
    cfg.index_unspendables = true;
    assert_eq!(index_blocks(&vec![b], &vec![], &cfg).len(), 2);
}

#[test]
fn tweak_is_shown_in_hex() {
    let d = get_tweak_data(&vec![0xab, 0x01, 0xff], vec![]);
    assert_eq!(d.tweak, "ab01ff");
    assert!(d.vout_data.is_empty());
}

#[test]
fn done_markers_are_loaded() {
    let rows = vec![
        DBRow { key: block_key(CODE_DONE, &h(1)), value: vec![] },
        DBRow { key: vec![b'D', 1], value: vec![] },
        DBRow { key: block_key(CODE_DONE, &h(2)), value: vec![] },
    ];
    assert_eq!(load_blockhashes(&rows), vec![h(1), h(2)]);
}

#[test]
fn utxo_cache_is_loaded_and_written() {
    let list = chain(3);
    let cached = vec![(h(40), 1, 1, 700)];
    let (set, start, had) = utxo_start(&list, Some((cached.clone(), h(2))));
    assert!(had);
    assert_eq!(start, 2);
    assert_eq!(set.len(), 1);
    assert_eq!((set[0].1).0.hash, h(2));
    let (set2, start2, had2) = utxo_start(&list, Some((cached, h(50))));
    assert!(!had2 && start2 == 0 && set2.is_empty());

    let utxos = vec![(OutPoint { txid: h(40), vout: 1 }, (BlockId { height: 1, hash: h(2), time: 100 }, 700))];
    assert!(utxo_cache_row(&h(9), &utxos, &Some(h(3)), true, 1).is_some());
    assert!(utxo_cache_row(&h(9), &utxos, &Some(h(3)), false, 99).is_none());
    assert!(utxo_cache_row(&h(9), &utxos, &Some(h(3)), false, 100).is_some());
    assert!(utxo_cache_row(&h(9), &utxos, &None, true, 500).is_none());
    let row = utxo_cache_row(&h(9), &utxos, &Some(h(3)), true, 1).unwrap();
    assert_eq!(row.key[0], b'U');

    let st = ScriptStats { tx_count: 60, funded_txo_count: 60, spent_txo_count: 41, funded_txo_sum: 1, spent_txo_sum: 1 };
    assert!(stats_cache_row(&h(9), &st, &Some(h(3))).is_some());
    let small = ScriptStats { tx_count: 60, funded_txo_count: 60, spent_txo_count: 40, funded_txo_sum: 1, spent_txo_sum: 1 };
    assert!(stats_cache_row(&h(9), &small, &Some(h(3))).is_none());
}

#[test]
fn median_time_past() {
    let mut list = HeaderList::empty();
    let times = [5u32, 1, 9, 3, 7, 2, 8, 6, 4, 10, 0, 11, 12];
    let run: Vec<HeaderEntry> = times
        .iter()
        .enumerate()
        .map(|(i, t)| HeaderEntry { height: i, hash: h(i as u8 + 1), prev: h(i as u8), time: *t })
        .collect();
    list.apply(run);
    assert_eq!(list.get_mtp(0), 5);
    assert_eq!(list.get_mtp(1), 5);
    assert_eq!(list.get_mtp(2), 5);
    // window of eleven: times[0..=10] sorted is 0..=10, the median is 5
    assert_eq!(list.get_mtp(10), 5);
    // window times[2..=12]: 9 3 7 2 8 6 4 10 0 11 12, median 7
    assert_eq!(list.get_mtp(12), 7);
}

#[test]
fn chain_rebuilt_from_stored_headers() {
    let stored = vec![(h(3), h(2), 30), (h(1), [0; 32], 10), (h(9), h(8), 90), (h(2), h(1), 20)];
    let list = HeaderList::from_stored(&stored, h(3)).unwrap();
    assert_eq!(list.len(), 3);
    assert_eq!(list.tip(), h(3));
    assert_eq!(list.header_by_height(0).unwrap().hash, h(1));
    assert_eq!(list.header_by_height(2).unwrap().time, 30);
    assert!(list.header_by_blockhash(&h(9)).is_none());
    assert!(HeaderList::from_stored(&stored, h(9)).is_none());
    assert_eq!(HeaderList::from_stored(&stored, [0; 32]).unwrap().len(), 0);
    let cyclic = vec![(h(1), h(2), 0), (h(2), h(1), 0)];
    assert!(HeaderList::from_stored(&cyclic, h(1)).is_none());
}

#[test]
fn previous_outputs_of_a_batch() {
    let spend = |t: u8, v: u32| TxIn { previous_output: OutPoint { txid: h(t), vout: v }, script_sig: vec![], witness: vec![] };
    let coinbase = TxIn { previous_output: OutPoint { txid: [0; 32], vout: u32::MAX }, script_sig: vec![], witness: vec![] };
    let t1 = Transaction { txid: h(1), raw: vec![], input: vec![coinbase, spend(7, 0)], output: vec![] };
    let t2 = Transaction { txid: h(2), raw: vec![], input: vec![spend(7, 1), spend(7, 0)], output: vec![] };
    let b1 = BlockEntry { entry: entry(0, 1, 0), header: vec![], txdata: vec![t1], size: 0, weight: 0 };
    let b2 = BlockEntry { entry: entry(1, 2, 1), header: vec![], txdata: vec![t2], size: 0, weight: 0 };
    let outs = get_previous_txos(&vec![b1, b2]);
    let pairs: Vec<(FullHash, u32)> = outs.iter().map(|o| (o.txid, o.vout)).collect();
    assert_eq!(pairs, vec![(h(7), 0), (h(7), 1)]);
}

#[test]
fn header_fields() {
    let mut header = vec![0u8; 80];
    header[4..36].copy_from_slice(&[7; 32]);
    header[68..72].copy_from_slice(&1_700_000_000u32.to_le_bytes());
    assert_eq!(chain_index::codec::header_prev_time(&header), Some(([7; 32], 1_700_000_000)));
    assert_eq!(chain_index::codec::header_prev_time(&vec![0; 79]), None);
}

#[test]
fn oversize_scripts_are_not_spendable() {
    assert!(!chain_index::indexer::is_spendable(&TxOut { value: 1, script_pubkey: vec![0x51; 10_001] }));
    assert!(chain_index::indexer::is_spendable(&TxOut { value: 1, script_pubkey: vec![0x51; 10_000] }));
}
