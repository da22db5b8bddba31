use std::collections::BTreeMap;

use chain_index::codec::{txout_key, TxConfRow, TxEdgeRow, TxHistoryRow};
use chain_index::external::compute_script_hash;
use chain_index::headers::HeaderList;
use chain_index::indexer::{add_blocks, index_blocks, is_spendable, IndexerConfig};
use chain_index::query::{
    history_page, history_txids, lookup_spend, stats_delta, stats_start, tx_confirming_block,
    utxo_delta, utxo_list, HistoryEntry, QueryError, ScriptStats,
};
use chain_index::tweak::{decode_tweak_data, tweak_block, SpendingInput};
use chain_index::query::tweaks;
use chain_index::types::{
    BlockEntry, BlockId, DBRow, FullHash, HeaderEntry, Network, OutPoint, Transaction, TxIn, TxOut,
};

fn config() -> IndexerConfig {
    IndexerConfig {
        light_mode: false,
        address_search: false,
        index_unspendables: false,
        network: Network::Bitcoin,
        sp_begin_height: None,
        sp_min_dust: None,
    }
}

fn p2wpkh(tag: u8) -> Vec<u8> {
    let mut s = vec![0x00, 0x14];
    s.extend_from_slice(&[tag; 20]);
    s
}

fn coinbase_input() -> TxIn {
    TxIn {
        previous_output: OutPoint { txid: [0; 32], vout: u32::MAX },
        script_sig: vec![1, 2],
        witness: vec![],
    }
}

fn spend_input(txid: FullHash, vout: u32) -> TxIn {
    TxIn { previous_output: OutPoint { txid, vout }, script_sig: vec![], witness: vec![] }
}

fn tx(txid: FullHash, input: Vec<TxIn>, output: Vec<TxOut>) -> Transaction {
    Transaction { txid, raw: vec![txid[0], 0xee], input, output }
}

fn block(height: usize, hash: FullHash, prev: FullHash, txdata: Vec<Transaction>) -> BlockEntry {
    BlockEntry {
        entry: HeaderEntry { height, hash, prev, time: 1000 + height as u32 },
        header: vec![hash[0]; 80],
        txdata,
        size: 100,
        weight: 400,
    }
}

/// An ordered store standing in for the key-value database.
struct Store {
    rows: BTreeMap<Vec<u8>, Vec<u8>>,
}

impl Store {
    fn new() -> Self {
        Store { rows: BTreeMap::new() }
    }

    fn write(&mut self, rows: Vec<DBRow>) {
        for r in rows {
            self.rows.insert(r.key, r.value);
        }
    }

    fn scan(&self, prefix: &[u8]) -> Vec<DBRow> {
        self.rows
            .range(prefix.to_vec()..)
            .take_while(|(k, _)| k.starts_with(prefix))
            .map(|(k, v)| DBRow { key: k.clone(), value: v.clone() })
            .collect()
    }

    fn confirming_block(&self, headers: &HeaderList, txid: &FullHash) -> Option<BlockId> {
        let hashes: Vec<FullHash> = self
            .scan(&TxConfRow::filter(txid))
            .iter()
            .map(|r| TxConfRow::from_row(r).unwrap().blockhash)
            .collect();
        tx_confirming_block(headers, &hashes)
    }

    fn history(&self, headers: &HeaderList, scripthash: &FullHash) -> Vec<HistoryEntry> {
        self.scan(&TxHistoryRow::filter(b'H', &scripthash.to_vec()))
            .iter()
            .map(|r| {
                let h = TxHistoryRow::from_row(r).unwrap();
                let conf = self.confirming_block(headers, &h.get_txid());
                (h.key, conf)
            })
            .collect()
    }

    fn spend(&self, headers: &HeaderList, outpoint: &OutPoint) -> Option<SpendingInput> {
        let edges: Vec<_> = self
            .scan(&TxEdgeRow::filter(outpoint))
            .iter()
            .map(|r| {
                let e = TxEdgeRow::from_row(r).unwrap();
                let conf = self.confirming_block(headers, &e.key.spending_txid);
                (e.key, conf)
            })
            .collect();
        lookup_spend(&edges)
    }
}

const T0: FullHash = [0xa0; 32];
const T1: FullHash = [0xa1; 32];
const B0: FullHash = [0xb0; 32];
const B1: FullHash = [0xb1; 32];

/// Block 0 with one transaction paying 1000 to script A and 2000 to script B.
fn chain_with_b0(store: &mut Store, headers: &mut HeaderList) -> BlockEntry {
    let t0 = tx(
        T0,
        vec![coinbase_input()],
        vec![TxOut { value: 1000, script_pubkey: p2wpkh(0xaa) }, TxOut { value: 2000, script_pubkey: p2wpkh(0xbb) }],
    );
    let b0 = block(0, B0, [0; 32], vec![t0]);
    let blocks = vec![b0.clone()];
    store.write(add_blocks(&blocks, &config()));
    store.write(index_blocks(&blocks, &vec![], &config()));
    headers.apply(vec![b0.entry]);
    b0
}

/// Block 1 with one transaction spending (T0, 0) to script C for 900.
fn extend_with_b1(store: &mut Store, headers: &mut HeaderList) {
    let t1 = tx(T1, vec![spend_input(T0, 0)], vec![TxOut { value: 900, script_pubkey: p2wpkh(0xcc) }]);
    let b1 = block(1, B1, B0, vec![t1]);
    let blocks = vec![b1.clone()];
    let prev = vec![(OutPoint { txid: T0, vout: 0 }, TxOut { value: 1000, script_pubkey: p2wpkh(0xaa) })];
    store.write(add_blocks(&blocks, &config()));
    store.write(index_blocks(&blocks, &prev, &config()));
    headers.apply(vec![b1.entry]);
}

fn stats_of(store: &Store, headers: &HeaderList, spk: &Vec<u8>) -> ScriptStats {
    let sh = compute_script_hash(spk);
    stats_delta(ScriptStats::default(), &store.history(headers, &sh)).0
}

#[test]
fn add_then_reread() {
    let mut store = Store::new();
    let mut headers = HeaderList::empty();
    chain_with_b0(&mut store, &mut headers);

    let txo = store.rows.get(&txout_key(&OutPoint { txid: T0, vout: 0 })).unwrap();
    assert_eq!(u64::from_le_bytes(txo[..8].try_into().unwrap()), 1000);
    assert_eq!(txo[8] as usize, 22);
    assert_eq!(&txo[9..], &p2wpkh(0xaa)[..]);

    let sh_a = compute_script_hash(&p2wpkh(0xaa));
    let entries = store.history(&headers, &sh_a);
    let scanned: Vec<FullHash> = entries.iter().map(|e| e.0.txinfo.get_txid()).collect();
    let table: Vec<(FullHash, BlockId)> = entries.iter().filter_map(|e| e.1.map(|b| (e.0.txinfo.get_txid(), b))).collect();
    let txids = history_txids(&scanned, &table, 10);
    assert_eq!(txids.len(), 1);
    assert_eq!(txids[0].0, T0);
    assert_eq!((txids[0].1.height, txids[0].1.hash), (0, B0));

    let st = stats_of(&store, &headers, &p2wpkh(0xbb));
    assert_eq!(
        (st.tx_count, st.funded_txo_count, st.spent_txo_count, st.funded_txo_sum, st.spent_txo_sum),
        (1, 1, 0, 2000, 0)
    );
}

#[test]
fn spend_is_found_and_counted() {
    let mut store = Store::new();
    let mut headers = HeaderList::empty();
    chain_with_b0(&mut store, &mut headers);
    extend_with_b1(&mut store, &mut headers);

    let spend = store.spend(&headers, &OutPoint { txid: T0, vout: 0 }).unwrap();
    assert_eq!(spend.txid, T1);
    assert_eq!(spend.vin, 0);
    assert_eq!(spend.confirmed.unwrap().height, 1);

    let st = stats_of(&store, &headers, &p2wpkh(0xaa));
    assert_eq!(st.spent_txo_sum, 1000);
    assert_eq!((st.funded_txo_count, st.spent_txo_count, st.tx_count), (1, 1, 2));

    let sh_a = compute_script_hash(&p2wpkh(0xaa));
    let (utxos, last, processed) = utxo_delta(vec![], &store.history(&headers, &sh_a), 100).unwrap();
    assert!(utxos.is_empty());
    assert_eq!(last, Some(B1));
    assert_eq!(processed, 2);
}

#[test]
fn reorg_drops_orphaned_spend() {
    let mut store = Store::new();
    let mut headers = HeaderList::empty();
    chain_with_b0(&mut store, &mut headers);
    extend_with_b1(&mut store, &mut headers);

    // a stats cache for script A computed at B1
    let cached = stats_of(&store, &headers, &p2wpkh(0xaa));
    assert_eq!(cached.spent_txo_count, 1);

    // B1 is replaced by B1', which does not spend (T0, 0)
    let t2 = tx([0xa2; 32], vec![coinbase_input()], vec![TxOut { value: 50, script_pubkey: p2wpkh(0xdd) }]);
    let b1b = block(1, [0xb2; 32], B0, vec![t2]);
    let blocks = vec![b1b.clone()];
    store.write(add_blocks(&blocks, &config()));
    store.write(index_blocks(&blocks, &vec![], &config()));
    headers.apply(vec![b1b.entry]);
    assert_eq!(headers.tip(), [0xb2; 32]);
    assert_eq!(headers.len(), 2);

    assert!(store.spend(&headers, &OutPoint { txid: T0, vout: 0 }).is_none());

    let (init, start) = stats_start(&headers, Some((cached, B1)));
    assert_eq!(start, 0);
    assert_eq!(init.spent_txo_count, 0);
    let st = stats_of(&store, &headers, &p2wpkh(0xaa));
    assert_eq!(st.spent_txo_count, 0);
    assert_eq!(st.funded_txo_count, 1);
}

#[test]
fn stats_cache_on_chain_is_resumed() {
    let mut store = Store::new();
    let mut headers = HeaderList::empty();
    chain_with_b0(&mut store, &mut headers);
    let cached = stats_of(&store, &headers, &p2wpkh(0xaa));
    let (init, start) = stats_start(&headers, Some((cached, B0)));
    assert_eq!(start, 1);
    assert_eq!(init.funded_txo_count, 1);
}

fn funding_entries(n: usize) -> (Vec<HistoryEntry>, HeaderList) {
    let mut headers = HeaderList::empty();
    let mut entries = Vec::new();
    let mut prev = [0u8; 32];
    for i in 0..n {
        let mut hash = [0u8; 32];
        hash[..8].copy_from_slice(&(i as u64 + 1).to_be_bytes());
        headers.apply(vec![HeaderEntry { height: i, hash, prev, time: i as u32 }]);
        prev = hash;
        let mut txid = [0x55u8; 32];
        txid[..8].copy_from_slice(&(i as u64).to_be_bytes());
        let row = TxHistoryRow::new(
            [7; 32],
            i as u32,
            chain_index::codec::TxHistoryInfo::Funding(chain_index::codec::FundingInfo { txid, vout: 0, value: 10 }),
        );
        entries.push((row.key, headers.blockid_by_height(i)));
    }
    (entries, headers)
}

#[test]
fn pagination_continues_after_cursor() {
    let (entries, _) = funding_entries(250);
    let scanned: Vec<FullHash> = entries.iter().map(|e| e.0.txinfo.get_txid()).collect();
    let table: Vec<(FullHash, BlockId)> = entries.iter().map(|e| (e.0.txinfo.get_txid(), e.1.unwrap())).collect();
    let first = history_txids(&scanned, &table, 100);
    assert_eq!(first.len(), 100);
    assert_eq!(first[0].0, scanned[0]);
    assert_eq!(first[99].0, scanned[99]);
    let second = history_page(&scanned, &table, Some(first[99].0), 100);
    assert_eq!(second.len(), 100);
    assert_eq!(second[0].0, scanned[100]);
    let both = history_txids(&scanned, &table, 200);
    let joined: Vec<FullHash> = first.iter().chain(second.iter()).map(|p| p.0).collect();
    let expected: Vec<FullHash> = both.iter().map(|p| p.0).collect();
    assert_eq!(joined, expected);
}

#[test]
fn history_skips_repeats_and_unconfirmed() {
    let a = [1u8; 32];
    let b = [2u8; 32];
    let c = [3u8; 32];
    let blk = BlockId { height: 4, hash: [9; 32], time: 0 };
    let scanned = vec![a, a, b, c, b];
    let table = vec![(a, blk), (c, blk)];
    let page = history_page(&scanned, &table, None, 10);
    let txids: Vec<FullHash> = page.iter().map(|p| p.0).collect();
    assert_eq!(txids, vec![a, c]);
    let after = history_page(&scanned, &table, Some(a), 10);
    assert_eq!(after.iter().map(|p| p.0).collect::<Vec<_>>(), vec![c]);
    let unknown = history_page(&scanned, &table, Some([8; 32]), 10);
    assert!(unknown.is_empty());
}

#[test]
fn too_popular_script_fails() {
    let (entries, _) = funding_entries(10);
    assert_eq!(utxo_delta(vec![], &entries, 5).unwrap_err(), QueryError::TooPopular);
    let (utxos, _, processed) = utxo_delta(vec![], &entries, 10).unwrap();
    assert_eq!(utxos.len(), 10);
    assert_eq!(processed, 10);
    let list = utxo_list(&utxos);
    assert_eq!(list.len(), 10);
    assert_eq!(list[3].value, 10);
    assert_eq!(list[3].confirmed.unwrap().height, 3);
}

#[test]
fn funded_minus_spent_is_utxo_count() {
    let mut store = Store::new();
    let mut headers = HeaderList::empty();
    chain_with_b0(&mut store, &mut headers);
    extend_with_b1(&mut store, &mut headers);
    for tag in [0xaa, 0xbb, 0xcc] {
        let sh = compute_script_hash(&p2wpkh(tag));
        let entries = store.history(&headers, &sh);
        let st = stats_delta(ScriptStats::default(), &entries).0;
        let (utxos, _, _) = utxo_delta(vec![], &entries, 100).unwrap();
        assert_eq!(st.funded_txo_count - st.spent_txo_count, utxos.len());
    }
}

/// The compressed generator point, and the hash160 of it.
const G: [u8; 33] = [
    0x02, 0x79, 0xbe, 0x66, 0x7e, 0xf9, 0xdc, 0xbb, 0xac, 0x55, 0xa0, 0x62, 0x95, 0xce, 0x87, 0x0b, 0x07,
    0x02, 0x9b, 0xfc, 0xdb, 0x2d, 0xce, 0x28, 0xd9, 0x59, 0xf2, 0x81, 0x5b, 0x16, 0xf8, 0x17, 0x98,
];
const G_HASH160: [u8; 20] = [
    0x75, 0x1e, 0x76, 0xe8, 0x19, 0x91, 0x96, 0xd4, 0x54, 0x94, 0x1c, 0x45, 0xd1, 0xb3, 0xa3, 0x23, 0xf1,
    0x43, 0x3b, 0xd6,
];

fn p2tr_script() -> Vec<u8> {
    let mut s = vec![0x51, 0x20];
    s.extend_from_slice(&[0x42; 32]);
    s
}

fn g_p2wpkh() -> Vec<u8> {
    let mut s = vec![0x00, 0x14];
    s.extend_from_slice(&G_HASH160);
    s
}

#[test]
fn tweak_eligibility() {
    let input = TxIn {
        previous_output: OutPoint { txid: [0x31; 32], vout: 0 },
        script_sig: vec![],
        witness: vec![vec![0x30; 71], G.to_vec()],
    };
    let t = tx([0x77; 32], vec![input], vec![TxOut { value: 5000, script_pubkey: p2tr_script() }]);
    let b = block(823_810, [0xc0; 32], [0xbf; 32], vec![t]);
    let rows = tweak_block(&b, &vec![vec![Some(g_p2wpkh())]], &vec![vec![None]], 1000);
    assert_eq!(rows.len(), 3);
    assert_eq!(rows[1].key[0], b'W');
    assert_eq!(rows[1].value.len(), 33);
    assert_eq!(rows[2].key[0], b'D');

    let found = tweaks(&rows, 823_810);
    assert_eq!(found.len(), 1);
    assert_eq!(found[0].0, [0x77; 32]);
    let value = &found[0].1;
    assert_eq!(&value[..33], &rows[1].value[..]);
    assert_eq!(u32::from_be_bytes(value[33..37].try_into().unwrap()), 1);
    let data = decode_tweak_data(value).unwrap();
    assert_eq!(data.tweak.len(), 66);
    assert_eq!(data.vout_data.len(), 1);
    assert_eq!(data.vout_data[0].vout, 0);
    assert_eq!(data.vout_data[0].amount, 5000);
    assert_eq!(data.vout_data[0].script_pubkey, p2tr_script());
    assert!(data.vout_data[0].spending_input.is_none());
    assert!(tweaks(&rows, 823_811).is_empty());
}

#[test]
fn small_or_non_taproot_outputs_are_not_eligible() {
    let input = TxIn {
        previous_output: OutPoint { txid: [0x31; 32], vout: 0 },
        script_sig: vec![],
        witness: vec![vec![0x30; 71], G.to_vec()],
    };
    let t = tx(
        [0x78; 32],
        vec![input],
        vec![TxOut { value: 999, script_pubkey: p2tr_script() }, TxOut { value: 5000, script_pubkey: p2wpkh(1) }],
    );
    let b = block(823_810, [0xc1; 32], [0xbf; 32], vec![t]);
    let rows = tweak_block(&b, &vec![vec![Some(g_p2wpkh())]], &vec![vec![None, None]], 1000);
    assert_eq!(rows.len(), 2);
    assert!(rows[0].value.is_empty());
}

#[test]
fn op_return_is_not_spendable() {
    assert!(!is_spendable(&TxOut { value: 0, script_pubkey: vec![0x6a, 1, 2] }));
    assert!(is_spendable(&TxOut { value: 1, script_pubkey: p2wpkh(3) }));
}

#[test]
fn done_marker_closes_each_block() {
    let t0 = tx(T0, vec![coinbase_input()], vec![TxOut { value: 1000, script_pubkey: p2wpkh(0xaa) }]);
    let t1 = tx(T1, vec![coinbase_input()], vec![TxOut { value: 5, script_pubkey: vec![0x6a] }]);
    let b0 = block(0, B0, [0; 32], vec![t0]);
    let b1 = block(1, B1, B0, vec![t1]);
    let rows = add_blocks(&vec![b0, b1], &config());
    // block 0: C, T, O, X, M, B, D; block 1: C, T (its output is unspendable), X, M, B, D
    let codes: Vec<u8> = rows.iter().map(|r| r.key[0]).collect();
    assert_eq!(codes, b"CTOXMBDCTXMBD".to_vec());
    assert_eq!(&rows[6].key[1..], &B0[..]);
    assert_eq!(&rows[12].key[1..], &B1[..]);
    let light = IndexerConfig { light_mode: true, ..config() };
    let rows = add_blocks(&vec![block(0, B0, [0; 32], vec![])], &light);
    assert_eq!(rows.iter().map(|r| r.key[0]).collect::<Vec<u8>>(), b"BD".to_vec());
}

#[test]
fn stats_grow_with_the_chain() {
    let mut store = Store::new();
    let mut headers = HeaderList::empty();
    chain_with_b0(&mut store, &mut headers);
    let low = stats_of(&store, &headers, &p2wpkh(0xaa));
    extend_with_b1(&mut store, &mut headers);
    let high = stats_of(&store, &headers, &p2wpkh(0xaa));
    assert!(high.tx_count >= low.tx_count);
    assert!(high.funded_txo_count >= low.funded_txo_count);
    assert!(high.spent_txo_count >= low.spent_txo_count);
    assert_eq!((low.tx_count, high.tx_count), (1, 2));
}
