use chain_index::codec::{
    TweakBlockRecordCacheRow, block_key, block_key_hash, push_be_u16, push_be_u32, push_be_u64, read_be_u32, read_be_u64,
    tweak_key, tweak_key_parse, tweak_prefix_height, txout_key, FundingInfo, SpendingInfo,
    TxConfRow, TxEdgeRow, TxHistoryInfo, TxHistoryRow, CODE_DONE,
};
use chain_index::external::compute_script_hash;
use chain_index::query::{
    decode_stats_cache, decode_utxo_cache, encode_stats_cache, encode_utxo_cache, ScriptStats,
};
use chain_index::tweak::{decode_tweak_data, encode_tweak_value, SpendingInput, TweakTxRow, VoutData};
use chain_index::types::{BlockId, DBRow, OutPoint};

#[test]
fn integers_are_big_endian() {
    let mut v = Vec::new();
    push_be_u16(&mut v, 0x0102);
    push_be_u32(&mut v, 0x0304_0506);
    push_be_u64(&mut v, 0x0708_090a_0b0c_0d0e);
    assert_eq!(v, vec![1, 2, 3, 4, 5, 6, 7, 8, 9, 10, 11, 12, 13, 14]);
    assert_eq!(read_be_u32(&v, 2), 0x0304_0506);
    assert_eq!(read_be_u64(&v, 6), 0x0708_090a_0b0c_0d0e);
}

#[test]
fn script_hash_is_sha256() {
    let h = compute_script_hash(&vec![]);
    assert_eq!(
        hex_of(&h),
        "e3b0c44298fc1c149afbf4c8996fb92427ae41e4649b934ca495991b7852b855"
    );
    let h = compute_script_hash(&b"abc".to_vec());
    assert_eq!(
        hex_of(&h),
        "ba7816bf8f01cfea414140de5dae2223b00361a396177a9cb410ff61f20015ad"
    );
}

fn hex_of(b: &[u8]) -> String {
    b.iter().map(|x| format!("{:02x}", x)).collect()
}

#[test]
fn funding_history_row_round_trip() {
    let info = TxHistoryInfo::Funding(FundingInfo { txid: [7; 32], vout: 3, value: 1000 });
    let row = TxHistoryRow::new([9; 32], 0x0001_0203, info).into_row();
    assert_eq!(row.key.len(), 80);
    assert_eq!(row.key[0], b'H');
    assert_eq!(&row.key[33..37], &[0, 1, 2, 3]);
    assert_eq!(row.key[37], b'F');
    assert!(row.value.is_empty());
    let back = TxHistoryRow::from_row(&row).unwrap();
    assert_eq!(back.key.confirmed_height, 0x0001_0203);
    assert_eq!(back.key.hash, [9; 32]);
    assert_eq!(back.get_txid(), [7; 32]);
    let o = back.get_funded_outpoint();
    assert_eq!((o.txid, o.vout), ([7; 32], 3));
    match back.key.txinfo {
        TxHistoryInfo::Funding(f) => assert_eq!(f.value, 1000),
        TxHistoryInfo::Spending(_) => panic!("expected a funding row"),
    }
}

#[test]
fn spending_history_row_round_trip() {
    let info = TxHistoryInfo::Spending(SpendingInfo {
        txid: [1; 32],
        vin: 2,
        prev_txid: [3; 32],
        prev_vout: 4,
        value: 5,
    });
    let row = TxHistoryRow::new([9; 32], 7, info).into_row();
    assert_eq!(row.key.len(), 114);
    assert_eq!(row.key[37], b'S');
    let back = TxHistoryRow::from_row(&row).unwrap();
    assert_eq!(back.get_txid(), [1; 32]);
    let o = back.get_funded_outpoint();
    assert_eq!((o.txid, o.vout), ([3; 32], 4));
}

#[test]
fn malformed_history_key_is_rejected() {
    let row = DBRow { key: vec![b'H'; 79], value: vec![] };
    assert!(TxHistoryRow::from_row(&row).is_none());
    let mut key = vec![b'H'; 80];
    key[37] = b'X';
    assert!(TxHistoryRow::from_row(&DBRow { key, value: vec![] }).is_none());
}

#[test]
fn history_prefixes() {
    let f = TxHistoryRow::filter(b'H', &vec![1, 2]);
    assert_eq!(f, vec![b'H', 1, 2]);
    let p = TxHistoryRow::prefix_height(b'H', &[5; 32], 258);
    assert_eq!(p.len(), 37);
    assert_eq!(&p[33..], &[0, 0, 1, 2]);
    let e = TxHistoryRow::prefix_end(b'H', &[5; 32]);
    assert_eq!(&e[33..], &[0xff, 0xff, 0xff, 0xff]);
}

#[test]
fn history_keys_sort_by_height() {
    let k = |h: u32| {
        TxHistoryRow::new(
            [9; 32],
            h,
            TxHistoryInfo::Funding(FundingInfo { txid: [0xff; 32], vout: 0xffff, value: u64::MAX }),
        )
        .into_row()
        .key
    };
    assert!(k(255) < k(256));
    assert!(k(1) < k(0x0100_0000));
}

#[test]
fn edge_row_round_trip() {
    let row = TxEdgeRow::new([1; 32], 2, [3; 32], 4).into_row();
    assert_eq!(row.key.len(), 69);
    let filter = TxEdgeRow::filter(&OutPoint { txid: [1; 32], vout: 2 });
    assert!(row.key.starts_with(&filter));
    let back = TxEdgeRow::from_row(&row).unwrap();
    assert_eq!(back.key.spending_txid, [3; 32]);
    assert_eq!(back.key.spending_vin, 4);
    assert!(TxEdgeRow::from_row(&DBRow { key: vec![b'S'; 68], value: vec![] }).is_none());
}

#[test]
fn conf_row_round_trip() {
    let row = TxConfRow::new([1; 32], [2; 32]).into_row();
    assert!(row.key.starts_with(&TxConfRow::filter(&[1; 32])));
    let back = TxConfRow::from_row(&row).unwrap();
    assert_eq!(back.blockhash, [2; 32]);
}

#[test]
fn txout_and_block_keys() {
    let k = txout_key(&OutPoint { txid: [1; 32], vout: 0x0102 });
    assert_eq!(k[0], b'O');
    assert_eq!(&k[33..], &[1, 2]);
    let d = block_key(CODE_DONE, &[4; 32]);
    assert_eq!(d[0], b'D');
    assert_eq!(block_key_hash(CODE_DONE, &d), Some([4; 32]));
    assert_eq!(block_key_hash(b'B', &d), None);
}

#[test]
fn tweak_keys() {
    let k = tweak_key(823_810, &[6; 32]);
    assert!(k.starts_with(&tweak_prefix_height(823_810)));
    assert_eq!(&k[1..5], &823_810u32.to_be_bytes());
    assert_eq!(tweak_key_parse(&k), Some((823_810, [6; 32])));
    assert_eq!(tweak_key_parse(&k[..36].to_vec()), None);
}

#[test]
fn stats_cache_round_trip() {
    let st = ScriptStats {
        tx_count: 3,
        funded_txo_count: 2,
        spent_txo_count: 1,
        funded_txo_sum: 3000,
        spent_txo_sum: 1000,
    };
    let bytes = encode_stats_cache(&st, &[8; 32]);
    assert_eq!(bytes.len(), 72);
    let (back, h) = decode_stats_cache(&bytes).unwrap();
    assert_eq!(h, [8; 32]);
    assert_eq!(
        (back.tx_count, back.funded_txo_count, back.spent_txo_count, back.funded_txo_sum, back.spent_txo_sum),
        (3, 2, 1, 3000, 1000)
    );
    assert!(decode_stats_cache(&bytes[..71].to_vec()).is_none());
}

#[test]
fn utxo_cache_round_trip() {
    let cs = vec![([1; 32], 0, 5, 1000), ([2; 32], 7, 6, 2000)];
    let bytes = encode_utxo_cache(&cs, &[9; 32]);
    assert_eq!(bytes.len(), 4 + 2 * 48 + 32);
    let (back, h) = decode_utxo_cache(&bytes).unwrap();
    assert_eq!(back, cs);
    assert_eq!(h, [9; 32]);
    assert!(decode_utxo_cache(&bytes[..bytes.len() - 1].to_vec()).is_none());
}

#[test]
fn tweak_value_round_trip() {
    let vouts = vec![
        VoutData { vout: 1, amount: 5000, script_pubkey: vec![0x51, 0x20, 7], spending_input: None },
        VoutData {
            vout: 4,
            amount: 1000,
            script_pubkey: vec![],
            spending_input: Some(SpendingInput {
                txid: [3; 32],
                vin: 2,
                confirmed: Some(BlockId { height: 9, hash: [4; 32], time: 77 }),
            }),
        },
    ];
    let bytes = encode_tweak_value(&vec![0xab; 33], &vouts);
    let data = decode_tweak_data(&bytes).unwrap();
    assert_eq!(data.tweak, "ab".repeat(33));
    assert_eq!(data.vout_data.len(), 2);
    assert_eq!(data.vout_data[0].script_pubkey, vec![0x51, 0x20, 7]);
    let s = data.vout_data[1].spending_input.unwrap();
    assert_eq!((s.txid, s.vin), ([3; 32], 2));
    assert_eq!(s.confirmed.unwrap().time, 77);
    assert!(decode_tweak_data(&bytes[..bytes.len() - 1].to_vec()).is_none());
}

#[test]
fn tweak_row_round_trip() {
    let vouts = vec![VoutData { vout: 0, amount: 5000, script_pubkey: vec![0x51, 0x20], spending_input: None }];
    let row = TweakTxRow::new(823_810, [5; 32], vec![0x02; 33], vouts).into_row();
    assert_eq!(&row.key[1..5], &823_810u32.to_be_bytes());
    let back = TweakTxRow::from_row(&row).unwrap();
    assert_eq!((back.key.blockheight, back.key.txid), (823_810, [5; 32]));
    let data = back.get_tweak_data();
    assert_eq!(data.tweak, "02".repeat(33));
    assert_eq!(data.vout_data[0].amount, 5000);
    let bad = DBRow { key: row.key.clone(), value: vec![0; 36] };
    assert!(TweakTxRow::from_row(&bad).is_none());
}

#[test]
fn tweak_cache_height_row() {
    let row = TweakBlockRecordCacheRow::new(7, 900).into_row();
    assert_eq!(row.key, vec![b'B', 0, 0, 0, 7]);
    assert_eq!(row.value, 900u32.to_be_bytes().to_vec());
    let back = TweakBlockRecordCacheRow::from_row(&row).unwrap();
    assert_eq!((back.height, back.value), (7, 900));
    assert!(TweakBlockRecordCacheRow::from_row(&DBRow { key: vec![b'B'], value: vec![] }).is_none());
}
