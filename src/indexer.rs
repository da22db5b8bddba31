//! The rows that each indexing stage writes for a batch of blocks, and the
//! choice of which headers each stage still has to process.
use vstd::prelude::*;
use crate::types::{
    FullHash, OutPoint, TxIn, TxOut, Transaction, BlockEntry, HeaderEntry, DBRow, Network, row_of,
    rows_view, has_prevout, has_prevout_spec, network_code,
};
use crate::codec::{
    be_u32, be_u64, txout_encoding, conf_key_bytes, tx_key_bytes, txout_key_bytes, block_key_bytes,
    push_hash, push_be_u32, block_key, tx_key, TxConfRow, CODE_DONE, CODE_HEADER, CODE_TXIDS,
    CODE_META,
};
use crate::codec::{
    TxHistoryInfo, FundingInfo, SpendingInfo, TxHistoryRow, TxEdgeRow, TxEdgeKey, info_bytes,
    edge_key_bytes, addr_search_key, CODE_HISTORY, CODE_ADDRESS,
};
use crate::types::{outpoint_eq, hash_eq};
use crate::external::{
    provably_unspendable, script_is_unspendable, serialize_txout, sha256_of, address_of,
    compute_script_hash, script_address,
};

verus! {

/// The indexer's configuration knobs.
#[derive(Clone, Copy, Debug)]
pub struct IndexerConfig {
    /// Skip raw transactions and block txids/meta; queries fall back to the node.
    pub light_mode: bool,
    /// Emit address-prefix search rows.
    pub address_search: bool,
    /// Emit history rows for outputs that are provably unspendable.
    pub index_unspendables: bool,
    pub network: Network,
    pub sp_begin_height: Option<usize>,
    pub sp_min_dust: Option<usize>,
}

pub type Rows = Seq<(Seq<u8>, Seq<u8>)>;

/// Scripts longer than this can never be spent.
pub const MAX_SCRIPT_SIZE: usize = 10_000;

/// An output that can be spent: not provably unspendable (such as
/// `OP_RETURN`) and not oversize.
pub open spec fn spendable(o: TxOut) -> bool {
    !provably_unspendable(o.script_pubkey@) && o.script_pubkey@.len() <= MAX_SCRIPT_SIZE
}

/// The output rows of the first `n` outputs: `O{txid}{vout}` for each spendable one.
pub open spec fn txout_rows(txid: FullHash, outs: Seq<TxOut>, n: int) -> Rows
    decreases n,
{
    if n <= 0 {
        Seq::empty()
    } else {
        let o = outs[n - 1];
        txout_rows(txid, outs, n - 1) + if spendable(o) {
            seq![(txout_key_bytes(txid, (n - 1) as u16), txout_encoding(o.value, o.script_pubkey@))]
        } else {
            Seq::empty()
        }
    }
}

/// The add-stage rows of one transaction of block `blockhash`.
pub open spec fn add_tx_rows(tx: Transaction, blockhash: FullHash, light_mode: bool) -> Rows {
    seq![(conf_key_bytes(tx.txid, blockhash), Seq::<u8>::empty())] + (if light_mode {
        Seq::empty()
    } else {
        seq![(tx_key_bytes(tx.txid), tx.raw@)]
    }) + txout_rows(tx.txid, tx.output@, tx.output@.len() as int)
}

/// The add-stage rows of the first `n` transactions.
pub open spec fn add_txs_rows(txs: Seq<Transaction>, blockhash: FullHash, light_mode: bool, n: int) -> Rows
    decreases n,
{
    if n <= 0 {
        Seq::empty()
    } else {
        add_txs_rows(txs, blockhash, light_mode, n - 1) + add_tx_rows(txs[n - 1], blockhash, light_mode)
    }
}

/// The txids of the first `n` transactions, concatenated.
pub open spec fn txids_bytes(txs: Seq<Transaction>, n: int) -> Seq<u8>
    decreases n,
{
    if n <= 0 {
        Seq::empty()
    } else {
        txids_bytes(txs, n - 1) + txs[n - 1].txid@
    }
}

/// Block meta: transaction count, size and weight.
pub open spec fn meta_bytes(b: BlockEntry) -> Seq<u8> {
    be_u32(b.txdata@.len() as u32) + be_u32(b.size) + be_u32(b.weight)
}

/// The done marker of a block in any namespace.
pub open spec fn done_row(hash: FullHash) -> (Seq<u8>, Seq<u8>) {
    (block_key_bytes(CODE_DONE, hash), Seq::empty())
}

/// The add-stage rows of a block: its transactions' rows, the txids and meta
/// rows (outside light mode), the header row, and last the done marker.
pub open spec fn add_block_rows(b: BlockEntry, light_mode: bool) -> Rows {
    let h = b.entry.hash;
    add_txs_rows(b.txdata@, h, light_mode, b.txdata@.len() as int) + (if light_mode {
        Seq::empty()
    } else {
        seq![(block_key_bytes(CODE_TXIDS, h), txids_bytes(b.txdata@, b.txdata@.len() as int)),
            (block_key_bytes(CODE_META, h), meta_bytes(b))]
    }) + seq![(block_key_bytes(CODE_HEADER, h), b.header@), done_row(h)]
}

/// The add-stage rows of the first `n` blocks of a batch.
pub open spec fn add_batch_rows(bs: Seq<BlockEntry>, light_mode: bool, n: int) -> Rows
    decreases n,
{
    if n <= 0 {
        Seq::empty()
    } else {
        add_batch_rows(bs, light_mode, n - 1) + add_block_rows(bs[n - 1], light_mode)
    }
}

pub proof fn lemma_rows_push(s: Seq<DBRow>, r: DBRow)
    ensures
        rows_view(s.push(r)) == rows_view(s).push(row_of(r)),
{
    assert(rows_view(s.push(r)) =~= rows_view(s).push(row_of(r)));
}

/// Whether an output can be spent.
pub fn is_spendable(txo: &TxOut) -> (r: bool)
    ensures
        r == spendable(*txo),
{
    !script_is_unspendable(&txo.script_pubkey) && txo.script_pubkey.len() <= MAX_SCRIPT_SIZE
}

/// Appends a row, keeping the row view in step.
pub(crate) fn push_row(rows: &mut Vec<DBRow>, key: Vec<u8>, value: Vec<u8>)
    ensures
        rows_view(final(rows)@) == rows_view(old(rows)@).push((key@, value@)),
{
    let ghost r = DBRow { key, value };
    rows.push(DBRow { key, value });
    proof {
        lemma_rows_push(old(rows)@, r);
    }
}

/// Appends the add-stage rows of one transaction.
pub fn add_transaction(tx: &Transaction, blockhash: FullHash, rows: &mut Vec<DBRow>, iconfig: &IndexerConfig)
    ensures
        rows_view(final(rows)@) == rows_view(old(rows)@) + add_tx_rows(*tx, blockhash, iconfig.light_mode),
{
    let conf = TxConfRow::new(tx.txid, blockhash).into_row();
    assert(conf.value@ =~= Seq::<u8>::empty());
    push_row(rows, conf.key, conf.value);
    if !iconfig.light_mode {
        push_row(rows, tx_key(&tx.txid), tx.raw.clone());
    }
    let ghost base = rows_view(rows@);
    let mut i: usize = 0;
    while i < tx.output.len()
        invariant
            0 <= i <= tx.output@.len(),
            rows_view(rows@) == base + txout_rows(tx.txid, tx.output@, i as int),
        decreases tx.output@.len() - i,
    {
        let txo = &tx.output[i];
        if is_spendable(txo) {
            let mut key: Vec<u8> = Vec::new();
            key.push(crate::codec::CODE_TXOUT);
            push_hash(&mut key, &tx.txid);
            crate::codec::push_be_u16(&mut key, i as u16);
            push_row(rows, key, serialize_txout(txo.value, &txo.script_pubkey));
        }
        proof {
            assert(base + txout_rows(tx.txid, tx.output@, i + 1) =~= (base + txout_rows(tx.txid, tx.output@, i as int))
                + (if spendable(tx.output@[i as int]) {
                seq![(txout_key_bytes(tx.txid, i as u16), txout_encoding(tx.output@[i as int].value, tx.output@[i as int].script_pubkey@))]
            } else {
                Seq::empty()
            }));
        }
        i += 1;
    }
    assert(rows_view(rows@) =~= rows_view(old(rows)@) + add_tx_rows(*tx, blockhash, iconfig.light_mode));
}


/// Appends the add-stage rows of one block.
fn add_block(b: &BlockEntry, rows: &mut Vec<DBRow>, iconfig: &IndexerConfig)
    ensures
        rows_view(final(rows)@) == rows_view(old(rows)@) + add_block_rows(*b, iconfig.light_mode),
{
    let blockhash = b.entry.hash;
    let ghost base = rows_view(rows@);
    let mut txids: Vec<u8> = Vec::new();
    let mut i: usize = 0;
    while i < b.txdata.len()
        invariant
            0 <= i <= b.txdata@.len(),
            blockhash == b.entry.hash,
            rows_view(rows@) == base + add_txs_rows(b.txdata@, blockhash, iconfig.light_mode, i as int),
            txids@ == txids_bytes(b.txdata@, i as int),
        decreases b.txdata@.len() - i,
    {
        add_transaction(&b.txdata[i], blockhash, rows, iconfig);
        push_hash(&mut txids, &b.txdata[i].txid);
        assert(base + add_txs_rows(b.txdata@, blockhash, iconfig.light_mode, i + 1) =~= base
            + add_txs_rows(b.txdata@, blockhash, iconfig.light_mode, i as int) + add_tx_rows(
            b.txdata@[i as int],
            blockhash,
            iconfig.light_mode,
        ));
        i += 1;
    }
    let ghost mid = rows_view(rows@);
    if !iconfig.light_mode {
        push_row(rows, block_key(CODE_TXIDS, &blockhash), txids);
        let mut meta: Vec<u8> = Vec::new();
        push_be_u32(&mut meta, b.txdata.len() as u32);
        push_be_u32(&mut meta, b.size);
        push_be_u32(&mut meta, b.weight);
        assert(meta@ =~= meta_bytes(*b));
        push_row(rows, block_key(CODE_META, &blockhash), meta);
    }
    push_row(rows, block_key(CODE_HEADER, &blockhash), b.header.clone());
    let empty: Vec<u8> = Vec::new();
    assert(empty@ =~= Seq::<u8>::empty());
    push_row(rows, block_key(CODE_DONE, &blockhash), empty);
    assert(rows_view(rows@) =~= rows_view(old(rows)@) + add_block_rows(*b, iconfig.light_mode));
}

/// The add-stage (txstore) rows of a batch of blocks, block after block.
pub fn add_blocks(block_entries: &Vec<BlockEntry>, iconfig: &IndexerConfig) -> (r: Vec<DBRow>)
    ensures
        rows_view(r@) == add_batch_rows(block_entries@, iconfig.light_mode, block_entries@.len() as int),
{
    let mut rows: Vec<DBRow> = Vec::new();
    let mut i: usize = 0;
    assert(rows_view(rows@) =~= Seq::empty());
    while i < block_entries.len()
        invariant
            0 <= i <= block_entries@.len(),
            rows_view(rows@) == add_batch_rows(block_entries@, iconfig.light_mode, i as int),
        decreases block_entries@.len() - i,
    {
        add_block(&block_entries[i], &mut rows, iconfig);
        i += 1;
    }
    rows
}


pub open spec fn same_outpoint(a: OutPoint, b: OutPoint) -> bool {
    a.txid@ == b.txid@ && a.vout == b.vout
}

/// The output recorded for `o` in a table of previous outputs (the first entry for it).
pub open spec fn txo_lookup(map: Seq<(OutPoint, TxOut)>, o: OutPoint) -> Option<TxOut>
    decreases map.len(),
{
    if map.len() == 0 {
        None
    } else if same_outpoint(map[0].0, o) {
        Some(map[0].1)
    } else {
        txo_lookup(map.drop_first(), o)
    }
}

/// Every real input of every transaction of `txs` has its previous output in `map`.
pub open spec fn prevouts_known(txs: Seq<Transaction>, map: Seq<(OutPoint, TxOut)>) -> bool {
    forall|t: int, i: int|
        0 <= t < txs.len() && 0 <= i < txs[t].input@.len() && has_prevout_spec(
            #[trigger] txs[t].input@[i],
        ) ==> txo_lookup(map, txs[t].input@[i].previous_output) is Some
}

/// The bytes of a script-history key of the script whose hash is `scripthash`.
pub open spec fn history_row_bytes(scripthash: Seq<u8>, height: u32, info: TxHistoryInfo) -> Seq<u8> {
    seq![CODE_HISTORY] + scripthash + be_u32(height) + info_bytes(info)
}

pub open spec fn funding_info(tx: Transaction, i: int) -> TxHistoryInfo {
    TxHistoryInfo::Funding(
        FundingInfo { txid: tx.txid, vout: i as u16, value: tx.output@[i].value },
    )
}

pub open spec fn spending_info(tx: Transaction, i: int, prev: TxOut) -> TxHistoryInfo {
    let o = tx.input@[i].previous_output;
    TxHistoryInfo::Spending(
        SpendingInfo {
            txid: tx.txid,
            vin: i as u16,
            prev_txid: o.txid,
            prev_vout: o.vout as u16,
            value: prev.value,
        },
    )
}

/// Whether an output gets history rows under this configuration.
pub open spec fn indexed_output(o: TxOut, iconfig: IndexerConfig) -> bool {
    spendable(o) || iconfig.index_unspendables
}

/// The address-search row of a script, if address search is on and it has an address.
pub open spec fn address_rows(script: Seq<u8>, iconfig: IndexerConfig) -> Rows {
    if iconfig.address_search && address_of(script, network_code(iconfig.network)) is Some {
        seq![(seq![CODE_ADDRESS] + address_of(script, network_code(iconfig.network))->Some_0, Seq::<u8>::empty())]
    } else {
        Seq::empty()
    }
}

/// The funding rows of the first `n` outputs.
pub open spec fn funding_rows(tx: Transaction, height: u32, iconfig: IndexerConfig, n: int) -> Rows
    decreases n,
{
    if n <= 0 {
        Seq::empty()
    } else {
        let o = tx.output@[n - 1];
        funding_rows(tx, height, iconfig, n - 1) + if indexed_output(o, iconfig) {
            seq![(history_row_bytes(sha256_of(o.script_pubkey@), height, funding_info(tx, n - 1)), Seq::<u8>::empty())]
                + address_rows(o.script_pubkey@, iconfig)
        } else {
            Seq::empty()
        }
    }
}

/// The spending and spent-by edge rows of the first `n` inputs.
pub open spec fn spending_rows(tx: Transaction, height: u32, map: Seq<(OutPoint, TxOut)>, n: int) -> Rows
    decreases n,
{
    if n <= 0 {
        Seq::empty()
    } else {
        let txin = tx.input@[n - 1];
        let o = txin.previous_output;
        let prev = txo_lookup(map, o)->Some_0;
        spending_rows(tx, height, map, n - 1) + if has_prevout_spec(txin) {
            seq![
                (history_row_bytes(sha256_of(prev.script_pubkey@), height, spending_info(tx, n - 1, prev)), Seq::<u8>::empty()),
                (edge_key_bytes(TxEdgeKey { funding_txid: o.txid, funding_vout: o.vout as u16, spending_txid: tx.txid, spending_vin: (n - 1) as u16 }), Seq::<u8>::empty()),
            ]
        } else {
            Seq::empty()
        }
    }
}

/// The index-stage rows of one transaction confirmed at `height`.
pub open spec fn index_tx_rows(tx: Transaction, height: u32, map: Seq<(OutPoint, TxOut)>, iconfig: IndexerConfig) -> Rows {
    funding_rows(tx, height, iconfig, tx.output@.len() as int) + spending_rows(tx, height, map, tx.input@.len() as int)
}

pub open spec fn index_txs_rows(txs: Seq<Transaction>, height: u32, map: Seq<(OutPoint, TxOut)>, iconfig: IndexerConfig, n: int) -> Rows
    decreases n,
{
    if n <= 0 {
        Seq::empty()
    } else {
        index_txs_rows(txs, height, map, iconfig, n - 1) + index_tx_rows(txs[n - 1], height, map, iconfig)
    }
}

/// The index-stage rows of a block: its transactions' rows, then the done marker.
pub open spec fn index_block_rows(b: BlockEntry, map: Seq<(OutPoint, TxOut)>, iconfig: IndexerConfig) -> Rows {
    index_txs_rows(b.txdata@, b.entry.height as u32, map, iconfig, b.txdata@.len() as int) + seq![done_row(b.entry.hash)]
}

pub open spec fn index_batch_rows(bs: Seq<BlockEntry>, map: Seq<(OutPoint, TxOut)>, iconfig: IndexerConfig, n: int) -> Rows
    decreases n,
{
    if n <= 0 {
        Seq::empty()
    } else {
        index_batch_rows(bs, map, iconfig, n - 1) + index_block_rows(bs[n - 1], map, iconfig)
    }
}

/// Looks up a previous output in the table.
pub fn lookup_prev_txo(map: &Vec<(OutPoint, TxOut)>, o: &OutPoint) -> (r: Option<usize>)
    ensures
        match txo_lookup(map@, *o) {
            Some(t) => r matches Some(i) && i < map@.len() && map@[i as int].1 == t,
            None => r is None,
        },
{
    let mut i: usize = 0;
    assert(map@.subrange(0, map@.len() as int) =~= map@);
    while i < map.len()
        invariant
            0 <= i <= map@.len(),
            txo_lookup(map@, *o) == txo_lookup(map@.subrange(i as int, map@.len() as int), *o),
        decreases map@.len() - i,
    {
        let ghost rest = map@.subrange(i as int, map@.len() as int);
        assert(rest.drop_first() =~= map@.subrange(i + 1, map@.len() as int));
        assert(rest[0] == map@[i as int]);
        if outpoint_eq(&map[i].0, o) {
            return Some(i);
        }
        i += 1;
    }
    None
}

/// Appends the index-stage (history) rows of one transaction confirmed at
/// `confirmed_height`: a funding row per indexed output (with its
/// address-search row), and per real input a spending row keyed by the spent
/// output's script and a spent-by edge.
pub fn index_transaction(
    tx: &Transaction,
    confirmed_height: u32,
    previous_txos_map: &Vec<(OutPoint, TxOut)>,
    rows: &mut Vec<DBRow>,
    iconfig: &IndexerConfig,
)
    requires
        prevouts_known(seq![*tx], previous_txos_map@),
    ensures
        rows_view(final(rows)@) == rows_view(old(rows)@) + index_tx_rows(*tx, confirmed_height, previous_txos_map@, *iconfig),
{
    let ghost base = rows_view(rows@);
    let mut i: usize = 0;
    while i < tx.output.len()
        invariant
            0 <= i <= tx.output@.len(),
            rows_view(rows@) == base + funding_rows(*tx, confirmed_height, *iconfig, i as int),
        decreases tx.output@.len() - i,
    {
        let txo = &tx.output[i];
        let ghost before = rows_view(rows@);
        if is_spendable(txo) || iconfig.index_unspendables {
            let info = TxHistoryInfo::Funding(FundingInfo { txid: tx.txid, vout: i as u16, value: txo.value });
            let row = TxHistoryRow::new(compute_script_hash(&txo.script_pubkey), confirmed_height, info).into_row();
            assert(row.value@ =~= Seq::<u8>::empty());
            push_row(rows, row.key, row.value);
            if iconfig.address_search {
                match script_address(&txo.script_pubkey, iconfig.network) {
                    Some(address) => {
                        let empty: Vec<u8> = Vec::new();
                        assert(empty@ =~= Seq::<u8>::empty());
                        push_row(rows, addr_search_key(&address), empty);
                    },
                    None => {},
                }
            }
        }
        assert(rows_view(rows@) =~= base + funding_rows(*tx, confirmed_height, *iconfig, i + 1));
        i += 1;
    }
    let ghost mid = rows_view(rows@);
    let mut j: usize = 0;
    while j < tx.input.len()
        invariant
            0 <= j <= tx.input@.len(),
            prevouts_known(seq![*tx], previous_txos_map@),
            rows_view(rows@) == mid + spending_rows(*tx, confirmed_height, previous_txos_map@, j as int),
        decreases tx.input@.len() - j,
    {
        let txi = &tx.input[j];
        if has_prevout(txi) {
            assert(seq![*tx][0].input@[j as int] == *txi);
            let k = lookup_prev_txo(previous_txos_map, &txi.previous_output);
            match k {
                Some(k) => {
                    let prev = &previous_txos_map[k].1;
                    let o = txi.previous_output;
                    let info = TxHistoryInfo::Spending(SpendingInfo {
                        txid: tx.txid,
                        vin: j as u16,
                        prev_txid: o.txid,
                        prev_vout: o.vout as u16,
                        value: prev.value,
                    });
                    let row = TxHistoryRow::new(compute_script_hash(&prev.script_pubkey), confirmed_height, info).into_row();
                    assert(row.value@ =~= Seq::<u8>::empty());
                    push_row(rows, row.key, row.value);
                    let edge = TxEdgeRow::new(o.txid, o.vout as u16, tx.txid, j as u16).into_row();
                    assert(edge.value@ =~= Seq::<u8>::empty());
                    push_row(rows, edge.key, edge.value);
                },
                None => {},
            }
        }
        assert(rows_view(rows@) =~= mid + spending_rows(*tx, confirmed_height, previous_txos_map@, j + 1));
        j += 1;
    }
    assert(rows_view(rows@) =~= rows_view(old(rows)@) + index_tx_rows(*tx, confirmed_height, previous_txos_map@, *iconfig));
}

/// The index-stage (history) rows of a batch of blocks; each block's rows end
/// with its done marker. Every real input's previous output must be in the table.
pub fn index_blocks(
    block_entries: &Vec<BlockEntry>,
    previous_txos_map: &Vec<(OutPoint, TxOut)>,
    iconfig: &IndexerConfig,
) -> (r: Vec<DBRow>)
    requires
        forall|k: int| 0 <= k < block_entries@.len() ==> prevouts_known(#[trigger] block_entries@[k].txdata@, previous_txos_map@),
    ensures
        rows_view(r@) == index_batch_rows(block_entries@, previous_txos_map@, *iconfig, block_entries@.len() as int),
{
    let mut rows: Vec<DBRow> = Vec::new();
    assert(rows_view(rows@) =~= Seq::empty());
    let mut i: usize = 0;
    while i < block_entries.len()
        invariant
            0 <= i <= block_entries@.len(),
            forall|k: int| 0 <= k < block_entries@.len() ==> prevouts_known(#[trigger] block_entries@[k].txdata@, previous_txos_map@),
            rows_view(rows@) == index_batch_rows(block_entries@, previous_txos_map@, *iconfig, i as int),
        decreases block_entries@.len() - i,
    {
        let b = &block_entries[i];
        let height = b.entry.height as u32;
        let ghost base = rows_view(rows@);
        let mut t: usize = 0;
        while t < b.txdata.len()
            invariant
                0 <= t <= b.txdata@.len(),
                *b == block_entries@[i as int],
                height == b.entry.height as u32,
                prevouts_known(b.txdata@, previous_txos_map@),
                rows_view(rows@) == base + index_txs_rows(b.txdata@, height, previous_txos_map@, *iconfig, t as int),
            decreases b.txdata@.len() - t,
        {
            assert(prevouts_known(seq![b.txdata@[t as int]], previous_txos_map@)) by {
                assert forall|u: int, v: int| 0 <= u < 1 && 0 <= v < seq![b.txdata@[t as int]][u].input@.len()
                    && has_prevout_spec(#[trigger] seq![b.txdata@[t as int]][u].input@[v]) implies
                    txo_lookup(previous_txos_map@, seq![b.txdata@[t as int]][u].input@[v].previous_output) is Some by {
                    assert(seq![b.txdata@[t as int]][u] == b.txdata@[t as int]);
                    assert(has_prevout_spec(b.txdata@[t as int].input@[v]));
                }
            }
            index_transaction(&b.txdata[t], height, previous_txos_map, &mut rows, iconfig);
            assert(base + index_txs_rows(b.txdata@, height, previous_txos_map@, *iconfig, t + 1) =~= base
                + index_txs_rows(b.txdata@, height, previous_txos_map@, *iconfig, t as int) + index_tx_rows(b.txdata@[t as int], height, previous_txos_map@, *iconfig));
            t += 1;
        }
        let empty: Vec<u8> = Vec::new();
        assert(empty@ =~= Seq::<u8>::empty());
        push_row(&mut rows, block_key(CODE_DONE, &b.entry.hash), empty);
        assert(rows_view(rows@) =~= index_batch_rows(block_entries@, previous_txos_map@, *iconfig, i + 1));
        i += 1;
    }
    rows
}


/// Where the fetcher takes full blocks from.
#[derive(Clone, Copy, Debug, PartialEq, Eq, Structural)]
pub enum FetchFrom {
    /// The node's RPC interface.
    Bitcoind,
    /// The node's block files, scanned forward.
    BlkFiles,
    /// The node's block files, scanned backward.
    BlkFilesReverse,
}

/// Whether a block hash is in a set of block hashes.
pub open spec fn in_set(set: Seq<FullHash>, h: Seq<u8>) -> bool {
    exists|i: int| 0 <= i < set.len() && (#[trigger] set[i])@ == h
}

pub fn contains_hash(set: &Vec<FullHash>, h: &FullHash) -> (r: bool)
    ensures
        r == in_set(set@, h@),
{
    let mut i: usize = 0;
    while i < set.len()
        invariant
            0 <= i <= set@.len(),
            forall|j: int| 0 <= j < i ==> (#[trigger] set@[j])@ != h@,
        decreases set@.len() - i,
    {
        if hash_eq(&set[i], h) {
            return true;
        }
        i += 1;
    }
    false
}

/// A header whose block is not in `done` and stands at `min_height` or above.
pub open spec fn not_done_pred(done: Seq<FullHash>, min_height: usize) -> spec_fn(HeaderEntry) -> bool {
    |e: HeaderEntry| !in_set(done, e.hash@) && e.height >= min_height
}

/// The headers of `hs` whose hash is not in `done` and whose height is at least `min_height`.
pub open spec fn not_done(hs: Seq<HeaderEntry>, done: Seq<FullHash>, min_height: usize) -> Seq<HeaderEntry> {
    hs.filter(not_done_pred(done, min_height))
}

fn filter_not_done(hs: &Vec<HeaderEntry>, done: &Vec<FullHash>, min_height: usize) -> (r: Vec<HeaderEntry>)
    ensures
        r@ == not_done(hs@, done@, min_height),
{
    let mut r: Vec<HeaderEntry> = Vec::new();
    let mut i: usize = 0;
    while i < hs.len()
        invariant
            0 <= i <= hs@.len(),
            r@ == not_done(hs@.subrange(0, i as int), done@, min_height),
        decreases hs@.len() - i,
    {
        let e = hs[i];
        proof {
            let p = not_done_pred(done@, min_height);
            assert(hs@.subrange(0, i + 1).drop_last() =~= hs@.subrange(0, i as int));
            assert(hs@.subrange(0, i + 1).last() == e);
            reveal(Seq::filter);
            assert(hs@.subrange(0, i + 1).filter(p) == if p(e) {
                hs@.subrange(0, i as int).filter(p).push(e)
            } else {
                hs@.subrange(0, i as int).filter(p)
            });
        }
        if !contains_hash(done, &e.hash) && e.height >= min_height {
            r.push(e);
        }
        i += 1;
    }
    assert(hs@.subrange(0, hs@.len() as int) =~= hs@);
    r
}

/// The headers whose blocks still have to be added.
pub fn headers_to_add(new_headers: &Vec<HeaderEntry>, added_blockhashes: &Vec<FullHash>) -> (r: Vec<HeaderEntry>)
    ensures
        r@ == not_done(new_headers@, added_blockhashes@, 0),
{
    filter_not_done(new_headers, added_blockhashes, 0)
}

/// The fetch source a stage uses, by the rule in exact (signed) arithmetic:
/// with `total = n_listed - start_height`, the forward block-file scan turns
/// into a reverse scan when `total > lookup_len` and `lookup_len - total <
/// n_listed / 2`. The second test always holds once the first does (its
/// left side is then negative). When `n_listed < start_height`, `total` is
/// negative and the source stays as it is.
pub open spec fn source_after(lookup_len: usize, n_listed: usize, start_height: usize, from: FetchFrom) -> FetchFrom {
    let total = n_listed as int - start_height as int;
    if total > lookup_len as int && (lookup_len as int - total) < (n_listed / 2) as int && from == FetchFrom::BlkFiles {
        FetchFrom::BlkFilesReverse
    } else {
        from
    }
}

/// Chooses the fetch source of a stage that has done `lookup_len` blocks,
/// with `n_listed` headers in the list and its work starting at `start_height`.
pub fn select_source(lookup_len: usize, n_listed: usize, start_height: usize, from: FetchFrom) -> (r: FetchFrom)
    ensures
        r == source_after(lookup_len, n_listed, start_height, from),
{
    if n_listed > start_height && n_listed - start_height > lookup_len && from == FetchFrom::BlkFiles {
        FetchFrom::BlkFilesReverse
    } else {
        from
    }
}

/// The headers whose blocks still have to be indexed, and the fetch source
/// the index stage uses (`n_listed` headers are in the list).
pub fn headers_to_index(
    new_headers: &Vec<HeaderEntry>,
    indexed_blockhashes: &Vec<FullHash>,
    n_listed: usize,
    from: FetchFrom,
) -> (r: (Vec<HeaderEntry>, FetchFrom))
    ensures
        r.0@ == not_done(new_headers@, indexed_blockhashes@, 0),
        r.1 == source_after(indexed_blockhashes@.len() as usize, n_listed, 0, from),
{
    let next = select_source(indexed_blockhashes.len(), n_listed, 0, from);
    (filter_not_done(new_headers, indexed_blockhashes, 0), next)
}

/// The first height the tweak stage covers.
pub open spec fn sp_start(sp_begin_height: Option<usize>) -> usize {
    match sp_begin_height {
        Some(h) => h,
        None => crate::tweak::MIN_SP_TWEAK_HEIGHT,
    }
}

/// The headers whose blocks still have to be tweaked (from the start height
/// on), and the fetch source the tweak stage uses.
pub fn headers_to_tweak(
    new_headers: &Vec<HeaderEntry>,
    tweaked_blockhashes: &Vec<FullHash>,
    n_listed: usize,
    from: FetchFrom,
    sp_begin_height: Option<usize>,
) -> (r: (Vec<HeaderEntry>, FetchFrom))
    ensures
        r.0@ == not_done(new_headers@, tweaked_blockhashes@, sp_start(sp_begin_height)),
        r.1 == source_after(tweaked_blockhashes@.len() as usize, n_listed, sp_start(sp_begin_height), from),
{
    let start_height = match sp_begin_height {
        Some(h) => h,
        None => crate::tweak::MIN_SP_TWEAK_HEIGHT,
    };
    let next = select_source(tweaked_blockhashes.len(), n_listed, start_height, from);
    (filter_not_done(new_headers, tweaked_blockhashes, start_height), next)
}

/// The work of one update: the headers each stage processes, in order, and
/// the fetch source each stage uses.
pub struct UpdatePlan {
    pub to_add: Vec<HeaderEntry>,
    pub add_from: FetchFrom,
    pub to_index: Vec<HeaderEntry>,
    pub index_from: FetchFrom,
    pub to_tweak: Vec<HeaderEntry>,
    pub tweak_from: FetchFrom,
    /// The source for the next update: after a block-file scan, RPC.
    pub next_from: FetchFrom,
}

/// The decisions of an update: given the headers not indexed yet (the new
/// best-chain headers, in order), the done sets of the three stages and the
/// number of headers already listed, which blocks each stage processes (each
/// a filtered subset of the new headers) and from which source.
pub fn plan_update(
    headers_not_indexed: &Vec<HeaderEntry>,
    added_blockhashes: &Vec<FullHash>,
    indexed_blockhashes: &Vec<FullHash>,
    tweaked_blockhashes: &Vec<FullHash>,
    n_listed: usize,
    from: FetchFrom,
    sp_begin_height: Option<usize>,
) -> (r: UpdatePlan)
    ensures
        r.to_add@ == not_done(headers_not_indexed@, added_blockhashes@, 0),
        r.add_from == from,
        r.to_index@ == not_done(headers_not_indexed@, indexed_blockhashes@, 0),
        r.index_from == source_after(indexed_blockhashes@.len() as usize, n_listed, 0, from),
        r.to_tweak@ == not_done(headers_not_indexed@, tweaked_blockhashes@, sp_start(sp_begin_height)),
        r.tweak_from == source_after(tweaked_blockhashes@.len() as usize, n_listed, sp_start(sp_begin_height), r.index_from),
        r.next_from == FetchFrom::Bitcoind,
{
    let to_add = headers_to_add(headers_not_indexed, added_blockhashes);
    let (to_index, index_from) = headers_to_index(headers_not_indexed, indexed_blockhashes, n_listed, from);
    let (to_tweak, tweak_from) = headers_to_tweak(
        headers_not_indexed,
        tweaked_blockhashes,
        n_listed,
        index_from,
        sp_begin_height,
    );
    // a forward or reverse block-file scan is for catching up; later updates use RPC
    let next_from = FetchFrom::Bitcoind;
    UpdatePlan { to_add, add_from: from, to_index, index_from, to_tweak, tweak_from, next_from }
}

/// The outputs spent by the real inputs among the first `n` inputs.
pub open spec fn input_prevouts(ins: Seq<TxIn>, n: int) -> Seq<OutPoint>
    decreases n,
{
    if n <= 0 {
        Seq::empty()
    } else {
        input_prevouts(ins, n - 1) + if has_prevout_spec(ins[n - 1]) {
            seq![ins[n - 1].previous_output]
        } else {
            Seq::empty()
        }
    }
}

pub open spec fn txs_prevouts(txs: Seq<Transaction>, n: int) -> Seq<OutPoint>
    decreases n,
{
    if n <= 0 {
        Seq::empty()
    } else {
        txs_prevouts(txs, n - 1) + input_prevouts(txs[n - 1].input@, txs[n - 1].input@.len() as int)
    }
}

/// The outputs spent by the real inputs of the first `n` blocks, in order.
pub open spec fn batch_prevouts(bs: Seq<BlockEntry>, n: int) -> Seq<OutPoint>
    decreases n,
{
    if n <= 0 {
        Seq::empty()
    } else {
        batch_prevouts(bs, n - 1) + txs_prevouts(bs[n - 1].txdata@, bs[n - 1].txdata@.len() as int)
    }
}

pub open spec fn has_outpoint(v: Seq<OutPoint>, o: OutPoint) -> bool {
    exists|j: int| 0 <= j < v.len() && same_outpoint(#[trigger] v[j], o)
}

fn contains_outpoint(v: &Vec<OutPoint>, o: &OutPoint) -> (r: bool)
    ensures
        r == has_outpoint(v@, *o),
{
    let mut j: usize = 0;
    while j < v.len()
        invariant
            0 <= j <= v@.len(),
            forall|m: int| 0 <= m < j ==> !same_outpoint(#[trigger] v@[m], *o),
        decreases v@.len() - j,
    {
        if outpoint_eq(&v[j], o) {
            return true;
        }
        j += 1;
    }
    false
}

/// The outputs spent by the real (non-coinbase) inputs of a batch, each once:
/// the outputs whose rows the index stage must look up.
pub fn get_previous_txos(block_entries: &Vec<BlockEntry>) -> (r: Vec<OutPoint>)
    ensures
        forall|o: OutPoint| has_outpoint(batch_prevouts(block_entries@, block_entries@.len() as int), o) <==> has_outpoint(r@, o),
        forall|a: int, c: int| 0 <= a < c < r@.len() ==> !same_outpoint(r@[a], r@[c]),
{
    let mut all: Vec<OutPoint> = Vec::new();
    let mut k: usize = 0;
    while k < block_entries.len()
        invariant
            0 <= k <= block_entries@.len(),
            all@ == batch_prevouts(block_entries@, k as int),
        decreases block_entries@.len() - k,
    {
        let b = &block_entries[k];
        let ghost base_k = all@;
        let mut t: usize = 0;
        while t < b.txdata.len()
            invariant
                0 <= t <= b.txdata@.len(),
                all@ == base_k + txs_prevouts(b.txdata@, t as int),
            decreases b.txdata@.len() - t,
        {
            let tx = &b.txdata[t];
            let ghost base_t = all@;
            let mut i: usize = 0;
            while i < tx.input.len()
                invariant
                    0 <= i <= tx.input@.len(),
                    all@ == base_t + input_prevouts(tx.input@, i as int),
                decreases tx.input@.len() - i,
            {
                if has_prevout(&tx.input[i]) {
                    all.push(tx.input[i].previous_output);
                }
                assert(all@ =~= base_t + input_prevouts(tx.input@, i + 1));
                i += 1;
            }
            assert(all@ =~= base_k + txs_prevouts(b.txdata@, t + 1));
            t += 1;
        }
        assert(all@ =~= batch_prevouts(block_entries@, k + 1));
        k += 1;
    }
    let mut r: Vec<OutPoint> = Vec::new();
    let mut j: usize = 0;
    while j < all.len()
        invariant
            0 <= j <= all@.len(),
            forall|a: int, c: int| 0 <= a < c < r@.len() ==> !same_outpoint(r@[a], r@[c]),
            forall|o: OutPoint| has_outpoint(all@.subrange(0, j as int), o) <==> has_outpoint(r@, o),
        decreases all@.len() - j,
    {
        let o = all[j];
        let ghost prev = r@;
        let fresh = !contains_outpoint(&r, &o);
        if fresh {
            r.push(o);
        }
        assert(fresh ==> r@ == prev.push(o));
        assert(!fresh ==> r@ == prev && has_outpoint(prev, o));
        assert forall|x: OutPoint| has_outpoint(all@.subrange(0, j + 1), x) <==> has_outpoint(r@, x) by {
            if has_outpoint(all@.subrange(0, j + 1), x) {
                let m = choose|m: int| 0 <= m < j + 1 && same_outpoint(#[trigger] all@.subrange(0, j + 1)[m], x);
                if m < j {
                    assert(all@.subrange(0, j as int)[m] == all@.subrange(0, j + 1)[m]);
                    assert(has_outpoint(all@.subrange(0, j as int), x));
                    assert(has_outpoint(prev, x));
                    let q = choose|q: int| 0 <= q < prev.len() && same_outpoint(#[trigger] prev[q], x);
                    assert(r@[q] == prev[q]);
                } else if has_outpoint(prev, o) {
                    let q = choose|q: int| 0 <= q < prev.len() && same_outpoint(#[trigger] prev[q], o);
                    assert(r@[q] == prev[q]);
                    assert(same_outpoint(r@[q], x));
                } else {
                    assert(same_outpoint(r@[prev.len() as int], x));
                }
            }
            if has_outpoint(r@, x) {
                let q = choose|q: int| 0 <= q < r@.len() && same_outpoint(#[trigger] r@[q], x);
                if q < prev.len() {
                    assert(r@[q] == prev[q]);
                    assert(has_outpoint(prev, x));
                    let m = choose|m: int| 0 <= m < j && same_outpoint(#[trigger] all@.subrange(0, j as int)[m], x);
                    assert(all@.subrange(0, j + 1)[m] == all@.subrange(0, j as int)[m]);
                } else {
                    assert(same_outpoint(all@.subrange(0, j + 1)[j as int], x));
                }
            }
        }
        j += 1;
    }
    assert(all@.subrange(0, all@.len() as int) =~= all@);
    r
}

} // verus!
