//! Query-side logic over what was read from the store: confirmation lookup,
//! spent-by lookup, history paging, and the incremental script statistics and
//! UTXO sets with their caches.
use vstd::prelude::*;
use crate::types::{FullHash, BlockId, OutPoint, HeaderEntry, blockid_of, hash_eq, outpoint_eq};
use crate::codec::{TxHistoryKey, TxHistoryInfo, TxEdgeKey, info_txid, info_funded_outpoint, info_value};
use crate::indexer::{in_set, contains_hash, same_outpoint};
use crate::headers::{HeaderList, entry_by_hash};
use crate::tweak::SpendingInput;
use crate::external::{hash_views, uniq, unique_hashes, serialize_varint};
use crate::types::DBRow;
use crate::codec::{be_u64, push_be_u64, push_be_u32, read_be_u32, push_hash, read_be_u64, read_hash, lemma_be_u64_injective, script_cache_key, CODE_STATS_CACHE, CODE_UTXO_CACHE};
use crate::headers::lemma_entry_below_len;
use crate::codec::{block_key_hash, block_key_bytes, CODE_DONE, compact_size, push_bytes, be_u32, tweak_key_bytes, tweak_key_parse, CODE_TWEAK_TX, lemma_be_u32_injective, lemma_hash_exists};

verus! {

/// Caches are written once a script has more history rows than this.
pub const MIN_HISTORY_ITEMS_TO_CACHE: usize = 100;

/// Aggregate statistics of a script's confirmed history.
#[derive(Clone, Copy, Debug)]
pub struct ScriptStats {
    pub tx_count: usize,
    pub funded_txo_count: usize,
    pub spent_txo_count: usize,
    pub funded_txo_sum: u64,
    pub spent_txo_sum: u64,
}

impl ScriptStats {
    pub open spec fn default_spec() -> Self {
        ScriptStats { tx_count: 0, funded_txo_count: 0, spent_txo_count: 0, funded_txo_sum: 0, spent_txo_sum: 0 }
    }

    pub fn default() -> (r: Self)
        ensures
            r == Self::default_spec(),
    {
        ScriptStats { tx_count: 0, funded_txo_count: 0, spent_txo_count: 0, funded_txo_sum: 0, spent_txo_sum: 0 }
    }
}

/// A history row of a script, with the block that confirms its transaction on
/// the best chain (`None` when no best-chain block does).
pub type HistoryEntry = (TxHistoryKey, Option<BlockId>);

/// The statistics being accumulated, with the last block seen and the txids
/// seen in that block.
pub struct StatsAcc {
    pub tx_count: int,
    pub funded_count: int,
    pub spent_count: int,
    pub funded_sum: int,
    pub spent_sum: int,
    pub last: Option<Seq<u8>>,
    pub seen: Set<Seq<u8>>,
}

pub open spec fn acc_of(s: ScriptStats) -> StatsAcc {
    StatsAcc {
        tx_count: s.tx_count as int,
        funded_count: s.funded_txo_count as int,
        spent_count: s.spent_txo_count as int,
        funded_sum: s.funded_txo_sum as int,
        spent_sum: s.spent_txo_sum as int,
        last: None,
        seen: Set::empty(),
    }
}

/// A row counts toward the statistics when its transaction is confirmed on
/// the best chain at the height the row records (rows of reorganised blocks do not).
pub open spec fn counts(e: HistoryEntry) -> bool {
    e.1 matches Some(b) && b.height == e.0.confirmed_height as usize
}

pub open spec fn stats_step(a: StatsAcc, e: HistoryEntry) -> StatsAcc {
    if !counts(e) {
        a
    } else {
        let b = e.1->Some_0;
        let txid = info_txid(e.0.txinfo)@;
        let seen = if a.last == Some(b.hash@) { a.seen } else { Set::empty() };
        let new_tx = !seen.contains(txid);
        let funding = e.0.txinfo is Funding;
        StatsAcc {
            tx_count: a.tx_count + if new_tx { 1int } else { 0int },
            funded_count: a.funded_count + if funding { 1int } else { 0int },
            spent_count: a.spent_count + if funding { 0int } else { 1int },
            funded_sum: a.funded_sum + if funding { info_value(e.0.txinfo) as int } else { 0int },
            spent_sum: a.spent_sum + if funding { 0int } else { info_value(e.0.txinfo) as int },
            last: Some(b.hash@),
            seen: seen.insert(txid),
        }
    }
}

/// The statistics after the first `n` rows.
pub open spec fn stats_fold(a: StatsAcc, rows: Seq<HistoryEntry>, n: int) -> StatsAcc
    decreases n,
{
    if n <= 0 {
        a
    } else {
        stats_step(stats_fold(a, rows, n - 1), rows[n - 1])
    }
}

/// Whether the accumulated totals fit the machine types.
pub open spec fn stats_fit(a: StatsAcc) -> bool {
    &&& a.tx_count <= usize::MAX
    &&& a.funded_count <= usize::MAX
    &&& a.spent_count <= usize::MAX
    &&& a.funded_sum <= u64::MAX
    &&& a.spent_sum <= u64::MAX
}

/// Adds the rows (in scan order) to `init_stats`; also returns the last block
/// counted, if any.
pub fn stats_delta(init_stats: ScriptStats, rows: &Vec<HistoryEntry>) -> (r: (ScriptStats, Option<FullHash>))
    requires
        stats_fit(stats_fold(acc_of(init_stats), rows@, rows@.len() as int)),
    ensures
        ({
            let f = stats_fold(acc_of(init_stats), rows@, rows@.len() as int);
            &&& r.0.tx_count == f.tx_count
            &&& r.0.funded_txo_count == f.funded_count
            &&& r.0.spent_txo_count == f.spent_count
            &&& r.0.funded_txo_sum == f.funded_sum
            &&& r.0.spent_txo_sum == f.spent_sum
            &&& match f.last {
                Some(h) => r.1 matches Some(l) && l@ == h,
                None => r.1 is None,
            }
        }),
{
    let ghost a0 = acc_of(init_stats);
    let mut stats = init_stats;
    let mut seen_txids: Vec<FullHash> = Vec::new();
    let mut lastblock: Option<FullHash> = None;
    let mut i: usize = 0;
    while i < rows.len()
        invariant
            0 <= i <= rows@.len(),
            stats_fit(stats_fold(a0, rows@, rows@.len() as int)),
            ({
                let f = stats_fold(a0, rows@, i as int);
                &&& stats.tx_count == f.tx_count
                &&& stats.funded_txo_count == f.funded_count
                &&& stats.spent_txo_count == f.spent_count
                &&& stats.funded_txo_sum == f.funded_sum
                &&& stats.spent_txo_sum == f.spent_sum
                &&& match f.last {
                    Some(h) => lastblock matches Some(l) && l@ == h,
                    None => lastblock is None,
                }
                &&& forall|t: Seq<u8>| f.seen.contains(t) <==> in_set(seen_txids@, t)
            }),
        decreases rows@.len() - i,
    {
        proof {
            crate::laws::lemma_stats_monotone(a0, rows@, i + 1, rows@.len() as int);
        }
        let (key, conf) = rows[i];
        match conf {
            Some(b) => {
                if b.height == key.confirmed_height as usize {
                    let same_block = match lastblock {
                        Some(l) => hash_eq(&l, &b.hash),
                        None => false,
                    };
                    if !same_block {
                        seen_txids = Vec::new();
                    }
                    let ghost mid = seen_txids@;
                    let txid = key.txinfo.get_txid();
                    if !contains_hash(&seen_txids, &txid) {
                        stats.tx_count = stats.tx_count + 1;
                        seen_txids.push(txid);
                    }
                    proof {
                        let fp = stats_fold(a0, rows@, i as int);
                        let seen1 = if fp.last == Some(b.hash@) { fp.seen } else { Set::<Seq<u8>>::empty() };
                        assert forall|t: Seq<u8>| seen1.contains(t) <==> in_set(mid, t) by {
                            if !same_block {
                                assert(mid.len() == 0);
                            }
                        }
                        assert forall|t: Seq<u8>| seen1.insert(txid@).contains(t) <==> in_set(seen_txids@, t) by {
                            if in_set(mid, txid@) {
                                assert(seen_txids@ == mid);
                            } else {
                                assert(seen_txids@ == mid.push(txid));
                                if in_set(seen_txids@, t) {
                                    let k = choose|k: int| 0 <= k < seen_txids@.len() && (#[trigger] seen_txids@[k])@ == t;
                                    if k < mid.len() {
                                        assert(mid[k] == seen_txids@[k]);
                                    }
                                }
                                if in_set(mid, t) {
                                    let k = choose|k: int| 0 <= k < mid.len() && (#[trigger] mid[k])@ == t;
                                    assert(seen_txids@[k] == mid[k]);
                                }
                                if t == txid@ {
                                    assert(seen_txids@[mid.len() as int] == txid);
                                }
                            }
                        }
                    }
                    match key.txinfo {
                        TxHistoryInfo::Funding(f) => {
                            stats.funded_txo_count = stats.funded_txo_count + 1;
                            stats.funded_txo_sum = stats.funded_txo_sum + f.value;
                        },
                        TxHistoryInfo::Spending(s) => {
                            stats.spent_txo_count = stats.spent_txo_count + 1;
                            stats.spent_txo_sum = stats.spent_txo_sum + s.value;
                        },
                    }
                    lastblock = Some(b.hash);
                }
            },
            None => {},
        }
        i += 1;
    }
    (stats, lastblock)
}


/// The query's UTXO set grew beyond its limit.
#[derive(Clone, Copy, Debug, PartialEq, Eq, Structural)]
pub enum QueryError {
    TooPopular,
}

/// An unspent output with the block that confirms it and its value.
pub type UtxoEntry = (OutPoint, (BlockId, u64));

/// The index of the first entry for outpoint `o` at or after `i`, if any.
pub open spec fn find_outpoint_from(m: Seq<UtxoEntry>, o: OutPoint, i: int) -> Option<int>
    decreases m.len() - i,
{
    if i < 0 || i >= m.len() {
        None
    } else if same_outpoint(m[i].0, o) {
        Some(i)
    } else {
        find_outpoint_from(m, o, i + 1)
    }
}

/// The index of the first entry for outpoint `o`, if any.
pub open spec fn find_outpoint(m: Seq<UtxoEntry>, o: OutPoint) -> Option<int> {
    find_outpoint_from(m, o, 0)
}

pub proof fn lemma_find_outpoint_from(m: Seq<UtxoEntry>, o: OutPoint, i: int)
    requires
        0 <= i,
    ensures
        find_outpoint_from(m, o, i) matches Some(j) ==> i <= j < m.len() && same_outpoint(m[j].0, o),
        find_outpoint_from(m, o, i) is None ==> forall|j: int| i <= j < m.len() ==> !same_outpoint((#[trigger] m[j]).0, o),
    decreases m.len() - i,
{
    if i < m.len() && !same_outpoint(m[i].0, o) {
        lemma_find_outpoint_from(m, o, i + 1);
    }
}

/// Funding rows insert (or overwrite) their output; spending rows remove the spent output.
pub open spec fn utxo_apply(m: Seq<UtxoEntry>, k: TxHistoryKey, b: BlockId) -> Seq<UtxoEntry> {
    let o = info_funded_outpoint(k.txinfo);
    match k.txinfo {
        TxHistoryInfo::Funding(f) => match find_outpoint(m, o) {
            Some(i) => m.update(i, (m[i].0, (b, f.value))),
            None => m.push((o, (b, f.value))),
        },
        TxHistoryInfo::Spending(_) => match find_outpoint(m, o) {
            Some(i) => m.remove(i),
            None => m,
        },
    }
}

/// The UTXO set, last block and count of processed rows after the first `n`
/// rows; `None` once the set has exceeded `limit`.
pub open spec fn utxo_fold(init: Seq<UtxoEntry>, rows: Seq<HistoryEntry>, limit: usize, n: int) -> Option<(Seq<UtxoEntry>, Option<Seq<u8>>, int)>
    decreases n,
{
    if n <= 0 {
        Some((init, None, 0))
    } else {
        match utxo_fold(init, rows, limit, n - 1) {
            None => None,
            Some((m, last, p)) => match rows[n - 1].1 {
                None => Some((m, last, p)),
                Some(b) => {
                    let m2 = utxo_apply(m, rows[n - 1].0, b);
                    if m2.len() > limit {
                        None
                    } else {
                        Some((m2, Some(b.hash@), p + 1))
                    }
                },
            },
        }
    }
}

/// No outpoint stands twice in the set.
pub open spec fn distinct_outpoints(m: Seq<UtxoEntry>) -> bool {
    forall|a: int, c: int| 0 <= a < c < m.len() ==> !same_outpoint(m[a].0, m[c].0)
}

pub proof fn lemma_utxo_apply_distinct(m: Seq<UtxoEntry>, k: TxHistoryKey, b: BlockId)
    requires
        distinct_outpoints(m),
    ensures
        distinct_outpoints(utxo_apply(m, k, b)),
{
    let o = info_funded_outpoint(k.txinfo);
    lemma_find_outpoint_from(m, o, 0);
    let r = utxo_apply(m, k, b);
    match find_outpoint(m, o) {
        Some(i) => {
            if k.txinfo is Funding {
                assert forall|a: int, c: int| 0 <= a < c < r.len() implies !same_outpoint(r[a].0, r[c].0) by {
                    assert(r[a].0 == m[a].0 && r[c].0 == m[c].0);
                }
            } else {
                assert forall|a: int, c: int| 0 <= a < c < r.len() implies !same_outpoint(r[a].0, r[c].0) by {
                    let a2 = if a < i { a } else { a + 1 };
                    let c2 = if c < i { c } else { c + 1 };
                    assert(r[a] == m[a2] && r[c] == m[c2]);
                }
            }
        },
        None => {
            if k.txinfo is Funding {
                assert forall|a: int, c: int| 0 <= a < c < r.len() implies !same_outpoint(r[a].0, r[c].0) by {
                    if c == m.len() {
                        assert(r[c].0 == o);
                        assert(r[a] == m[a]);
                    } else {
                        assert(r[a] == m[a] && r[c] == m[c]);
                    }
                }
            }
        },
    }
}

/// Once the set has exceeded the limit, the fold stays failed.
pub proof fn lemma_utxo_fold_fails_on(init: Seq<UtxoEntry>, rows: Seq<HistoryEntry>, limit: usize, i: int, n: int)
    requires
        0 <= i <= n,
        utxo_fold(init, rows, limit, i) is None,
    ensures
        utxo_fold(init, rows, limit, n) is None,
    decreases n - i,
{
    if i < n {
        lemma_utxo_fold_fails_on(init, rows, limit, i, n - 1);
    }
}

fn find_utxo(m: &Vec<UtxoEntry>, o: &OutPoint) -> (r: Option<usize>)
    ensures
        match r {
            Some(k) => k < m@.len() && find_outpoint(m@, *o) == Some(k as int),
            None => find_outpoint(m@, *o) is None,
        },
{
    let mut i: usize = 0;
    while i < m.len()
        invariant
            0 <= i <= m@.len(),
            find_outpoint(m@, *o) == find_outpoint_from(m@, *o, i as int),
        decreases m@.len() - i,
    {
        if outpoint_eq(&m[i].0, o) {
            return Some(i);
        }
        i += 1;
    }
    None
}

/// Applies the rows (in scan order) to `init_utxos`: rows whose transaction is
/// confirmed on the best chain insert or remove outputs. Fails with
/// `TooPopular` as soon as the set holds more than `limit` outputs; else also
/// returns the last block applied and how many rows were applied.
pub fn utxo_delta(init_utxos: Vec<UtxoEntry>, rows: &Vec<HistoryEntry>, limit: usize) -> (r: Result<(Vec<UtxoEntry>, Option<FullHash>, usize), QueryError>)
    ensures
        match utxo_fold(init_utxos@, rows@, limit, rows@.len() as int) {
            None => r == Err::<(Vec<UtxoEntry>, Option<FullHash>, usize), QueryError>(QueryError::TooPopular),
            Some((m, last, p)) => r matches Ok((rm, rl, rp)) && rm@ == m && rp == p && match last {
                Some(h) => rl matches Some(l) && l@ == h,
                None => rl is None,
            },
        },
        distinct_outpoints(init_utxos@) ==> (r matches Ok((rm, _, _)) ==> distinct_outpoints(rm@)),
{
    let ghost init = init_utxos@;
    let mut utxos = init_utxos;
    let mut processed_items: usize = 0;
    let mut lastblock: Option<FullHash> = None;
    let mut i: usize = 0;
    while i < rows.len()
        invariant
            0 <= i <= rows@.len(),
            init == init_utxos@,
            distinct_outpoints(init) ==> distinct_outpoints(utxos@),
            processed_items <= i,
            utxo_fold(init, rows@, limit, i as int) matches Some((m, last, p)) && utxos@ == m && processed_items == p
                && match last {
                    Some(h) => lastblock matches Some(l) && l@ == h,
                    None => lastblock is None,
                },
        decreases rows@.len() - i,
    {
        let (key, conf) = rows[i];
        let ghost prev = utxos@;
        assert(rows@[i as int] == (key, conf));
        match conf {
            Some(b) => {
                processed_items = processed_items + 1;
                lastblock = Some(b.hash);
                let o = key.txinfo.get_funded_outpoint();
                match key.txinfo {
                    TxHistoryInfo::Funding(f) => {
                        match find_utxo(&utxos, &o) {
                            Some(k) => {
                                let op = utxos[k].0;
                                utxos.set(k, (op, (b, f.value)));
                                assert(utxos@ =~= utxo_apply(prev, key, b));
                            },
                            None => {
                                utxos.push((o, (b, f.value)));
                                assert(utxos@ =~= utxo_apply(prev, key, b));
                            },
                        }
                    },
                    TxHistoryInfo::Spending(_) => {
                        match find_utxo(&utxos, &o) {
                            Some(k) => {
                                utxos.remove(k);
                                assert(utxos@ =~= utxo_apply(prev, key, b));
                            },
                            None => {
                                assert(utxos@ =~= utxo_apply(prev, key, b));
                            },
                        }
                    },
                }
                assert(utxos@ =~= utxo_apply(prev, key, b));
                proof {
                    if distinct_outpoints(init) {
                        lemma_utxo_apply_distinct(prev, key, b);
                    }
                }
                if utxos.len() > limit {
                    proof {
                        assert(utxo_fold(init, rows@, limit, i + 1) is None);
                        lemma_utxo_fold_fails_on(init, rows@, limit, i + 1, rows@.len() as int);
                    }
                    return Err(QueryError::TooPopular);
                }
            },
            None => {},
        }
        assert(utxo_fold(init, rows@, limit, i + 1) matches Some((m, last, p)) && utxos@ == m);
        i += 1;
    }
    Ok((utxos, lastblock, processed_items))
}


/// The first of the blocks that is on the best chain.
pub open spec fn first_on_chain(chain: Seq<HeaderEntry>, hashes: Seq<FullHash>) -> Option<BlockId>
    decreases hashes.len(),
{
    if hashes.len() == 0 {
        None
    } else {
        match entry_by_hash(chain, hashes[0]@) {
            Some(e) => Some(blockid_of(e)),
            None => first_on_chain(chain, hashes.drop_first()),
        }
    }
}

/// The best-chain block confirming a transaction, given the block hashes of
/// its confirmation rows in scan order: the first one on the best chain.
/// Rows of orphaned blocks stay in the store and are skipped here.
pub fn tx_confirming_block(headers: &HeaderList, conf_blockhashes: &Vec<FullHash>) -> (r: Option<BlockId>)
    ensures
        r == first_on_chain(headers@, conf_blockhashes@),
{
    let mut i: usize = 0;
    assert(conf_blockhashes@.subrange(0, conf_blockhashes@.len() as int) =~= conf_blockhashes@);
    while i < conf_blockhashes.len()
        invariant
            0 <= i <= conf_blockhashes@.len(),
            first_on_chain(headers@, conf_blockhashes@) == first_on_chain(
                headers@,
                conf_blockhashes@.subrange(i as int, conf_blockhashes@.len() as int),
            ),
        decreases conf_blockhashes@.len() - i,
    {
        let ghost rest = conf_blockhashes@.subrange(i as int, conf_blockhashes@.len() as int);
        assert(rest.drop_first() =~= conf_blockhashes@.subrange(i + 1, conf_blockhashes@.len() as int));
        assert(rest[0] == conf_blockhashes@[i as int]);
        match headers.blockid_by_hash(&conf_blockhashes[i]) {
            Some(b) => {
                return Some(b);
            },
            None => {},
        }
        i += 1;
    }
    None
}

/// The first spender whose transaction is confirmed on the best chain.
pub open spec fn first_spender(edges: Seq<(TxEdgeKey, Option<BlockId>)>) -> Option<SpendingInput>
    decreases edges.len(),
{
    if edges.len() == 0 {
        None
    } else {
        match edges[0].1 {
            Some(b) => Some(
                SpendingInput { txid: edges[0].0.spending_txid, vin: edges[0].0.spending_vin as u32, confirmed: Some(b) },
            ),
            None => first_spender(edges.drop_first()),
        }
    }
}

/// The input spending an output, given its spent-by edges in scan order, each
/// with the best-chain block confirming the spender (if any).
pub fn lookup_spend(edges: &Vec<(TxEdgeKey, Option<BlockId>)>) -> (r: Option<SpendingInput>)
    ensures
        r == first_spender(edges@),
{
    let mut i: usize = 0;
    assert(edges@.subrange(0, edges@.len() as int) =~= edges@);
    while i < edges.len()
        invariant
            0 <= i <= edges@.len(),
            first_spender(edges@) == first_spender(edges@.subrange(i as int, edges@.len() as int)),
        decreases edges@.len() - i,
    {
        let ghost rest = edges@.subrange(i as int, edges@.len() as int);
        assert(rest.drop_first() =~= edges@.subrange(i + 1, edges@.len() as int));
        assert(rest[0] == edges@[i as int]);
        let (edge, conf) = edges[i];
        match conf {
            Some(b) => {
                return Some(SpendingInput { txid: edge.spending_txid, vin: edge.spending_vin as u32, confirmed: Some(b) });
            },
            None => {},
        }
        i += 1;
    }
    None
}

/// The confirming block recorded for `txid` in a table (its first entry).
pub open spec fn conf_lookup(table: Seq<(FullHash, BlockId)>, txid: Seq<u8>) -> Option<BlockId>
    decreases table.len(),
{
    if table.len() == 0 {
        None
    } else if table[0].0@ == txid {
        Some(table[0].1)
    } else {
        conf_lookup(table.drop_first(), txid)
    }
}

/// The txids of `s` that are confirmed, each with its block.
pub open spec fn confirmed_list(s: Seq<Seq<u8>>, table: Seq<(FullHash, BlockId)>) -> Seq<(Seq<u8>, BlockId)>
    decreases s.len(),
{
    if s.len() == 0 {
        Seq::empty()
    } else {
        confirmed_list(s.drop_last(), table) + match conf_lookup(table, s.last()) {
            Some(b) => seq![(s.last(), b)],
            None => Seq::empty(),
        }
    }
}

/// The index of the first occurrence of `l` in `u` at or after `i`, if any.
pub open spec fn first_pos_from(u: Seq<Seq<u8>>, l: Seq<u8>, i: int) -> Option<int>
    decreases u.len() - i,
{
    if i < 0 || i >= u.len() {
        None
    } else if u[i] == l {
        Some(i)
    } else {
        first_pos_from(u, l, i + 1)
    }
}

/// The txids after the cursor: all without one, those after its first
/// occurrence with one, none when it does not occur.
pub open spec fn after_cursor(u: Seq<Seq<u8>>, last_seen: Option<Seq<u8>>) -> Seq<Seq<u8>> {
    match last_seen {
        None => u,
        Some(l) => match first_pos_from(u, l, 0) {
            Some(p) => u.subrange(p + 1, u.len() as int),
            None => Seq::empty(),
        },
    }
}

pub open spec fn take(s: Seq<(Seq<u8>, BlockId)>, limit: usize) -> Seq<(Seq<u8>, BlockId)> {
    if s.len() <= limit { s } else { s.subrange(0, limit as int) }
}

/// One page of a script's history: the scanned txids deduplicated, those
/// after the cursor, the confirmed ones, at most `limit` of them.
pub open spec fn history_page_spec(
    scanned: Seq<FullHash>,
    table: Seq<(FullHash, BlockId)>,
    last_seen: Option<Seq<u8>>,
    limit: usize,
) -> Seq<(Seq<u8>, BlockId)> {
    take(confirmed_list(after_cursor(uniq(hash_views(scanned)), last_seen), table), limit)
}

pub open spec fn page_view(v: Seq<(FullHash, BlockId)>) -> Seq<(Seq<u8>, BlockId)> {
    v.map_values(|p: (FullHash, BlockId)| (p.0@, p.1))
}

pub proof fn lemma_confirmed_list_prefix(s: Seq<Seq<u8>>, table: Seq<(FullHash, BlockId)>, i: int, n: int)
    requires
        0 <= i <= n <= s.len(),
    ensures
        confirmed_list(s.subrange(0, i), table).len() <= confirmed_list(s.subrange(0, n), table).len(),
        confirmed_list(s.subrange(0, i), table) == confirmed_list(s.subrange(0, n), table).subrange(
            0,
            confirmed_list(s.subrange(0, i), table).len() as int,
        ),
    decreases n - i,
{
    if i < n {
        lemma_confirmed_list_prefix(s, table, i, n - 1);
        assert(s.subrange(0, n).drop_last() =~= s.subrange(0, n - 1));
    } else {
        assert(confirmed_list(s.subrange(0, n), table).subrange(0, confirmed_list(s.subrange(0, n), table).len() as int)
            =~= confirmed_list(s.subrange(0, n), table));
    }
}

fn conf_in_table(table: &Vec<(FullHash, BlockId)>, txid: &FullHash) -> (r: Option<BlockId>)
    ensures
        r == conf_lookup(table@, txid@),
{
    let mut i: usize = 0;
    assert(table@.subrange(0, table@.len() as int) =~= table@);
    while i < table.len()
        invariant
            0 <= i <= table@.len(),
            conf_lookup(table@, txid@) == conf_lookup(table@.subrange(i as int, table@.len() as int), txid@),
        decreases table@.len() - i,
    {
        let ghost rest = table@.subrange(i as int, table@.len() as int);
        assert(rest.drop_first() =~= table@.subrange(i + 1, table@.len() as int));
        assert(rest[0] == table@[i as int]);
        if hash_eq(&table[i].0, txid) {
            return Some(table[i].1);
        }
        i += 1;
    }
    None
}

/// The confirmed txids of `u`, with their blocks, at most `limit` of them.
fn take_confirmed(u: &Vec<FullHash>, from: usize, table: &Vec<(FullHash, BlockId)>, limit: usize) -> (r: Vec<(FullHash, BlockId)>)
    requires
        from <= u@.len(),
    ensures
        page_view(r@) == take(confirmed_list(hash_views(u@).subrange(from as int, u@.len() as int), table@), limit),
{
    let ghost s = hash_views(u@).subrange(from as int, u@.len() as int);
    let mut r: Vec<(FullHash, BlockId)> = Vec::new();
    let mut i: usize = from;
    assert(s.subrange(0, 0) =~= Seq::<Seq<u8>>::empty());
    assert(page_view(r@) =~= Seq::empty());
    while i < u.len() && r.len() < limit
        invariant
            from <= i <= u@.len(),
            s == hash_views(u@).subrange(from as int, u@.len() as int),
            page_view(r@) == confirmed_list(s.subrange(0, i - from), table@),
            r@.len() <= limit,
        decreases u@.len() - i,
    {
        let txid = u[i];
        let c = conf_in_table(table, &txid);
        proof {
            assert(s.subrange(0, i + 1 - from).drop_last() =~= s.subrange(0, i - from));
            assert(s.subrange(0, i + 1 - from).last() == txid@);
        }
        match c {
            Some(b) => {
                let ghost prev = r@;
                r.push((txid, b));
                assert(page_view(r@) =~= page_view(prev).push((txid@, b)));
            },
            None => {},
        }
        assert(page_view(r@) =~= confirmed_list(s.subrange(0, i + 1 - from), table@));
        i += 1;
    }
    proof {
        lemma_confirmed_list_prefix(s, table@, i - from, s.len() as int);
        assert(s.subrange(0, s.len() as int) =~= s);
        assert(page_view(r@).len() == r@.len());
        if i < u@.len() {
            assert(r@.len() == limit);
            assert(take(confirmed_list(s, table@), limit) =~= page_view(r@));
        } else {
            assert(s.subrange(0, i - from) =~= s);
        }
    }
    r
}

/// The position of the first element equal to `h`, if any.
fn position_in(u: &Vec<FullHash>, h: &FullHash) -> (r: Option<usize>)
    ensures
        match r {
            Some(p) => p < u@.len() && first_pos_from(hash_views(u@), h@, 0) == Some(p as int),
            None => first_pos_from(hash_views(u@), h@, 0) is None,
        },
{
    let ghost hv = hash_views(u@);
    let mut i: usize = 0;
    while i < u.len()
        invariant
            0 <= i <= u@.len(),
            hv == hash_views(u@),
            first_pos_from(hv, h@, 0) == first_pos_from(hv, h@, i as int),
        decreases u@.len() - i,
    {
        assert(hv[i as int] == u@[i as int]@);
        if hash_eq(&u[i], h) {
            return Some(i);
        }
        i += 1;
    }
    None
}

/// One page of a script's history (newest first when the rows are scanned in
/// reverse): the scanned txids without repeats, those after `last_seen`, the
/// ones confirmed on the best chain (per `confirmations`), at most `limit`.
pub fn history_page(
    scanned: &Vec<FullHash>,
    confirmations: &Vec<(FullHash, BlockId)>,
    last_seen: Option<FullHash>,
    limit: usize,
) -> (r: Vec<(FullHash, BlockId)>)
    ensures
        page_view(r@) == history_page_spec(
            scanned@,
            confirmations@,
            match last_seen {
                Some(l) => Some(l@),
                None => None,
            },
            limit,
        ),
{
    let u = unique_hashes(scanned);
    match last_seen {
        None => {
            assert(hash_views(u@).subrange(0, u@.len() as int) =~= hash_views(u@));
            take_confirmed(&u, 0, confirmations, limit)
        },
        Some(l) => match position_in(&u, &l) {
            Some(p) => {
                let n = u.len();
                assert(p < n);
                take_confirmed(&u, p + 1, confirmations, limit)
            },
            None => {
                assert(hash_views(u@).subrange(u@.len() as int, u@.len() as int) =~= Seq::<Seq<u8>>::empty());
                take_confirmed(&u, u.len(), confirmations, limit)
            },
        },
    }
}

/// The first `limit` confirmed txids of a script, oldest first (rows scanned forward).
pub fn history_txids(scanned: &Vec<FullHash>, confirmations: &Vec<(FullHash, BlockId)>, limit: usize) -> (r: Vec<(FullHash, BlockId)>)
    ensures
        page_view(r@) == history_page_spec(scanned@, confirmations@, None, limit),
{
    history_page(scanned, confirmations, None, limit)
}


/// The concatenation of the first `n` byte strings.
pub open spec fn concat_bytes(v: Seq<Vec<u8>>, n: int) -> Seq<u8>
    decreases n,
{
    if n <= 0 {
        Seq::empty()
    } else {
        concat_bytes(v, n - 1) + v[n - 1]@
    }
}

/// Rebuilds a raw block from its stored parts: the serialized header, the
/// transaction count as a compact size, then the raw transactions in order.
pub fn get_block_raw(header: &Vec<u8>, raw_txs: &Vec<Vec<u8>>) -> (r: Vec<u8>)
    ensures
        r@ == header@ + compact_size(raw_txs@.len() as u64) + concat_bytes(raw_txs@, raw_txs@.len() as int),
{
    let mut raw: Vec<u8> = Vec::new();
    push_bytes(&mut raw, header);
    let count = serialize_varint(raw_txs.len() as u64);
    push_bytes(&mut raw, &count);
    let ghost base = raw@;
    let mut i: usize = 0;
    while i < raw_txs.len()
        invariant
            0 <= i <= raw_txs@.len(),
            raw@ == base + concat_bytes(raw_txs@, i as int),
        decreases raw_txs@.len() - i,
    {
        push_bytes(&mut raw, &raw_txs[i]);
        assert(base + concat_bytes(raw_txs@, i + 1) =~= base + concat_bytes(raw_txs@, i as int) + raw_txs@[i as int]@);
        i += 1;
    }
    raw
}

/// The tweak rows of exactly height `height` among rows scanned from the
/// first key at that height: their txids and values, in scan order.
pub open spec fn tweaks_at(rows: Seq<DBRow>, height: u32, n: int) -> Seq<(Seq<u8>, Seq<u8>)>
    decreases n,
{
    if n <= 0 {
        Seq::empty()
    } else {
        let k = rows[n - 1].key@;
        tweaks_at(rows, height, n - 1) + if k.len() == 37 && k[0] == CODE_TWEAK_TX && k.subrange(1, 5) == be_u32(height) {
            seq![(k.subrange(5, 37), rows[n - 1].value@)]
        } else {
            Seq::empty()
        }
    }
}

/// The `(txid, tweak data bytes)` of the transactions at `height`, from the
/// tweak rows scanned from that height on; rows of other heights are skipped.
pub fn tweaks(rows: &Vec<DBRow>, height: u32) -> (r: Vec<(FullHash, Vec<u8>)>)
    ensures
        r@.map_values(|p: (FullHash, Vec<u8>)| (p.0@, p.1@)) == tweaks_at(rows@, height, rows@.len() as int),
{
    let mut r: Vec<(FullHash, Vec<u8>)> = Vec::new();
    let mut i: usize = 0;
    assert(r@.map_values(|p: (FullHash, Vec<u8>)| (p.0@, p.1@)) =~= Seq::empty());
    while i < rows.len()
        invariant
            0 <= i <= rows@.len(),
            r@.map_values(|p: (FullHash, Vec<u8>)| (p.0@, p.1@)) == tweaks_at(rows@, height, i as int),
        decreases rows@.len() - i,
    {
        let ghost prev = r@;
        let ghost k = rows@[i as int].key@;
        let ghost cond = k.len() == 37 && k[0] == CODE_TWEAK_TX && k.subrange(1, 5) == be_u32(height);
        match tweak_key_parse(&rows[i].key) {
            Some((h, txid)) => {
                proof {
                    assert(k.subrange(1, 5) =~= be_u32(h));
                    assert(k.subrange(5, 37) =~= txid@);
                    if k.subrange(1, 5) == be_u32(height) {
                        lemma_be_u32_injective(h, height);
                    }
                }
                if h == height {
                    r.push((txid, rows[i].value.clone()));
                    assert(r@.map_values(|p: (FullHash, Vec<u8>)| (p.0@, p.1@)) =~= prev.map_values(|p: (FullHash, Vec<u8>)| (p.0@, p.1@)).push((txid@, rows@[i as int].value@)));
                }
            },
            None => {
                proof {
                    if cond {
                        let t = k.subrange(5, 37);
                        lemma_hash_exists(t);
                        let th: FullHash = choose|th: FullHash| th@ == t;
                        assert(tweak_key_bytes(height, th) =~= k);
                    }
                }
            },
        }
        assert(r@.map_values(|p: (FullHash, Vec<u8>)| (p.0@, p.1@)) =~= tweaks_at(rows@, height, i + 1));
        i += 1;
    }
    r
}


/// The value of an `A` row: the five totals, then the block they were computed up to.
pub open spec fn stats_cache_bytes(st: ScriptStats, blockhash: FullHash) -> Seq<u8> {
    be_u64(st.tx_count as u64) + be_u64(st.funded_txo_count as u64) + be_u64(st.spent_txo_count as u64)
        + be_u64(st.funded_txo_sum) + be_u64(st.spent_txo_sum) + blockhash@
}

pub fn encode_stats_cache(st: &ScriptStats, blockhash: &FullHash) -> (r: Vec<u8>)
    ensures
        r@ == stats_cache_bytes(*st, *blockhash),
{
    let mut v: Vec<u8> = Vec::new();
    push_be_u64(&mut v, st.tx_count as u64);
    push_be_u64(&mut v, st.funded_txo_count as u64);
    push_be_u64(&mut v, st.spent_txo_count as u64);
    push_be_u64(&mut v, st.funded_txo_sum);
    push_be_u64(&mut v, st.spent_txo_sum);
    push_hash(&mut v, blockhash);
    assert(v@ =~= stats_cache_bytes(*st, *blockhash));
    v
}

fn read_count(b: &Vec<u8>, at: usize) -> (r: Option<usize>)
    requires
        at + 8 <= b.len(),
    ensures
        r matches Some(n) ==> be_u64(n as u64) == b@.subrange(at as int, at + 8),
        (exists|n: usize| #[trigger] be_u64(n as u64) == b@.subrange(at as int, at + 8)) ==> r is Some,
{
    let n = read_be_u64(b, at);
    if n <= usize::MAX as u64 {
        Some(n as usize)
    } else {
        proof {
            if exists|m: usize| #[trigger] be_u64(m as u64) == b@.subrange(at as int, at + 8) {
                let m = choose|m: usize| #[trigger] be_u64(m as u64) == b@.subrange(at as int, at + 8);
                lemma_be_u64_injective(m as u64, n);
            }
        }
        None
    }
}

/// Decodes the value of an `A` row; it succeeds exactly on the encodings.
#[verifier::rlimit(40)]
pub fn decode_stats_cache(b: &Vec<u8>) -> (r: Option<(ScriptStats, FullHash)>)
    ensures
        r matches Some((st, h)) ==> stats_cache_bytes(st, h) == b@,
        (exists|st: ScriptStats, h: FullHash| #[trigger] stats_cache_bytes(st, h) == b@) ==> r is Some,
{
    if b.len() != 72 {
        return None;
    }
    let a0 = read_count(b, 0);
    let a1 = read_count(b, 8);
    let a2 = read_count(b, 16);
    let s0 = read_be_u64(b, 24);
    let s1 = read_be_u64(b, 32);
    let h = read_hash(b, 40);
    proof {
        if exists|st: ScriptStats, h: FullHash| #[trigger] stats_cache_bytes(st, h) == b@ {
            let (st, hh) = choose|st: ScriptStats, h: FullHash| #[trigger] stats_cache_bytes(st, h) == b@;
            assert(be_u64(st.tx_count as u64) =~= b@.subrange(0, 8));
            assert(be_u64(st.funded_txo_count as u64) =~= b@.subrange(8, 16));
            assert(be_u64(st.spent_txo_count as u64) =~= b@.subrange(16, 24));
        }
    }
    match (a0, a1, a2) {
        (Some(t), Some(f), Some(sp)) => {
            let st = ScriptStats { tx_count: t, funded_txo_count: f, spent_txo_count: sp, funded_txo_sum: s0, spent_txo_sum: s1 };
            assert(stats_cache_bytes(st, h) =~= b@);
            Some((st, h))
        },
        _ => None,
    }
}

/// The totals and height a stats computation starts from.
pub open spec fn stats_start_of(chain: Seq<HeaderEntry>, cache: Option<(ScriptStats, FullHash)>) -> (ScriptStats, int) {
    match cache {
        Some((st, h)) if entry_by_hash(chain, h@) is Some => (st, entry_by_hash(chain, h@)->Some_0.height + 1),
        _ => (ScriptStats::default_spec(), 0),
    }
}

/// Where a stats computation starts: the cached totals and the height after
/// the cached block if that block is still on the best chain; otherwise (a
/// reorganisation orphaned it, or there is no cache) from scratch at height 0.
pub fn stats_start(headers: &HeaderList, cache: Option<(ScriptStats, FullHash)>) -> (r: (ScriptStats, usize))
    requires
        headers.wf(),
    ensures
        (r.0, r.1 as int) == stats_start_of(headers@, cache),
{
    match cache {
        Some((st, h)) => match headers.height_by_hash(&h) {
            Some(height) => {
                proof {
                    lemma_entry_below_len(headers@, h@);
                }
                let n = headers.len();
                assert(height < n);
                (st, height + 1)
            },
            None => (ScriptStats::default(), 0),
        },
        None => (ScriptStats::default(), 0),
    }
}

/// Whether freshly computed stats are written back to the cache: only when a
/// block was counted and the script has more than the threshold of rows.
pub open spec fn stats_should_cache(st: ScriptStats, lastblock: Option<FullHash>) -> bool {
    lastblock is Some && st.funded_txo_count + st.spent_txo_count > MIN_HISTORY_ITEMS_TO_CACHE
}

/// The cache row to write after a stats computation, if any.
pub fn stats_cache_row(scripthash: &FullHash, st: &ScriptStats, lastblock: &Option<FullHash>) -> (r: Option<DBRow>)
    ensures
        stats_should_cache(*st, *lastblock) ==> (r matches Some(row) && row.key@ == seq![CODE_STATS_CACHE] + scripthash@
            && row.value@ == stats_cache_bytes(*st, lastblock->Some_0)),
        !stats_should_cache(*st, *lastblock) ==> r is None,
{
    match lastblock {
        Some(l) => {
            if st.funded_txo_count as u128 + st.spent_txo_count as u128 > MIN_HISTORY_ITEMS_TO_CACHE as u128 {
                Some(DBRow { key: script_cache_key(CODE_STATS_CACHE, scripthash), value: encode_stats_cache(st, l) })
            } else {
                None
            }
        },
        None => None,
    }
}


/// A cached unspent output: `(txid, vout, block height, value)`; the block is
/// re-read from the header list on load.
pub type CachedUtxo = (FullHash, u32, u32, u64);

pub open spec fn cached_of(e: UtxoEntry) -> CachedUtxo {
    (e.0.txid, e.0.vout, e.1.0.height as u32, e.1.1)
}

/// Keeps only the height of each output's block.
pub fn make_utxo_cache(utxos: &Vec<UtxoEntry>) -> (r: Vec<CachedUtxo>)
    ensures
        r@ == utxos@.map_values(|e: UtxoEntry| cached_of(e)),
{
    let mut r: Vec<CachedUtxo> = Vec::new();
    let mut i: usize = 0;
    while i < utxos.len()
        invariant
            0 <= i <= utxos@.len(),
            r@ == utxos@.subrange(0, i as int).map_values(|e: UtxoEntry| cached_of(e)),
        decreases utxos@.len() - i,
    {
        let (o, (b, v)) = utxos[i];
        r.push((o.txid, o.vout, b.height as u32, v));
        assert(r@ =~= utxos@.subrange(0, i + 1).map_values(|e: UtxoEntry| cached_of(e)));
        i += 1;
    }
    assert(utxos@.subrange(0, utxos@.len() as int) =~= utxos@);
    r
}

/// Every cached height names a block of the header list.
pub open spec fn cache_heights_known(cache: Seq<CachedUtxo>, chain: Seq<HeaderEntry>) -> bool {
    forall|i: int| 0 <= i < cache.len() ==> ((#[trigger] cache[i]).2 as int) < chain.len()
}

pub open spec fn entry_of_cached(c: CachedUtxo, chain: Seq<HeaderEntry>) -> UtxoEntry {
    (OutPoint { txid: c.0, vout: c.1 }, (blockid_of(chain[c.2 as int]), c.3))
}

/// Restores the blocks of cached outputs from the header list.
pub fn from_utxo_cache(utxos_cache: &Vec<CachedUtxo>, headers: &HeaderList) -> (r: Vec<UtxoEntry>)
    requires
        cache_heights_known(utxos_cache@, headers@),
    ensures
        r@ == utxos_cache@.map_values(|c: CachedUtxo| entry_of_cached(c, headers@)),
{
    let mut r: Vec<UtxoEntry> = Vec::new();
    let mut i: usize = 0;
    while i < utxos_cache.len()
        invariant
            0 <= i <= utxos_cache@.len(),
            cache_heights_known(utxos_cache@, headers@),
            r@ == utxos_cache@.subrange(0, i as int).map_values(|c: CachedUtxo| entry_of_cached(c, headers@)),
        decreases utxos_cache@.len() - i,
    {
        let (txid, vout, height, value) = utxos_cache[i];
        assert(utxos_cache@[i as int].2 == height);
        let e = headers.headers[height as usize];
        r.push((OutPoint { txid, vout }, (BlockId { height: e.height, hash: e.hash, time: e.time }, value)));
        assert(r@ =~= utxos_cache@.subrange(0, i + 1).map_values(|c: CachedUtxo| entry_of_cached(c, headers@)));
        i += 1;
    }
    assert(utxos_cache@.subrange(0, utxos_cache@.len() as int) =~= utxos_cache@);
    r
}

pub open spec fn cached_bytes(c: CachedUtxo) -> Seq<u8> {
    c.0@ + be_u32(c.1) + be_u32(c.2) + be_u64(c.3)
}

pub open spec fn cached_list_bytes(cs: Seq<CachedUtxo>, n: int) -> Seq<u8>
    decreases n,
{
    if n <= 0 {
        Seq::empty()
    } else {
        cached_list_bytes(cs, n - 1) + cached_bytes(cs[n - 1])
    }
}

/// The value of a `U` row: the count, the outputs, then the block they were computed up to.
pub open spec fn utxo_cache_bytes(cs: Seq<CachedUtxo>, blockhash: FullHash) -> Seq<u8> {
    be_u32(cs.len() as u32) + cached_list_bytes(cs, cs.len() as int) + blockhash@
}

pub fn encode_utxo_cache(cs: &Vec<CachedUtxo>, blockhash: &FullHash) -> (r: Vec<u8>)
    requires
        cs@.len() <= u32::MAX,
    ensures
        r@ == utxo_cache_bytes(cs@, *blockhash),
{
    let mut v: Vec<u8> = Vec::new();
    push_be_u32(&mut v, cs.len() as u32);
    let ghost base = v@;
    let mut i: usize = 0;
    while i < cs.len()
        invariant
            0 <= i <= cs@.len(),
            v@ == base + cached_list_bytes(cs@, i as int),
        decreases cs@.len() - i,
    {
        let (t, vout, h, val) = cs[i];
        push_hash(&mut v, &t);
        push_be_u32(&mut v, vout);
        push_be_u32(&mut v, h);
        push_be_u64(&mut v, val);
        assert(v@ =~= base + cached_list_bytes(cs@, i + 1));
        i += 1;
    }
    push_hash(&mut v, blockhash);
    v
}

pub proof fn lemma_cached_list_len(cs: Seq<CachedUtxo>, n: int)
    requires
        0 <= n <= cs.len(),
    ensures
        cached_list_bytes(cs, n).len() == 48 * n,
    decreases n,
{
    if n > 0 {
        lemma_cached_list_len(cs, n - 1);
    }
}

/// Decodes the value of a `U` row; it succeeds exactly on the encodings
/// (of at most `u32::MAX` outputs).
pub fn decode_utxo_cache(b: &Vec<u8>) -> (r: Option<(Vec<CachedUtxo>, FullHash)>)
    ensures
        r matches Some((cs, h)) ==> utxo_cache_bytes(cs@, h) == b@,
        (exists|cs: Seq<CachedUtxo>, h: FullHash| cs.len() <= u32::MAX && #[trigger] utxo_cache_bytes(cs, h) == b@) ==> r is Some,
{
    proof {
        if exists|cs: Seq<CachedUtxo>, h: FullHash| cs.len() <= u32::MAX && #[trigger] utxo_cache_bytes(cs, h) == b@ {
            let (cs, h) = choose|cs: Seq<CachedUtxo>, h: FullHash| cs.len() <= u32::MAX && #[trigger] utxo_cache_bytes(cs, h) == b@;
            lemma_cached_list_len(cs, cs.len() as int);
            assert(b@.len() == 36 + 48 * cs.len());
            assert(b@.subrange(0, 4) =~= be_u32(cs.len() as u32));
            assert((b@.len() - 36) / 48 == cs.len() && (b@.len() - 36) % 48 == 0) by (nonlinear_arith)
                requires
                    b@.len() == 36 + 48 * cs.len(),
            ;
        }
    }
    if b.len() < 36 {
        return None;
    }
    let count = read_be_u32(b, 0);
    proof {
        if exists|cs: Seq<CachedUtxo>, h: FullHash| cs.len() <= u32::MAX && #[trigger] utxo_cache_bytes(cs, h) == b@ {
            let (cs, h) = choose|cs: Seq<CachedUtxo>, h: FullHash| cs.len() <= u32::MAX && #[trigger] utxo_cache_bytes(cs, h) == b@;
            assert(b@.subrange(0, 4) =~= be_u32(cs.len() as u32));
            crate::codec::lemma_be_u32_injective(count, cs.len() as u32);
        }
    }
    if (b.len() - 36) / 48 != count as usize || (b.len() - 36) % 48 != 0 {
        return None;
    }
    assert(b@.len() - 36 == 48 * (count as int)) by (nonlinear_arith)
        requires
            (b@.len() - 36) / 48 == count as int,
            (b@.len() - 36) % 48 == 0,
            b@.len() >= 36,
    ;
    let mut cs: Vec<CachedUtxo> = Vec::new();
    let mut i: usize = 0;
    while i < count as usize
        invariant
            0 <= i <= count,
            b@.len() == 36 + 48 * count,
            b@.len() <= usize::MAX,
            cs@.len() == i,
            b@.subrange(4, 4 + 48 * i) == cached_list_bytes(cs@, i as int),
        decreases count - i,
    {
        assert(48 * i + 48 <= 48 * (count as int)) by (nonlinear_arith)
            requires
                i < count,
        ;
        let at = 4 + 48 * i;
        let t = read_hash(b, at);
        let vout = read_be_u32(b, at + 32);
        let h = read_be_u32(b, at + 36);
        let val = read_be_u64(b, at + 40);
        let ghost prev = cs@;
        cs.push((t, vout, h, val));
        proof {
            assert(cs@.subrange(0, i as int) =~= prev);
            assert forall|n: int| 0 <= n <= i implies cached_list_bytes(cs@, n) == cached_list_bytes(prev, n) by {
                lemma_cached_list_prefix_eq(prev, cs@, n);
            }
            assert(b@.subrange(4, 4 + 48 * (i + 1)) =~= b@.subrange(4, 4 + 48 * i) + b@.subrange(at as int, at + 48));
            assert(b@.subrange(at as int, at + 48) =~= b@.subrange(at as int, at + 32) + b@.subrange(at + 32, at + 36)
                + b@.subrange(at + 36, at + 40) + b@.subrange(at + 40, at + 48));
            assert(b@.subrange(at as int, at + 48) =~= cached_bytes((t, vout, h, val)));
            assert(48 * (i + 1) == 48 * i + 48);
        }
        i += 1;
    }
    let h = read_hash(b, b.len() - 32);
    proof {
        lemma_cached_list_len(cs@, cs@.len() as int);
        assert(be_u32(count) == b@.subrange(0, 4));
        assert(b@ =~= b@.subrange(0, 4) + b@.subrange(4, 4 + 48 * count) + b@.subrange(b@.len() - 32, b@.len() as int));
        assert(cs@.len() as u32 == count);
    }
    Some((cs, h))
}

/// Lists agreeing on their first `n` items have the same first `n` encodings.
pub proof fn lemma_cached_list_prefix_eq(a: Seq<CachedUtxo>, b: Seq<CachedUtxo>, n: int)
    requires
        0 <= n <= a.len(),
        n <= b.len(),
        forall|j: int| 0 <= j < n ==> a[j] == b[j],
    ensures
        cached_list_bytes(a, n) == cached_list_bytes(b, n),
    decreases n,
{
    if n > 0 {
        lemma_cached_list_prefix_eq(a, b, n - 1);
    }
}

/// The set, height and cache flag a UTXO computation starts from.
pub open spec fn utxo_start_of(chain: Seq<HeaderEntry>, cache: Option<(Vec<CachedUtxo>, FullHash)>) -> (Seq<UtxoEntry>, int, bool) {
    match cache {
        Some((cs, h)) if entry_by_hash(chain, h@) is Some => (
            cs@.map_values(|c: CachedUtxo| entry_of_cached(c, chain)),
            entry_by_hash(chain, h@)->Some_0.height + 1,
            true,
        ),
        _ => (Seq::empty(), 0, false),
    }
}

/// Where a UTXO computation starts: the cached set and the height after the
/// cached block if that block is still on the best chain; otherwise from
/// scratch (empty, height 0). The flag says whether a valid cache was found.
pub fn utxo_start(headers: &HeaderList, cache: Option<(Vec<CachedUtxo>, FullHash)>) -> (r: (Vec<UtxoEntry>, usize, bool))
    requires
        headers.wf(),
        match cache {
            Some((cs, h)) => entry_by_hash(headers@, h@) is Some ==> cache_heights_known(cs@, headers@),
            None => true,
        },
    ensures
        (r.0@, r.1 as int, r.2) == utxo_start_of(headers@, cache),
{
    match cache {
        Some((cs, h)) => match headers.height_by_hash(&h) {
            Some(height) => {
                proof {
                    lemma_entry_below_len(headers@, h@);
                }
                let n = headers.len();
                assert(height < n);
                (from_utxo_cache(&cs, headers), height + 1, true)
            },
            None => {
                let v: Vec<UtxoEntry> = Vec::new();
                assert(v@ =~= Seq::<UtxoEntry>::empty());
                (v, 0, false)
            },
        },
        None => {
            let v: Vec<UtxoEntry> = Vec::new();
            assert(v@ =~= Seq::<UtxoEntry>::empty());
            (v, 0, false)
        },
    }
}

/// Whether a computed UTXO set is written back: when a block was applied and
/// either a cache existed or at least the threshold of rows was processed.
pub open spec fn utxo_should_cache(lastblock: Option<FullHash>, had_cache: bool, processed_items: usize) -> bool {
    lastblock is Some && (had_cache || processed_items >= MIN_HISTORY_ITEMS_TO_CACHE)
}

/// The cache row to write after a UTXO computation, if any.
pub fn utxo_cache_row(
    scripthash: &FullHash,
    utxos: &Vec<UtxoEntry>,
    lastblock: &Option<FullHash>,
    had_cache: bool,
    processed_items: usize,
) -> (r: Option<DBRow>)
    requires
        utxos@.len() <= u32::MAX,
    ensures
        utxo_should_cache(*lastblock, had_cache, processed_items) ==> (r matches Some(row) && row.key@
            == seq![CODE_UTXO_CACHE] + scripthash@ && row.value@ == utxo_cache_bytes(
            utxos@.map_values(|e: UtxoEntry| cached_of(e)),
            lastblock->Some_0,
        )),
        !utxo_should_cache(*lastblock, had_cache, processed_items) ==> r is None,
{
    match lastblock {
        Some(l) => {
            if had_cache || processed_items >= MIN_HISTORY_ITEMS_TO_CACHE {
                let cs = make_utxo_cache(utxos);
                Some(DBRow { key: script_cache_key(CODE_UTXO_CACHE, scripthash), value: encode_utxo_cache(&cs, l) })
            } else {
                None
            }
        },
        None => None,
    }
}

/// An unspent output of a script, as a query returns it.
#[derive(Clone, Copy, Debug)]
pub struct Utxo {
    pub txid: FullHash,
    pub vout: u32,
    pub confirmed: Option<BlockId>,
    pub value: u64,
}

impl Utxo {
    /// The outpoint of this output.
    pub fn outpoint(&self) -> (r: OutPoint)
        ensures
            r == (OutPoint { txid: self.txid, vout: self.vout }),
    {
        OutPoint { txid: self.txid, vout: self.vout }
    }
}

pub open spec fn utxo_of(e: UtxoEntry) -> Utxo {
    Utxo { txid: e.0.txid, vout: e.0.vout, confirmed: Some(e.1.0), value: e.1.1 }
}

/// The outputs of a UTXO set as query results.
pub fn utxo_list(utxos: &Vec<UtxoEntry>) -> (r: Vec<Utxo>)
    ensures
        r@ == utxos@.map_values(|e: UtxoEntry| utxo_of(e)),
{
    let mut r: Vec<Utxo> = Vec::new();
    let mut i: usize = 0;
    while i < utxos.len()
        invariant
            0 <= i <= utxos@.len(),
            r@ == utxos@.subrange(0, i as int).map_values(|e: UtxoEntry| utxo_of(e)),
        decreases utxos@.len() - i,
    {
        let (o, (b, v)) = utxos[i];
        r.push(Utxo { txid: o.txid, vout: o.vout, confirmed: Some(b), value: v });
        assert(r@ =~= utxos@.subrange(0, i + 1).map_values(|e: UtxoEntry| utxo_of(e)));
        i += 1;
    }
    assert(utxos@.subrange(0, utxos@.len() as int) =~= utxos@);
    r
}


/// The block hashes of done markers among scanned rows (others are skipped).
pub open spec fn done_hashes(rows: Seq<DBRow>, n: int) -> Seq<Seq<u8>>
    decreases n,
{
    if n <= 0 {
        Seq::empty()
    } else {
        let k = rows[n - 1].key@;
        done_hashes(rows, n - 1) + if k.len() == 33 && k[0] == CODE_DONE {
            seq![k.subrange(1, 33)]
        } else {
            Seq::empty()
        }
    }
}

/// The set of blocks a namespace has completed, from its scanned `D` rows.
pub fn load_blockhashes(rows: &Vec<DBRow>) -> (r: Vec<FullHash>)
    ensures
        hash_views(r@) == done_hashes(rows@, rows@.len() as int),
{
    let mut r: Vec<FullHash> = Vec::new();
    let mut i: usize = 0;
    assert(hash_views(r@) =~= Seq::empty());
    while i < rows.len()
        invariant
            0 <= i <= rows@.len(),
            hash_views(r@) == done_hashes(rows@, i as int),
        decreases rows@.len() - i,
    {
        let ghost prev = r@;
        let ghost k = rows@[i as int].key@;
        match block_key_hash(CODE_DONE, &rows[i].key) {
            Some(h) => {
                r.push(h);
                assert(k.subrange(1, 33) =~= h@);
                assert(hash_views(r@) =~= hash_views(prev).push(h@));
            },
            None => {
                proof {
                    if k.len() == 33 && k[0] == CODE_DONE {
                        lemma_hash_exists(k.subrange(1, 33));
                        let th: FullHash = choose|th: FullHash| th@ == k.subrange(1, 33);
                        assert(block_key_bytes(CODE_DONE, th) =~= k);
                    }
                }
            },
        }
        assert(hash_views(r@) =~= done_hashes(rows@, i + 1));
        i += 1;
    }
    r
}

/// The address strings (as bytes) of the first `limit` scanned address-search rows.
pub open spec fn address_results(rows: Seq<DBRow>, limit: usize) -> Seq<Seq<u8>> {
    let n = if rows.len() <= limit { rows.len() as int } else { limit as int };
    Seq::new(n as nat, |i: int| rows[i].key@.subrange(1, rows[i].key@.len() as int))
}

/// Address-prefix search over rows scanned from `a{prefix}`: the keys without
/// their code byte, at most `limit` of them.
pub fn address_search(rows: &Vec<DBRow>, limit: usize) -> (r: Vec<Vec<u8>>)
    requires
        forall|i: int| 0 <= i < rows@.len() ==> (#[trigger] rows@[i]).key@.len() >= 1,
    ensures
        r@.map_values(|a: Vec<u8>| a@) == address_results(rows@, limit),
{
    let mut r: Vec<Vec<u8>> = Vec::new();
    let mut i: usize = 0;
    while i < rows.len() && i < limit
        invariant
            0 <= i <= rows@.len(),
            i <= limit,
            forall|i: int| 0 <= i < rows@.len() ==> (#[trigger] rows@[i]).key@.len() >= 1,
            r@.map_values(|a: Vec<u8>| a@) == Seq::new(i as nat, |j: int| rows@[j].key@.subrange(1, rows@[j].key@.len() as int)),
        decreases rows@.len() - i,
    {
        let key = &rows[i].key;
        let mut a: Vec<u8> = Vec::new();
        let mut j: usize = 1;
        while j < key.len()
            invariant
                1 <= j <= key@.len(),
                key@ == rows@[i as int].key@,
                a@ == key@.subrange(1, j as int),
            decreases key@.len() - j,
        {
            a.push(key[j]);
            assert(a@ =~= key@.subrange(1, j + 1));
            j += 1;
        }
        let ghost prev = r@;
        r.push(a);
        assert(r@.map_values(|a: Vec<u8>| a@) =~= prev.map_values(|a: Vec<u8>| a@).push(rows@[i as int].key@.subrange(1, rows@[i as int].key@.len() as int)));
        assert(r@.map_values(|a: Vec<u8>| a@) =~= Seq::new((i + 1) as nat, |j: int| rows@[j].key@.subrange(1, rows@[j].key@.len() as int)));
        i += 1;
    }
    assert(i as int == if rows@.len() <= limit { rows@.len() as int } else { limit as int });
    assert(r@.map_values(|a: Vec<u8>| a@) =~= address_results(rows@, limit));
    r
}


/// Splits bytes into `width`-byte pieces; `None` when the length is not a multiple.
pub open spec fn chunks(b: Seq<u8>, width: nat) -> Seq<Seq<u8>> {
    Seq::new(b.len() / width, |i: int| b.subrange(i * width, i * width + width))
}

fn split_chunks(b: &Vec<u8>, width: usize) -> (r: Option<Vec<Vec<u8>>>)
    requires
        width > 0,
    ensures
        (b@.len() as int) % (width as int) != 0 ==> r is None,
        (b@.len() as int) % (width as int) == 0 ==> (r matches Some(v) && v@.map_values(|c: Vec<u8>| c@) == chunks(b@, width as nat)),
        r matches Some(v) ==> forall|k: int| 0 <= k < v@.len() ==> (#[trigger] v@[k])@.len() == width,
{
    if b.len() % width != 0 {
        return None;
    }
    let n = b.len() / width;
    let mut v: Vec<Vec<u8>> = Vec::new();
    let mut i: usize = 0;
    while i < n
        invariant
            0 <= i <= n,
            width > 0,
            n == (b@.len() as int) / (width as int),
            b@.len() <= usize::MAX,
            v@.map_values(|c: Vec<u8>| c@) == chunks(b@, width as nat).subrange(0, i as int),
            forall|k: int| 0 <= k < v@.len() ==> (#[trigger] v@[k])@.len() == width,
        decreases n - i,
    {
        assert(i * width + width <= n * width) by (nonlinear_arith)
            requires
                i < n,
        ;
        assert(n * width <= b@.len()) by (nonlinear_arith)
            requires
                n == (b@.len() as int) / (width as int),
                width > 0,
        ;
        let start = i * width;
        let mut c: Vec<u8> = Vec::new();
        let mut j: usize = 0;
        while j < width
            invariant
                0 <= j <= width,
                start + width <= b@.len(),
                b@.len() <= usize::MAX,
                c@ == b@.subrange(start as int, start + j),
            decreases width - j,
        {
            c.push(b[start + j]);
            assert(c@ =~= b@.subrange(start as int, start + j + 1));
            j += 1;
        }
        assert(chunks(b@, width as nat)[i as int] == b@.subrange(i * width, i * width + width));
        assert(c@ == chunks(b@, width as nat)[i as int]);
        let ghost prev = v@;
        let ghost cv = c@;
        v.push(c);
        assert(v@.map_values(|c: Vec<u8>| c@) =~= prev.map_values(|c: Vec<u8>| c@).push(cv));
        assert(chunks(b@, width as nat).subrange(0, i + 1) =~= chunks(b@, width as nat).subrange(0, i as int).push(chunks(b@, width as nat)[i as int]));
        assert(v@.map_values(|c: Vec<u8>| c@) =~= chunks(b@, width as nat).subrange(0, i + 1));
        i += 1;
    }
    assert(chunks(b@, width as nat).subrange(0, n as int) =~= chunks(b@, width as nat));
    Some(v)
}

/// The txids of a block from its `X` row (32 bytes each).
pub fn block_txids(value: &Vec<u8>) -> (r: Option<Vec<FullHash>>)
    ensures
        value@.len() % 32 != 0 ==> r is None,
        value@.len() % 32 == 0 ==> (r matches Some(v) && hash_views(v@) == chunks(value@, 32)),
{
    match split_chunks(value, 32) {
        Some(pieces) => {
            let mut r: Vec<FullHash> = Vec::new();
            let mut i: usize = 0;
            while i < pieces.len()
                invariant
                    0 <= i <= pieces@.len(),
                    pieces@.map_values(|c: Vec<u8>| c@) == chunks(value@, 32),
                    forall|k: int| 0 <= k < pieces@.len() ==> (#[trigger] pieces@[k])@.len() == 32,
                    hash_views(r@) == chunks(value@, 32).subrange(0, i as int),
                decreases pieces@.len() - i,
            {
                assert(pieces@.map_values(|c: Vec<u8>| c@)[i as int] == pieces@[i as int]@);
                assert(pieces@[i as int]@ == chunks(value@, 32)[i as int]);
                let h = read_hash(&pieces[i], 0);
                assert(h@ =~= pieces@[i as int]@);
                let ghost prev = r@;
                r.push(h);
                assert(hash_views(r@) =~= hash_views(prev).push(h@));
                assert(chunks(value@, 32).subrange(0, i + 1) =~= chunks(value@, 32).subrange(0, i as int).push(chunks(value@, 32)[i as int]));
                assert(hash_views(r@) =~= chunks(value@, 32).subrange(0, i + 1));
                i += 1;
            }
            assert(chunks(value@, 32).subrange(0, pieces@.len() as int) =~= chunks(value@, 32));
            Some(r)
        },
        None => None,
    }
}

/// The tweaks of a block from its `W` row (33 bytes each).
pub fn block_tweaks(value: &Vec<u8>) -> (r: Option<Vec<Vec<u8>>>)
    ensures
        value@.len() % 33 != 0 ==> r is None,
        value@.len() % 33 == 0 ==> (r matches Some(v) && v@.map_values(|c: Vec<u8>| c@) == chunks(value@, 33)),
{
    split_chunks(value, 33)
}

/// Transaction count, size and weight of a block.
#[derive(Clone, Copy, Debug)]
pub struct BlockMeta {
    pub tx_count: u32,
    pub size: u32,
    pub weight: u32,
}

/// The meta of a block from its `M` row; `None` unless it is 12 bytes.
pub fn block_meta(value: &Vec<u8>) -> (r: Option<BlockMeta>)
    ensures
        value@.len() != 12 ==> r is None,
        value@.len() == 12 ==> (r matches Some(m) && be_u32(m.tx_count) + be_u32(m.size) + be_u32(m.weight) == value@),
{
    if value.len() != 12 {
        return None;
    }
    let m = BlockMeta { tx_count: read_be_u32(value, 0), size: read_be_u32(value, 4), weight: read_be_u32(value, 8) };
    assert(be_u32(m.tx_count) + be_u32(m.size) + be_u32(m.weight) =~= value@);
    Some(m)
}

} // verus!
