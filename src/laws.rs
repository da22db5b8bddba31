//! Properties that relate several of the library's functions, stated over
//! the specifications their contracts use.
use vstd::prelude::*;
use crate::types::{FullHash, HeaderEntry, BlockEntry, OutPoint, TxOut};
use crate::codec::{TxHistoryKey, TxHistoryInfo, history_key_bytes, be_u32, info_funded_outpoint};
use crate::headers::{is_chain, is_run, connects, applied, lemma_run_heights};
use crate::indexer::{
    Rows, IndexerConfig, add_batch_rows, add_block_rows, index_batch_rows, index_block_rows,
    done_row, not_done, not_done_pred, in_set, sp_start,
};
use crate::query::{
    StatsAcc, HistoryEntry, UtxoEntry, ScriptStats, CachedUtxo, stats_fold, stats_step, acc_of,
    counts, utxo_fold, utxo_apply, find_outpoint, lemma_find_outpoint_from,
    lemma_utxo_fold_fails_on, stats_start_of, utxo_start_of,
};
use crate::headers::{entry_by_hash, on_chain, position_of, lemma_pos_from};
use crate::types::{BlockId, Transaction, has_prevout_spec};
use crate::codec::{block_key_bytes, conf_key_bytes, tx_key_bytes, CODE_HEADER};
use crate::indexer::{add_txs_rows, add_tx_rows};
use crate::codec::{TxEdgeKey, edge_key_bytes, be_u16};
use crate::indexer::{index_tx_rows, funding_rows, spending_rows};
use crate::query::first_spender;
use crate::external::{uniq, hash_views};
use crate::query::{confirmed_list, conf_lookup, first_pos_from, after_cursor, take, history_page_spec};

verus! {

proof fn lemma_add_batch_split(bs: Seq<BlockEntry>, light_mode: bool, i: int, n: int)
    requires
        0 <= i < n <= bs.len(),
    ensures
        exists|pre: Rows, post: Rows| add_batch_rows(bs, light_mode, n) == pre + add_block_rows(bs[i], light_mode) + post,
    decreases n,
{
    if n == i + 1 {
        let pre = add_batch_rows(bs, light_mode, i);
        assert(add_batch_rows(bs, light_mode, n) == pre + add_block_rows(bs[i], light_mode) + Seq::<(Seq<u8>, Seq<u8>)>::empty());
    } else {
        lemma_add_batch_split(bs, light_mode, i, n - 1);
        let (pre, post) = choose|pre: Rows, post: Rows| add_batch_rows(bs, light_mode, n - 1) == pre + add_block_rows(bs[i], light_mode) + post;
        assert(add_batch_rows(bs, light_mode, n) =~= pre + add_block_rows(bs[i], light_mode) + (post + add_block_rows(bs[n - 1], light_mode)));
    }
}

/// A completion marker comes with its block's data (txstore): in the batch
/// written for a run of blocks, each block's rows stand together, and its
/// done marker is the last of them, so no marker reaches the store without
/// the rows it vouches for.
pub proof fn lemma_add_done_marker_follows_data(bs: Seq<BlockEntry>, light_mode: bool, i: int)
    requires
        0 <= i < bs.len(),
    ensures
        exists|pre: Rows, post: Rows| add_batch_rows(bs, light_mode, bs.len() as int) == pre + add_block_rows(bs[i], light_mode) + post,
        add_block_rows(bs[i], light_mode).last() == done_row(bs[i].entry.hash),
        add_batch_rows(bs, light_mode, bs.len() as int).contains(done_row(bs[i].entry.hash)),
        add_batch_rows(bs, light_mode, bs.len() as int).contains((block_key_bytes(CODE_HEADER, bs[i].entry.hash), bs[i].header@)),
        forall|t: int| 0 <= t < bs[i].txdata@.len() ==> add_batch_rows(bs, light_mode, bs.len() as int).contains(
            (conf_key_bytes(#[trigger] bs[i].txdata@[t].txid, bs[i].entry.hash), Seq::<u8>::empty()),
        ),
        !light_mode ==> forall|t: int| 0 <= t < bs[i].txdata@.len() ==> add_batch_rows(bs, light_mode, bs.len() as int).contains(
            (tx_key_bytes(#[trigger] bs[i].txdata@[t].txid), bs[i].txdata@[t].raw@),
        ),
{
    lemma_add_batch_split(bs, light_mode, i, bs.len() as int);
    let all = add_batch_rows(bs, light_mode, bs.len() as int);
    let (pre, post) = choose|pre: Rows, post: Rows| all == pre + add_block_rows(bs[i], light_mode) + post;
    let b = bs[i];
    let blk = add_block_rows(b, light_mode);
    let txr = add_txs_rows(b.txdata@, b.entry.hash, light_mode, b.txdata@.len() as int);
    let k = blk.len() - 1;
    assert(all[pre.len() + k] == blk[k]);
    assert(all[pre.len() + k - 1] == blk[k - 1]);
    assert forall|t: int| 0 <= t < b.txdata@.len() implies all.contains(
        (conf_key_bytes(#[trigger] b.txdata@[t].txid, b.entry.hash), Seq::<u8>::empty()),
    ) && (!light_mode ==> all.contains((tx_key_bytes(b.txdata@[t].txid), b.txdata@[t].raw@))) by {
        lemma_add_txs_has_tx(b.txdata@, b.entry.hash, light_mode, t, b.txdata@.len() as int);
        let j = choose|j: int| 0 <= j < txr.len() && #[trigger] txr[j] == (conf_key_bytes(b.txdata@[t].txid, b.entry.hash), Seq::<u8>::empty())
            && (!light_mode ==> j + 1 < txr.len() && txr[j + 1] == (tx_key_bytes(b.txdata@[t].txid), b.txdata@[t].raw@));
        assert(all[pre.len() + j] == txr[j]);
        if !light_mode {
            assert(all[pre.len() + j + 1] == txr[j + 1]);
        }
    }
}

proof fn lemma_add_txs_has_tx(txs: Seq<Transaction>, h: FullHash, light_mode: bool, t: int, n: int)
    requires
        0 <= t < n <= txs.len(),
    ensures
        exists|j: int| 0 <= j < add_txs_rows(txs, h, light_mode, n).len() && #[trigger] add_txs_rows(txs, h, light_mode, n)[j] == (conf_key_bytes(txs[t].txid, h), Seq::<u8>::empty())
            && (!light_mode ==> j + 1 < add_txs_rows(txs, h, light_mode, n).len() && add_txs_rows(txs, h, light_mode, n)[j + 1] == (tx_key_bytes(txs[t].txid), txs[t].raw@)),
    decreases n,
{
    let prev = add_txs_rows(txs, h, light_mode, n - 1);
    let cur = add_txs_rows(txs, h, light_mode, n);
    if t < n - 1 {
        lemma_add_txs_has_tx(txs, h, light_mode, t, n - 1);
        let j = choose|j: int| 0 <= j < prev.len() && #[trigger] prev[j] == (conf_key_bytes(txs[t].txid, h), Seq::<u8>::empty())
            && (!light_mode ==> j + 1 < prev.len() && prev[j + 1] == (tx_key_bytes(txs[t].txid), txs[t].raw@));
        assert(cur[j] == prev[j]);
        if !light_mode {
            assert(cur[j + 1] == prev[j + 1]);
        }
    } else {
        let j = prev.len() as int;
        assert(cur[j] == add_tx_rows(txs[t], h, light_mode)[0]);
        if !light_mode {
            assert(cur[j + 1] == add_tx_rows(txs[t], h, light_mode)[1]);
        }
    }
}

proof fn lemma_index_batch_split(bs: Seq<BlockEntry>, map: Seq<(OutPoint, TxOut)>, iconfig: IndexerConfig, i: int, n: int)
    requires
        0 <= i < n <= bs.len(),
    ensures
        exists|pre: Rows, post: Rows| index_batch_rows(bs, map, iconfig, n) == pre + index_block_rows(bs[i], map, iconfig) + post,
    decreases n,
{
    if n == i + 1 {
        let pre = index_batch_rows(bs, map, iconfig, i);
        assert(index_batch_rows(bs, map, iconfig, n) == pre + index_block_rows(bs[i], map, iconfig) + Seq::<(Seq<u8>, Seq<u8>)>::empty());
    } else {
        lemma_index_batch_split(bs, map, iconfig, i, n - 1);
        let (pre, post) = choose|pre: Rows, post: Rows| index_batch_rows(bs, map, iconfig, n - 1) == pre + index_block_rows(bs[i], map, iconfig) + post;
        assert(index_batch_rows(bs, map, iconfig, n) =~= pre + index_block_rows(bs[i], map, iconfig) + (post + index_block_rows(bs[n - 1], map, iconfig)));
    }
}

/// A completion marker comes with its block's data (history): in the batch
/// written for a run of blocks, each block's history and edge rows stand
/// together, ending with its done marker.
pub proof fn lemma_index_done_marker_follows_data(bs: Seq<BlockEntry>, map: Seq<(OutPoint, TxOut)>, iconfig: IndexerConfig, i: int)
    requires
        0 <= i < bs.len(),
    ensures
        exists|pre: Rows, post: Rows| index_batch_rows(bs, map, iconfig, bs.len() as int) == pre + index_block_rows(bs[i], map, iconfig) + post,
        index_block_rows(bs[i], map, iconfig).last() == done_row(bs[i].entry.hash),
        index_batch_rows(bs, map, iconfig, bs.len() as int).contains(done_row(bs[i].entry.hash)),
{
    lemma_index_batch_split(bs, map, iconfig, i, bs.len() as int);
    let all = index_batch_rows(bs, map, iconfig, bs.len() as int);
    let (pre, post) = choose|pre: Rows, post: Rows| all == pre + index_block_rows(bs[i], map, iconfig) + post;
    let blk = index_block_rows(bs[i], map, iconfig);
    assert(all[pre.len() + blk.len() - 1] == blk[blk.len() - 1]);
}

/// Tip implies completion: once the stages have processed an update's work
/// lists, every new header's block has been added and indexed, and from the
/// tweak start height on it has been tweaked: each is either done already or
/// in the stage's list.
pub proof fn lemma_update_covers_new_headers(
    hs: Seq<HeaderEntry>,
    added: Seq<FullHash>,
    indexed: Seq<FullHash>,
    tweaked: Seq<FullHash>,
    sp_begin_height: Option<usize>,
    e: HeaderEntry,
)
    requires
        hs.contains(e),
    ensures
        in_set(added, e.hash@) || not_done(hs, added, 0).contains(e),
        in_set(indexed, e.hash@) || not_done(hs, indexed, 0).contains(e),
        e.height >= sp_start(sp_begin_height) ==> in_set(tweaked, e.hash@) || not_done(hs, tweaked, sp_start(sp_begin_height)).contains(e),
{
    if !in_set(added, e.hash@) {
        hs.lemma_filter_contains_rev(not_done_pred(added, 0), e);
    }
    if !in_set(indexed, e.hash@) {
        hs.lemma_filter_contains_rev(not_done_pred(indexed, 0), e);
    }
    let start = sp_start(sp_begin_height);
    if !in_set(tweaked, e.hash@) && e.height >= start {
        hs.lemma_filter_contains_rev(not_done_pred(tweaked, start), e);
    }
}

/// The header list stays a best chain: laying a linked run of headers over a
/// chain (dropping the suffix it replaces) gives a chain again, with heights
/// 0 to `len - 1` each linked to the one below, whose tip is the run's last header.
pub proof fn lemma_apply_keeps_chain(s: Seq<HeaderEntry>, run: Seq<HeaderEntry>)
    requires
        is_chain(s),
        is_run(run),
        connects(s, run),
    ensures
        is_chain(applied(s, run)),
        run.len() > 0 ==> applied(s, run).last() == run.last(),
{
    if run.len() > 0 {
        let start = run[0].height as int;
        let t = applied(s, run);
        lemma_run_heights(run, run.len() as int);
        assert forall|k: int| 0 <= k < t.len() implies (#[trigger] t[k]).height == k by {
            if k >= start {
                assert(t[k] == run[k - start]);
            } else {
                assert(t[k] == s[k]);
            }
        }
        assert forall|k: int| 0 < k < t.len() implies (#[trigger] t[k].prev)@ == t[k - 1].hash@ by {
            if k > start {
                assert(t[k] == run[k - start]);
                assert(t[k - 1] == run[k - 1 - start]);
            } else if k == start {
                assert(t[k] == run[0]);
                assert(t[k - 1] == s[k - 1]);
            } else {
                assert(t[k] == s[k]);
                assert(t[k - 1] == s[k - 1]);
            }
        }
    }
}

/// Stats are monotone along the chain: the history rows up to a lower height
/// are a prefix of those up to a higher one, and no total computed over a
/// prefix exceeds the total over a longer prefix.
pub proof fn lemma_stats_monotone(a: StatsAcc, rows: Seq<HistoryEntry>, i: int, n: int)
    requires
        0 <= i <= n <= rows.len(),
    ensures
        stats_fold(a, rows, i).tx_count <= stats_fold(a, rows, n).tx_count,
        stats_fold(a, rows, i).funded_count <= stats_fold(a, rows, n).funded_count,
        stats_fold(a, rows, i).spent_count <= stats_fold(a, rows, n).spent_count,
        stats_fold(a, rows, i).funded_sum <= stats_fold(a, rows, n).funded_sum,
        stats_fold(a, rows, i).spent_sum <= stats_fold(a, rows, n).spent_sum,
    decreases n - i,
{
    if i < n {
        lemma_stats_monotone(a, rows, i, n - 1);
    }
}

/// Every row funds an output not yet in the set, or spends one that is.
pub open spec fn history_consistent(rows: Seq<HistoryEntry>, limit: usize) -> bool {
    forall|j: int| 0 <= j < rows.len() ==> {
        let m = (#[trigger] utxo_fold(Seq::empty(), rows, limit, j))->Some_0.0;
        let o = info_funded_outpoint(rows[j].0.txinfo);
        if rows[j].0.txinfo is Funding {
            find_outpoint(m, o) is None
        } else {
            find_outpoint(m, o) is Some
        }
    }
}

proof fn lemma_conservation_upto(rows: Seq<HistoryEntry>, limit: usize, n: int)
    requires
        0 <= n <= rows.len(),
        utxo_fold(Seq::empty(), rows, limit, rows.len() as int) is Some,
        forall|j: int| 0 <= j < rows.len() ==> counts(#[trigger] rows[j]),
        history_consistent(rows, limit),
    ensures
        utxo_fold(Seq::empty(), rows, limit, n) is Some,
        stats_fold(acc_of(ScriptStats::default_spec()), rows, n).funded_count - stats_fold(
            acc_of(ScriptStats::default_spec()),
            rows,
            n,
        ).spent_count == utxo_fold(Seq::empty(), rows, limit, n)->Some_0.0.len(),
    decreases n,
{
    if utxo_fold(Seq::empty(), rows, limit, n) is None {
        lemma_utxo_fold_fails_on(Seq::empty(), rows, limit, n, rows.len() as int);
    }
    if n > 0 {
        lemma_conservation_upto(rows, limit, n - 1);
        let j = n - 1;
        let m = utxo_fold(Seq::empty(), rows, limit, j)->Some_0.0;
        let e = rows[j];
        assert(counts(e));
        let b = e.1->Some_0;
        let o = info_funded_outpoint(e.0.txinfo);
        lemma_find_outpoint_from(m, o, 0);
        assert(utxo_fold(Seq::empty(), rows, limit, n)->Some_0.0 == utxo_apply(m, e.0, b));
    }
}

/// UTXO conservation: over a script's confirmed history, when every row funds
/// a new output or spends a held one and the set never outgrows the limit,
/// funded outputs minus spent outputs is the size of the UTXO set.
pub proof fn lemma_utxo_conservation(rows: Seq<HistoryEntry>, limit: usize)
    requires
        utxo_fold(Seq::empty(), rows, limit, rows.len() as int) is Some,
        forall|j: int| 0 <= j < rows.len() ==> counts(#[trigger] rows[j]),
        history_consistent(rows, limit),
    ensures
        stats_fold(acc_of(ScriptStats::default_spec()), rows, rows.len() as int).funded_count - stats_fold(
            acc_of(ScriptStats::default_spec()),
            rows,
            rows.len() as int,
        ).spent_count == utxo_fold(Seq::empty(), rows, limit, rows.len() as int)->Some_0.0.len(),
{
    lemma_conservation_upto(rows, limit, rows.len() as int);
}

/// Reorg invalidation: a cache whose block is no longer on the best chain is
/// not used; the computation starts exactly as without a cache.
pub proof fn lemma_orphaned_cache_unused(
    chain: Seq<HeaderEntry>,
    stats: ScriptStats,
    utxos: Vec<CachedUtxo>,
    tip: FullHash,
)
    requires
        entry_by_hash(chain, tip@) is None,
    ensures
        stats_start_of(chain, Some((stats, tip))) == stats_start_of(chain, None),
        utxo_start_of(chain, Some((utxos, tip))) == utxo_start_of(chain, None),
{
}

/// Lexicographic order of byte strings, as the store orders keys.
pub open spec fn lex_lt(a: Seq<u8>, b: Seq<u8>) -> bool {
    exists|i: int|
        0 <= i <= a.len() && i <= b.len() && #[trigger] a.subrange(0, i) == b.subrange(0, i) && ((i < a.len() && i
            < b.len() && a[i] < b[i]) || (i == a.len() && i < b.len()))
}

proof fn lemma_be_u32_lt(x: u32, y: u32)
    requires
        x < y,
    ensures
        exists|d: int| 0 <= d < 4 && #[trigger] be_u32(x).subrange(0, d) == be_u32(y).subrange(0, d) && be_u32(x)[d] < be_u32(y)[d],
{
    let a0 = ((x >> 24u32) & 0xffu32) as u8;
    let a1 = ((x >> 16u32) & 0xffu32) as u8;
    let a2 = ((x >> 8u32) & 0xffu32) as u8;
    let a3 = (x & 0xffu32) as u8;
    let b0 = ((y >> 24u32) & 0xffu32) as u8;
    let b1 = ((y >> 16u32) & 0xffu32) as u8;
    let b2 = ((y >> 8u32) & 0xffu32) as u8;
    let b3 = (y & 0xffu32) as u8;
    assert(a0 < b0 || (a0 == b0 && a1 < b1) || (a0 == b0 && a1 == b1 && a2 < b2) || (a0 == b0 && a1 == b1 && a2 == b2 && a3 < b3)) by (bit_vector)
        requires
            x < y,
            a0 == ((x >> 24u32) & 0xffu32) as u8,
            a1 == ((x >> 16u32) & 0xffu32) as u8,
            a2 == ((x >> 8u32) & 0xffu32) as u8,
            a3 == (x & 0xffu32) as u8,
            b0 == ((y >> 24u32) & 0xffu32) as u8,
            b1 == ((y >> 16u32) & 0xffu32) as u8,
            b2 == ((y >> 8u32) & 0xffu32) as u8,
            b3 == (y & 0xffu32) as u8,
    ;
    let ex = be_u32(x);
    let ey = be_u32(y);
    if a0 < b0 {
        assert(ex.subrange(0, 0) =~= ey.subrange(0, 0));
    } else if a1 < b1 {
        assert(ex.subrange(0, 1) =~= ey.subrange(0, 1));
    } else if a2 < b2 {
        assert(ex.subrange(0, 2) =~= ey.subrange(0, 2));
    } else {
        assert(ex.subrange(0, 3) =~= ey.subrange(0, 3));
    }
}

/// History order: keys of one script's history sort by confirmation height,
/// so a forward scan yields the rows oldest first and a reverse scan newest first.
pub proof fn lemma_history_keys_sort_by_height(k1: TxHistoryKey, k2: TxHistoryKey)
    requires
        k1.code == k2.code,
        k1.hash@ == k2.hash@,
        k1.confirmed_height < k2.confirmed_height,
    ensures
        lex_lt(history_key_bytes(k1), history_key_bytes(k2)),
{
    lemma_be_u32_lt(k1.confirmed_height, k2.confirmed_height);
    let d = choose|d: int| 0 <= d < 4 && #[trigger] be_u32(k1.confirmed_height).subrange(0, d) == be_u32(k2.confirmed_height).subrange(0, d)
        && be_u32(k1.confirmed_height)[d] < be_u32(k2.confirmed_height)[d];
    let a = history_key_bytes(k1);
    let b = history_key_bytes(k2);
    let i = 33 + d;
    assert(a.subrange(0, i) =~= seq![k1.code] + k1.hash@ + be_u32(k1.confirmed_height).subrange(0, d));
    assert(b.subrange(0, i) =~= seq![k2.code] + k2.hash@ + be_u32(k2.confirmed_height).subrange(0, d));
    assert(a[i] == be_u32(k1.confirmed_height)[d]);
    assert(b[i] == be_u32(k2.confirmed_height)[d]);
    assert(a.subrange(0, i) == b.subrange(0, i));
}


pub proof fn lemma_first_pos_from(u: Seq<Seq<u8>>, l: Seq<u8>, i: int)
    requires
        0 <= i,
    ensures
        first_pos_from(u, l, i) matches Some(j) ==> i <= j < u.len() && u[j] == l,
        first_pos_from(u, l, i) is None ==> forall|j: int| i <= j < u.len() ==> u[j] != l,
    decreases u.len() - i,
{
    if i < u.len() && u[i] != l {
        lemma_first_pos_from(u, l, i + 1);
    }
}

/// `uniq` keeps exactly the elements of its input.
pub proof fn lemma_uniq_contains(s: Seq<Seq<u8>>)
    ensures
        forall|x: Seq<u8>| uniq(s).contains(x) <==> s.contains(x),
    decreases s.len(),
{
    if s.len() > 0 {
        let d = s.drop_last();
        lemma_uniq_contains(d);
        assert forall|x: Seq<u8>| uniq(s).contains(x) <==> s.contains(x) by {
            if s.contains(x) && x != s.last() {
                let i = choose|i: int| 0 <= i < s.len() && s[i] == x;
                assert(d[i] == x);
            }
            if d.contains(x) {
                let i = choose|i: int| 0 <= i < d.len() && d[i] == x;
                assert(s[i] == x);
            }
            if x == s.last() {
                assert(s[s.len() - 1] == x);
            }
            if !d.contains(s.last()) {
                assert(uniq(s) == uniq(d).push(s.last()));
                if uniq(s).contains(x) {
                    let i = choose|i: int| 0 <= i < uniq(s).len() && uniq(s)[i] == x;
                    if i < uniq(d).len() {
                        assert(uniq(d)[i] == x);
                    }
                }
                if uniq(d).contains(x) {
                    let i = choose|i: int| 0 <= i < uniq(d).len() && uniq(d)[i] == x;
                    assert(uniq(s)[i] == x);
                }
                assert(uniq(s)[uniq(d).len() as int] == s.last());
            }
        }
    }
}

/// `uniq` yields no element twice.
pub proof fn lemma_uniq_distinct(s: Seq<Seq<u8>>)
    ensures
        forall|i: int, j: int| 0 <= i < j < uniq(s).len() ==> uniq(s)[i] != uniq(s)[j],
    decreases s.len(),
{
    if s.len() > 0 {
        let d = s.drop_last();
        lemma_uniq_distinct(d);
        lemma_uniq_contains(d);
        if !d.contains(s.last()) {
            let u = uniq(s);
            assert(u == uniq(d).push(s.last()));
            assert forall|i: int, j: int| 0 <= i < j < u.len() implies u[i] != u[j] by {
                if j == u.len() - 1 {
                    assert(u[i] == uniq(d)[i]);
                    if u[i] == u[j] {
                        assert(uniq(d).contains(s.last()));
                    }
                } else {
                    assert(u[i] == uniq(d)[i]);
                    assert(u[j] == uniq(d)[j]);
                }
            }
        }
    }
}

pub proof fn lemma_confirmed_list_concat(a: Seq<Seq<u8>>, b: Seq<Seq<u8>>, table: Seq<(FullHash, BlockId)>)
    ensures
        confirmed_list(a + b, table) == confirmed_list(a, table) + confirmed_list(b, table),
    decreases b.len(),
{
    if b.len() == 0 {
        assert(a + b =~= a);
        assert(confirmed_list(b, table) =~= Seq::<(Seq<u8>, BlockId)>::empty());
        assert(confirmed_list(a, table) + confirmed_list(b, table) =~= confirmed_list(a, table));
    } else {
        lemma_confirmed_list_concat(a, b.drop_last(), table);
        assert((a + b).drop_last() =~= a + b.drop_last());
        assert((a + b).last() == b.last());
        let tail = match conf_lookup(table, b.last()) {
            Some(blk) => seq![(b.last(), blk)],
            None => Seq::<(Seq<u8>, BlockId)>::empty(),
        };
        assert(confirmed_list(a + b, table) =~= confirmed_list(a, table) + (confirmed_list(b.drop_last(), table) + tail));
    }
}

/// Each confirmed entry comes from the input, with the block the table gives it.
pub proof fn lemma_confirmed_list_from(s: Seq<Seq<u8>>, table: Seq<(FullHash, BlockId)>)
    ensures
        forall|i: int| 0 <= i < confirmed_list(s, table).len() ==> s.contains(#[trigger] confirmed_list(s, table)[i].0)
            && conf_lookup(table, confirmed_list(s, table)[i].0) == Some(confirmed_list(s, table)[i].1),
    decreases s.len(),
{
    if s.len() > 0 {
        let d = s.drop_last();
        lemma_confirmed_list_from(d, table);
        let c = confirmed_list(s, table);
        assert forall|i: int| 0 <= i < c.len() implies s.contains(#[trigger] c[i].0) && conf_lookup(table, c[i].0) == Some(c[i].1) by {
            if i < confirmed_list(d, table).len() {
                assert(c[i] == confirmed_list(d, table)[i]);
                let k = choose|k: int| 0 <= k < d.len() && d[k] == c[i].0;
                assert(s[k] == c[i].0);
            } else {
                assert(c[i].0 == s.last());
                assert(s[s.len() - 1] == s.last());
            }
        }
    }
}

/// Distinct txids in, distinct txids out.
pub proof fn lemma_confirmed_list_distinct(s: Seq<Seq<u8>>, table: Seq<(FullHash, BlockId)>)
    requires
        forall|i: int, j: int| 0 <= i < j < s.len() ==> s[i] != s[j],
    ensures
        forall|i: int, j: int| 0 <= i < j < confirmed_list(s, table).len() ==> confirmed_list(s, table)[i].0 != confirmed_list(s, table)[j].0,
    decreases s.len(),
{
    if s.len() > 0 {
        let d = s.drop_last();
        lemma_confirmed_list_distinct(d, table);
        lemma_confirmed_list_from(d, table);
        let c = confirmed_list(s, table);
        let cd = confirmed_list(d, table);
        assert forall|i: int, j: int| 0 <= i < j < c.len() implies c[i].0 != c[j].0 by {
            assert(c[i] == cd[i]);
            if j < cd.len() {
                assert(c[j] == cd[j]);
            } else {
                assert(c[j].0 == s.last());
                if c[i].0 == s.last() {
                    assert(d.contains(cd[i].0));
                    let k = choose|k: int| 0 <= k < d.len() && d[k] == cd[i].0;
                    assert(s[k] == s[s.len() - 1]);
                }
            }
        }
    }
}

/// Pagination fidelity: a first page of `limit` entries followed by the page
/// after its last txid is the page of `2 * limit` entries.
pub proof fn lemma_pagination(scanned: Seq<FullHash>, table: Seq<(FullHash, BlockId)>, limit: usize)
    requires
        history_page_spec(scanned, table, None, limit).len() > 0,
        2 * limit <= usize::MAX,
    ensures
        ({
            let first = history_page_spec(scanned, table, None, limit);
            first + history_page_spec(scanned, table, Some(first.last().0), limit)
                == history_page_spec(scanned, table, None, (2 * limit) as usize)
        }),
{
    let u = uniq(hash_views(scanned));
    let c = confirmed_list(u, table);
    let first = history_page_spec(scanned, table, None, limit);
    assert(first == take(c, limit));
    let m = first.len() as int;
    assert(m == if c.len() <= limit { c.len() as int } else { limit as int });
    assert(first =~= c.subrange(0, m));
    let last = c[m - 1].0;
    assert(first.last().0 == last);
    lemma_confirmed_list_from(u, table);
    assert(u.contains(last));
    lemma_first_pos_from(u, last, 0);
    let q = first_pos_from(u, last, 0)->Some_0;
    assert(0 <= q < u.len() && u[q] == last);
    let head = u.subrange(0, q + 1);
    let rest = u.subrange(q + 1, u.len() as int);
    assert(u =~= head + rest);
    lemma_confirmed_list_concat(head, rest, table);
    assert(head.drop_last() =~= u.subrange(0, q));
    assert(head.last() == last);
    let ch = confirmed_list(head, table);
    assert(conf_lookup(table, last) == Some(c[m - 1].1));
    assert(ch == confirmed_list(u.subrange(0, q), table) + seq![(last, c[m - 1].1)]);
    let k = ch.len() as int;
    assert(c[k - 1] == ch[k - 1]);
    assert(ch[k - 1].0 == last);
    lemma_uniq_distinct(hash_views(scanned));
    lemma_confirmed_list_distinct(u, table);
    assert(k == m) by {
        if k < m {
            assert(c[k - 1].0 != c[m - 1].0);
        } else if k > m {
            assert(c[m - 1].0 != c[k - 1].0);
        }
    }
    assert(after_cursor(u, Some(last)) == rest);
    assert(confirmed_list(rest, table) =~= c.subrange(m, c.len() as int));
    let second = history_page_spec(scanned, table, Some(last), limit);
    assert(second == take(c.subrange(m, c.len() as int), limit));
    let both = history_page_spec(scanned, table, None, (2 * limit) as usize);
    assert(both == take(c, (2 * limit) as usize));
    if c.len() <= limit {
        assert(c.subrange(m, c.len() as int) =~= Seq::<(Seq<u8>, BlockId)>::empty());
        assert(first + second =~= both);
    } else {
        assert(first + second =~= both);
    }
}


/// The edge row that indexing writes for input `i` of `tx`.
pub open spec fn edge_of_input(tx: Transaction, i: int) -> (Seq<u8>, Seq<u8>) {
    let o = tx.input@[i].previous_output;
    (
        edge_key_bytes(TxEdgeKey { funding_txid: o.txid, funding_vout: o.vout as u16, spending_txid: tx.txid, spending_vin: i as u16 }),
        Seq::<u8>::empty(),
    )
}

proof fn lemma_spending_rows_have_edge(tx: Transaction, height: u32, map: Seq<(OutPoint, TxOut)>, i: int, n: int)
    requires
        0 <= i < n <= tx.input@.len(),
        has_prevout_spec(tx.input@[i]),
    ensures
        spending_rows(tx, height, map, n).contains(edge_of_input(tx, i)),
    decreases n,
{
    let prev = spending_rows(tx, height, map, n - 1);
    if i < n - 1 {
        lemma_spending_rows_have_edge(tx, height, map, i, n - 1);
        let k = choose|k: int| 0 <= k < prev.len() && prev[k] == edge_of_input(tx, i);
        assert(spending_rows(tx, height, map, n)[k] == edge_of_input(tx, i));
    } else {
        assert(spending_rows(tx, height, map, n)[prev.len() as int + 1] == edge_of_input(tx, i));
    }
}

proof fn lemma_be_u16_injective(a: u16, b: u16)
    requires
        be_u16(a) == be_u16(b),
    ensures
        a == b,
{
    assert(be_u16(a)[0] == be_u16(b)[0]);
    assert(be_u16(a)[1] == be_u16(b)[1]);
    assert(a == b) by (bit_vector)
        requires
            ((a >> 8u16) & 0xffu16) as u8 == ((b >> 8u16) & 0xffu16) as u8,
            (a & 0xffu16) as u8 == (b & 0xffu16) as u8,
    ;
}

/// Spent-by round trip: indexing a transaction writes, for each input that
/// spends a real output, an edge row under that output; decoding the row
/// gives back the spender, and the spent-by lookup, when that spender is the
/// first confirmed one, returns its txid and input index.
pub proof fn lemma_spent_by_round_trip(
    tx: Transaction,
    height: u32,
    map: Seq<(OutPoint, TxOut)>,
    iconfig: IndexerConfig,
    i: int,
    decoded: TxEdgeKey,
    b: BlockId,
    later: Seq<(TxEdgeKey, Option<BlockId>)>,
)
    requires
        0 <= i < tx.input@.len(),
        i <= u16::MAX,
        has_prevout_spec(tx.input@[i]),
        edge_key_bytes(decoded) == edge_of_input(tx, i).0,
    ensures
        index_tx_rows(tx, height, map, iconfig).contains(edge_of_input(tx, i)),
        decoded.funding_txid@ == tx.input@[i].previous_output.txid@,
        decoded.funding_vout == tx.input@[i].previous_output.vout as u16,
        first_spender(seq![(decoded, Some(b))] + later) matches Some(si) && si.txid@ == tx.txid@ && si.vin == i
            && si.confirmed == Some(b),
{
    lemma_spending_rows_have_edge(tx, height, map, i, tx.input@.len() as int);
    let f = funding_rows(tx, height, iconfig, tx.output@.len() as int);
    let sp = spending_rows(tx, height, map, tx.input@.len() as int);
    let k = choose|k: int| 0 <= k < sp.len() && sp[k] == edge_of_input(tx, i);
    assert(index_tx_rows(tx, height, map, iconfig)[f.len() + k] == edge_of_input(tx, i));
    let o = tx.input@[i].previous_output;
    let bytes = edge_of_input(tx, i).0;
    let mine = edge_key_bytes(decoded);
    assert(mine.subrange(1, 33) =~= decoded.funding_txid@);
    assert(bytes.subrange(1, 33) =~= o.txid@);
    assert(mine.subrange(33, 35) =~= be_u16(decoded.funding_vout));
    assert(bytes.subrange(33, 35) =~= be_u16(o.vout as u16));
    lemma_be_u16_injective(decoded.funding_vout, o.vout as u16);
    assert(mine.subrange(35, 67) =~= decoded.spending_txid@);
    assert(bytes.subrange(35, 67) =~= tx.txid@);
    assert(mine.subrange(67, 69) =~= be_u16(decoded.spending_vin));
    assert(bytes.subrange(67, 69) =~= be_u16(i as u16));
    lemma_be_u16_injective(decoded.spending_vin, i as u16);
    assert((seq![(decoded, Some(b))] + later)[0] == (decoded, Some(b)));
}


/// No two entries of the list share a hash.
pub open spec fn distinct_hashes(s: Seq<HeaderEntry>) -> bool {
    forall|a: int, c: int| 0 <= a < c < s.len() ==> s[a].hash@ != s[c].hash@
}

/// The header list is the best chain: on a chain whose hashes are distinct,
/// the hash at every height is found by hash at that very entry, so
/// `height_by_hash(hash_by_height(i)) == Some(i)` and the block is confirmed;
/// and after laying a run over the chain, a hash is found exactly when it is
/// in the kept prefix or in the run, so hashes of a dropped suffix are gone.
pub proof fn lemma_chain_lookup(s: Seq<HeaderEntry>, run: Seq<HeaderEntry>, i: int, h: Seq<u8>)
    requires
        is_chain(s),
        distinct_hashes(s),
        0 <= i < s.len(),
    ensures
        entry_by_hash(s, s[i].hash@) == Some(s[i]),
        s[i].height == i,
        run.len() > 0 && run[0].height <= s.len() ==> (on_chain(applied(s, run), h) <==> (on_chain(
            s.subrange(0, run[0].height as int),
            h,
        ) || on_chain(run, h))),
{
    reveal(entry_by_hash);
    lemma_pos_from(s, s[i].hash@, 0);
    let j = position_of(s, s[i].hash@)->Some_0;
    assert(j == i) by {
        if j < i {
            assert(s[j].hash@ != s[i].hash@);
        } else if j > i {
            assert(s[i].hash@ != s[j].hash@);
        }
    }
    if run.len() > 0 && run[0].height <= s.len() {
        let p = s.subrange(0, run[0].height as int);
        let t = applied(s, run);
        assert(t == p + run);
        if on_chain(t, h) {
            let k = choose|k: int| 0 <= k < t.len() && (#[trigger] t[k]).hash@ == h;
            if k < p.len() {
                assert(p[k] == t[k]);
            } else {
                assert(run[k - p.len()] == t[k]);
            }
        }
        if on_chain(p, h) {
            let k = choose|k: int| 0 <= k < p.len() && (#[trigger] p[k]).hash@ == h;
            assert(t[k] == p[k]);
        }
        if on_chain(run, h) {
            let k = choose|k: int| 0 <= k < run.len() && (#[trigger] run[k]).hash@ == h;
            assert(t[p.len() + k] == run[k]);
        }
    }
}


/// Row `j` is counted, in the block with hash `h`.
pub open spec fn counted_in(rows: Seq<HistoryEntry>, j: int, h: Seq<u8>) -> bool {
    counts(rows[j]) && rows[j].1->Some_0.hash@ == h
}

/// Some row before `k` is counted in the block with hash `h`.
pub open spec fn counted_before(rows: Seq<HistoryEntry>, k: int, h: Seq<u8>) -> bool {
    exists|j: int| 0 <= j < k && #[trigger] counted_in(rows, j, h)
}

proof fn lemma_stats_last_is_counted(a: StatsAcc, rows: Seq<HistoryEntry>, k: int)
    requires
        0 <= k <= rows.len(),
        a.last is None,
    ensures
        stats_fold(a, rows, k).last is Some ==> counted_before(rows, k, stats_fold(a, rows, k).last->Some_0),
    decreases k,
{
    if k > 0 {
        lemma_stats_last_is_counted(a, rows, k - 1);
        let p = stats_fold(a, rows, k - 1);
        assert(stats_fold(a, rows, k) == stats_step(p, rows[k - 1]));
        if counts(rows[k - 1]) {
            assert(stats_fold(a, rows, k).last == Some(rows[k - 1].1->Some_0.hash@));
            assert(counted_in(rows, k - 1, rows[k - 1].1->Some_0.hash@));
            assert(counted_before(rows, k, rows[k - 1].1->Some_0.hash@));
        } else if let Some(h) = p.last {
            let j = choose|j: int| 0 <= j < k - 1 && #[trigger] counted_in(rows, j, h);
            assert(counted_in(rows, j, h));
            assert(counted_before(rows, k, h));
        }
    }
}

pub open spec fn same_totals(x: StatsAcc, y: StatsAcc) -> bool {
    x.tx_count == y.tx_count && x.funded_count == y.funded_count && x.spent_count == y.spent_count
        && x.funded_sum == y.funded_sum && x.spent_sum == y.spent_sum
}

proof fn lemma_resume(rows: Seq<HistoryEntry>, k: int, c: StatsAcc, m: int)
    requires
        0 <= k,
        0 <= m <= rows.len() - k,
        c.last is None,
        c.seen == Set::<Seq<u8>>::empty(),
        same_totals(c, stats_fold(acc_of(ScriptStats::default_spec()), rows, k)),
        forall|j: int, j2: int, h: Seq<u8>| 0 <= j < k <= j2 < rows.len() && #[trigger] counted_in(rows, j, h) ==> !#[trigger] counted_in(rows, j2, h),
    ensures
        ({
            let r = stats_fold(c, rows.subrange(k, rows.len() as int), m);
            let f = stats_fold(acc_of(ScriptStats::default_spec()), rows, k + m);
            &&& same_totals(r, f)
            &&& (r.last is None ==> r.seen == Set::<Seq<u8>>::empty() && f.last == stats_fold(acc_of(ScriptStats::default_spec()), rows, k).last)
            &&& (r.last is Some ==> r.last == f.last && r.seen == f.seen)
        }),
    decreases m,
{
    let a0 = acc_of(ScriptStats::default_spec());
    let suf = rows.subrange(k, rows.len() as int);
    if m > 0 {
        lemma_resume(rows, k, c, m - 1);
        assert(suf[m - 1] == rows[k + m - 1]);
        let r = stats_fold(c, suf, m - 1);
        let f = stats_fold(a0, rows, k + m - 1);
        let e = rows[k + m - 1];
        if counts(e) && r.last is None {
            let h = e.1->Some_0.hash@;
            lemma_stats_last_is_counted(a0, rows, k);
            if f.last == Some(h) {
                let j = choose|j: int| 0 <= j < k && #[trigger] counted_in(rows, j, h);
                assert(counted_in(rows, k + m - 1, h));
            }
        }
    }
}

/// Stats are monotone across calls: resuming from totals cached at a block
/// boundary (no block counted before the boundary is counted again after
/// it) gives the same totals as a computation over all rows, so a later call
/// never reports less than an earlier one, cache or not.
pub proof fn lemma_stats_resume(rows: Seq<HistoryEntry>, k: int, cached: ScriptStats)
    requires
        0 <= k <= rows.len(),
        same_totals(acc_of(cached), stats_fold(acc_of(ScriptStats::default_spec()), rows, k)),
        forall|j: int, j2: int, h: Seq<u8>| 0 <= j < k <= j2 < rows.len() && #[trigger] counted_in(rows, j, h) ==> !#[trigger] counted_in(rows, j2, h),
    ensures
        same_totals(
            stats_fold(acc_of(cached), rows.subrange(k, rows.len() as int), rows.len() - k),
            stats_fold(acc_of(ScriptStats::default_spec()), rows, rows.len() as int),
        ),
        stats_fold(acc_of(cached), rows.subrange(k, rows.len() as int), rows.len() - k).tx_count >= cached.tx_count,
        stats_fold(acc_of(cached), rows.subrange(k, rows.len() as int), rows.len() - k).funded_count >= cached.funded_txo_count,
        stats_fold(acc_of(cached), rows.subrange(k, rows.len() as int), rows.len() - k).spent_count >= cached.spent_txo_count,
        stats_fold(acc_of(cached), rows.subrange(k, rows.len() as int), rows.len() - k).funded_sum >= cached.funded_txo_sum,
        stats_fold(acc_of(cached), rows.subrange(k, rows.len() as int), rows.len() - k).spent_sum >= cached.spent_txo_sum,
{
    lemma_resume(rows, k, acc_of(cached), rows.len() - k);
    lemma_stats_monotone(acc_of(ScriptStats::default_spec()), rows, k, rows.len() as int);
}

} // verus!
