//! The silent-payments tweak stage: which outputs are eligible, the tweak row
//! of a transaction, and the rows of a block.
use vstd::prelude::*;
use crate::types::{FullHash, BlockId, OutPoint, TxOut, Transaction, BlockEntry, DBRow, rows_view};
use crate::codec::{
    read_be_u32, read_be_u64, read_hash, be_u32, be_u64, tweak_key_bytes, tweak_key_parse, block_key_bytes, push_be_u32, push_be_u64, push_hash,
    push_bytes, tweak_key, block_key, CODE_TWEAKS, CODE_DONE,
};
use crate::indexer::{Rows, spendable, is_spendable, done_row, push_row};
use crate::external::{
    input_pubkey_of, tweak_of, bytes_seqs, outpoint_seqs, script_is_p2tr, input_pubkey,
    calculate_tweak, to_hex,
};

verus! {

/// Tweaks are computed from this height on unless configured otherwise.
pub const MIN_SP_TWEAK_HEIGHT: usize = 823_807;
/// Taproot outputs below this value are not eligible unless configured otherwise.
pub const DEFAULT_SP_MIN_DUST: u64 = 1_000;

/// The input that spends an output, with its confirming block.
#[derive(Clone, Copy, Debug)]
pub struct SpendingInput {
    pub txid: FullHash,
    pub vin: u32,
    pub confirmed: Option<BlockId>,
}

/// An output eligible for silent payments.
#[derive(Clone, Debug)]
pub struct VoutData {
    pub vout: usize,
    pub amount: u64,
    pub script_pubkey: Vec<u8>,
    pub spending_input: Option<SpendingInput>,
}

pub struct VoutView {
    pub vout: usize,
    pub amount: u64,
    pub script_pubkey: Seq<u8>,
    pub spending_input: Option<SpendingInput>,
}

impl VoutData {
    pub open spec fn view(&self) -> VoutView {
        VoutView {
            vout: self.vout,
            amount: self.amount,
            script_pubkey: self.script_pubkey@,
            spending_input: self.spending_input,
        }
    }
}

/// The tweak of a transaction (hexadecimal) and its eligible outputs.
#[derive(Clone, Debug)]
pub struct TweakData {
    pub tweak: String,
    pub vout_data: Vec<VoutData>,
}

pub open spec fn vouts_view(v: Seq<VoutData>) -> Seq<VoutView> {
    v.map_values(|d: VoutData| d@)
}

pub open spec fn is_p2tr_spec(s: Seq<u8>) -> bool {
    s.len() == 34 && s[0] == 0x51u8 && s[1] == 0x20u8
}

/// A spendable taproot output worth at least `min_dust`.
pub open spec fn eligible(o: TxOut, min_dust: u64) -> bool {
    spendable(o) && is_p2tr_spec(o.script_pubkey@) && o.value >= min_dust
}

/// The eligible outputs among the first `n`, each with its spender.
pub open spec fn eligible_vouts(tx: Transaction, spenders: Seq<Option<SpendingInput>>, min_dust: u64, n: int) -> Seq<VoutView>
    decreases n,
{
    if n <= 0 {
        Seq::empty()
    } else {
        let o = tx.output@[n - 1];
        eligible_vouts(tx, spenders, min_dust, n - 1) + if eligible(o, min_dust) {
            seq![VoutView { vout: (n - 1) as usize, amount: o.value, script_pubkey: o.script_pubkey@, spending_input: spenders[n - 1] }]
        } else {
            Seq::empty()
        }
    }
}

/// The input public keys found among the first `n` inputs, given each input's
/// previous output script (`None` where the node did not give it).
pub open spec fn input_pubkeys(tx: Transaction, prev_scripts: Seq<Option<Vec<u8>>>, n: int) -> Seq<Seq<u8>>
    decreases n,
{
    if n <= 0 {
        Seq::empty()
    } else {
        let txin = tx.input@[n - 1];
        input_pubkeys(tx, prev_scripts, n - 1) + match prev_scripts[n - 1] {
            Some(s) => match input_pubkey_of(txin.script_sig@, bytes_seqs(txin.witness@), s@) {
                Some(p) => seq![p],
                None => Seq::empty(),
            },
            None => Seq::empty(),
        }
    }
}

/// The outpoints spent by all inputs, eligible or not.
pub open spec fn input_outpoints(tx: Transaction) -> Seq<OutPoint> {
    tx.input@.map_values(|i: crate::types::TxIn| i.previous_output)
}

pub open spec fn confirmed_bytes(c: Option<BlockId>) -> Seq<u8> {
    match c {
        Some(b) => seq![1u8] + be_u64(b.height as u64) + b.hash@ + be_u32(b.time),
        None => seq![0u8],
    }
}

pub open spec fn spending_bytes(s: Option<SpendingInput>) -> Seq<u8> {
    match s {
        Some(i) => seq![1u8] + i.txid@ + be_u32(i.vin) + confirmed_bytes(i.confirmed),
        None => seq![0u8],
    }
}

pub open spec fn vout_bytes(v: VoutView) -> Seq<u8> {
    be_u64(v.vout as u64) + be_u64(v.amount) + be_u32(v.script_pubkey.len() as u32) + v.script_pubkey
        + spending_bytes(v.spending_input)
}

pub open spec fn vouts_bytes(vs: Seq<VoutView>, n: int) -> Seq<u8>
    decreases n,
{
    if n <= 0 {
        Seq::empty()
    } else {
        vouts_bytes(vs, n - 1) + vout_bytes(vs[n - 1])
    }
}

/// The value of a `K` row: the raw tweak, the number of outputs, then each output.
pub open spec fn tweak_value_bytes(tweak: Seq<u8>, vs: Seq<VoutView>) -> Seq<u8> {
    tweak + be_u32(vs.len() as u32) + vouts_bytes(vs, vs.len() as int)
}

/// What the tweak stage emits for one transaction: nothing without an
/// eligible output, an input key, or a computable tweak; else the `K` row and
/// the raw tweak for the block bundle.
pub open spec fn tweak_tx_result(
    height: u32,
    tx: Transaction,
    prev_scripts: Seq<Option<Vec<u8>>>,
    spenders: Seq<Option<SpendingInput>>,
    min_dust: u64,
) -> Option<((Seq<u8>, Seq<u8>), Seq<u8>)> {
    let vs = eligible_vouts(tx, spenders, min_dust, tx.output@.len() as int);
    let keys = input_pubkeys(tx, prev_scripts, tx.input@.len() as int);
    if vs.len() == 0 || keys.len() == 0 {
        None
    } else {
        match tweak_of(keys, outpoint_seqs(input_outpoints(tx))) {
            Some(t) => Some(((tweak_key_bytes(height, tx.txid), tweak_value_bytes(t, vs)), t)),
            None => None,
        }
    }
}

pub fn push_confirmed(v: &mut Vec<u8>, c: &Option<BlockId>)
    ensures
        final(v)@ == old(v)@ + confirmed_bytes(*c),
{
    match c {
        Some(b) => {
            v.push(1u8);
            push_be_u64(v, b.height as u64);
            push_hash(v, &b.hash);
            push_be_u32(v, b.time);
        },
        None => {
            v.push(0u8);
        },
    }
    assert(v@ =~= old(v)@ + confirmed_bytes(*c));
}

pub fn push_vout(v: &mut Vec<u8>, d: &VoutData)
    ensures
        final(v)@ == old(v)@ + vout_bytes(d@),
{
    push_be_u64(v, d.vout as u64);
    push_be_u64(v, d.amount);
    push_be_u32(v, d.script_pubkey.len() as u32);
    push_bytes(v, &d.script_pubkey);
    match &d.spending_input {
        Some(i) => {
            v.push(1u8);
            push_hash(v, &i.txid);
            push_be_u32(v, i.vin);
            push_confirmed(v, &i.confirmed);
        },
        None => {
            v.push(0u8);
        },
    }
    assert(v@ =~= old(v)@ + vout_bytes(d@));
}

/// Encodes the value of a `K` row.
pub fn encode_tweak_value(tweak: &Vec<u8>, vout_data: &Vec<VoutData>) -> (r: Vec<u8>)
    requires
        vout_data@.len() <= u32::MAX,
    ensures
        r@ == tweak_value_bytes(tweak@, vouts_view(vout_data@)),
{
    let mut v: Vec<u8> = Vec::new();
    push_bytes(&mut v, tweak);
    push_be_u32(&mut v, vout_data.len() as u32);
    let ghost base = v@;
    let ghost vs = vouts_view(vout_data@);
    let mut i: usize = 0;
    while i < vout_data.len()
        invariant
            0 <= i <= vout_data@.len(),
            vs == vouts_view(vout_data@),
            v@ == base + vouts_bytes(vs, i as int),
        decreases vout_data@.len() - i,
    {
        push_vout(&mut v, &vout_data[i]);
        assert(vs[i as int] == vout_data@[i as int]@);
        assert(base + vouts_bytes(vs, i + 1) =~= base + vouts_bytes(vs, i as int) + vout_bytes(vs[i as int]));
        i += 1;
    }
    assert(v@ =~= tweak_value_bytes(tweak@, vs));
    v
}

/// The tweak data of a `K` row: the tweak in lower-case hexadecimal and the outputs.
pub fn get_tweak_data(tweak: &Vec<u8>, vout_data: Vec<VoutData>) -> (r: TweakData)
    ensures
        r.tweak@ == crate::codec::hex_lower(tweak@),
        vouts_view(r.vout_data@) == vouts_view(vout_data@),
{
    TweakData { tweak: to_hex(tweak), vout_data }
}


/// The tweak-stage result of one transaction: its `K` row and raw tweak, if
/// any. `prev_scripts[i]` is the script of the output that input `i` spends,
/// as the node gave it; `spenders[v]` is the input that spends output `v`.
pub fn tweak_transaction(
    blockheight: u32,
    tx: &Transaction,
    prev_scripts: &Vec<Option<Vec<u8>>>,
    spenders: &Vec<Option<SpendingInput>>,
    min_dust: u64,
) -> (r: Option<(DBRow, Vec<u8>)>)
    requires
        prev_scripts@.len() == tx.input@.len(),
        spenders@.len() == tx.output@.len(),
        tx.output@.len() <= u32::MAX,
    ensures
        match tweak_tx_result(blockheight, *tx, prev_scripts@, spenders@, min_dust) {
            Some((row, t)) => r matches Some((rr, tt)) && (rr.key@, rr.value@) == row && tt@ == t,
            None => r is None,
        },
{
    let mut output_pubkeys: Vec<VoutData> = Vec::new();
    let mut i: usize = 0;
    while i < tx.output.len()
        invariant
            0 <= i <= tx.output@.len(),
            spenders@.len() == tx.output@.len(),
            vouts_view(output_pubkeys@) == eligible_vouts(*tx, spenders@, min_dust, i as int),
            output_pubkeys@.len() <= i,
        decreases tx.output@.len() - i,
    {
        let txo = &tx.output[i];
        if is_spendable(txo) && script_is_p2tr(&txo.script_pubkey) && txo.value >= min_dust {
            let d = VoutData {
                vout: i,
                amount: txo.value,
                script_pubkey: txo.script_pubkey.clone(),
                spending_input: spenders[i],
            };
            let ghost prev = output_pubkeys@;
            output_pubkeys.push(d);
            assert(vouts_view(output_pubkeys@) =~= vouts_view(prev).push(d@));
        }
        assert(vouts_view(output_pubkeys@) =~= eligible_vouts(*tx, spenders@, min_dust, i + 1));
        i += 1;
    }
    if output_pubkeys.len() == 0 {
        return None;
    }
    let mut pubkeys: Vec<Vec<u8>> = Vec::new();
    let mut outpoints: Vec<OutPoint> = Vec::new();
    let mut j: usize = 0;
    while j < tx.input.len()
        invariant
            0 <= j <= tx.input@.len(),
            prev_scripts@.len() == tx.input@.len(),
            bytes_seqs(pubkeys@) == input_pubkeys(*tx, prev_scripts@, j as int),
            outpoints@ == input_outpoints(*tx).subrange(0, j as int),
        decreases tx.input@.len() - j,
    {
        let txin = &tx.input[j];
        outpoints.push(txin.previous_output);
        match &prev_scripts[j] {
            Some(prev_script) => {
                match input_pubkey(&txin.script_sig, &txin.witness, prev_script) {
                    Some(p) => {
                        let ghost prev = pubkeys@;
                        pubkeys.push(p);
                        assert(bytes_seqs(pubkeys@) =~= bytes_seqs(prev).push(p@));
                    },
                    None => {},
                }
            },
            None => {},
        }
        assert(bytes_seqs(pubkeys@) =~= input_pubkeys(*tx, prev_scripts@, j + 1));
        assert(outpoints@ =~= input_outpoints(*tx).subrange(0, j + 1));
        j += 1;
    }
    assert(outpoints@ =~= input_outpoints(*tx));
    if pubkeys.len() == 0 {
        return None;
    }
    match calculate_tweak(&pubkeys, &outpoints) {
        Some(t) => {
            let row = TweakTxRow::new(blockheight, tx.txid, t.clone(), output_pubkeys).into_row();
            Some((row, t))
        },
        None => None,
    }
}

/// The tweaks of the first `n` transactions, concatenated.
pub open spec fn tweaks_bundle(results: Seq<Option<((Seq<u8>, Seq<u8>), Seq<u8>)>>, n: int) -> Seq<u8>
    decreases n,
{
    if n <= 0 {
        Seq::empty()
    } else {
        tweaks_bundle(results, n - 1) + match results[n - 1] {
            Some((_, t)) => t,
            None => Seq::empty(),
        }
    }
}

/// The `K` rows of the first `n` transactions.
pub open spec fn tweak_rows(results: Seq<Option<((Seq<u8>, Seq<u8>), Seq<u8>)>>, n: int) -> Rows
    decreases n,
{
    if n <= 0 {
        Seq::empty()
    } else {
        tweak_rows(results, n - 1) + match results[n - 1] {
            Some((row, _)) => seq![row],
            None => Seq::empty(),
        }
    }
}

/// Per transaction of block `b`, its tweak-stage result.
pub open spec fn block_tweak_results(
    b: BlockEntry,
    prev_scripts: Seq<Vec<Option<Vec<u8>>>>,
    spenders: Seq<Vec<Option<SpendingInput>>>,
    min_dust: u64,
) -> Seq<Option<((Seq<u8>, Seq<u8>), Seq<u8>)>> {
    Seq::new(
        b.txdata@.len(),
        |t: int| tweak_tx_result(b.entry.height as u32, b.txdata@[t], prev_scripts[t]@, spenders[t]@, min_dust),
    )
}

/// The tweak-stage rows of a block: a `K` row per transaction with a tweak,
/// the `W` bundle of the block's tweaks, and last the done marker.
pub open spec fn tweak_block_rows(
    b: BlockEntry,
    prev_scripts: Seq<Vec<Option<Vec<u8>>>>,
    spenders: Seq<Vec<Option<SpendingInput>>>,
    min_dust: u64,
) -> Rows {
    let res = block_tweak_results(b, prev_scripts, spenders, min_dust);
    tweak_rows(res, res.len() as int) + seq![
        (block_key_bytes(CODE_TWEAKS, b.entry.hash), tweaks_bundle(res, res.len() as int)),
        done_row(b.entry.hash),
    ]
}

/// The tweak-stage rows of one block, written (and flushed) block by block.
pub fn tweak_block(
    b: &BlockEntry,
    prev_scripts: &Vec<Vec<Option<Vec<u8>>>>,
    spenders: &Vec<Vec<Option<SpendingInput>>>,
    min_dust: u64,
) -> (r: Vec<DBRow>)
    requires
        prev_scripts@.len() == b.txdata@.len(),
        spenders@.len() == b.txdata@.len(),
        forall|t: int| 0 <= t < b.txdata@.len() ==> (#[trigger] prev_scripts@[t])@.len() == b.txdata@[t].input@.len(),
        forall|t: int| 0 <= t < b.txdata@.len() ==> (#[trigger] spenders@[t])@.len() == b.txdata@[t].output@.len(),
        forall|t: int| 0 <= t < b.txdata@.len() ==> (#[trigger] b.txdata@[t]).output@.len() <= u32::MAX,
    ensures
        rows_view(r@) == tweak_block_rows(*b, prev_scripts@, spenders@, min_dust),
{
    let ghost res = block_tweak_results(*b, prev_scripts@, spenders@, min_dust);
    let mut rows: Vec<DBRow> = Vec::new();
    let mut tweaks: Vec<u8> = Vec::new();
    let height = b.entry.height as u32;
    assert(rows_view(rows@) =~= Seq::empty());
    let mut t: usize = 0;
    while t < b.txdata.len()
        invariant
            0 <= t <= b.txdata@.len(),
            height == b.entry.height as u32,
            res == block_tweak_results(*b, prev_scripts@, spenders@, min_dust),
            prev_scripts@.len() == b.txdata@.len(),
            spenders@.len() == b.txdata@.len(),
            forall|t: int| 0 <= t < b.txdata@.len() ==> (#[trigger] prev_scripts@[t])@.len() == b.txdata@[t].input@.len(),
            forall|t: int| 0 <= t < b.txdata@.len() ==> (#[trigger] spenders@[t])@.len() == b.txdata@[t].output@.len(),
            forall|t: int| 0 <= t < b.txdata@.len() ==> (#[trigger] b.txdata@[t]).output@.len() <= u32::MAX,
            rows_view(rows@) == tweak_rows(res, t as int),
            tweaks@ == tweaks_bundle(res, t as int),
        decreases b.txdata@.len() - t,
    {
        let tx = &b.txdata[t];
        assert(res[t as int] == tweak_tx_result(height, b.txdata@[t as int], prev_scripts@[t as int]@, spenders@[t as int]@, min_dust));
        match tweak_transaction(height, tx, &prev_scripts[t], &spenders[t], min_dust) {
            Some((row, tw)) => {
                push_row(&mut rows, row.key, row.value);
                push_bytes(&mut tweaks, &tw);
            },
            None => {},
        }
        assert(rows_view(rows@) =~= tweak_rows(res, t + 1));
        assert(tweaks@ =~= tweaks_bundle(res, t + 1));
        t += 1;
    }
    push_row(&mut rows, block_key(CODE_TWEAKS, &b.entry.hash), tweaks);
    let empty: Vec<u8> = Vec::new();
    assert(empty@ =~= Seq::<u8>::empty());
    push_row(&mut rows, block_key(CODE_DONE, &b.entry.hash), empty);
    assert(rows_view(rows@) =~= tweak_block_rows(*b, prev_scripts@, spenders@, min_dust));
    rows
}


fn copy_range(b: &Vec<u8>, from: usize, to: usize) -> (r: Vec<u8>)
    requires
        from <= to <= b@.len(),
    ensures
        r@ == b@.subrange(from as int, to as int),
{
    let mut r: Vec<u8> = Vec::new();
    let mut i: usize = from;
    while i < to
        invariant
            from <= i <= to,
            to <= b@.len(),
            r@ == b@.subrange(from as int, i as int),
        decreases to - i,
    {
        r.push(b[i]);
        assert(r@ =~= b@.subrange(from as int, i + 1));
        i += 1;
    }
    r
}

/// The bytes of `b` at `pos` start with `e`.
pub open spec fn starts_with_at(b: Seq<u8>, pos: int, e: Seq<u8>) -> bool {
    pos + e.len() <= b.len() && b.subrange(pos, pos + e.len()) == e
}

proof fn lemma_starts_with_part(b: Seq<u8>, pos: int, e: Seq<u8>, from: int, to: int)
    requires
        0 <= pos,
        starts_with_at(b, pos, e),
        0 <= from <= to <= e.len(),
    ensures
        b.subrange(pos + from, pos + to) == e.subrange(from, to),
{
    assert(b.subrange(pos + from, pos + to) =~= b.subrange(pos, pos + e.len()).subrange(from, to));
}

fn read_confirmed(b: &Vec<u8>, pos: usize) -> (r: Option<(Option<BlockId>, usize)>)
    requires
        pos <= b@.len(),
    ensures
        r matches Some((c, end)) ==> pos <= end <= b@.len() && b@.subrange(pos as int, end as int) == confirmed_bytes(c),
        forall|c: Option<BlockId>| starts_with_at(b@, pos as int, #[trigger] confirmed_bytes(c)) ==> r == Some(
            (c, (pos + confirmed_bytes(c).len()) as usize),
        ),
{
    if pos >= b.len() {
        return None;
    }
    if b[pos] == 0 {
        assert(b@.subrange(pos as int, pos + 1) =~= confirmed_bytes(None));
        assert forall|c: Option<BlockId>| starts_with_at(b@, pos as int, #[trigger] confirmed_bytes(c)) implies c is None by {
            lemma_starts_with_part(b@, pos as int, confirmed_bytes(c), 0, 1);
            assert(b@.subrange(pos as int, pos + 1)[0] == b@[pos as int]);
        }
        return Some((None, pos + 1));
    }
    if b[pos] != 1 || b.len() - pos < 45 {
        assert forall|c: Option<BlockId>| !starts_with_at(b@, pos as int, #[trigger] confirmed_bytes(c)) by {
            if starts_with_at(b@, pos as int, confirmed_bytes(c)) {
                lemma_starts_with_part(b@, pos as int, confirmed_bytes(c), 0, 1);
                assert(b@.subrange(pos as int, pos + 1)[0] == b@[pos as int]);
            }
        }
        return None;
    }
    let height = read_be_u64(b, pos + 1);
    let hash = read_hash(b, pos + 9);
    let time = read_be_u32(b, pos + 41);
    proof {
        assert forall|c: Option<BlockId>| starts_with_at(b@, pos as int, #[trigger] confirmed_bytes(c)) implies c matches Some(blk)
            && blk.height as u64 == height && blk.hash == hash && blk.time == time by {
            lemma_starts_with_part(b@, pos as int, confirmed_bytes(c), 0, 1);
            assert(b@.subrange(pos as int, pos + 1)[0] == b@[pos as int]);
            let blk = c->Some_0;
            let e = confirmed_bytes(c);
            lemma_starts_with_part(b@, pos as int, e, 1, 9);
            assert(e.subrange(1, 9) =~= be_u64(blk.height as u64));
            crate::codec::lemma_be_u64_injective(blk.height as u64, height);
            lemma_starts_with_part(b@, pos as int, e, 9, 41);
            assert(e.subrange(9, 41) =~= blk.hash@);
            assert(blk.hash =~= hash);
            lemma_starts_with_part(b@, pos as int, e, 41, 45);
            assert(e.subrange(41, 45) =~= be_u32(blk.time));
            crate::codec::lemma_be_u32_injective(blk.time, time);
        }
    }
    if height > usize::MAX as u64 {
        return None;
    }
    let blk = BlockId { height: height as usize, hash, time };
    assert(b@.subrange(pos as int, pos + 45) =~= confirmed_bytes(Some(blk)));
    Some((Some(blk), pos + 45))
}

fn read_spending(b: &Vec<u8>, pos: usize) -> (r: Option<(Option<SpendingInput>, usize)>)
    requires
        pos <= b@.len(),
    ensures
        r matches Some((sp, end)) ==> pos <= end <= b@.len() && b@.subrange(pos as int, end as int) == spending_bytes(sp),
        forall|sp: Option<SpendingInput>| starts_with_at(b@, pos as int, #[trigger] spending_bytes(sp)) ==> r == Some(
            (sp, (pos + spending_bytes(sp).len()) as usize),
        ),
{
    if pos >= b.len() {
        return None;
    }
    if b[pos] == 0 {
        assert(b@.subrange(pos as int, pos + 1) =~= spending_bytes(None));
        assert forall|sp: Option<SpendingInput>| starts_with_at(b@, pos as int, #[trigger] spending_bytes(sp)) implies sp is None by {
            lemma_starts_with_part(b@, pos as int, spending_bytes(sp), 0, 1);
            assert(b@.subrange(pos as int, pos + 1)[0] == b@[pos as int]);
        }
        return Some((None, pos + 1));
    }
    if b[pos] != 1 || b.len() - pos < 37 {
        assert forall|sp: Option<SpendingInput>| !starts_with_at(b@, pos as int, #[trigger] spending_bytes(sp)) by {
            if starts_with_at(b@, pos as int, spending_bytes(sp)) {
                lemma_starts_with_part(b@, pos as int, spending_bytes(sp), 0, 1);
                assert(b@.subrange(pos as int, pos + 1)[0] == b@[pos as int]);
                if sp is Some {
                    assert(spending_bytes(sp).len() >= 37);
                }
            }
        }
        return None;
    }
    let txid = read_hash(b, pos + 1);
    let vin = read_be_u32(b, pos + 33);
    let res = read_confirmed(b, pos + 37);
    proof {
        assert forall|sp: Option<SpendingInput>| starts_with_at(b@, pos as int, #[trigger] spending_bytes(sp)) implies sp matches Some(i)
            && i.txid == txid && i.vin == vin && starts_with_at(b@, pos + 37, confirmed_bytes(i.confirmed)) by {
            lemma_starts_with_part(b@, pos as int, spending_bytes(sp), 0, 1);
            assert(b@.subrange(pos as int, pos + 1)[0] == b@[pos as int]);
            let i = sp->Some_0;
            let e = spending_bytes(sp);
            lemma_starts_with_part(b@, pos as int, e, 1, 33);
            assert(e.subrange(1, 33) =~= i.txid@);
            assert(i.txid =~= txid);
            lemma_starts_with_part(b@, pos as int, e, 33, 37);
            assert(e.subrange(33, 37) =~= be_u32(i.vin));
            crate::codec::lemma_be_u32_injective(i.vin, vin);
            lemma_starts_with_part(b@, pos as int, e, 37, e.len() as int);
            assert(e.subrange(37, e.len() as int) =~= confirmed_bytes(i.confirmed));
        }
    }
    match res {
        Some((confirmed, end)) => {
            let sp = SpendingInput { txid, vin, confirmed };
            assert(b@.subrange(pos as int, end as int) =~= b@.subrange(pos as int, pos + 37) + b@.subrange(pos + 37, end as int));
            assert(b@.subrange(pos as int, end as int) =~= spending_bytes(Some(sp)));
            Some((Some(sp), end))
        },
        None => None,
    }
}

/// An output whose script length fits the four-byte length field.
pub open spec fn vout_fits(v: VoutView) -> bool {
    v.script_pubkey.len() <= u32::MAX
}

fn read_vout(b: &Vec<u8>, pos: usize) -> (r: Option<(VoutData, usize)>)
    requires
        pos <= b@.len(),
    ensures
        r matches Some((d, end)) ==> pos <= end <= b@.len() && b@.subrange(pos as int, end as int) == vout_bytes(d@),
        forall|v: VoutView| vout_fits(v) && starts_with_at(b@, pos as int, #[trigger] vout_bytes(v)) ==> (r matches Some((d, end))
            && d@ == v && end == pos + vout_bytes(v).len()),
{
    if b.len() - pos < 20 {
        return None;
    }
    let vout = read_be_u64(b, pos);
    let amount = read_be_u64(b, pos + 8);
    let slen = read_be_u32(b, pos + 16);
    let p = pos + 20;
    proof {
        assert forall|v: VoutView| vout_fits(v) && starts_with_at(b@, pos as int, #[trigger] vout_bytes(v)) implies
            v.vout as u64 == vout && v.amount == amount && v.script_pubkey.len() == slen
            && b@.subrange(p as int, p + slen) == v.script_pubkey
            && starts_with_at(b@, p + slen, spending_bytes(v.spending_input)) by {
            let e = vout_bytes(v);
            let l = v.script_pubkey.len() as int;
            lemma_starts_with_part(b@, pos as int, e, 0, 8);
            assert(e.subrange(0, 8) =~= be_u64(v.vout as u64));
            crate::codec::lemma_be_u64_injective(v.vout as u64, vout);
            lemma_starts_with_part(b@, pos as int, e, 8, 16);
            assert(e.subrange(8, 16) =~= be_u64(v.amount));
            crate::codec::lemma_be_u64_injective(v.amount, amount);
            lemma_starts_with_part(b@, pos as int, e, 16, 20);
            assert(e.subrange(16, 20) =~= be_u32(l as u32));
            crate::codec::lemma_be_u32_injective(l as u32, slen);
            lemma_starts_with_part(b@, pos as int, e, 20, 20 + l);
            assert(e.subrange(20, 20 + l) =~= v.script_pubkey);
            lemma_starts_with_part(b@, pos as int, e, 20 + l, e.len() as int);
            assert(e.subrange(20 + l, e.len() as int) =~= spending_bytes(v.spending_input));
        }
    }
    if vout > usize::MAX as u64 {
        return None;
    }
    if b.len() - p < slen as usize {
        return None;
    }
    let script_pubkey = copy_range(b, p, p + slen as usize);
    let q = p + slen as usize;
    match read_spending(b, q) {
        Some((spending_input, end)) => {
            let d = VoutData { vout: vout as usize, amount, script_pubkey, spending_input };
            assert(b@.subrange(pos as int, end as int) =~= b@.subrange(pos as int, pos + 8) + b@.subrange(pos + 8, pos + 16)
                + b@.subrange(pos + 16, pos + 20) + b@.subrange(p as int, q as int) + b@.subrange(q as int, end as int));
            assert(b@.subrange(pos as int, end as int) =~= vout_bytes(d@));
            Some((d, end))
        },
        None => None,
    }
}

proof fn lemma_vouts_bytes_prefix(a: Seq<VoutView>, c: Seq<VoutView>, n: int)
    requires
        0 <= n <= a.len(),
        n <= c.len(),
        forall|j: int| 0 <= j < n ==> a[j] == c[j],
    ensures
        vouts_bytes(a, n) == vouts_bytes(c, n),
    decreases n,
{
    if n > 0 {
        lemma_vouts_bytes_prefix(a, c, n - 1);
    }
}

/// A tweak value that the `K` row format can hold: a 33-byte tweak, and a
/// count and script lengths that fit their four-byte fields.
pub open spec fn encodable(t: Seq<u8>, vs: Seq<VoutView>) -> bool {
    t.len() == 33 && vs.len() <= u32::MAX && forall|k: int| 0 <= k < vs.len() ==> vout_fits(#[trigger] vs[k])
}

proof fn lemma_vouts_bytes_step(vs: Seq<VoutView>, i: int, n: int)
    requires
        0 <= i < n <= vs.len(),
    ensures
        vouts_bytes(vs, n) == vouts_bytes(vs, i) + vout_bytes(vs[i]) + vouts_bytes(vs, n).subrange(
            vouts_bytes(vs, i + 1).len() as int,
            vouts_bytes(vs, n).len() as int,
        ),
        vouts_bytes(vs, i + 1).len() <= vouts_bytes(vs, n).len(),
        vouts_bytes(vs, n).subrange(0, vouts_bytes(vs, i + 1).len() as int) == vouts_bytes(vs, i + 1),
    decreases n - i,
{
    if n > i + 1 {
        lemma_vouts_bytes_step(vs, i, n - 1);
        assert(vouts_bytes(vs, n).subrange(0, vouts_bytes(vs, i + 1).len() as int) =~= vouts_bytes(vs, n - 1).subrange(0, vouts_bytes(vs, i + 1).len() as int));
    } else {
        assert(vouts_bytes(vs, n).subrange(0, vouts_bytes(vs, n).len() as int) =~= vouts_bytes(vs, n));
    }
    assert(vouts_bytes(vs, n) =~= vouts_bytes(vs, n).subrange(0, vouts_bytes(vs, i + 1).len() as int) + vouts_bytes(vs, n).subrange(
        vouts_bytes(vs, i + 1).len() as int,
        vouts_bytes(vs, n).len() as int,
    ));
}

/// Decodes the value of a `K` row into the raw tweak and the outputs; it
/// succeeds exactly on the encodings of encodable values.
pub fn decode_tweak_value(b: &Vec<u8>) -> (r: Option<(Vec<u8>, Vec<VoutData>)>)
    ensures
        r matches Some((t, vs)) ==> t@.len() == 33 && tweak_value_bytes(t@, vouts_view(vs@)) == b@,
        (exists|t: Seq<u8>, vs: Seq<VoutView>| encodable(t, vs) && #[trigger] tweak_value_bytes(t, vs) == b@) ==> r is Some,
{
    let ghost target: Option<(Seq<u8>, Seq<VoutView>)> = if exists|t: Seq<u8>, vs: Seq<VoutView>| encodable(t, vs) && #[trigger] tweak_value_bytes(t, vs) == b@ {
        Some(choose|t: Seq<u8>, vs: Seq<VoutView>| encodable(t, vs) && #[trigger] tweak_value_bytes(t, vs) == b@)
    } else {
        None
    };
    if b.len() < 37 {
        return None;
    }
    let tweak = copy_range(b, 0, 33);
    let count = read_be_u32(b, 33);
    proof {
        if let Some((t, tv)) = target {
            assert(b@.subrange(33, 37) =~= be_u32(tv.len() as u32));
            crate::codec::lemma_be_u32_injective(tv.len() as u32, count);
            assert(b@.subrange(0, 37) =~= t + be_u32(tv.len() as u32));
        }
    }
    let mut vs: Vec<VoutData> = Vec::new();
    let mut pos: usize = 37;
    let mut i: u32 = 0;
    assert(b@.subrange(0, 37) =~= tweak@ + be_u32(count) + vouts_bytes(vouts_view(vs@), 0));
    while i < count
        invariant
            0 <= i <= count,
            37 <= pos <= b@.len(),
            tweak@.len() == 33,
            vs@.len() == i,
            be_u32(count) == b@.subrange(33, 37),
            tweak@ == b@.subrange(0, 33),
            b@.subrange(0, pos as int) == tweak@ + be_u32(count) + vouts_bytes(vouts_view(vs@), i as int),
            (exists|t: Seq<u8>, vs: Seq<VoutView>| encodable(t, vs) && #[trigger] tweak_value_bytes(t, vs) == b@) ==> target is Some,
            target matches Some((t, tv)) ==> {
                &&& encodable(t, tv)
                &&& tweak_value_bytes(t, tv) == b@
                &&& tv.len() == count
                &&& t == tweak@
                &&& vouts_view(vs@) == tv.subrange(0, i as int)
            },
        decreases count - i,
    {
        proof {
            if let Some((t, tv)) = target {
                lemma_vouts_bytes_prefix(vouts_view(vs@), tv, i as int);
                lemma_vouts_bytes_step(tv, i as int, tv.len() as int);
                let e = vout_bytes(tv[i as int]);
                let pre = t + be_u32(count) + vouts_bytes(tv, i as int);
                assert(pre.len() == pos);
                assert(b@ =~= pre + e + vouts_bytes(tv, tv.len() as int).subrange(
                    vouts_bytes(tv, i + 1).len() as int,
                    vouts_bytes(tv, tv.len() as int).len() as int,
                ));
                assert(b@.subrange(pos as int, pos + e.len()) =~= e);
                assert(vout_fits(tv[i as int]));
                assert(starts_with_at(b@, pos as int, vout_bytes(tv[i as int])));
            }
        }
        match read_vout(b, pos) {
            Some((d, end)) => {
                let ghost old_vs = vs@;
                let ghost dv = d@;
                vs.push(d);
                proof {
                    assert(vouts_view(vs@) =~= vouts_view(old_vs).push(dv));
                    lemma_vouts_bytes_prefix(vouts_view(old_vs), vouts_view(vs@), i as int);
                    assert(b@.subrange(0, end as int) =~= b@.subrange(0, pos as int) + b@.subrange(pos as int, end as int));
                    if let Some((t, tv)) = target {
                        assert(vouts_view(vs@) =~= tv.subrange(0, i + 1));
                    }
                }
                pos = end;
                i += 1;
            },
            None => {
                return None;
            },
        }
    }
    proof {
        if let Some((t, tv)) = target {
            assert(tv.subrange(0, count as int) =~= tv);
            lemma_vouts_bytes_prefix(vouts_view(vs@), tv, count as int);
            assert(pos as int == b@.len());
        }
    }
    if pos != b.len() {
        return None;
    }
    assert(b@.subrange(0, pos as int) =~= b@);
    assert(vouts_view(vs@).len() as u32 == count);
    Some((tweak, vs))
}

/// The tweak data stored in a `K` row value: the tweak in hexadecimal and
/// the outputs; it succeeds exactly on the encodings of encodable values.
pub fn decode_tweak_data(value: &Vec<u8>) -> (r: Option<TweakData>)
    ensures
        r matches Some(td) ==> exists|t: Seq<u8>| #![trigger crate::codec::hex_lower(t)] t.len() == 33 && td.tweak@ == crate::codec::hex_lower(t)
            && tweak_value_bytes(t, vouts_view(td.vout_data@)) == value@,
        (exists|t: Seq<u8>, vs: Seq<VoutView>| encodable(t, vs) && #[trigger] tweak_value_bytes(t, vs) == value@) ==> r is Some,
{
    match decode_tweak_value(value) {
        Some((t, vs)) => {
            let td = get_tweak_data(&t, vs);
            assert(t@.len() == 33 && td.tweak@ == crate::codec::hex_lower(t@) && tweak_value_bytes(t@, vouts_view(td.vout_data@)) == value@);
            Some(td)
        },
        None => None,
    }
}


/// `K{height:be}{txid}`.
#[derive(Clone, Copy, Debug)]
pub struct TweakTxKey {
    pub blockheight: u32,
    pub txid: FullHash,
}

/// The tweak row of one transaction: its key, the raw tweak and the eligible outputs.
pub struct TweakTxRow {
    pub key: TweakTxKey,
    pub tweak: Vec<u8>,
    pub vout_data: Vec<VoutData>,
}

impl TweakTxRow {
    pub fn new(blockheight: u32, txid: FullHash, tweak: Vec<u8>, vout_data: Vec<VoutData>) -> (r: Self)
        ensures
            r.key == (TweakTxKey { blockheight, txid }),
            r.tweak@ == tweak@,
            vouts_view(r.vout_data@) == vouts_view(vout_data@),
    {
        TweakTxRow { key: TweakTxKey { blockheight, txid }, tweak, vout_data }
    }

    pub fn into_row(self) -> (r: DBRow)
        requires
            self.vout_data@.len() <= u32::MAX,
        ensures
            r.key@ == tweak_key_bytes(self.key.blockheight, self.key.txid),
            r.value@ == tweak_value_bytes(self.tweak@, vouts_view(self.vout_data@)),
    {
        DBRow { key: tweak_key(self.key.blockheight, &self.key.txid), value: encode_tweak_value(&self.tweak, &self.vout_data) }
    }

    /// Decodes a tweak row; when it succeeds the row is the encoding of the result.
    pub fn from_row(row: &DBRow) -> (r: Option<Self>)
        ensures
            r matches Some(t) ==> row.key@ == tweak_key_bytes(t.key.blockheight, t.key.txid) && t.tweak@.len() == 33
                && row.value@ == tweak_value_bytes(t.tweak@, vouts_view(t.vout_data@)),
            (tweak_key_parse_ok(row.key@) && exists|t: Seq<u8>, vs: Seq<VoutView>| encodable(t, vs) && #[trigger] tweak_value_bytes(t, vs) == row.value@)
                ==> r is Some,
    {
        match (tweak_key_parse(&row.key), decode_tweak_value(&row.value)) {
            (Some((blockheight, txid)), Some((tweak, vout_data))) => Some(
                TweakTxRow { key: TweakTxKey { blockheight, txid }, tweak, vout_data },
            ),
            _ => None,
        }
    }

    pub fn get_tweak_data(&self) -> (r: TweakData)
        ensures
            r.tweak@ == crate::codec::hex_lower(self.tweak@),
            vouts_view(r.vout_data@) == vouts_view(self.vout_data@),
    {
        let vout_data = clone_vouts(&self.vout_data);
        get_tweak_data(&self.tweak, vout_data)
    }
}

/// Some height and txid encode to this key.
pub open spec fn tweak_key_parse_ok(k: Seq<u8>) -> bool {
    exists|h: u32, t: FullHash| #[trigger] tweak_key_bytes(h, t) == k
}

fn clone_vouts(v: &Vec<VoutData>) -> (r: Vec<VoutData>)
    ensures
        vouts_view(r@) == vouts_view(v@),
{
    let mut r: Vec<VoutData> = Vec::new();
    let mut i: usize = 0;
    while i < v.len()
        invariant
            0 <= i <= v@.len(),
            vouts_view(r@) == vouts_view(v@).subrange(0, i as int),
        decreases v@.len() - i,
    {
        let d = VoutData {
            vout: v[i].vout,
            amount: v[i].amount,
            script_pubkey: v[i].script_pubkey.clone(),
            spending_input: v[i].spending_input,
        };
        let ghost prev = r@;
        r.push(d);
        assert(vouts_view(r@) =~= vouts_view(prev).push(d@));
        assert(vouts_view(r@) =~= vouts_view(v@).subrange(0, i + 1));
        i += 1;
    }
    assert(vouts_view(v@).subrange(0, v@.len() as int) =~= vouts_view(v@));
    r
}

} // verus!
