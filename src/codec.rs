use vstd::prelude::*;
use crate::types::{FullHash, OutPoint, DBRow};

verus! {

// ---------------------------------------------------------------------------
// Fixed-width integers
// ---------------------------------------------------------------------------

pub open spec fn be_u16(n: u16) -> Seq<u8> {
    seq![((n >> 8u16) & 0xffu16) as u8, (n & 0xffu16) as u8]
}

pub open spec fn le_u16(n: u16) -> Seq<u8> {
    seq![(n & 0xffu16) as u8, ((n >> 8u16) & 0xffu16) as u8]
}

pub open spec fn be_u32(n: u32) -> Seq<u8> {
    seq![
        ((n >> 24u32) & 0xffu32) as u8,
        ((n >> 16u32) & 0xffu32) as u8,
        ((n >> 8u32) & 0xffu32) as u8,
        (n & 0xffu32) as u8,
    ]
}

pub open spec fn le_u32(n: u32) -> Seq<u8> {
    be_u32(n).reverse()
}

pub open spec fn be_u64(n: u64) -> Seq<u8> {
    seq![
        ((n >> 56u64) & 0xffu64) as u8,
        ((n >> 48u64) & 0xffu64) as u8,
        ((n >> 40u64) & 0xffu64) as u8,
        ((n >> 32u64) & 0xffu64) as u8,
        ((n >> 24u64) & 0xffu64) as u8,
        ((n >> 16u64) & 0xffu64) as u8,
        ((n >> 8u64) & 0xffu64) as u8,
        (n & 0xffu64) as u8,
    ]
}

pub open spec fn le_u64(n: u64) -> Seq<u8> {
    be_u64(n).reverse()
}

/// Bitcoin's variable-length integer ("compact size") encoding.
pub open spec fn compact_size(n: u64) -> Seq<u8> {
    if n < 0xfd {
        seq![n as u8]
    } else if n <= 0xffff {
        seq![0xfdu8] + le_u16(n as u16)
    } else if n <= 0xffff_ffff {
        seq![0xfeu8] + le_u32(n as u32)
    } else {
        seq![0xffu8] + le_u64(n)
    }
}

/// Consensus encoding of a transaction output: value, script length, script.
pub open spec fn txout_encoding(value: u64, script: Seq<u8>) -> Seq<u8> {
    le_u64(value) + compact_size(script.len() as u64) + script
}

pub open spec fn hex_digit(d: u8) -> char {
    if d < 10 {
        (d + 48) as char
    } else {
        (d + 87) as char
    }
}

/// Lower-case hexadecimal, two digits per byte.
pub open spec fn hex_lower(b: Seq<u8>) -> Seq<char>
    decreases b.len(),
{
    if b.len() == 0 {
        Seq::empty()
    } else {
        hex_lower(b.drop_last()) + seq![hex_digit(b.last() / 16), hex_digit(b.last() % 16)]
    }
}

proof fn lemma_u16_bytes(b0: u8, b1: u8)
    ensures
        ({
            let n = ((b0 as u16) * 256u16 + (b1 as u16)) as u16;
            ((n >> 8u16) & 0xffu16) as u8 == b0 && (n & 0xffu16) as u8 == b1
        }),
{
    assert(({
        let n = ((b0 as u16) * 256u16 + (b1 as u16)) as u16;
        ((n >> 8u16) & 0xffu16) as u8 == b0 && (n & 0xffu16) as u8 == b1
    })) by (bit_vector);
}

proof fn lemma_u32_bytes(b0: u8, b1: u8, b2: u8, b3: u8)
    ensures
        ({
            let n = ((b0 as u32) * 0x1000000u32 + (b1 as u32) * 0x10000u32 + (b2 as u32) * 0x100u32 + (b3 as u32)) as u32;
            &&& ((n >> 24u32) & 0xffu32) as u8 == b0
            &&& ((n >> 16u32) & 0xffu32) as u8 == b1
            &&& ((n >> 8u32) & 0xffu32) as u8 == b2
            &&& (n & 0xffu32) as u8 == b3
        }),
{
    assert(({
        let n = ((b0 as u32) * 0x1000000u32 + (b1 as u32) * 0x10000u32 + (b2 as u32) * 0x100u32 + (b3 as u32)) as u32;
        &&& ((n >> 24u32) & 0xffu32) as u8 == b0
        &&& ((n >> 16u32) & 0xffu32) as u8 == b1
        &&& ((n >> 8u32) & 0xffu32) as u8 == b2
        &&& (n & 0xffu32) as u8 == b3
    })) by (bit_vector);
}

pub fn push_be_u16(v: &mut Vec<u8>, n: u16)
    ensures
        final(v)@ == old(v)@ + be_u16(n),
{
    v.push(((n >> 8u16) & 0xffu16) as u8);
    v.push((n & 0xffu16) as u8);
    assert(final(v)@ =~= old(v)@ + be_u16(n));
}

pub fn push_be_u32(v: &mut Vec<u8>, n: u32)
    ensures
        final(v)@ == old(v)@ + be_u32(n),
{
    v.push(((n >> 24u32) & 0xffu32) as u8);
    v.push(((n >> 16u32) & 0xffu32) as u8);
    v.push(((n >> 8u32) & 0xffu32) as u8);
    v.push((n & 0xffu32) as u8);
    assert(final(v)@ =~= old(v)@ + be_u32(n));
}

pub fn push_be_u64(v: &mut Vec<u8>, n: u64)
    ensures
        final(v)@ == old(v)@ + be_u64(n),
{
    v.push(((n >> 56u64) & 0xffu64) as u8);
    v.push(((n >> 48u64) & 0xffu64) as u8);
    v.push(((n >> 40u64) & 0xffu64) as u8);
    v.push(((n >> 32u64) & 0xffu64) as u8);
    v.push(((n >> 24u64) & 0xffu64) as u8);
    v.push(((n >> 16u64) & 0xffu64) as u8);
    v.push(((n >> 8u64) & 0xffu64) as u8);
    v.push((n & 0xffu64) as u8);
    assert(final(v)@ =~= old(v)@ + be_u64(n));
}

pub fn read_be_u16(b: &Vec<u8>, at: usize) -> (r: u16)
    requires
        at + 2 <= b.len(),
    ensures
        be_u16(r) == b@.subrange(at as int, at + 2),
{
    let r = (b[at] as u16) * 256u16 + (b[at + 1] as u16);
    proof {
        lemma_u16_bytes(b@[at as int], b@[at + 1]);
    }
    assert(be_u16(r) =~= b@.subrange(at as int, at + 2));
    r
}

pub fn read_be_u32(b: &Vec<u8>, at: usize) -> (r: u32)
    requires
        at + 4 <= b.len(),
    ensures
        be_u32(r) == b@.subrange(at as int, at + 4),
{
    let r = (b[at] as u32) * 0x1000000u32 + (b[at + 1] as u32) * 0x10000u32 + (b[at + 2] as u32)
        * 0x100u32 + (b[at + 3] as u32);
    proof {
        lemma_u32_bytes(b@[at as int], b@[at + 1], b@[at + 2], b@[at + 3]);
    }
    assert(be_u32(r) =~= b@.subrange(at as int, at + 4));
    r
}

pub fn read_be_u64(b: &Vec<u8>, at: usize) -> (r: u64)
    requires
        at + 8 <= b.len(),
    ensures
        be_u64(r) == b@.subrange(at as int, at + 8),
{
    let hi = read_be_u32(b, at);
    let lo = read_be_u32(b, at + 4);
    let r = (hi as u64) * 0x1_0000_0000u64 + (lo as u64);
    assert(((r >> 56u64) & 0xffu64) as u8 == ((hi >> 24u32) & 0xffu32) as u8 && ((r >> 48u64)
        & 0xffu64) as u8 == ((hi >> 16u32) & 0xffu32) as u8 && ((r >> 40u64) & 0xffu64) as u8
        == ((hi >> 8u32) & 0xffu32) as u8 && ((r >> 32u64) & 0xffu64) as u8 == (hi & 0xffu32) as u8
        && ((r >> 24u64) & 0xffu64) as u8 == ((lo >> 24u32) & 0xffu32) as u8 && ((r >> 16u64)
        & 0xffu64) as u8 == ((lo >> 16u32) & 0xffu32) as u8 && ((r >> 8u64) & 0xffu64) as u8
        == ((lo >> 8u32) & 0xffu32) as u8 && (r & 0xffu64) as u8 == (lo & 0xffu32) as u8)
        by (bit_vector)
        requires
            r == ((hi as u64) * 0x1_0000_0000u64 + (lo as u64)) as u64,
    ;
    assert(be_u64(r) =~= be_u32(hi) + be_u32(lo));
    assert(b@.subrange(at as int, at + 8) =~= b@.subrange(at as int, at + 4) + b@.subrange(
        at + 4,
        at + 8,
    ));
    r
}

/// Appends the 32 bytes of a hash.
pub fn push_hash(v: &mut Vec<u8>, h: &FullHash)
    ensures
        final(v)@ == old(v)@ + h@,
{
    let mut i: usize = 0;
    while i < 32
        invariant
            0 <= i <= 32,
            h@.len() == 32,
            v@ == old(v)@ + h@.subrange(0, i as int),
        decreases 32 - i,
    {
        v.push(h[i]);
        assert(h@.subrange(0, i + 1) =~= h@.subrange(0, i as int).push(h@[i as int]));
        i += 1;
    }
    assert(h@.subrange(0, 32) =~= h@);
}

/// Reads 32 bytes starting at `at` as a hash.
pub fn read_hash(b: &Vec<u8>, at: usize) -> (r: FullHash)
    requires
        at + 32 <= b.len(),
    ensures
        r@ == b@.subrange(at as int, at + 32),
{
    let mut h: FullHash = [0u8; 32];
    let mut i: usize = 0;
    while i < 32
        invariant
            0 <= i <= 32,
            at + 32 <= b.len(),
            h@.len() == 32,
            forall|j: int| 0 <= j < i ==> h@[j] == b@[at + j],
        decreases 32 - i,
    {
        h.set(i, b[at + i]);
        i += 1;
    }
    assert(h@ =~= b@.subrange(at as int, at + 32));
    h
}

/// Appends all bytes of `src`.
pub fn push_bytes(v: &mut Vec<u8>, src: &Vec<u8>)
    ensures
        final(v)@ == old(v)@ + src@,
{
    let mut i: usize = 0;
    while i < src.len()
        invariant
            0 <= i <= src@.len(),
            v@ == old(v)@ + src@.subrange(0, i as int),
        decreases src@.len() - i,
    {
        v.push(src[i]);
        assert(src@.subrange(0, i + 1) =~= src@.subrange(0, i as int).push(src@[i as int]));
        i += 1;
    }
    assert(src@.subrange(0, src@.len() as int) =~= src@);
}

} // verus!

verus! {

// ---------------------------------------------------------------------------
// Row families. Each key starts with a one-byte code; composite keys are
// fixed-width concatenations, all integers big-endian.
// ---------------------------------------------------------------------------

pub const CODE_TX: u8 = 0x54; // 'T'
pub const CODE_CONF: u8 = 0x43; // 'C'
pub const CODE_TXOUT: u8 = 0x4f; // 'O'
pub const CODE_HEADER: u8 = 0x42; // 'B'
pub const CODE_TXIDS: u8 = 0x58; // 'X'
pub const CODE_META: u8 = 0x4d; // 'M'
pub const CODE_DONE: u8 = 0x44; // 'D'
pub const CODE_HISTORY: u8 = 0x48; // 'H'
pub const CODE_EDGE: u8 = 0x53; // 'S'
pub const CODE_ADDRESS: u8 = 0x61; // 'a'
pub const CODE_TWEAK_TX: u8 = 0x4b; // 'K'
pub const CODE_TWEAKS: u8 = 0x57; // 'W'
pub const CODE_STATS_CACHE: u8 = 0x41; // 'A'
pub const CODE_UTXO_CACHE: u8 = 0x55; // 'U'
/// The synced-tip sentinel of the txstore namespace: the commit point of an update.
pub const CODE_TIP: u8 = 0x74; // 't'
pub const TAG_FUNDING: u8 = 0x46; // 'F'
pub const TAG_SPENDING: u8 = 0x53; // 'S'

#[derive(Clone, Copy, Debug)]
pub struct FundingInfo {
    pub txid: FullHash,
    pub vout: u16,
    pub value: u64,
}

#[derive(Clone, Copy, Debug)]
pub struct SpendingInfo {
    /// The spending transaction.
    pub txid: FullHash,
    pub vin: u16,
    /// The funding transaction.
    pub prev_txid: FullHash,
    pub prev_vout: u16,
    pub value: u64,
}

#[derive(Clone, Copy, Debug)]
pub enum TxHistoryInfo {
    Funding(FundingInfo),
    Spending(SpendingInfo),
}

#[derive(Clone, Copy, Debug)]
pub struct TxHistoryKey {
    /// `H` for script history.
    pub code: u8,
    pub hash: FullHash,
    pub confirmed_height: u32,
    pub txinfo: TxHistoryInfo,
}

#[derive(Clone, Copy, Debug)]
pub struct TxHistoryRow {
    pub key: TxHistoryKey,
}

pub open spec fn info_bytes(i: TxHistoryInfo) -> Seq<u8> {
    match i {
        TxHistoryInfo::Funding(f) => seq![TAG_FUNDING] + f.txid@ + be_u16(f.vout) + be_u64(f.value),
        TxHistoryInfo::Spending(s) => seq![TAG_SPENDING] + s.txid@ + be_u16(s.vin) + s.prev_txid@
            + be_u16(s.prev_vout) + be_u64(s.value),
    }
}

/// `{code}{hash}{height:be}{F|S}{...}`.
pub open spec fn history_key_bytes(k: TxHistoryKey) -> Seq<u8> {
    seq![k.code] + k.hash@ + be_u32(k.confirmed_height) + info_bytes(k.txinfo)
}

pub open spec fn info_txid(i: TxHistoryInfo) -> FullHash {
    match i {
        TxHistoryInfo::Funding(f) => f.txid,
        TxHistoryInfo::Spending(s) => s.txid,
    }
}

/// For a funding row the funded output; for a spending row the spent output.
pub open spec fn info_funded_outpoint(i: TxHistoryInfo) -> OutPoint {
    match i {
        TxHistoryInfo::Funding(f) => OutPoint { txid: f.txid, vout: f.vout as u32 },
        TxHistoryInfo::Spending(s) => OutPoint { txid: s.prev_txid, vout: s.prev_vout as u32 },
    }
}

pub open spec fn info_value(i: TxHistoryInfo) -> u64 {
    match i {
        TxHistoryInfo::Funding(f) => f.value,
        TxHistoryInfo::Spending(s) => s.value,
    }
}

pub open spec fn is_funding(i: TxHistoryInfo) -> bool {
    i is Funding
}

impl TxHistoryInfo {
    pub fn get_txid(&self) -> (r: FullHash)
        ensures
            r == info_txid(*self),
    {
        match self {
            TxHistoryInfo::Funding(f) => f.txid,
            TxHistoryInfo::Spending(s) => s.txid,
        }
    }

    pub fn get_funded_outpoint(&self) -> (r: OutPoint)
        ensures
            r == info_funded_outpoint(*self),
    {
        match self {
            TxHistoryInfo::Funding(f) => OutPoint { txid: f.txid, vout: f.vout as u32 },
            TxHistoryInfo::Spending(s) => OutPoint { txid: s.prev_txid, vout: s.prev_vout as u32 },
        }
    }
}

impl TxHistoryRow {
    /// A script-history row of the script whose hash is `scripthash`.
    pub fn new(scripthash: FullHash, confirmed_height: u32, txinfo: TxHistoryInfo) -> (r: Self)
        ensures
            r.key == (TxHistoryKey { code: CODE_HISTORY, hash: scripthash, confirmed_height, txinfo }),
    {
        TxHistoryRow { key: TxHistoryKey { code: CODE_HISTORY, hash: scripthash, confirmed_height, txinfo } }
    }

    /// The bytes that every row of `code` whose hash starts with `hash_prefix` starts with.
    pub fn filter(code: u8, hash_prefix: &Vec<u8>) -> (r: Vec<u8>)
        ensures
            r@ == seq![code] + hash_prefix@,
    {
        let mut v: Vec<u8> = Vec::new();
        v.push(code);
        push_bytes(&mut v, hash_prefix);
        v
    }

    /// The first key of the rows of `hash` confirmed at `height` or later.
    pub fn prefix_height(code: u8, hash: &FullHash, height: u32) -> (r: Vec<u8>)
        ensures
            r@ == seq![code] + hash@ + be_u32(height),
    {
        let mut v: Vec<u8> = Vec::new();
        v.push(code);
        push_hash(&mut v, hash);
        push_be_u32(&mut v, height);
        v
    }

    /// The height prefix past every row of `hash` (height `u32::MAX`).
    pub fn prefix_end(code: u8, hash: &FullHash) -> (r: Vec<u8>)
        ensures
            r@ == seq![code] + hash@ + be_u32(0xffff_ffffu32),
    {
        Self::prefix_height(code, hash, 0xffff_ffffu32)
    }

    pub fn into_row(self) -> (r: DBRow)
        ensures
            r.key@ == history_key_bytes(self.key),
            r.value@.len() == 0,
    {
        let mut v: Vec<u8> = Vec::new();
        v.push(self.key.code);
        push_hash(&mut v, &self.key.hash);
        push_be_u32(&mut v, self.key.confirmed_height);
        match self.key.txinfo {
            TxHistoryInfo::Funding(f) => {
                v.push(TAG_FUNDING);
                push_hash(&mut v, &f.txid);
                push_be_u16(&mut v, f.vout);
                push_be_u64(&mut v, f.value);
            },
            TxHistoryInfo::Spending(s) => {
                v.push(TAG_SPENDING);
                push_hash(&mut v, &s.txid);
                push_be_u16(&mut v, s.vin);
                push_hash(&mut v, &s.prev_txid);
                push_be_u16(&mut v, s.prev_vout);
                push_be_u64(&mut v, s.value);
            },
        }
        assert(v@ =~= history_key_bytes(self.key));
        DBRow { key: v, value: Vec::new() }
    }

    /// Decodes a history key; `None` exactly when no key encodes to these bytes.
    pub fn from_row(row: &DBRow) -> (r: Option<TxHistoryRow>)
        ensures
            match r {
                Some(h) => history_key_bytes(h.key) == row.key@,
                None => forall|k: TxHistoryKey| history_key_bytes(k) != row.key@,
            },
    {
        let b = &row.key;
        if b.len() == 80 && b[37] == TAG_FUNDING {
            let hash = read_hash(b, 1);
            let height = read_be_u32(b, 33);
            let txid = read_hash(b, 38);
            let vout = read_be_u16(b, 70);
            let value = read_be_u64(b, 72);
            let key = TxHistoryKey {
                code: b[0],
                hash,
                confirmed_height: height,
                txinfo: TxHistoryInfo::Funding(FundingInfo { txid, vout, value }),
            };
            assert(history_key_bytes(key) =~= b@);
            Some(TxHistoryRow { key })
        } else if b.len() == 114 && b[37] == TAG_SPENDING {
            let hash = read_hash(b, 1);
            let height = read_be_u32(b, 33);
            let txid = read_hash(b, 38);
            let vin = read_be_u16(b, 70);
            let prev_txid = read_hash(b, 72);
            let prev_vout = read_be_u16(b, 104);
            let value = read_be_u64(b, 106);
            let key = TxHistoryKey {
                code: b[0],
                hash,
                confirmed_height: height,
                txinfo: TxHistoryInfo::Spending(SpendingInfo { txid, vin, prev_txid, prev_vout, value }),
            };
            assert(history_key_bytes(key) =~= b@);
            Some(TxHistoryRow { key })
        } else {
            assert forall|k: TxHistoryKey| history_key_bytes(k) != b@ by {
                let e = history_key_bytes(k);
                match k.txinfo {
                    TxHistoryInfo::Funding(f) => {
                        assert(e.len() == 80);
                        assert(e[37] == TAG_FUNDING);
                    },
                    TxHistoryInfo::Spending(s) => {
                        assert(e.len() == 114);
                        assert(e[37] == TAG_SPENDING);
                    },
                }
            }
            None
        }
    }

    pub fn get_txid(&self) -> (r: FullHash)
        ensures
            r == info_txid(self.key.txinfo),
    {
        self.key.txinfo.get_txid()
    }

    pub fn get_funded_outpoint(&self) -> (r: OutPoint)
        ensures
            r == info_funded_outpoint(self.key.txinfo),
    {
        self.key.txinfo.get_funded_outpoint()
    }
}

} // verus!

verus! {

/// `S{funding_txid}{funding_vout}{spending_txid}{spending_vin}`: which input spends an output.
#[derive(Clone, Copy, Debug)]
pub struct TxEdgeKey {
    pub funding_txid: FullHash,
    pub funding_vout: u16,
    pub spending_txid: FullHash,
    pub spending_vin: u16,
}

#[derive(Clone, Copy, Debug)]
pub struct TxEdgeRow {
    pub key: TxEdgeKey,
}

pub open spec fn edge_key_bytes(k: TxEdgeKey) -> Seq<u8> {
    seq![CODE_EDGE] + k.funding_txid@ + be_u16(k.funding_vout) + k.spending_txid@ + be_u16(
        k.spending_vin,
    )
}

/// The bytes that every edge row of an outpoint starts with.
pub open spec fn edge_filter_bytes(o: OutPoint) -> Seq<u8> {
    seq![CODE_EDGE] + o.txid@ + be_u16(o.vout as u16)
}

impl TxEdgeRow {
    pub fn new(funding_txid: FullHash, funding_vout: u16, spending_txid: FullHash, spending_vin: u16) -> (r: Self)
        ensures
            r.key == (TxEdgeKey { funding_txid, funding_vout, spending_txid, spending_vin }),
    {
        TxEdgeRow { key: TxEdgeKey { funding_txid, funding_vout, spending_txid, spending_vin } }
    }

    pub fn filter(outpoint: &OutPoint) -> (r: Vec<u8>)
        ensures
            r@ == edge_filter_bytes(*outpoint),
    {
        let mut v: Vec<u8> = Vec::new();
        v.push(CODE_EDGE);
        push_hash(&mut v, &outpoint.txid);
        push_be_u16(&mut v, outpoint.vout as u16);
        v
    }

    pub fn into_row(self) -> (r: DBRow)
        ensures
            r.key@ == edge_key_bytes(self.key),
            r.value@.len() == 0,
    {
        let mut v: Vec<u8> = Vec::new();
        v.push(CODE_EDGE);
        push_hash(&mut v, &self.key.funding_txid);
        push_be_u16(&mut v, self.key.funding_vout);
        push_hash(&mut v, &self.key.spending_txid);
        push_be_u16(&mut v, self.key.spending_vin);
        assert(v@ =~= edge_key_bytes(self.key));
        DBRow { key: v, value: Vec::new() }
    }

    /// Decodes an edge key; `None` exactly when no edge key encodes to these bytes.
    pub fn from_row(row: &DBRow) -> (r: Option<TxEdgeRow>)
        ensures
            match r {
                Some(e) => edge_key_bytes(e.key) == row.key@,
                None => forall|k: TxEdgeKey| edge_key_bytes(k) != row.key@,
            },
    {
        let b = &row.key;
        if b.len() == 69 && b[0] == CODE_EDGE {
            let key = TxEdgeKey {
                funding_txid: read_hash(b, 1),
                funding_vout: read_be_u16(b, 33),
                spending_txid: read_hash(b, 35),
                spending_vin: read_be_u16(b, 67),
            };
            assert(edge_key_bytes(key) =~= b@);
            Some(TxEdgeRow { key })
        } else {
            assert forall|k: TxEdgeKey| edge_key_bytes(k) != b@ by {
                assert(edge_key_bytes(k).len() == 69);
                assert(edge_key_bytes(k)[0] == CODE_EDGE);
            }
            None
        }
    }
}

/// `C{txid}{blockhash}`: a transaction was confirmed in a block.
pub open spec fn conf_key_bytes(txid: FullHash, blockhash: FullHash) -> Seq<u8> {
    seq![CODE_CONF] + txid@ + blockhash@
}

pub struct TxConfRow {
    pub txid: FullHash,
    pub blockhash: FullHash,
}

impl TxConfRow {
    pub fn new(txid: FullHash, blockhash: FullHash) -> (r: Self)
        ensures
            r.txid == txid,
            r.blockhash == blockhash,
    {
        TxConfRow { txid, blockhash }
    }

    pub fn filter(txid: &FullHash) -> (r: Vec<u8>)
        ensures
            r@ == seq![CODE_CONF] + txid@,
    {
        let mut v: Vec<u8> = Vec::new();
        v.push(CODE_CONF);
        push_hash(&mut v, txid);
        v
    }

    pub fn into_row(self) -> (r: DBRow)
        ensures
            r.key@ == conf_key_bytes(self.txid, self.blockhash),
            r.value@.len() == 0,
    {
        let mut v: Vec<u8> = Vec::new();
        v.push(CODE_CONF);
        push_hash(&mut v, &self.txid);
        push_hash(&mut v, &self.blockhash);
        DBRow { key: v, value: Vec::new() }
    }

    /// Decodes a confirmation key; `None` exactly when no such key encodes to these bytes.
    pub fn from_row(row: &DBRow) -> (r: Option<TxConfRow>)
        ensures
            match r {
                Some(c) => conf_key_bytes(c.txid, c.blockhash) == row.key@,
                None => forall|t: FullHash, h: FullHash| conf_key_bytes(t, h) != row.key@,
            },
    {
        let b = &row.key;
        if b.len() == 65 && b[0] == CODE_CONF {
            let c = TxConfRow { txid: read_hash(b, 1), blockhash: read_hash(b, 33) };
            assert(conf_key_bytes(c.txid, c.blockhash) =~= b@);
            Some(c)
        } else {
            assert forall|t: FullHash, h: FullHash| conf_key_bytes(t, h) != b@ by {
                assert(conf_key_bytes(t, h).len() == 65);
                assert(conf_key_bytes(t, h)[0] == CODE_CONF);
            }
            None
        }
    }
}

/// `T{txid}` holds the raw transaction.
pub open spec fn tx_key_bytes(txid: FullHash) -> Seq<u8> {
    seq![CODE_TX] + txid@
}

/// `O{txid}{vout}` holds the serialized output.
pub open spec fn txout_key_bytes(txid: FullHash, vout: u16) -> Seq<u8> {
    seq![CODE_TXOUT] + txid@ + be_u16(vout)
}

/// `{code}{blockhash}`: the block rows (header, txids, meta, tweaks, done marker).
pub open spec fn block_key_bytes(code: u8, hash: FullHash) -> Seq<u8> {
    seq![code] + hash@
}

pub fn tx_key(txid: &FullHash) -> (r: Vec<u8>)
    ensures
        r@ == tx_key_bytes(*txid),
{
    let mut v: Vec<u8> = Vec::new();
    v.push(CODE_TX);
    push_hash(&mut v, txid);
    v
}

/// The key of an output's row; the output index is kept to its low 16 bits.
pub fn txout_key(outpoint: &OutPoint) -> (r: Vec<u8>)
    ensures
        r@ == txout_key_bytes(outpoint.txid, outpoint.vout as u16),
{
    let mut v: Vec<u8> = Vec::new();
    v.push(CODE_TXOUT);
    push_hash(&mut v, &outpoint.txid);
    push_be_u16(&mut v, outpoint.vout as u16);
    v
}

pub fn block_key(code: u8, hash: &FullHash) -> (r: Vec<u8>)
    ensures
        r@ == block_key_bytes(code, *hash),
{
    let mut v: Vec<u8> = Vec::new();
    v.push(code);
    push_hash(&mut v, hash);
    v
}

/// Reads the block hash of a `{code}{blockhash}` key, such as a done marker.
pub fn block_key_hash(code: u8, key: &Vec<u8>) -> (r: Option<FullHash>)
    ensures
        match r {
            Some(h) => block_key_bytes(code, h) == key@,
            None => forall|h: FullHash| block_key_bytes(code, h) != key@,
        },
{
    if key.len() == 33 && key[0] == code {
        let h = read_hash(key, 1);
        assert(block_key_bytes(code, h) =~= key@);
        Some(h)
    } else {
        assert forall|h: FullHash| block_key_bytes(code, h) != key@ by {
            assert(block_key_bytes(code, h).len() == 33);
            assert(block_key_bytes(code, h)[0] == code);
        }
        None
    }
}

/// `K{height:be}{txid}`: the tweak data of one transaction.
pub open spec fn tweak_key_bytes(height: u32, txid: FullHash) -> Seq<u8> {
    seq![CODE_TWEAK_TX] + be_u32(height) + txid@
}

/// The first key of the tweak rows at `height` or above.
pub fn tweak_prefix_height(height: u32) -> (r: Vec<u8>)
    ensures
        r@ == seq![CODE_TWEAK_TX] + be_u32(height),
{
    let mut v: Vec<u8> = Vec::new();
    v.push(CODE_TWEAK_TX);
    push_be_u32(&mut v, height);
    v
}

pub fn tweak_key(height: u32, txid: &FullHash) -> (r: Vec<u8>)
    ensures
        r@ == tweak_key_bytes(height, *txid),
{
    let mut v = tweak_prefix_height(height);
    push_hash(&mut v, txid);
    v
}

/// Decodes a tweak key into its height and txid.
pub fn tweak_key_parse(key: &Vec<u8>) -> (r: Option<(u32, FullHash)>)
    ensures
        match r {
            Some((h, t)) => tweak_key_bytes(h, t) == key@,
            None => forall|h: u32, t: FullHash| tweak_key_bytes(h, t) != key@,
        },
{
    if key.len() == 37 && key[0] == CODE_TWEAK_TX {
        let h = read_be_u32(key, 1);
        let t = read_hash(key, 5);
        assert(tweak_key_bytes(h, t) =~= key@);
        Some((h, t))
    } else {
        assert forall|h: u32, t: FullHash| tweak_key_bytes(h, t) != key@ by {
            assert(tweak_key_bytes(h, t).len() == 37);
            assert(tweak_key_bytes(h, t)[0] == CODE_TWEAK_TX);
        }
        None
    }
}

/// `{code}{scripthash}`: the stats (`A`) and UTXO (`U`) cache keys.
pub fn script_cache_key(code: u8, scripthash: &FullHash) -> (r: Vec<u8>)
    ensures
        r@ == seq![code] + scripthash@,
{
    block_key(code, scripthash)
}

/// `a{address}`: the key of an address-search row.
pub fn addr_search_key(address: &Vec<u8>) -> (r: Vec<u8>)
    ensures
        r@ == seq![CODE_ADDRESS] + address@,
{
    let mut v: Vec<u8> = Vec::new();
    v.push(CODE_ADDRESS);
    push_bytes(&mut v, address);
    v
}


/// Distinct heights have distinct big-endian encodings.
pub proof fn lemma_be_u32_injective(a: u32, b: u32)
    requires
        be_u32(a) == be_u32(b),
    ensures
        a == b,
{
    assert(be_u32(a)[0] == be_u32(b)[0]);
    assert(be_u32(a)[1] == be_u32(b)[1]);
    assert(be_u32(a)[2] == be_u32(b)[2]);
    assert(be_u32(a)[3] == be_u32(b)[3]);
    assert(a == b) by (bit_vector)
        requires
            ((a >> 24u32) & 0xffu32) as u8 == ((b >> 24u32) & 0xffu32) as u8,
            ((a >> 16u32) & 0xffu32) as u8 == ((b >> 16u32) & 0xffu32) as u8,
            ((a >> 8u32) & 0xffu32) as u8 == ((b >> 8u32) & 0xffu32) as u8,
            (a & 0xffu32) as u8 == (b & 0xffu32) as u8,
    ;
}

/// Every 32 bytes are the bytes of some hash.
pub proof fn lemma_hash_exists(t: Seq<u8>)
    requires
        t.len() == 32,
    ensures
        exists|h: FullHash| h@ == t,
{
    let h: FullHash = [t[0], t[1], t[2], t[3], t[4], t[5], t[6], t[7], t[8], t[9], t[10], t[11], t[12],
        t[13], t[14], t[15], t[16], t[17], t[18], t[19], t[20], t[21], t[22], t[23], t[24], t[25],
        t[26], t[27], t[28], t[29], t[30], t[31]];
    assert(h@ =~= t);
}


pub proof fn lemma_be_u64_injective(a: u64, b: u64)
    requires
        be_u64(a) == be_u64(b),
    ensures
        a == b,
{
    assert(be_u64(a)[0] == be_u64(b)[0]);
    assert(be_u64(a)[1] == be_u64(b)[1]);
    assert(be_u64(a)[2] == be_u64(b)[2]);
    assert(be_u64(a)[3] == be_u64(b)[3]);
    assert(be_u64(a)[4] == be_u64(b)[4]);
    assert(be_u64(a)[5] == be_u64(b)[5]);
    assert(be_u64(a)[6] == be_u64(b)[6]);
    assert(be_u64(a)[7] == be_u64(b)[7]);
    assert(a == b) by (bit_vector)
        requires
            ((a >> 56u64) & 0xffu64) as u8 == ((b >> 56u64) & 0xffu64) as u8,
            ((a >> 48u64) & 0xffu64) as u8 == ((b >> 48u64) & 0xffu64) as u8,
            ((a >> 40u64) & 0xffu64) as u8 == ((b >> 40u64) & 0xffu64) as u8,
            ((a >> 32u64) & 0xffu64) as u8 == ((b >> 32u64) & 0xffu64) as u8,
            ((a >> 24u64) & 0xffu64) as u8 == ((b >> 24u64) & 0xffu64) as u8,
            ((a >> 16u64) & 0xffu64) as u8 == ((b >> 16u64) & 0xffu64) as u8,
            ((a >> 8u64) & 0xffu64) as u8 == ((b >> 8u64) & 0xffu64) as u8,
            (a & 0xffu64) as u8 == (b & 0xffu64) as u8,
    ;
}


/// `B{height:be}` in the tweak namespace: the tip height up to which the
/// tweaks of a block height were last brought up to date.
pub struct TweakBlockRecordCacheRow {
    pub height: u32,
    pub value: u32,
}

impl TweakBlockRecordCacheRow {
    pub fn new(height: u32, tip: u32) -> (r: Self)
        ensures
            r.height == height && r.value == tip,
    {
        TweakBlockRecordCacheRow { height, value: tip }
    }

    pub fn key(height: u32) -> (r: Vec<u8>)
        ensures
            r@ == seq![CODE_HEADER] + be_u32(height),
    {
        let mut v: Vec<u8> = Vec::new();
        v.push(CODE_HEADER);
        push_be_u32(&mut v, height);
        v
    }

    pub fn value(tip: u32) -> (r: Vec<u8>)
        ensures
            r@ == be_u32(tip),
    {
        let mut v: Vec<u8> = Vec::new();
        push_be_u32(&mut v, tip);
        assert(v@ =~= be_u32(tip));
        v
    }

    pub fn into_row(self) -> (r: DBRow)
        ensures
            r.key@ == seq![CODE_HEADER] + be_u32(self.height),
            r.value@ == be_u32(self.value),
    {
        DBRow { key: Self::key(self.height), value: Self::value(self.value) }
    }

    /// Decodes the row; `None` unless the key is `B` and four bytes and the value four bytes.
    pub fn from_row(row: &DBRow) -> (r: Option<Self>)
        ensures
            match r {
                Some(c) => row.key@ == seq![CODE_HEADER] + be_u32(c.height) && row.value@ == be_u32(c.value),
                None => !(row.key@.len() == 5 && row.key@[0] == CODE_HEADER && row.value@.len() == 4),
            },
    {
        if row.key.len() == 5 && row.key[0] == CODE_HEADER && row.value.len() == 4 {
            let height = read_be_u32(&row.key, 1);
            let value = read_be_u32(&row.value, 0);
            assert(row.key@ =~= seq![CODE_HEADER] + row.key@.subrange(1, 5));
            assert(row.value@ =~= row.value@.subrange(0, 4));
            Some(TweakBlockRecordCacheRow { height, value })
        } else {
            None
        }
    }
}


pub fn read_le_u32(b: &Vec<u8>, at: usize) -> (r: u32)
    requires
        at + 4 <= b.len(),
    ensures
        le_u32(r) == b@.subrange(at as int, at + 4),
{
    let r = (b[at + 3] as u32) * 0x1000000u32 + (b[at + 2] as u32) * 0x10000u32 + (b[at + 1] as u32)
        * 0x100u32 + (b[at] as u32);
    proof {
        lemma_u32_bytes(b@[at + 3], b@[at + 2], b@[at + 1], b@[at as int]);
    }
    assert(le_u32(r) =~= b@.subrange(at as int, at + 4));
    r
}

/// The previous-block hash (bytes 4 to 36) and the time (bytes 68 to 72,
/// little-endian) of a serialized 80-byte block header; `None` for any other length.
pub fn header_prev_time(header: &Vec<u8>) -> (r: Option<(FullHash, u32)>)
    ensures
        header@.len() != 80 ==> r is None,
        header@.len() == 80 ==> (r matches Some((prev, time)) && prev@ == header@.subrange(4, 36) && le_u32(time)
            == header@.subrange(68, 72)),
{
    if header.len() != 80 {
        return None;
    }
    Some((read_hash(header, 4), read_le_u32(header, 68)))
}

} // verus!
