use vstd::prelude::*;

verus! {

/// A 32-byte hash in its internal (serialized) byte order: transaction ids,
/// block hashes and script hashes.
pub type FullHash = [u8; 32];

/// The chain whose addresses the address-search rows spell.
#[derive(Clone, Copy, Debug, PartialEq, Eq, Structural)]
pub enum Network {
    Bitcoin,
    Testnet,
    Signet,
    Regtest,
}

pub open spec fn network_code(n: Network) -> u8 {
    match n {
        Network::Bitcoin => 0,
        Network::Testnet => 1,
        Network::Signet => 2,
        Network::Regtest => 3,
    }
}

/// One entry of the best-chain header list.
#[derive(Clone, Copy, Debug)]
pub struct HeaderEntry {
    pub height: usize,
    pub hash: FullHash,
    pub prev: FullHash,
    pub time: u32,
}

/// A value copy of a header entry, used to tag query results.
#[derive(Clone, Copy, Debug)]
pub struct BlockId {
    pub height: usize,
    pub hash: FullHash,
    pub time: u32,
}

pub open spec fn blockid_of(e: HeaderEntry) -> BlockId {
    BlockId { height: e.height, hash: e.hash, time: e.time }
}

/// `(txid, vout)`: the identifier of a transaction output.
#[derive(Clone, Copy, Debug)]
pub struct OutPoint {
    pub txid: FullHash,
    pub vout: u32,
}

#[derive(Clone, Debug)]
pub struct TxIn {
    pub previous_output: OutPoint,
    pub script_sig: Vec<u8>,
    pub witness: Vec<Vec<u8>>,
}

#[derive(Clone, Debug)]
pub struct TxOut {
    pub value: u64,
    pub script_pubkey: Vec<u8>,
}

/// A transaction as the indexer reads it: its id, its consensus encoding, and
/// its inputs and outputs.
#[derive(Clone, Debug)]
pub struct Transaction {
    pub txid: FullHash,
    pub raw: Vec<u8>,
    pub input: Vec<TxIn>,
    pub output: Vec<TxOut>,
}

/// A full block together with its header-list entry.
#[derive(Clone, Debug)]
pub struct BlockEntry {
    pub entry: HeaderEntry,
    /// The serialized 80-byte block header.
    pub header: Vec<u8>,
    pub txdata: Vec<Transaction>,
    /// Serialized size of the block in bytes.
    pub size: u32,
    pub weight: u32,
}

/// A key-value pair of the store.
#[derive(Clone, Debug)]
pub struct DBRow {
    pub key: Vec<u8>,
    pub value: Vec<u8>,
}

pub open spec fn row_of(r: DBRow) -> (Seq<u8>, Seq<u8>) {
    (r.key@, r.value@)
}

/// The rows as pairs of byte sequences.
pub open spec fn rows_view(rows: Seq<DBRow>) -> Seq<(Seq<u8>, Seq<u8>)> {
    rows.map_values(|r: DBRow| row_of(r))
}

/// An outpoint with a null txid and vout `u32::MAX` marks a coinbase input.
pub open spec fn is_null_outpoint(o: OutPoint) -> bool {
    o.vout == 0xffff_ffffu32 && forall|i: int| 0 <= i < 32 ==> #[trigger] o.txid@[i] == 0u8
}

/// Whether an input spends a real previous output (it is not a coinbase input).
pub open spec fn has_prevout_spec(txin: TxIn) -> bool {
    !is_null_outpoint(txin.previous_output)
}

pub fn hash_eq(a: &FullHash, b: &FullHash) -> (r: bool)
    ensures
        r == (a@ == b@),
{
    let mut i: usize = 0;
    while i < 32
        invariant
            0 <= i <= 32,
            a@.len() == 32,
            b@.len() == 32,
            forall|j: int| 0 <= j < i ==> a@[j] == b@[j],
        decreases 32 - i,
    {
        if a[i] != b[i] {
            return false;
        }
        i += 1;
    }
    assert(a@ =~= b@);
    true
}

pub fn outpoint_eq(a: &OutPoint, b: &OutPoint) -> (r: bool)
    ensures
        r == (a.txid@ == b.txid@ && a.vout == b.vout),
{
    a.vout == b.vout && hash_eq(&a.txid, &b.txid)
}

pub fn has_prevout(txin: &TxIn) -> (r: bool)
    ensures
        r == has_prevout_spec(*txin),
{
    if txin.previous_output.vout != 0xffff_ffffu32 {
        return true;
    }
    let mut i: usize = 0;
    while i < 32
        invariant
            0 <= i <= 32,
            txin.previous_output.txid@.len() == 32,
            forall|j: int| 0 <= j < i ==> txin.previous_output.txid@[j] == 0u8,
        decreases 32 - i,
    {
        if txin.previous_output.txid[i] != 0 {
            return true;
        }
        i += 1;
    }
    false
}

} // verus!
