//! The calls into outside crates, each behind one trusted item.
use vstd::prelude::*;
use crate::types::{FullHash, OutPoint, Network, network_code};
use crate::codec::{txout_encoding, compact_size, hex_lower};
use bitcoin::secp256k1::PublicKey;
use silentpayments::utils::OutPoint as SpOutPoint;
use silentpayments::utils::receiving::{calculate_tweak_data, get_pubkey_from_input};

verus! {

/// The SHA-256 digest of a byte string.
pub uninterp spec fn sha256_of(data: Seq<u8>) -> Seq<u8>;

/// Whether bitcoin's `Script::is_provably_unspendable` holds of a script.
pub uninterp spec fn provably_unspendable(script: Seq<u8>) -> bool;

/// The UTF-8 bytes of the address string that bitcoin's `Address::from_script`
/// gives a script on a network, if the script has one.
pub uninterp spec fn address_of(script: Seq<u8>, network: u8) -> Option<Seq<u8>>;

/// The compressed public key that the silent-payments input-key extraction
/// finds for an input, if any.
pub uninterp spec fn input_pubkey_of(
    script_sig: Seq<u8>,
    witness: Seq<Seq<u8>>,
    prev_script: Seq<u8>,
) -> Option<Seq<u8>>;

/// The silent-payments tweak (a compressed public key) of a transaction's
/// input keys and outpoints, if it can be computed.
pub uninterp spec fn tweak_of(pubkeys: Seq<Seq<u8>>, outpoints: Seq<(Seq<u8>, u32)>) -> Option<
    Seq<u8>,
>;

pub open spec fn bytes_seqs(v: Seq<Vec<u8>>) -> Seq<Seq<u8>> {
    v.map_values(|b: Vec<u8>| b@)
}

pub open spec fn outpoint_seqs(v: Seq<OutPoint>) -> Seq<(Seq<u8>, u32)> {
    v.map_values(|o: OutPoint| (o.txid@, o.vout))
}

/// Relies on rust-crypto's `Sha256` (`Digest::input`, then `Digest::result`):
/// the SHA-256 digest of the script bytes, used as the script-hash.
#[verifier::external_body]
pub fn compute_script_hash(script: &Vec<u8>) -> (r: FullHash)
    ensures
        r@ == sha256_of(script@),
{
    let mut hash: FullHash = [0u8; 32];
    let mut sha2 = crypto::sha2::Sha256::new();
    crypto::digest::Digest::input(&mut sha2, script);
    crypto::digest::Digest::result(&mut sha2, &mut hash);
    hash
}

/// Relies on bitcoin's `Script::is_provably_unspendable`: false on an empty
/// script, true when the first byte is `OP_RETURN`.
#[verifier::external_body]
pub(crate) fn script_is_unspendable(script: &Vec<u8>) -> (r: bool)
    ensures
        r == provably_unspendable(script@),
        script@.len() == 0 ==> !r,
        script@.len() > 0 && script@[0] == 0x6au8 ==> r,
{
    #[allow(deprecated)]
    bitcoin::Script::from_bytes(script).is_provably_unspendable()
}

/// Relies on bitcoin's `Script::is_p2tr`: a 34-byte script `OP_1 OP_PUSHBYTES_32 <key>`.
#[verifier::external_body]
pub(crate) fn script_is_p2tr(script: &Vec<u8>) -> (r: bool)
    ensures
        r == (script@.len() == 34 && script@[0] == 0x51u8 && script@[1] == 0x20u8),
{
    bitcoin::Script::from_bytes(script).is_p2tr()
}

/// Relies on bitcoin's consensus `serialize` of a `TxOut`: the value as eight
/// little-endian bytes, then the script with its compact-size length.
#[verifier::external_body]
pub(crate) fn serialize_txout(value: u64, script: &Vec<u8>) -> (r: Vec<u8>)
    ensures
        r@ == txout_encoding(value, script@),
{
    let txout = bitcoin::TxOut {
        value: bitcoin::Amount::from_sat(value),
        script_pubkey: bitcoin::ScriptBuf::from_bytes(script.clone()),
    };
    bitcoin::consensus::serialize(&txout)
}

/// Relies on bitcoin's consensus `serialize` of a `VarInt`: the compact-size encoding.
#[verifier::external_body]
pub(crate) fn serialize_varint(n: u64) -> (r: Vec<u8>)
    ensures
        r@ == compact_size(n),
{
    bitcoin::consensus::serialize(&bitcoin::VarInt(n))
}

/// Relies on bitcoin's `Address::from_script` and the address's `Display`,
/// returned as the string's bytes.
#[verifier::external_body]
pub(crate) fn script_address(script: &Vec<u8>, network: Network) -> (r: Option<Vec<u8>>)
    ensures
        match r {
            Some(a) => address_of(script@, network_code(network)) == Some(a@),
            None => address_of(script@, network_code(network)) is None,
        },
{
    let net = match network {
        Network::Bitcoin => bitcoin::Network::Bitcoin,
        Network::Testnet => bitcoin::Network::Testnet,
        Network::Signet => bitcoin::Network::Signet,
        Network::Regtest => bitcoin::Network::Regtest,
    };
    bitcoin::Address::from_script(bitcoin::Script::from_bytes(script), net).ok().map(|a| a.to_string().into_bytes())
}

/// Relies on hex's `encode`: two lower-case hexadecimal digits per byte.
#[verifier::external_body]
pub(crate) fn to_hex(b: &Vec<u8>) -> (r: String)
    ensures
        r@ == hex_lower(b@),
{
    hex::encode(b)
}

/// Relies on silentpayments' `get_pubkey_from_input`; an error counts as no key.
#[verifier::external_body]
pub(crate) fn input_pubkey(script_sig: &Vec<u8>, witness: &Vec<Vec<u8>>, prev_script: &Vec<u8>) -> (r: Option<Vec<u8>>)
    ensures
        match r {
            Some(p) => input_pubkey_of(script_sig@, bytes_seqs(witness@), prev_script@) == Some(p@),
            None => input_pubkey_of(script_sig@, bytes_seqs(witness@), prev_script@) is None,
        },
{
    match get_pubkey_from_input(script_sig, witness, prev_script) {
        Ok(Some(pk)) => Some(pk.serialize().to_vec()),
        _ => None,
    }
}

/// Relies on silentpayments' `calculate_tweak_data` (keys parsed with
/// secp256k1's `PublicKey::from_slice`): it fails on an empty key list, and a
/// tweak is a compressed public key of 33 bytes.
#[verifier::external_body]
pub(crate) fn calculate_tweak(pubkeys: &Vec<Vec<u8>>, outpoints: &Vec<OutPoint>) -> (r: Option<Vec<u8>>)
    ensures
        match r {
            Some(t) => tweak_of(bytes_seqs(pubkeys@), outpoint_seqs(outpoints@)) == Some(t@),
            None => tweak_of(bytes_seqs(pubkeys@), outpoint_seqs(outpoints@)) is None,
        },
        pubkeys@.len() == 0 ==> r is None,
        r matches Some(t) ==> t@.len() == 33,
{
    let keys = pubkeys.iter().map(|p| PublicKey::from_slice(p)).collect::<Result<Vec<_>, _>>().ok()?;
    let refs: Vec<_> = keys.iter().collect();
    let ops: Vec<_> = outpoints.iter().map(|o| SpOutPoint::from_txid_bytes_and_vout(o.txid, o.vout)).collect();
    calculate_tweak_data(&refs, &ops).ok().map(|t| t.serialize().to_vec())
}


pub open spec fn hash_views(v: Seq<FullHash>) -> Seq<Seq<u8>> {
    v.map_values(|h: FullHash| h@)
}

/// The elements of `s` in order, each only at its first occurrence.
pub open spec fn uniq(s: Seq<Seq<u8>>) -> Seq<Seq<u8>>
    decreases s.len(),
{
    if s.len() == 0 {
        s
    } else if s.drop_last().contains(s.last()) {
        uniq(s.drop_last())
    } else {
        uniq(s.drop_last()).push(s.last())
    }
}

/// Relies on itertools' `Itertools::unique`: yields each distinct item once,
/// at its first occurrence, in input order.
#[verifier::external_body]
pub(crate) fn unique_hashes(v: &Vec<FullHash>) -> (r: Vec<FullHash>)
    ensures
        hash_views(r@) == uniq(hash_views(v@)),
{
    itertools::Itertools::unique(v.iter().copied()).collect()
}

} // verus!
