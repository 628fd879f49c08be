//! A reference to a specific output of a previous transaction: a 32-byte
//! identifier immediately followed by a 4-byte little-endian output index.
//! Fixed 36-byte wire size; any identifier and any index are accepted.

use vstd::bytes::*;
use vstd::prelude::*;

use crate::error::BitcoinError;
use crate::txid::Txid;

verus! {

/// The mathematical content of an `OutPoint`: the identifier's bytes and the
/// output index.
#[verifier::ext_equal]
pub struct OutPointModel {
    pub txid: Seq<u8>,
    pub vout: u32,
}

/// A well-formed outpoint carries exactly 32 identifier bytes.
pub open spec fn spec_outpoint_wf(m: OutPointModel) -> bool {
    m.txid.len() == 32
}

/// The 36-byte wire form: identifier bytes, then the index in little-endian.
pub open spec fn spec_encode_outpoint(m: OutPointModel) -> Seq<u8> {
    m.txid + spec_u32_to_le_bytes(m.vout)
}

/// What decoding an `OutPoint` from the front of `s` yields: the first 36
/// bytes split into identifier and index, or `InsufficientBytes` if fewer
/// than 36 remain.
pub open spec fn spec_decode_outpoint(s: Seq<u8>) -> Result<(OutPointModel, int), BitcoinError> {
    if s.len() < 36 {
        Err(BitcoinError::InsufficientBytes)
    } else {
        Ok(
            (
                OutPointModel {
                    txid: s.subrange(0, 32),
                    vout: spec_u32_from_le_bytes(s.subrange(32, 36)),
                },
                36,
            ),
        )
    }
}

/// A previous transaction output being spent.
#[derive(Debug, Clone, PartialEq, Eq)]
pub struct OutPoint {
    pub txid: Txid,
    pub vout: u32,
}

impl View for OutPoint {
    type V = OutPointModel;

    open spec fn view(&self) -> OutPointModel {
        OutPointModel { txid: self.txid@, vout: self.vout }
    }
}

impl OutPoint {
    pub fn new(txid: [u8; 32], vout: u32) -> (r: Self)
        ensures
            r@ == (OutPointModel { txid: txid@, vout }),
            spec_outpoint_wf(r@),
    {
        OutPoint { txid: Txid(txid), vout }
    }

    /// Encode as exactly 36 bytes: identifier, then index.
    pub fn to_bytes(&self) -> (r: Vec<u8>)
        ensures
            r@ == spec_encode_outpoint(self@),
    {
        let mut v = vstd::slice::slice_to_vec(self.txid.0.as_slice());
        let mut tail = u32_to_le_bytes(self.vout);
        v.append(&mut tail);
        proof {
            assert(v@ =~= spec_encode_outpoint(self@));
        }
        v
    }

    /// Decode an `OutPoint` from the front of `bytes`, consuming 36 bytes.
    pub fn from_bytes(bytes: &[u8]) -> (r: Result<(Self, usize), BitcoinError>)
        ensures
            match r {
                Ok((op, n)) => spec_decode_outpoint(bytes@) == Ok::<
                    (OutPointModel, int),
                    BitcoinError,
                >((op@, n as int)) && n <= bytes@.len() && spec_outpoint_wf(op@),
                Err(e) => spec_decode_outpoint(bytes@) == Err::<(OutPointModel, int), BitcoinError>(
                    e,
                ),
            },
    {
        if bytes.len() < 36 {
            return Err(BitcoinError::InsufficientBytes);
        }
        let mut txid: [u8; 32] = [0u8; 32];
        let mut i: usize = 0;
        while i < 32
            invariant
                0 <= i <= 32,
                bytes@.len() >= 36,
                forall|j: int| 0 <= j < i ==> txid@[j] == bytes@[j],
            decreases 32 - i,
        {
            txid[i] = bytes[i];
            i += 1;
        }
        let vout = u32_from_le_bytes(&bytes[32..36]);
        let op = OutPoint { txid: Txid(txid), vout };
        proof {
            assert(op@.txid =~= bytes@.subrange(0, 32));
            assert(op@ =~= spec_decode_outpoint(bytes@)->Ok_0.0);
        }
        Ok((op, 36))
    }
}

/// Round trip: decoding a well-formed outpoint's encoding, with any bytes at
/// all behind it, yields the outpoint and consumes exactly 36 bytes.
pub proof fn lemma_outpoint_round_trip(m: OutPointModel, rest: Seq<u8>)
    requires
        spec_outpoint_wf(m),
    ensures
        spec_encode_outpoint(m).len() == 36,
        spec_decode_outpoint(spec_encode_outpoint(m) + rest) == Ok::<
            (OutPointModel, int),
            BitcoinError,
        >((m, 36)),
{
    lemma_auto_spec_u32_to_from_le_bytes();
    let s = spec_encode_outpoint(m) + rest;
    assert(s.subrange(0, 32) =~= m.txid);
    assert(s.subrange(32, 36) =~= spec_u32_to_le_bytes(m.vout));
    let decoded = spec_decode_outpoint(s)->Ok_0.0;
    assert(decoded =~= m);
}

/// Truncation: decoding any strict prefix of an outpoint's encoding fails
/// with `InsufficientBytes`.
pub proof fn lemma_outpoint_truncation(m: OutPointModel, k: int)
    requires
        spec_outpoint_wf(m),
        0 <= k < spec_encode_outpoint(m).len(),
    ensures
        spec_decode_outpoint(spec_encode_outpoint(m).take(k)) == Err::<
            (OutPointModel, int),
            BitcoinError,
        >(BitcoinError::InsufficientBytes),
{
    lemma_auto_spec_u32_to_from_le_bytes();
}

} // verus!
