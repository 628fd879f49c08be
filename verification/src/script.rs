//! An opaque, length-prefixed byte payload: a `CompactSize` length followed
//! by exactly that many raw bytes. The content is never interpreted.

use vstd::prelude::*;

use crate::compact_size::{
    lemma_compact_size_round_trip, lemma_compact_size_truncation, spec_decode_compact_size,
    spec_encode_compact_size, CompactSize,
};
use crate::error::BitcoinError;

verus! {

/// A script payload can be length-prefixed only if its length fits the
/// 64-bit `CompactSize` range.
pub open spec fn spec_script_wf(b: Seq<u8>) -> bool {
    b.len() <= u64::MAX
}

/// The wire form: the payload's length as a `CompactSize`, then the payload
/// verbatim.
pub open spec fn spec_encode_script(b: Seq<u8>) -> Seq<u8> {
    spec_encode_compact_size(b.len() as u64) + b
}

/// What decoding a `Script` from the front of `s` yields: the declared
/// number of payload bytes after the length prefix, or `InsufficientBytes`
/// if fewer remain than the prefix declares. The declared length and the
/// slice taken agree exactly; a partial payload is never accepted.
pub open spec fn spec_decode_script(s: Seq<u8>) -> Result<(Seq<u8>, int), BitcoinError> {
    match spec_decode_compact_size(s) {
        Err(e) => Err(e),
        Ok((len, n)) => if s.len() < n + len {
            Err(BitcoinError::InsufficientBytes)
        } else {
            Ok((s.subrange(n, n + len), n + len))
        },
    }
}

/// An uninterpreted locking/unlocking script.
#[derive(Debug, Clone, PartialEq, Eq)]
pub struct Script {
    pub bytes: Vec<u8>,
}

impl View for Script {
    type V = Seq<u8>;

    open spec fn view(&self) -> Seq<u8> {
        self.bytes@
    }
}

impl Script {
    pub fn new(bytes: Vec<u8>) -> (r: Self)
        ensures
            r@ == bytes@,
    {
        Script { bytes }
    }

    /// Encode as the `CompactSize` length followed by the payload.
    pub fn to_bytes(&self) -> (r: Vec<u8>)
        ensures
            r@ == spec_encode_script(self@),
    {
        let len = CompactSize::new(self.bytes.len() as u64);
        let mut v = len.to_bytes();
        let mut payload = vstd::slice::slice_to_vec(self.bytes.as_slice());
        v.append(&mut payload);
        proof {
            assert(v@ =~= spec_encode_script(self@));
        }
        v
    }

    /// Decode a `Script` from the front of `bytes`: the length prefix, then
    /// exactly that many payload bytes.
    pub fn from_bytes(bytes: &[u8]) -> (r: Result<(Self, usize), BitcoinError>)
        ensures
            match r {
                Ok((sc, n)) => spec_decode_script(bytes@) == Ok::<(Seq<u8>, int), BitcoinError>(
                    (sc@, n as int),
                ) && n <= bytes@.len(),
                Err(e) => spec_decode_script(bytes@) == Err::<(Seq<u8>, int), BitcoinError>(e),
            },
    {
        let (len, consumed) = match CompactSize::from_bytes(bytes) {
            Ok(p) => p,
            Err(e) => {
                return Err(e);
            },
        };
        let remaining = bytes.len() - consumed;
        if (remaining as u64) < len.value {
            return Err(BitcoinError::InsufficientBytes);
        }
        let payload_len = len.value as usize;
        let payload = vstd::slice::slice_to_vec(&bytes[consumed..consumed + payload_len]);
        Ok((Script { bytes: payload }, consumed + payload_len))
    }
}

/// Round trip: decoding a script's encoding, with any bytes at all behind
/// it, yields the payload and consumes exactly the encoding's length.
pub proof fn lemma_script_round_trip(b: Seq<u8>, rest: Seq<u8>)
    requires
        spec_script_wf(b),
    ensures
        spec_decode_script(spec_encode_script(b) + rest) == Ok::<(Seq<u8>, int), BitcoinError>(
            (b, spec_encode_script(b).len() as int),
        ),
{
    let prefix = spec_encode_compact_size(b.len() as u64);
    let s = spec_encode_script(b) + rest;
    lemma_compact_size_round_trip(b.len() as u64, b + rest);
    assert(s =~= prefix + (b + rest));
    assert(s.subrange(prefix.len() as int, (prefix.len() + b.len()) as int) =~= b);
}

/// Truncation: decoding any strict prefix of a script's encoding fails with
/// `InsufficientBytes` — in particular, a declared length that exceeds the
/// remaining buffer is rejected even when part of the payload is present.
pub proof fn lemma_script_truncation(b: Seq<u8>, k: int)
    requires
        spec_script_wf(b),
        0 <= k < spec_encode_script(b).len(),
    ensures
        spec_decode_script(spec_encode_script(b).take(k)) == Err::<(Seq<u8>, int), BitcoinError>(
            BitcoinError::InsufficientBytes,
        ),
{
    let len = b.len() as u64;
    let prefix = spec_encode_compact_size(len);
    let e = spec_encode_script(b);
    let t = e.take(k);
    if k < prefix.len() {
        assert(t =~= prefix.take(k));
        lemma_compact_size_truncation(len, k);
    } else {
        let tail = b.take(k - prefix.len());
        assert(t =~= prefix + tail);
        lemma_compact_size_round_trip(len, tail);
    }
}

/// Length-mismatch rejection: whenever the declared `CompactSize` length
/// exceeds what remains of the buffer, decoding fails with
/// `InsufficientBytes`, even when part of the payload is present.
pub proof fn lemma_script_length_mismatch(s: Seq<u8>)
    ensures
        (spec_decode_compact_size(s) matches Ok((len, n)) && s.len() < n + len)
            ==> spec_decode_script(s) == Err::<(Seq<u8>, int), BitcoinError>(
            BitcoinError::InsufficientBytes,
        ),
{
}

} // verus!
