//! A transaction input: the outpoint being spent, the unlocking script, and
//! a 4-byte little-endian sequence number, concatenated in that order.

use vstd::bytes::*;
use vstd::prelude::*;

use crate::error::BitcoinError;
use crate::outpoint::{
    lemma_outpoint_round_trip, lemma_outpoint_truncation, spec_decode_outpoint,
    spec_encode_outpoint, spec_outpoint_wf, OutPoint, OutPointModel,
};
use crate::script::{
    lemma_script_round_trip, lemma_script_truncation, spec_decode_script, spec_encode_script,
    spec_script_wf, Script,
};

verus! {

/// The mathematical content of a `TransactionInput`.
#[verifier::ext_equal]
pub struct InputModel {
    pub previous_output: OutPointModel,
    pub script_sig: Seq<u8>,
    pub sequence: u32,
}

pub open spec fn spec_input_wf(m: InputModel) -> bool {
    spec_outpoint_wf(m.previous_output) && spec_script_wf(m.script_sig)
}

/// The wire form: outpoint (36 bytes), length-prefixed script, then the
/// sequence number in little-endian.
pub open spec fn spec_encode_input(m: InputModel) -> Seq<u8> {
    spec_encode_outpoint(m.previous_output) + spec_encode_script(m.script_sig)
        + spec_u32_to_le_bytes(m.sequence)
}

/// What decoding a `TransactionInput` from the front of `s` yields: the
/// three fields decoded in order, each continuing where the previous one
/// stopped; a sub-decoder's error propagates unchanged.
pub open spec fn spec_decode_input(s: Seq<u8>) -> Result<(InputModel, int), BitcoinError> {
    match spec_decode_outpoint(s) {
        Err(e) => Err(e),
        Ok((op, n1)) => match spec_decode_script(s.skip(n1)) {
            Err(e) => Err(e),
            Ok((sc, n2)) => {
                let offset = n1 + n2;
                if s.len() < offset + 4 {
                    Err(BitcoinError::InsufficientBytes)
                } else {
                    Ok(
                        (
                            InputModel {
                                previous_output: op,
                                script_sig: sc,
                                sequence: spec_u32_from_le_bytes(s.subrange(offset, offset + 4)),
                            },
                            offset + 4,
                        ),
                    )
                }
            },
        },
    }
}

/// One input of a transaction.
#[derive(Debug, Clone, PartialEq, Eq)]
pub struct TransactionInput {
    pub previous_output: OutPoint,
    pub script_sig: Script,
    pub sequence: u32,
}

impl View for TransactionInput {
    type V = InputModel;

    open spec fn view(&self) -> InputModel {
        InputModel {
            previous_output: self.previous_output@,
            script_sig: self.script_sig@,
            sequence: self.sequence,
        }
    }
}

impl TransactionInput {
    pub fn new(previous_output: OutPoint, script_sig: Script, sequence: u32) -> (r: Self)
        ensures
            r@ == (InputModel {
                previous_output: previous_output@,
                script_sig: script_sig@,
                sequence,
            }),
    {
        TransactionInput { previous_output, script_sig, sequence }
    }

    /// Encode as outpoint bytes, script bytes, then the sequence number.
    pub fn to_bytes(&self) -> (r: Vec<u8>)
        ensures
            r@ == spec_encode_input(self@),
    {
        let mut v = self.previous_output.to_bytes();
        let mut script = self.script_sig.to_bytes();
        let mut seq_bytes = u32_to_le_bytes(self.sequence);
        v.append(&mut script);
        v.append(&mut seq_bytes);
        proof {
            assert(v@ =~= spec_encode_input(self@));
        }
        v
    }

    /// Decode a `TransactionInput` from the front of `bytes`, chaining the
    /// outpoint, script, and sequence decoders at increasing offsets.
    pub fn from_bytes(bytes: &[u8]) -> (r: Result<(Self, usize), BitcoinError>)
        ensures
            match r {
                Ok((input, n)) => spec_decode_input(bytes@) == Ok::<(InputModel, int), BitcoinError>(
                    (input@, n as int),
                ) && n <= bytes@.len() && spec_outpoint_wf(input@.previous_output),
                Err(e) => spec_decode_input(bytes@) == Err::<(InputModel, int), BitcoinError>(e),
            },
    {
        let (outpoint, consumed1) = match OutPoint::from_bytes(bytes) {
            Ok(p) => p,
            Err(e) => {
                return Err(e);
            },
        };
        let (script, consumed2) = match Script::from_bytes(&bytes[consumed1..bytes.len()]) {
            Ok(p) => p,
            Err(e) => {
                return Err(e);
            },
        };
        let offset = consumed1 + consumed2;
        if bytes.len() - offset < 4 {
            return Err(BitcoinError::InsufficientBytes);
        }
        proof {
            assert(bytes@.skip(consumed1 as int).subrange(consumed2 as int, consumed2 + 4)
                =~= bytes@.subrange(offset as int, offset + 4));
        }
        let sequence = u32_from_le_bytes(&bytes[offset..offset + 4]);
        let input = TransactionInput { previous_output: outpoint, script_sig: script, sequence };
        proof {
            assert(input@ =~= spec_decode_input(bytes@)->Ok_0.0);
        }
        Ok((input, offset + 4))
    }
}

/// Round trip: decoding a well-formed input's encoding, with any bytes at
/// all behind it, yields the input and consumes exactly the encoding's
/// length.
pub proof fn lemma_input_round_trip(m: InputModel, rest: Seq<u8>)
    requires
        spec_input_wf(m),
    ensures
        spec_decode_input(spec_encode_input(m) + rest) == Ok::<(InputModel, int), BitcoinError>(
            (m, spec_encode_input(m).len() as int),
        ),
{
    let op = spec_encode_outpoint(m.previous_output);
    let sc = spec_encode_script(m.script_sig);
    let sq = spec_u32_to_le_bytes(m.sequence);
    let s = spec_encode_input(m) + rest;
    lemma_auto_spec_u32_to_from_le_bytes();
    lemma_outpoint_round_trip(m.previous_output, sc + sq + rest);
    assert(s =~= op + (sc + sq + rest));
    lemma_script_round_trip(m.script_sig, sq + rest);
    assert(s.skip(op.len() as int) =~= sc + (sq + rest));
    let offset = (op.len() + sc.len()) as int;
    assert(s.subrange(offset, offset + 4) =~= sq);
    assert(spec_decode_input(s)->Ok_0.0 =~= m);
}

/// Truncation: decoding any strict prefix of a well-formed input's encoding
/// fails with `InsufficientBytes`.
pub proof fn lemma_input_truncation(m: InputModel, k: int)
    requires
        spec_input_wf(m),
        0 <= k < spec_encode_input(m).len(),
    ensures
        spec_decode_input(spec_encode_input(m).take(k)) == Err::<(InputModel, int), BitcoinError>(
            BitcoinError::InsufficientBytes,
        ),
{
    let op = spec_encode_outpoint(m.previous_output);
    let sc = spec_encode_script(m.script_sig);
    let sq = spec_u32_to_le_bytes(m.sequence);
    let e = spec_encode_input(m);
    let t = e.take(k);
    lemma_auto_spec_u32_to_from_le_bytes();
    if k < op.len() {
        assert(t =~= op.take(k));
        lemma_outpoint_truncation(m.previous_output, k);
    } else {
        lemma_outpoint_round_trip(m.previous_output, (sc + sq).take(k - op.len()));
        assert(t =~= op + (sc + sq).take(k - op.len()));
        let k2 = k - op.len();
        assert(t.skip(op.len() as int) =~= (sc + sq).take(k2));
        if k2 < sc.len() {
            assert((sc + sq).take(k2) =~= sc.take(k2));
            lemma_script_truncation(m.script_sig, k2);
        } else {
            lemma_script_round_trip(m.script_sig, sq.take(k2 - sc.len()));
            assert((sc + sq).take(k2) =~= sc + sq.take(k2 - sc.len()));
        }
    }
}

} // verus!
