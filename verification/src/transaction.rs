//! The top-level transaction envelope: a 4-byte little-endian version, a
//! `CompactSize` input count, exactly that many inputs, and a 4-byte
//! little-endian lock time. Decoding is driven strictly by the declared
//! count, so a count that overruns the buffer surfaces as
//! `InsufficientBytes` from the failing input decode.

use vstd::bytes::*;
use vstd::prelude::*;

use crate::compact_size::{
    lemma_compact_size_round_trip, lemma_compact_size_truncation, spec_decode_compact_size,
    spec_encode_compact_size, CompactSize,
};
use crate::error::BitcoinError;
use crate::tx_input::{
    lemma_input_round_trip, lemma_input_truncation, spec_decode_input, spec_encode_input,
    spec_input_wf, InputModel, TransactionInput,
};

verus! {

/// The mathematical content of a `BitcoinTransaction`.
#[verifier::ext_equal]
pub struct TransactionModel {
    pub version: u32,
    pub inputs: Seq<InputModel>,
    pub lock_time: u32,
}

/// A well-formed transaction has a `CompactSize`-representable input count
/// and well-formed inputs.
pub open spec fn spec_tx_wf(m: TransactionModel) -> bool {
    &&& m.inputs.len() <= u64::MAX
    &&& forall|i: int| 0 <= i < m.inputs.len() ==> spec_input_wf(#[trigger] m.inputs[i])
}

/// The concatenation of the inputs' wire forms, in sequence order.
pub open spec fn spec_encode_inputs(ms: Seq<InputModel>) -> Seq<u8>
    decreases ms.len(),
{
    if ms.len() == 0 {
        Seq::empty()
    } else {
        spec_encode_input(ms[0]) + spec_encode_inputs(ms.drop_first())
    }
}

/// The wire form: version, input count, the inputs, then the lock time.
pub open spec fn spec_encode_tx(m: TransactionModel) -> Seq<u8> {
    spec_u32_to_le_bytes(m.version) + spec_encode_compact_size(m.inputs.len() as u64)
        + spec_encode_inputs(m.inputs) + spec_u32_to_le_bytes(m.lock_time)
}

/// What decoding exactly `count` inputs from the front of `s` yields: the
/// inputs in order and the total bytes consumed; the first failing input's
/// error propagates unchanged.
pub open spec fn spec_decode_inputs(s: Seq<u8>, count: nat) -> Result<
    (Seq<InputModel>, int),
    BitcoinError,
>
    decreases count,
{
    if count == 0 {
        Ok((Seq::empty(), 0))
    } else {
        match spec_decode_input(s) {
            Err(e) => Err(e),
            Ok((m, n)) => match spec_decode_inputs(s.skip(n), (count - 1) as nat) {
                Err(e) => Err(e),
                Ok((ms, n2)) => Ok((seq![m] + ms, n + n2)),
            },
        }
    }
}

/// What decoding a `BitcoinTransaction` from the front of `s` yields: the
/// version, the declared number of inputs, and the lock time, each decoder
/// continuing where the previous one stopped.
pub open spec fn spec_decode_tx(s: Seq<u8>) -> Result<(TransactionModel, int), BitcoinError> {
    if s.len() < 4 {
        Err(BitcoinError::InsufficientBytes)
    } else {
        match spec_decode_compact_size(s.skip(4)) {
            Err(e) => Err(e),
            Ok((count, n1)) => match spec_decode_inputs(s.skip(4 + n1), count as nat) {
                Err(e) => Err(e),
                Ok((inputs, n2)) => {
                    let offset = 4 + n1 + n2;
                    if s.len() < offset + 4 {
                        Err(BitcoinError::InsufficientBytes)
                    } else {
                        Ok(
                            (
                                TransactionModel {
                                    version: spec_u32_from_le_bytes(s.subrange(0, 4)),
                                    inputs,
                                    lock_time: spec_u32_from_le_bytes(
                                        s.subrange(offset, offset + 4),
                                    ),
                                },
                                offset + 4,
                            ),
                        )
                    }
                },
            },
        }
    }
}

/// The models of a vector of inputs, in order.
pub open spec fn spec_inputs_view(v: Seq<TransactionInput>) -> Seq<InputModel> {
    v.map_values(|t: TransactionInput| t@)
}

/// A transaction envelope: version, inputs, and lock time.
#[derive(Debug, Clone, PartialEq, Eq)]
pub struct BitcoinTransaction {
    pub version: u32,
    pub inputs: Vec<TransactionInput>,
    pub lock_time: u32,
}

impl View for BitcoinTransaction {
    type V = TransactionModel;

    open spec fn view(&self) -> TransactionModel {
        TransactionModel {
            version: self.version,
            inputs: spec_inputs_view(self.inputs@),
            lock_time: self.lock_time,
        }
    }
}

/// Appending one more input to a prefix extends its encoding by that
/// input's encoding.
proof fn lemma_encode_inputs_snoc(ms: Seq<InputModel>, i: int)
    requires
        0 <= i < ms.len(),
    ensures
        spec_encode_inputs(ms.take(i + 1)) == spec_encode_inputs(ms.take(i)) + spec_encode_input(
            ms[i],
        ),
    decreases i,
{
    if i == 0 {
        assert(ms.take(1).drop_first() =~= Seq::<InputModel>::empty());
        assert(ms.take(0) =~= Seq::<InputModel>::empty());
        assert(spec_encode_inputs(ms.take(1)) =~= spec_encode_inputs(ms.take(0))
            + spec_encode_input(ms[0]));
    } else {
        lemma_encode_inputs_snoc(ms.drop_first(), i - 1);
        assert(ms.take(i + 1).drop_first() =~= ms.drop_first().take(i));
        assert(ms.take(i).drop_first() =~= ms.drop_first().take(i - 1));
        assert(spec_encode_inputs(ms.take(i + 1)) =~= spec_encode_inputs(ms.take(i))
            + spec_encode_input(ms[i]));
    }
}

impl BitcoinTransaction {
    pub fn new(version: u32, inputs: Vec<TransactionInput>, lock_time: u32) -> (r: Self)
        ensures
            r@ == (TransactionModel { version, inputs: spec_inputs_view(inputs@), lock_time }),
    {
        BitcoinTransaction { version, inputs, lock_time }
    }

    /// Encode as version, input count, each input in order, then lock time.
    pub fn to_bytes(&self) -> (r: Vec<u8>)
        ensures
            r@ == spec_encode_tx(self@),
    {
        let mut v = u32_to_le_bytes(self.version);
        let mut count_bytes = CompactSize::new(self.inputs.len() as u64).to_bytes();
        v.append(&mut count_bytes);
        proof {
            assert(self@.inputs.take(0) =~= Seq::<InputModel>::empty());
            assert(v@ =~= spec_u32_to_le_bytes(self.version) + spec_encode_compact_size(
                self.inputs@.len() as u64,
            ) + spec_encode_inputs(self@.inputs.take(0)));
        }
        let mut idx: usize = 0;
        while idx < self.inputs.len()
            invariant
                idx <= self.inputs.len(),
                v@ == spec_u32_to_le_bytes(self.version) + spec_encode_compact_size(
                    self.inputs@.len() as u64,
                ) + spec_encode_inputs(self@.inputs.take(idx as int)),
            decreases self.inputs.len() - idx,
        {
            let mut input_bytes = self.inputs[idx].to_bytes();
            v.append(&mut input_bytes);
            proof {
                lemma_encode_inputs_snoc(self@.inputs, idx as int);
                assert(v@ =~= spec_u32_to_le_bytes(self.version) + spec_encode_compact_size(
                    self.inputs@.len() as u64,
                ) + spec_encode_inputs(self@.inputs.take(idx + 1)));
            }
            idx += 1;
        }
        let mut lock_bytes = u32_to_le_bytes(self.lock_time);
        v.append(&mut lock_bytes);
        proof {
            assert(self@.inputs.take(self.inputs@.len() as int) =~= self@.inputs);
            assert(v@ =~= spec_encode_tx(self@));
        }
        v
    }

    /// Decode a `BitcoinTransaction` from the front of `bytes`: version,
    /// input count, exactly that many inputs, then the lock time.
    pub fn from_bytes(bytes: &[u8]) -> (r: Result<(Self, usize), BitcoinError>)
        ensures
            match r {
                Ok((tx, n)) => spec_decode_tx(bytes@) == Ok::<(TransactionModel, int), BitcoinError>(
                    (tx@, n as int),
                ) && n <= bytes@.len(),
                Err(e) => spec_decode_tx(bytes@) == Err::<(TransactionModel, int), BitcoinError>(e),
            },
    {
        if bytes.len() < 4 {
            return Err(BitcoinError::InsufficientBytes);
        }
        let version = u32_from_le_bytes(&bytes[0..4]);
        proof {
            assert(bytes@.subrange(4, bytes@.len() as int) =~= bytes@.skip(4));
        }
        let (count, consumed1) = match CompactSize::from_bytes(&bytes[4..bytes.len()]) {
            Ok(p) => p,
            Err(e) => {
                return Err(e);
            },
        };
        let base = 4 + consumed1;
        let mut offset = base;
        let mut inputs: Vec<TransactionInput> = Vec::new();
        let mut i: u64 = 0;
        proof {
            assert(bytes@.skip(base as int) =~= bytes@.skip(base as int).skip(0));
        }
        while i < count.value
            invariant
                i <= count.value,
                4 <= base <= offset <= bytes@.len(),
                inputs@.len() == i,
                bytes@.len() >= 4,
                spec_decode_compact_size(bytes@.skip(4)) == Ok::<(u64, int), BitcoinError>(
                    (count.value, base - 4),
                ),
                match spec_decode_inputs(bytes@.skip(offset as int), (count.value - i) as nat) {
                    Ok((ms, n)) => spec_decode_inputs(bytes@.skip(base as int), count.value as nat)
                        == Ok::<(Seq<InputModel>, int), BitcoinError>(
                        (spec_inputs_view(inputs@) + ms, offset - base + n),
                    ),
                    Err(e) => spec_decode_inputs(bytes@.skip(base as int), count.value as nat)
                        == Err::<(Seq<InputModel>, int), BitcoinError>(e),
                },
            decreases count.value - i,
        {
            proof {
                assert(bytes@.subrange(offset as int, bytes@.len() as int) =~= bytes@.skip(
                    offset as int,
                ));
            }
            let (input, consumed) = match TransactionInput::from_bytes(
                &bytes[offset..bytes.len()],
            ) {
                Ok(p) => p,
                Err(e) => {
                    return Err(e);
                },
            };
            let ghost prev_inputs = inputs@;
            inputs.push(input);
            proof {
                assert(bytes@.skip(offset as int).skip(consumed as int) =~= bytes@.skip(
                    offset + consumed,
                ));
                assert(spec_inputs_view(inputs@) =~= spec_inputs_view(prev_inputs).push(input@));
                let tail = bytes@.skip(offset + consumed);
                let remaining = (count.value - i - 1) as nat;
                match spec_decode_inputs(tail, remaining) {
                    Ok((ms, n)) => {
                        assert(spec_inputs_view(prev_inputs) + (seq![input@] + ms)
                            =~= spec_inputs_view(inputs@) + ms);
                    },
                    Err(_) => {
                    },
                }
            }
            offset = offset + consumed;
            i = i + 1;
        }
        proof {
            assert(spec_inputs_view(inputs@) + Seq::<InputModel>::empty() =~= spec_inputs_view(
                inputs@,
            ));
        }
        if bytes.len() - offset < 4 {
            return Err(BitcoinError::InsufficientBytes);
        }
        let lock_time = u32_from_le_bytes(&bytes[offset..offset + 4]);
        let tx = BitcoinTransaction { version, inputs, lock_time };
        proof {
            assert(tx@ =~= spec_decode_tx(bytes@)->Ok_0.0);
        }
        Ok((tx, offset + 4))
    }
}

/// Round trip for input sequences: decoding the concatenation of the
/// encodings, with any bytes at all behind it, yields the inputs and
/// consumes exactly the concatenation's length.
pub proof fn lemma_inputs_round_trip(ms: Seq<InputModel>, rest: Seq<u8>)
    requires
        forall|i: int| 0 <= i < ms.len() ==> spec_input_wf(#[trigger] ms[i]),
    ensures
        spec_decode_inputs(spec_encode_inputs(ms) + rest, ms.len()) == Ok::<
            (Seq<InputModel>, int),
            BitcoinError,
        >((ms, spec_encode_inputs(ms).len() as int)),
    decreases ms.len(),
{
    if ms.len() == 0 {
        assert(spec_decode_inputs(spec_encode_inputs(ms) + rest, 0)->Ok_0.0 =~= ms);
    } else {
        let m0 = ms[0];
        let tail = ms.drop_first();
        let e0 = spec_encode_input(m0);
        lemma_input_round_trip(m0, spec_encode_inputs(tail) + rest);
        assert(spec_encode_inputs(ms) + rest =~= e0 + (spec_encode_inputs(tail) + rest));
        lemma_inputs_round_trip(tail, rest);
        assert((spec_encode_inputs(ms) + rest).skip(e0.len() as int) =~= spec_encode_inputs(tail)
            + rest);
        assert(seq![m0] + tail =~= ms);
    }
}

/// Round trip: decoding a well-formed transaction's encoding, with any bytes
/// at all behind it, yields the transaction and consumes exactly the
/// encoding's length.
pub proof fn lemma_transaction_round_trip(m: TransactionModel, rest: Seq<u8>)
    requires
        spec_tx_wf(m),
    ensures
        spec_decode_tx(spec_encode_tx(m) + rest) == Ok::<(TransactionModel, int), BitcoinError>(
            (m, spec_encode_tx(m).len() as int),
        ),
{
    let ver = spec_u32_to_le_bytes(m.version);
    let cnt = spec_encode_compact_size(m.inputs.len() as u64);
    let body = spec_encode_inputs(m.inputs);
    let lt = spec_u32_to_le_bytes(m.lock_time);
    let s = spec_encode_tx(m) + rest;
    lemma_auto_spec_u32_to_from_le_bytes();
    assert(s.skip(4) =~= cnt + (body + (lt + rest)));
    lemma_compact_size_round_trip(m.inputs.len() as u64, body + (lt + rest));
    assert(s.skip((4 + cnt.len()) as int) =~= body + (lt + rest));
    lemma_inputs_round_trip(m.inputs, lt + rest);
    let offset = (4 + cnt.len() + body.len()) as int;
    assert(s.subrange(0, 4) =~= ver);
    assert(s.subrange(offset, offset + 4) =~= lt);
    assert(spec_decode_tx(s)->Ok_0.0 =~= m);
}

/// Decoding `ms.len()` inputs from a prefix of their concatenation (plus a
/// suffix) succeeds exactly when the prefix covers the whole concatenation,
/// and otherwise fails with `InsufficientBytes`.
proof fn lemma_inputs_decode_prefix(ms: Seq<InputModel>, suffix: Seq<u8>, k: int)
    requires
        forall|i: int| 0 <= i < ms.len() ==> spec_input_wf(#[trigger] ms[i]),
        0 <= k <= spec_encode_inputs(ms).len() + suffix.len(),
    ensures
        k >= spec_encode_inputs(ms).len() ==> spec_decode_inputs(
            (spec_encode_inputs(ms) + suffix).take(k),
            ms.len(),
        ) == Ok::<(Seq<InputModel>, int), BitcoinError>(
            (ms, spec_encode_inputs(ms).len() as int),
        ),
        k < spec_encode_inputs(ms).len() ==> spec_decode_inputs(
            (spec_encode_inputs(ms) + suffix).take(k),
            ms.len(),
        ) == Err::<(Seq<InputModel>, int), BitcoinError>(BitcoinError::InsufficientBytes),
    decreases ms.len(),
{
    let body = spec_encode_inputs(ms);
    let r = (body + suffix).take(k);
    if k >= body.len() {
        assert(r =~= body + suffix.take(k - body.len()));
        lemma_inputs_round_trip(ms, suffix.take(k - body.len()));
    } else {
        let m0 = ms[0];
        let tail = ms.drop_first();
        let e0 = spec_encode_input(m0);
        let tail_body = spec_encode_inputs(tail);
        if k < e0.len() {
            assert(r =~= e0.take(k));
            lemma_input_truncation(m0, k);
        } else {
            let k2 = k - e0.len();
            assert(r =~= e0 + (tail_body + suffix).take(k2));
            lemma_input_round_trip(m0, (tail_body + suffix).take(k2));
            assert(r.skip(e0.len() as int) =~= (tail_body + suffix).take(k2));
            lemma_inputs_decode_prefix(tail, suffix, k2);
        }
    }
}

/// Truncation: decoding any strict prefix of a well-formed transaction's
/// encoding fails with `InsufficientBytes`.
pub proof fn lemma_transaction_truncation(m: TransactionModel, k: int)
    requires
        spec_tx_wf(m),
        0 <= k < spec_encode_tx(m).len(),
    ensures
        spec_decode_tx(spec_encode_tx(m).take(k)) == Err::<(TransactionModel, int), BitcoinError>(
            BitcoinError::InsufficientBytes,
        ),
{
    let ver = spec_u32_to_le_bytes(m.version);
    let cnt = spec_encode_compact_size(m.inputs.len() as u64);
    let body = spec_encode_inputs(m.inputs);
    let lt = spec_u32_to_le_bytes(m.lock_time);
    let e = spec_encode_tx(m);
    let t = e.take(k);
    lemma_auto_spec_u32_to_from_le_bytes();
    if k >= 4 {
        let k1 = k - 4;
        assert(t.skip(4) =~= (cnt + (body + lt)).take(k1));
        if k1 < cnt.len() {
            assert((cnt + (body + lt)).take(k1) =~= cnt.take(k1));
            lemma_compact_size_truncation(m.inputs.len() as u64, k1);
        } else {
            let k2 = k1 - cnt.len();
            assert((cnt + (body + lt)).take(k1) =~= cnt + (body + lt).take(k2));
            lemma_compact_size_round_trip(m.inputs.len() as u64, (body + lt).take(k2));
            assert(t.skip((4 + cnt.len()) as int) =~= (body + lt).take(k2));
            lemma_inputs_decode_prefix(m.inputs, lt, k2);
        }
    }
}

} // verus!
