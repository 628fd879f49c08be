//! Bitcoin's `CompactSize` (a.k.a. `VarInt`) format: a variable-length
//! encoding of unsigned 64-bit integers, minimal-width by construction.
//!
//! The encoding is canonical: each value has exactly one accepted byte form,
//! and the decoder rejects any wider-than-necessary form as `InvalidFormat`.

use vstd::bytes::*;
use vstd::prelude::*;

use crate::error::BitcoinError;

verus! {

/// The canonical encoding of `v`: the value itself for `0..=0xFC`, otherwise
/// the smallest of the markers `0xFD`/`0xFE`/`0xFF` followed by the value in
/// 2/4/8 little-endian bytes.
pub open spec fn spec_encode_compact_size(v: u64) -> Seq<u8> {
    if v <= 0xFC {
        seq![v as u8]
    } else if v <= 0xFFFF {
        seq![0xFDu8] + spec_u16_to_le_bytes(v as u16)
    } else if v <= 0xFFFF_FFFF {
        seq![0xFEu8] + spec_u32_to_le_bytes(v as u32)
    } else {
        seq![0xFFu8] + spec_u64_to_le_bytes(v)
    }
}

/// How many bytes a `CompactSize` beginning with `marker` occupies in all:
/// the marker itself plus its fixed-width payload.
pub open spec fn spec_compact_size_width(marker: u8) -> int {
    if marker <= 0xFC {
        1
    } else if marker == 0xFD {
        3
    } else if marker == 0xFE {
        5
    } else {
        9
    }
}

/// The lowest value that may use the form selected by `marker`; anything
/// smaller has a shorter form and is rejected as non-canonical.
pub open spec fn spec_compact_size_min_value(marker: u8) -> u64 {
    if marker <= 0xFC {
        0
    } else if marker == 0xFD {
        0xFD
    } else if marker == 0xFE {
        0x1_0000
    } else {
        0x1_0000_0000
    }
}

/// What decoding a `CompactSize` from the front of `s` yields: the value and
/// the number of bytes consumed, `InsufficientBytes` if `s` ends before the
/// marker's payload does, or `InvalidFormat` if the payload is non-canonical.
pub open spec fn spec_decode_compact_size(s: Seq<u8>) -> Result<(u64, int), BitcoinError> {
    if s.len() == 0 {
        Err(BitcoinError::InsufficientBytes)
    } else if s[0] <= 0xFC {
        Ok((s[0] as u64, 1))
    } else if s.len() < spec_compact_size_width(s[0]) {
        Err(BitcoinError::InsufficientBytes)
    } else {
        let v = if s[0] == 0xFD {
            spec_u16_from_le_bytes(s.subrange(1, 3)) as u64
        } else if s[0] == 0xFE {
            spec_u32_from_le_bytes(s.subrange(1, 5)) as u64
        } else {
            spec_u64_from_le_bytes(s.subrange(1, 9))
        };
        if v < spec_compact_size_min_value(s[0]) {
            Err(BitcoinError::InvalidFormat)
        } else {
            Ok((v, spec_compact_size_width(s[0])))
        }
    }
}

/// A variable-length unsigned 64-bit integer, encoded in Bitcoin's
/// minimal-width `CompactSize` wire form.
#[derive(Debug, Clone, Copy, PartialEq, Eq, Structural)]
pub struct CompactSize {
    pub value: u64,
}

impl CompactSize {
    pub fn new(value: u64) -> (r: Self)
        ensures
            r.value == value,
    {
        CompactSize { value }
    }

    /// Encode the value in its canonical (shortest) wire form.
    pub fn to_bytes(&self) -> (r: Vec<u8>)
        ensures
            r@ == spec_encode_compact_size(self.value),
    {
        let n = self.value;
        if n <= 0xFC {
            let mut v: Vec<u8> = Vec::new();
            v.push(n as u8);
            proof {
                assert(v@ =~= spec_encode_compact_size(self.value));
            }
            v
        } else if n <= 0xFFFF {
            let mut v: Vec<u8> = Vec::new();
            v.push(0xFD);
            let mut tail = u16_to_le_bytes(n as u16);
            v.append(&mut tail);
            proof {
                assert(v@ =~= spec_encode_compact_size(self.value));
            }
            v
        } else if n <= 0xFFFF_FFFF {
            let mut v: Vec<u8> = Vec::new();
            v.push(0xFE);
            let mut tail = u32_to_le_bytes(n as u32);
            v.append(&mut tail);
            proof {
                assert(v@ =~= spec_encode_compact_size(self.value));
            }
            v
        } else {
            let mut v: Vec<u8> = Vec::new();
            v.push(0xFF);
            let mut tail = u64_to_le_bytes(n);
            v.append(&mut tail);
            proof {
                assert(v@ =~= spec_encode_compact_size(self.value));
            }
            v
        }
    }

    /// Decode a `CompactSize` from the front of `bytes`, returning the value
    /// and the exact number of bytes consumed (1, 3, 5, or 9).
    pub fn from_bytes(bytes: &[u8]) -> (r: Result<(Self, usize), BitcoinError>)
        ensures
            match r {
                Ok((cs, n)) => spec_decode_compact_size(bytes@) == Ok::<(u64, int), BitcoinError>(
                    (cs.value, n as int),
                ) && n <= bytes@.len(),
                Err(e) => spec_decode_compact_size(bytes@) == Err::<(u64, int), BitcoinError>(e),
            },
    {
        if bytes.len() == 0 {
            return Err(BitcoinError::InsufficientBytes);
        }
        let marker = bytes[0];
        if marker <= 0xFC {
            Ok((CompactSize { value: marker as u64 }, 1))
        } else if marker == 0xFD {
            if bytes.len() < 3 {
                return Err(BitcoinError::InsufficientBytes);
            }
            let v = u16_from_le_bytes(&bytes[1..3]) as u64;
            if v < 0xFD {
                return Err(BitcoinError::InvalidFormat);
            }
            Ok((CompactSize { value: v }, 3))
        } else if marker == 0xFE {
            if bytes.len() < 5 {
                return Err(BitcoinError::InsufficientBytes);
            }
            let v = u32_from_le_bytes(&bytes[1..5]) as u64;
            if v < 0x1_0000 {
                return Err(BitcoinError::InvalidFormat);
            }
            Ok((CompactSize { value: v }, 5))
        } else {
            if bytes.len() < 9 {
                return Err(BitcoinError::InsufficientBytes);
            }
            let v = u64_from_le_bytes(&bytes[1..9]);
            if v < 0x1_0000_0000 {
                return Err(BitcoinError::InvalidFormat);
            }
            Ok((CompactSize { value: v }, 9))
        }
    }
}

/// Round trip: decoding a canonical encoding, with any bytes at all behind
/// it, yields the original value and consumes exactly the encoding's length.
pub proof fn lemma_compact_size_round_trip(v: u64, rest: Seq<u8>)
    ensures
        spec_decode_compact_size(spec_encode_compact_size(v) + rest) == Ok::<
            (u64, int),
            BitcoinError,
        >((v, spec_encode_compact_size(v).len() as int)),
{
    let e = spec_encode_compact_size(v);
    let s = e + rest;
    if v <= 0xFC {
        assert(s[0] == v as u8);
    } else if v <= 0xFFFF {
        lemma_auto_spec_u16_to_from_le_bytes();
        assert(s.subrange(1, 3) =~= spec_u16_to_le_bytes(v as u16));
        assert(spec_u16_from_le_bytes(spec_u16_to_le_bytes(v as u16)) == v as u16);
    } else if v <= 0xFFFF_FFFF {
        lemma_auto_spec_u32_to_from_le_bytes();
        assert(s.subrange(1, 5) =~= spec_u32_to_le_bytes(v as u32));
        assert(spec_u32_from_le_bytes(spec_u32_to_le_bytes(v as u32)) == v as u32);
    } else {
        lemma_auto_spec_u64_to_from_le_bytes();
        assert(s.subrange(1, 9) =~= spec_u64_to_le_bytes(v));
    }
}

/// Canonicality: whenever a decode succeeds, the bytes it consumed are
/// exactly the canonical encoding of the value it returned — no other byte
/// form is ever accepted.
pub proof fn lemma_compact_size_canonical(s: Seq<u8>)
    ensures
        spec_decode_compact_size(s) matches Ok((v, n)) ==> {
            &&& n == spec_encode_compact_size(v).len()
            &&& s.subrange(0, n) == spec_encode_compact_size(v)
        },
{
    if spec_decode_compact_size(s) is Ok {
        if s[0] <= 0xFC {
            assert(s.subrange(0, 1) =~= seq![s[0]]);
        } else if s[0] == 0xFD {
            lemma_auto_spec_u16_to_from_le_bytes();
            let payload = s.subrange(1, 3);
            assert(spec_u16_to_le_bytes(spec_u16_from_le_bytes(payload)) == payload);
            assert(s.subrange(0, 3) =~= seq![0xFDu8] + payload);
        } else if s[0] == 0xFE {
            lemma_auto_spec_u32_to_from_le_bytes();
            let payload = s.subrange(1, 5);
            assert(spec_u32_to_le_bytes(spec_u32_from_le_bytes(payload)) == payload);
            assert(s.subrange(0, 5) =~= seq![0xFEu8] + payload);
        } else {
            lemma_auto_spec_u64_to_from_le_bytes();
            let payload = s.subrange(1, 9);
            assert(spec_u64_to_le_bytes(spec_u64_from_le_bytes(payload)) == payload);
            assert(s.subrange(0, 9) =~= seq![0xFFu8] + payload);
        }
    }
}

/// Truncation: decoding any strict prefix of a canonical encoding fails with
/// `InsufficientBytes`, never succeeds and never reports `InvalidFormat`.
pub proof fn lemma_compact_size_truncation(v: u64, m: int)
    requires
        0 <= m < spec_encode_compact_size(v).len(),
    ensures
        spec_decode_compact_size(spec_encode_compact_size(v).take(m)) == Err::<
            (u64, int),
            BitcoinError,
        >(BitcoinError::InsufficientBytes),
{
    lemma_auto_spec_u16_to_from_le_bytes();
    lemma_auto_spec_u32_to_from_le_bytes();
    lemma_auto_spec_u64_to_from_le_bytes();
    let e = spec_encode_compact_size(v);
    let t = e.take(m);
    if m > 0 {
        assert(t[0] == e[0]);
    }
}

/// Non-minimal encodings are rejected: a complete input whose marker is
/// wider than the canonical encoding of the value its payload denotes fails
/// with `InvalidFormat`, never succeeds.
pub proof fn lemma_compact_size_non_minimal_rejected(v: u64, s: Seq<u8>)
    requires
        s.len() > 0,
        s[0] > 0xFC,
        s.len() >= spec_compact_size_width(s[0]),
        spec_compact_size_width(s[0]) > spec_encode_compact_size(v).len(),
        if s[0] == 0xFD {
            spec_u16_from_le_bytes(s.subrange(1, 3)) as u64 == v
        } else if s[0] == 0xFE {
            spec_u32_from_le_bytes(s.subrange(1, 5)) as u64 == v
        } else {
            spec_u64_from_le_bytes(s.subrange(1, 9)) == v
        },
    ensures
        spec_decode_compact_size(s) == Err::<(u64, int), BitcoinError>(BitcoinError::InvalidFormat),
{
    lemma_auto_spec_u16_to_from_le_bytes();
    lemma_auto_spec_u32_to_from_le_bytes();
    lemma_auto_spec_u64_to_from_le_bytes();
}

} // verus!
