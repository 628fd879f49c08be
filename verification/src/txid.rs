//! A fixed 32-byte transaction identifier, with a lowercase hexadecimal
//! textual form (exactly 64 characters) for interchange. The binary wire
//! form is the raw 32 bytes; containing structures know the size by position.

use vstd::prelude::*;

use crate::error::BitcoinError;

verus! {

/// The lowercase hexadecimal digit for a nibble.
pub open spec fn spec_hex_digit(n: u8) -> char
    recommends
        n < 16,
{
    if n < 10 {
        ((n + 0x30) as char)
    } else {
        ((n + 0x57) as char)
    }
}

/// The lowercase hexadecimal rendering of a byte sequence: two digits per
/// byte, high nibble first.
pub open spec fn spec_hex_encode(b: Seq<u8>) -> Seq<char>
    decreases b.len(),
{
    if b.len() == 0 {
        Seq::empty()
    } else {
        seq![spec_hex_digit(b[0] / 16), spec_hex_digit(b[0] % 16)] + spec_hex_encode(
            b.drop_first(),
        )
    }
}

/// Whether `c` is a hexadecimal digit, in either case.
pub open spec fn spec_is_hex_digit(c: char) -> bool {
    ('0' <= c && c <= '9') || ('a' <= c && c <= 'f') || ('A' <= c && c <= 'F')
}

/// The value of a hexadecimal digit, in either case.
pub open spec fn spec_hex_digit_value(c: char) -> u8
    recommends
        spec_is_hex_digit(c),
{
    if '0' <= c && c <= '9' {
        ((c as int) - 0x30) as u8
    } else if 'a' <= c && c <= 'f' {
        ((c as int) - 0x61 + 10) as u8
    } else {
        ((c as int) - 0x41 + 10) as u8
    }
}

/// The bytes denoted by a sequence of hexadecimal digits, one byte per
/// digit pair, high nibble first.
pub open spec fn spec_hex_decode(s: Seq<char>) -> Seq<u8>
    recommends
        s.len() % 2 == 0,
    decreases s.len(),
{
    if s.len() < 2 {
        Seq::empty()
    } else {
        seq![(16 * spec_hex_digit_value(s[0]) + spec_hex_digit_value(s[1])) as u8]
            + spec_hex_decode(s.skip(2))
    }
}

/// Relies on hex::encode: it renders each input byte as two lowercase
/// hexadecimal digits, high nibble first, in input order.
#[verifier::external_body]
fn hex_encode(b: &[u8]) -> (r: String)
    ensures
        r@ == spec_hex_encode(b@),
{
    hex::encode(b)
}

/// Relies on hex::decode: it succeeds on exactly the even-length strings of
/// hexadecimal digits (either case), yielding one byte per digit pair, high
/// nibble first; on any other string it reports an error.
#[verifier::external_body]
fn hex_decode(s: &str) -> (r: Option<Vec<u8>>)
    ensures
        r is Some <==> (s@.len() % 2 == 0 && (forall|i: int|
            0 <= i < s@.len() ==> spec_is_hex_digit(s@[i]))),
        r matches Some(v) ==> v@ == spec_hex_decode(s@),
{
    hex::decode(s).ok()
}

/// An opaque 32-byte transaction identifier.
#[derive(Debug, Clone, PartialEq, Eq)]
pub struct Txid(pub [u8; 32]);

impl View for Txid {
    type V = Seq<u8>;

    open spec fn view(&self) -> Seq<u8> {
        self.0@
    }
}

/// How many bytes a sequence of hexadecimal digits denotes.
pub proof fn lemma_hex_decode_len(s: Seq<char>)
    ensures
        spec_hex_decode(s).len() == s.len() / 2,
    decreases s.len(),
{
    if s.len() >= 2 {
        lemma_hex_decode_len(s.skip(2));
    }
}

/// Each lowercase digit is a hexadecimal digit and denotes the nibble it was
/// made from.
proof fn lemma_hex_digit_props(n: u8)
    requires
        n < 16,
    ensures
        spec_is_hex_digit(spec_hex_digit(n)),
        spec_hex_digit_value(spec_hex_digit(n)) == n,
{
}

/// Hex round trip: the rendering of any byte sequence has twice its length,
/// consists of hexadecimal digits only, and denotes the original bytes.
pub proof fn lemma_hex_round_trip(b: Seq<u8>)
    ensures
        spec_hex_encode(b).len() == 2 * b.len(),
        forall|i: int| 0 <= i < 2 * b.len() ==> spec_is_hex_digit(#[trigger] spec_hex_encode(b)[i]),
        spec_hex_decode(spec_hex_encode(b)) == b,
    decreases b.len(),
{
    if b.len() == 0 {
        assert(spec_hex_decode(spec_hex_encode(b)) =~= b);
    } else {
        let tail = b.drop_first();
        lemma_hex_round_trip(tail);
        lemma_hex_digit_props(b[0] / 16);
        lemma_hex_digit_props(b[0] % 16);
        let h = spec_hex_encode(b);
        assert forall|i: int| 0 <= i < 2 * b.len() implies spec_is_hex_digit(
            #[trigger] spec_hex_encode(b)[i],
        ) by {
            if i >= 2 {
                assert(h[i] == spec_hex_encode(tail)[i - 2]);
            }
        }
        assert(h.skip(2) =~= spec_hex_encode(tail));
        assert(16 * (b[0] / 16) + b[0] % 16 == b[0]);
        assert(spec_hex_decode(h) =~= b);
    }
}

impl Txid {
    /// Render the identifier as exactly 64 lowercase hexadecimal characters.
    pub fn to_hex(&self) -> (r: String)
        ensures
            r@ == spec_hex_encode(self@),
            r@.len() == 64,
    {
        proof {
            lemma_hex_round_trip(self@);
        }
        hex_encode(self.0.as_slice())
    }

    /// Parse an identifier from its textual form. Succeeds exactly on
    /// 64-character strings of hexadecimal digits; anything else — wrong
    /// length or a non-hex character — is `InvalidFormat`.
    pub fn from_hex(s: &str) -> (r: Result<Self, BitcoinError>)
        ensures
            r is Ok <==> (s@.len() == 64 && (forall|i: int|
                0 <= i < s@.len() ==> spec_is_hex_digit(s@[i]))),
            r matches Ok(t) ==> t@ == spec_hex_decode(s@),
            r is Err ==> r == Err::<Txid, BitcoinError>(BitcoinError::InvalidFormat),
    {
        let decoded = match hex_decode(s) {
            Some(v) => v,
            None => {
                return Err(BitcoinError::InvalidFormat);
            },
        };
        proof {
            lemma_hex_decode_len(s@);
        }
        if decoded.len() != 32 {
            return Err(BitcoinError::InvalidFormat);
        }
        let mut arr: [u8; 32] = [0u8; 32];
        let mut i: usize = 0;
        while i < 32
            invariant
                0 <= i <= 32,
                decoded@.len() == 32,
                forall|j: int| 0 <= j < i ==> arr@[j] == decoded@[j],
            decreases 32 - i,
        {
            arr[i] = decoded[i];
            i += 1;
        }
        proof {
            assert(arr@ =~= decoded@);
        }
        Ok(Txid(arr))
    }
}

} // verus!
