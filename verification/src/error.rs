//! The two error kinds shared by every decoder in the codec.

use vstd::prelude::*;

verus! {

/// Why a decode (or a textual parse) was rejected.
///
/// `InsufficientBytes` means the input ended before the current field was
/// complete; supplying more data can make the same decode succeed.
/// `InvalidFormat` means the bytes (or characters) present violate a
/// structural rule: a non-canonical `CompactSize` encoding, or a malformed
/// hexadecimal identifier. The two are never coerced into one another.
#[derive(Debug, Clone, Copy, PartialEq, Eq, Structural)]
pub enum BitcoinError {
    InsufficientBytes,
    InvalidFormat,
}

} // verus!

