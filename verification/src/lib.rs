//! A binary codec for a minimal subset of the Bitcoin transaction wire
//! format: variable-length size prefixes (`CompactSize`), transaction
//! identifiers, outpoints, scripts, transaction inputs, and a transaction
//! envelope (version, inputs, lock time).
//!
//! Every encoder states the exact byte sequence it produces, and every
//! decoder states exactly which inputs it accepts, what it returns, and
//! which error it reports otherwise. Round-trip, canonicality, and
//! truncation laws are proved alongside the codec.

pub mod compact_size;
pub mod error;
pub mod outpoint;
pub mod script;
pub mod transaction;
pub mod tx_input;
pub mod txid;

pub use compact_size::CompactSize;
pub use error::BitcoinError;
pub use outpoint::OutPoint;
pub use script::Script;
pub use transaction::BitcoinTransaction;
pub use tx_input::TransactionInput;
pub use txid::Txid;
