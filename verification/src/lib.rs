//! An append-only, tamper-evident ledger: transactions are packed into
//! hash-chained blocks, and the whole chain can be revalidated at any time by
//! recomputing every digest.

pub mod chain;
pub mod codec;
pub mod hashing;
pub mod text;
