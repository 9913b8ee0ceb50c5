//! A tamper-evident, append-only ledger of records.
//!
//! Records are batched into blocks. A block is accepted once a nonce is found
//! that makes the hexadecimal SHA-256 digest of its fields start with as many
//! `'0'` characters as the ledger's difficulty asks for. The chain is checked
//! by deriving every digest again and following the hash links.
//!
//! [`Blockchain`] is the ledger, [`Block`] a block and [`NFTTransaction`] a
//! record. Their contracts are stated over the models `LedgerModel`,
//! `BlockModel` and `TransactionModel`, which the view `@` of each type
//! gives. What holds of every ledger is proved in [`laws`]; the bytes that a
//! ledger is stored in are described in [`storage`], the chunks they are made
//! of in [`codec`].

pub mod block;
pub mod blockchain;
pub mod clock;
pub mod codec;
pub mod digest;
pub mod laws;
pub mod storage;
pub mod text;
pub mod transaction;

pub use block::Block;
pub use blockchain::Blockchain;
pub use digest::hex_digest;
pub use storage::FormatError;
pub use text::{decimal, to_hex};
pub use transaction::NFTTransaction;
