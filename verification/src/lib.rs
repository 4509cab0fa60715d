//! Account-storage and ledger-ingestion core of a service that keeps a local,
//! queryable mirror of a remote ledger.
//!
//! The crate has two verified subsystems:
//!
//! * an online storage-migration engine ([`proxy::AccountsDbAsProxy`]) that
//!   moves account records between interchangeable ordered key-value backends
//!   while reads and writes keep flowing, with no observable inconsistency at
//!   any point of the transition; and
//! * the pure decision core of an incremental ledger synchronization pipeline
//!   ([`ledger_sync`]): archive routing, batch-size bounding, substitution of
//!   placeholder blocks for blocks that failed to decode, and the single-flight
//!   sync window planning.
//!
//! All I/O — the calls to the remote ledger and archive canisters, and the
//! decoding of raw block bytes — happens outside this crate; the functions here
//! take and return plain values and carry full functional contracts.

pub mod account;
pub mod keys;
pub mod kv;
pub mod ledger_sync;
pub mod map_store;
pub mod proxy;
