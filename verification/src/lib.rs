//! A KV cache tier for LLM inference engines.
//!
//! Blocks of KV are named by their whole token history, kept in a slab of
//! memory, pushed to disk under pressure, and served over a framed protocol.
//! Everything here is decision and bookkeeping: sockets, files and floating
//! point belong to the program around the library.

pub mod block;
pub mod bytes;
pub mod client;
pub mod demo;
pub mod evict;
pub mod heap;
pub mod index;
pub mod ledger;
pub mod message;
pub mod naming;
pub mod pool;
pub mod proto;
pub mod server;
pub mod slab;
pub mod store;
pub mod text;
pub mod tier;
pub mod trace;
pub mod wire;

pub use block::{BlockHash, BlockLayout, DType, PrefixHasher, TokenId};
pub use index::{Entry, Index, IndexError};
pub use slab::{Slab, SlotId};
pub use store::{Admit, AdmitReport, KvStore, Lookup, Stats};
pub use trace::{Request, WorkloadConfig};
