//! Chain-indexing engine: attribution of value between the addresses of a
//! transaction, a cache of unspent outputs, the steps of a block walk and the
//! choice of an RPC endpoint.

pub mod attribution;
pub mod chain;
pub mod endpoint;
pub mod handlers;
pub mod models;
pub mod server;
pub mod utxo_cache;
pub mod walker;
