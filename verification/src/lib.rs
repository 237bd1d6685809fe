//! Settlement engine of a Bitcoin-backed token minter: coin selection,
//! transaction construction with fee and change accounting, the request
//! queues, and the bookkeeping of submitted and finalized transactions.

pub mod shares;
pub mod bigint;
pub mod utxo;
pub mod coins;
pub mod wire;
pub mod hashes;
pub mod signature;
pub mod address;
pub mod tx;
pub mod signing;
pub mod builder;
pub mod estimates;
pub mod state;
pub mod settlement;
pub mod events;
pub mod metrics;
