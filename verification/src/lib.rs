//! Topolsea: verified core of a vector database engine.
//!
//! The crate holds the integer, structural and textual logic of the engine:
//! fractal cell addressing, column bookkeeping, quantization tiers, shard
//! routing, the metadata filter language, the payload inverted index and the
//! metadata store. Distance arithmetic lives outside this crate.

pub mod text;
pub mod grid;
pub mod quant;
pub mod strmap;
pub mod json;
pub mod filter;
pub mod types;
pub mod bitmap;
pub mod inverted;
pub mod store;
pub mod explain;
pub mod bench;
pub mod routing;
pub mod column;
pub mod compact;
pub mod hnsw;
pub mod observe;
pub mod ivf;
pub mod beam;
pub mod colmap;
