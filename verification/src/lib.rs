//! Crawl the Bitcoin peer-to-peer network from a node of one's own and report which
//! implementations, versions and BIP-110 stances its peers have.
//!
//! The library holds the parts that decide and compute; connecting, storing and serving are
//! the application's.

pub mod addr;
pub mod blocks;
pub mod bytes;
pub mod crawler;
pub mod cycle;
pub mod db;
pub mod geo;
pub mod hash;
pub mod history;
pub mod json;
pub mod node;
pub mod number;
pub mod order;
pub mod p2p;
pub mod probe;
pub mod report;
pub mod rpc;
pub mod serve;
pub mod state;
pub mod stats;
pub mod strmap;
pub mod text;
pub mod time;
pub mod wordlist;
