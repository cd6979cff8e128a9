pub mod bencode;
pub mod bittorrent;
pub mod config;
pub mod engine;
pub mod errors;
pub mod ip;
pub mod middleware;
pub mod peer;
pub mod query;
pub mod state;
pub mod statistics;
pub mod storage;
pub mod util;
