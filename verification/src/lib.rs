//! A BitTorrent DHT node (BEP-5) with a crawler mode and a metadata downloader (BEP-9/10).

pub mod text;
pub mod keyed;
pub mod bencode;
pub mod codec;
pub mod hexcode;
pub mod types;
pub mod util;
pub mod peers;
pub mod transaction;
pub mod timed;
pub mod blacklist;
pub mod token;
pub mod routing;
pub mod krpc;
pub mod command;
pub mod protocol;
pub mod dht;
pub mod laws;
pub mod service;
pub mod replies;
pub mod upkeep;
pub mod wire;
pub mod download;
pub mod metadata;
pub mod storage;
pub mod web;
pub mod logger;

pub use crate::dht::{Config, Dht};
pub use crate::types::Mode;
