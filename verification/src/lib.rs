//! Temporal typed property graph with snapshot reconciliation, a journal that is
//! the database, and a learned salience over its edges.

pub mod access;
pub mod api;
pub mod args;
pub mod backend;
pub mod bytes;
pub mod cli;
pub mod codec;
pub mod compact;
pub mod companions;
pub mod crc;
pub mod credit;
pub mod distill;
pub mod durability;
pub mod entity;
pub mod erasure;
pub mod evidence;
pub mod export;
pub mod fnv;
pub mod gate;
pub mod gcp;
pub mod graph;
pub mod history;
pub mod http;
pub mod impact;
pub mod interner;
pub mod json;
pub mod lineage;
pub mod log;
pub mod lookup;
pub mod model;
pub mod moments;
pub mod names;
pub mod pages;
pub mod paths;
pub mod persist;
pub mod pieces;
pub mod prom;
pub mod query;
pub mod reach;
pub mod recall;
pub mod reconciling;
pub mod recording;
pub mod records;
pub mod registry;
pub mod retention;
pub mod rpc;
pub mod salience;
pub mod service;
pub mod snapshot;
pub mod sort;
pub mod standby;
pub mod store;
pub mod supersede;
pub mod text;
pub mod touch;
pub mod wal;
pub mod ways;
pub mod wording;
