//! Client-side logic for DuckDB's Quack remote protocol.

pub mod binary;
pub mod builders;
pub mod calendar;
pub mod chunk;
pub mod client;
pub mod codec;
pub mod columns;
pub mod conform;
pub mod constants;
pub mod counting;
pub mod decimals;
pub mod errors;
pub mod fetch;
pub mod fields;
pub mod framing;
pub mod handshake;
pub mod heartbeat;
pub mod lease;
pub mod literals;
pub mod messages;
pub mod payload;
pub mod placeholders;
pub mod pool;
pub mod retirement;
pub mod roundtrip;
pub mod rows;
pub mod session;
pub mod sql;
pub mod statements;
pub mod storage;
pub mod text;
pub mod time;
pub mod transport;
pub mod typecodec;
pub mod types;
pub mod uri;
pub mod validity;
pub mod value;
pub mod vector;
