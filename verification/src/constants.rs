//! Protocol constants.

use vstd::prelude::*;

verus! {

/// The legacy protocol version.
pub const QUACK_V1: u64 = 1;

/// The protocol version of DuckDB 2.0: query identifiers, acknowledged fetch
/// batches and heartbeats.
pub const QUACK_V3: u64 = 3;

/// The oldest version offered when a caller sets no lower bound.
pub const MIN_QUACK_VERSION: u64 = 1;

/// The newest version offered when a caller sets no upper bound.
pub const MAX_QUACK_VERSION: u64 = 3;

/// The port of a URI that names none.
pub const DEFAULT_QUACK_PORT: u16 = 9494;

/// The heartbeat timeout asked for when a caller sets none.
pub const DEFAULT_HEARTBEAT_TIMEOUT_SECS: u64 = 60;

/// The longest heartbeat timeout that may be asked for or granted.
pub const MAX_HEARTBEAT_TIMEOUT_SECS: u64 = 3600;

/// The path that requests are posted to.
pub const QUACK_ENDPOINT: &'static str = "/quack";

/// The media type of requests and responses.
pub const DUCKDB_MIME_TYPE: &'static str = "application/duckdb";

} // verus!
