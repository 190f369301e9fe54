pub mod types;
pub mod graph;
pub mod safe_db;
pub mod live_patch;
pub mod rpc;
pub mod io;
