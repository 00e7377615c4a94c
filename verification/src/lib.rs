//! Storage core of a git-compatible object and reference store.

pub mod art;
pub mod atomic_commit;
pub mod codec;
pub mod decimal;
pub mod delta;
pub mod digest;
pub mod disk;
pub mod disk_laws;
pub mod format_laws;
pub mod frame;
pub mod git_pack;
pub mod git_pack_file;
pub mod graph;
pub mod graph_laws;
pub mod hexcode;
pub mod idset;
pub mod keytable;
pub mod leases;
pub mod log_store;
pub mod log_wal;
pub mod object_file;
pub mod op;
pub mod pack;
pub mod pack_laws;
pub mod repack;
pub mod rpc;
pub mod slot;
pub mod sorting;
pub mod state_machine;
pub mod store;
pub mod store_laws;
pub mod tier;
pub mod types;
pub mod varint;
pub mod wal;
pub mod zlib;
