//! Files by their content: manifests, metadata, comparing and copying trees, and two
//! indexes over them. The library decides and computes; reading and writing files,
//! databases and networks is left to the program around it.
pub mod api;
pub mod catalog;
pub mod civil;
pub mod command;
pub mod condition;
pub mod dedup;
pub mod diff;
pub mod drive;
pub mod effect;
pub mod extract;
pub mod fileops;
pub mod hash;
pub mod index;
pub mod index_store;
pub mod inventory;
pub mod manifest;
pub mod meta;
pub mod meta_pass;
pub mod metacmd;
pub mod number;
pub mod options;
pub mod order;
pub mod pathmap;
pub mod paths;
pub mod query;
pub mod rpc;
pub mod scan;
pub mod search;
pub mod serve;
pub mod sql;
pub mod statements;
pub mod store;
pub mod sync;
pub mod text;
pub mod textmap;
pub mod walk;
pub mod watch;
pub mod watcher;
