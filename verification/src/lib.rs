//! Content-addressed file synchronisation: the part of `scup` that decides and computes.
//!
//! A repository is a map from object ids to objects. Files are cut into chunks where a rolling
//! sum of their bytes says so, the chunks of a file are gathered under lists, and a snapshot
//! binds the paths of a working tree to the files it held. Everything here works on values in
//! memory; reading disks and talking to peers is left to the program around it.

pub mod checkout;
pub mod chunk;
pub mod clock;
pub mod duplicate;
pub mod fanout;
pub mod fetch;
pub mod hex;
pub mod history;
pub mod ids;
pub mod lists;
pub mod merge;
pub mod model;
pub mod order;
pub mod paths;
pub mod protocol;
pub mod report;
pub mod rollsum;
pub mod scan;
pub mod serve;
pub mod snapshot;
pub mod sorted_map;
pub mod status;
pub mod storage;
pub mod sync;
pub mod text;
pub mod tree;
