//! Core logic of a small block-swarm file-sharing system: wire codecs,
//! the partial-file layout, the tracker catalogue and the download scheduler.

pub mod bitmap;
pub mod bytes;
pub mod file_meta;
pub mod fsnp;
pub mod fstp;
pub mod leech;
pub mod node;
pub mod partial_file;
pub mod peers;
pub mod peers_with_blocks;
pub mod seed;
pub mod shared;
pub mod tracker;
