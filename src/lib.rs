// Finding duplicate files: a breadth-first walk that yields regular files,
// consolidation of hard links into one record per (device, inode) pair,
// bucketing by exact size, and clustering of each bucket by direct
// byte-for-byte comparison. The walk and the clustering are state machines:
// the caller lists directories and compares files, and hands the results
// back.
pub mod buckets;
pub mod consolidate;
pub mod content;
pub mod html;
pub mod record;
pub mod size_spec;
pub mod walker;
