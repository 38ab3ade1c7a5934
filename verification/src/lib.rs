//! Near-duplicate image finder: perceptual hashes, a popcount-bucketed
//! lookup of hashes, and the bookkeeping of what has been scanned.

pub mod assoc;
pub mod bits;
pub mod dupfinder;
pub mod file_walker;
pub mod hasher;
pub mod status;
pub mod status_mgr;
pub mod summary;
pub mod engine;
