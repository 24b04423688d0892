//! A binary delta engine for the BSDIFF40 patch format: a suffix-sorted
//! index over the old bytes, a match search that walks the new bytes, a patch
//! encoder with three compressed streams, and a patch applier.
pub mod codec;
pub mod index;
pub mod compress;
pub mod patch;
pub mod matching;
pub mod diff;
pub mod cache;
pub mod paired;

pub use codec::Header;
