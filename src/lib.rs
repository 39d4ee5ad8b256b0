//! Restricts block-compressed variant files to a set of genomic regions while
//! checking the MD5 digest of what was downloaded: the region scan, the line
//! filter, the digest and the planning of one job per chromosome.

pub mod checksum;
pub mod filter;
pub mod interval;
pub mod jobs;
pub mod record;
