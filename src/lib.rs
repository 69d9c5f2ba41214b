//! Write-path encoder of one plain-encoded data page of a nullable column of
//! fixed-width scalars: presence bitmap, value bytes, statistics, compression
//! and the page header that describes them.

pub mod bitmap;
pub mod compression;
pub mod error;
pub mod native;
pub mod page;
pub mod statistics;
pub mod values;
